//! The BM25 relevance filter: derives a query from the page when none
//! is given, splits the body into text chunks, ranks every chunk
//! against the query with the BM25 formula, re-weights by tag
//! priority, and keeps the chunks whose adjusted score reaches the
//! threshold — in their original document order, whatever the scores.
//!
//! Scores are micro-unit fixed point. Term-frequency, document-length
//! and document-count inputs saturate at 2^32 - 1 and the inverse
//! document frequency at 100 million micro-units, far beyond any real
//! document. Scores are floor-truncated: a chunk holding a query term
//! always scores over real numbers, but for corpora near those caps a
//! tiny inverse document frequency or contribution can truncate to
//! zero micro-units.

use vstd::prelude::*;
use vstd::string::StringSliceAdditionalSpecFns;
use crate::dom::{Dom, GDom};
use crate::parse::{parse_dom_of, parse_document};
use crate::ser::esc_text;
use crate::tree::{text_of, elems_of, first_elem, attr_of, find_elem, collect_elems, node_text, get_attr};
use crate::strutil::{
    trim_of,
    trim,
    char_count,
    char_count_exec,
    take_chars,
    take_chars_exec,
    join_with,
    join_bytes,
    seqs_of,
    raw_tokens_of,
    tokens_step,
    lower_of,
    to_lower,
    is_token_byte_exec,
    is_lit,
    bytes_eq,
    append_bytes,
};
use crate::fixedpoint::{ln_micro_spec, ln_micro, sat_add_spec, sat_add};
use crate::chunks::{GChunk, TextChunk, text_chunks_of, extract_chunks, indexed_chunks_of};
use crate::text_to_string::{bytes_to_string, lossy_of};

verus! {

/// The Snowball English stem of a word: a function of its bytes alone.
pub uninterp spec fn stem_of(t: Seq<u8>) -> Seq<u8>;

/// Relies on rust_stemmers (Snowball, English): the stem depends only
/// on the word itself.
#[verifier::external_body]
fn stem_bytes(t: &[u8]) -> (r: Vec<u8>)
    ensures
        r@ == stem_of(t@),
{
    let s = String::from_utf8_lossy(t);
    let stemmer = rust_stemmers::Stemmer::create(rust_stemmers::Algorithm::English);
    stemmer.stem(&s).as_bytes().to_vec()
}

/// The search tokens of a byte string, stemmed when asked.
pub open spec fn tokens_of(s: Seq<u8>, stem: bool) -> Seq<Seq<u8>> {
    if stem {
        raw_tokens_of(s).map_values(|t: Seq<u8>| stem_of(t))
    } else {
        raw_tokens_of(s)
    }
}

/// Lowercases, splits at non-token bytes, and stems when asked.
pub fn tokenize(s: &[u8], stem: bool) -> (r: Vec<Vec<u8>>)
    ensures
        seqs_of(r) == tokens_of(s@, stem),
{
    let low = to_lower(s);
    let mut acc: Vec<Vec<u8>> = Vec::new();
    let mut cur: Vec<u8> = Vec::new();
    proof {
        assert(seqs_of(acc) =~= Seq::<Seq<u8>>::empty());
    }
    let mut i: usize = 0;
    while i < low.len()
        invariant
            i <= low.len(),
            low@ == lower_of(s@),
            raw_tokens_of(s@) == tokens_step(low@, i as int, cur@, seqs_of(acc)),
        decreases low.len() - i,
    {
        let b = low[i];
        if is_token_byte_exec(b) {
            cur.push(b);
        } else {
            if cur.len() > 0 {
                let ghost old_acc = seqs_of(acc);
                let done = cur;
                let ghost done_view = done@;
                acc.push(done);
                cur = Vec::new();
                proof {
                    assert(seqs_of(acc) =~= old_acc.push(done_view));
                }
            }
        }
        i = i + 1;
    }
    if cur.len() > 0 {
        let ghost old_acc = seqs_of(acc);
        let done = cur;
        let ghost done_view = done@;
        acc.push(done);
        proof {
            assert(seqs_of(acc) =~= old_acc.push(done_view));
        }
    }
    if !stem {
        return acc;
    }
    let mut stemmed: Vec<Vec<u8>> = Vec::new();
    let mut j: usize = 0;
    while j < acc.len()
        invariant
            j <= acc.len(),
            seqs_of(acc) == raw_tokens_of(s@),
            stemmed@.len() == j,
            forall|k: int| 0 <= k < j ==> stemmed@[k]@ == stem_of(raw_tokens_of(s@)[k]),
        decreases acc.len() - j,
    {
        let w = stem_bytes(acc[j].as_slice());
        stemmed.push(w);
        j = j + 1;
    }
    proof {
        assert(seqs_of(stemmed) =~= raw_tokens_of(s@).map_values(|t: Seq<u8>| stem_of(t)));
    }
    stemmed
}

/// Saturation of counts at 2^32 - 1.
pub open spec fn cap32(x: int) -> int {
    if x > 0xffff_ffff {
        0xffff_ffff
    } else {
        x
    }
}

/// The number of occurrences of `term` among the first `n` tokens.
pub open spec fn tf_upto(doc: Seq<Seq<u8>>, term: Seq<u8>, n: int) -> int
    decreases n,
{
    if n <= 0 {
        0
    } else {
        tf_upto(doc, term, n - 1) + if doc[n - 1] == term {
            1int
        } else {
            0int
        }
    }
}

pub open spec fn tf_of(doc: Seq<Seq<u8>>, term: Seq<u8>) -> int {
    tf_upto(doc, term, doc.len() as int)
}

/// The number of documents among the first `n` that contain `term`.
pub open spec fn df_upto(corpus: Seq<Seq<Seq<u8>>>, term: Seq<u8>, n: int) -> int
    decreases n,
{
    if n <= 0 {
        0
    } else {
        df_upto(corpus, term, n - 1) + if tf_of(corpus[n - 1], term) > 0 {
            1int
        } else {
            0int
        }
    }
}

pub open spec fn df_of(corpus: Seq<Seq<Seq<u8>>>, term: Seq<u8>) -> int {
    df_upto(corpus, term, corpus.len() as int)
}

/// The summed token count of the first `n` documents.
pub open spec fn total_upto(corpus: Seq<Seq<Seq<u8>>>, n: int) -> int
    decreases n,
{
    if n <= 0 {
        0
    } else {
        total_upto(corpus, n - 1) + corpus[n - 1].len()
    }
}

pub open spec fn total_of(corpus: Seq<Seq<Seq<u8>>>) -> int {
    total_upto(corpus, corpus.len() as int)
}

/// The inverse document frequency of a term in micro units:
/// `ln((N - df + 0.5) / (df + 0.5) + 1)`, which is
/// `ln(2N + 2) - ln(2 df + 1)`; clamped to `[0, 100_000_000]`.
pub open spec fn idf_micro_spec(n_docs: int, df: int) -> int {
    let nd = cap32(n_docs);
    let dfc = cap32(df);
    let raw = ln_micro_spec(2 * nd + 2) - ln_micro_spec(2 * dfc + 1);
    if raw < 0 {
        0
    } else if raw > 100_000_000 {
        100_000_000
    } else {
        raw
    }
}

pub fn idf_micro(n_docs: u64, df: u64) -> (r: u64)
    ensures
        r == idf_micro_spec(n_docs as int, df as int),
{
    let nd: u64 = if n_docs > 0xffff_ffff {
        0xffff_ffff
    } else {
        n_docs
    };
    let dfc: u64 = if df > 0xffff_ffff {
        0xffff_ffff
    } else {
        df
    };
    let a = ln_micro(2 * nd + 2);
    let b = ln_micro(2 * dfc + 1);
    if a <= b {
        0
    } else {
        let raw = a - b;
        if raw > 100_000_000 {
            100_000_000
        } else {
            raw
        }
    }
}

/// One term's BM25 contribution to one chunk, in micro units, with
/// `k1 = 1.5` and `b = 0.75`:
/// `idf * tf * (k1 + 1) / (tf + k1 * (1 - b + b * dl / avgdl))`,
/// written over integers as
/// `idf * 20 tf total / (8 tf total + 3 total + 9 dl N)`.
pub open spec fn contribution_micro(tf0: int, dl0: int, total0: int, n_docs0: int, idf: int) -> int {
    let tf = cap32(tf0);
    let dl = cap32(dl0);
    let total = cap32(total0);
    let nd = cap32(n_docs0);
    if tf <= 0 || total <= 0 {
        0
    } else {
        let den = 8 * tf * total + 3 * total + 9 * dl * nd;
        let frac = 20 * tf * total * 1_000_000 / den;
        idf * frac / 1_000_000
    }
}

pub fn contribution(tf: u64, dl: u64, total: u128, n_docs: u64, idf: u64) -> (r: u64)
    requires
        idf <= 100_000_000,
    ensures
        r == contribution_micro(tf as int, dl as int, total as int, n_docs as int, idf as int),
{
    let tf32: u64 = if tf > 0xffff_ffff {
        0xffff_ffff
    } else {
        tf
    };
    let dl32: u64 = if dl > 0xffff_ffff {
        0xffff_ffff
    } else {
        dl
    };
    let tot32: u64 = if total > 0xffff_ffff {
        0xffff_ffff
    } else {
        total as u64
    };
    let nd32: u64 = if n_docs > 0xffff_ffff {
        0xffff_ffff
    } else {
        n_docs
    };
    if tf32 == 0 || tot32 == 0 {
        return 0;
    }
    proof {
        assert(8 * (tf32 as int) * (tot32 as int) <= 8 * 0xffff_ffff * 0xffff_ffff)
            by (nonlinear_arith)
            requires
                tf32 <= 0xffff_ffff,
                tot32 <= 0xffff_ffff,
        ;
        assert(9 * (dl32 as int) * (nd32 as int) <= 9 * 0xffff_ffff * 0xffff_ffff)
            by (nonlinear_arith)
            requires
                dl32 <= 0xffff_ffff,
                nd32 <= 0xffff_ffff,
        ;
        assert(20 * (tf32 as int) * (tot32 as int) * 1_000_000 <= 20 * 0xffff_ffff * 0xffff_ffff
            * 1_000_000) by (nonlinear_arith)
            requires
                tf32 <= 0xffff_ffff,
                tot32 <= 0xffff_ffff,
        ;
    }
    let den: u128 = 8 * (tf32 as u128) * (tot32 as u128) + 3 * (tot32 as u128) + 9 * (dl32
        as u128) * (nd32 as u128);
    let num: u128 = 20 * (tf32 as u128) * (tot32 as u128) * 1_000_000;
    let frac: u128 = num / den;
    proof {
        assert(num <= den * 2_500_000) by (nonlinear_arith)
            requires
                num == 20 * (tf32 as int) * (tot32 as int) * 1_000_000,
                den >= 8 * (tf32 as int) * (tot32 as int),
                tf32 >= 1,
                tot32 >= 1,
                (tf32 as int) * (tot32 as int) >= 0,
        ;
        vstd::arithmetic::div_mod::lemma_multiply_divide_le(
            num as int,
            den as int,
            2_500_000,
        );
        assert((idf as int) * (frac as int) <= 100_000_000 * 2_500_000) by (nonlinear_arith)
            requires
                idf <= 100_000_000,
                0 <= frac <= 2_500_000,
        ;
    }
    let c: u128 = (idf as u128) * frac / 1_000_000;
    c as u64
}

/// The BM25 score of chunk `k` over the first `n` query terms, summed
/// with saturation.
pub open spec fn score_upto(
    corpus: Seq<Seq<Seq<u8>>>,
    query: Seq<Seq<u8>>,
    k: int,
    n: int,
) -> u64
    decreases n,
{
    if n <= 0 {
        0
    } else {
        let term = query[n - 1];
        let c = contribution_micro(
            tf_of(corpus[k], term),
            corpus[k].len() as int,
            total_of(corpus),
            corpus.len() as int,
            idf_micro_spec(corpus.len() as int, df_of(corpus, term)),
        );
        sat_add_spec(score_upto(corpus, query, k, n - 1), c as u64)
    }
}

/// The BM25 score of chunk `k` against the whole query.
pub open spec fn bm25_score(corpus: Seq<Seq<Seq<u8>>>, query: Seq<Seq<u8>>, k: int) -> u64 {
    score_upto(corpus, query, k, query.len() as int)
}

/// The re-ranking weight of a chunk's tag, in tenths.
pub open spec fn priority_weight_tenths(t: Seq<u8>) -> u64 {
    if t == "h1".spec_bytes() {
        50
    } else if t == "h2".spec_bytes() {
        40
    } else if t == "h3".spec_bytes() {
        30
    } else if t == "title".spec_bytes() {
        40
    } else if t == "strong".spec_bytes() {
        20
    } else if t == "b".spec_bytes() {
        15
    } else if t == "em".spec_bytes() {
        15
    } else if t == "blockquote".spec_bytes() {
        20
    } else if t == "code".spec_bytes() {
        20
    } else if t == "pre".spec_bytes() {
        15
    } else if t == "th".spec_bytes() {
        15
    } else {
        10
    }
}

pub fn priority_weight_tenths_exec(t: &[u8]) -> (r: u64)
    ensures
        r == priority_weight_tenths(t@),
{
    if is_lit(t, "h1") {
        50
    } else if is_lit(t, "h2") {
        40
    } else if is_lit(t, "h3") {
        30
    } else if is_lit(t, "title") {
        40
    } else if is_lit(t, "strong") {
        20
    } else if is_lit(t, "b") {
        15
    } else if is_lit(t, "em") {
        15
    } else if is_lit(t, "blockquote") {
        20
    } else if is_lit(t, "code") {
        20
    } else if is_lit(t, "pre") {
        15
    } else if is_lit(t, "th") {
        15
    } else {
        10
    }
}

/// A score multiplied by a tag weight in tenths, saturating.
pub open spec fn adjusted_spec(score: u64, w: u64) -> u64 {
    let p = score * w / 10;
    if p > u64::MAX {
        u64::MAX
    } else {
        p as u64
    }
}

pub fn adjusted(score: u64, w: u64) -> (r: u64)
    requires
        w <= 50,
    ensures
        r == adjusted_spec(score, w),
{
    proof {
        assert((score as int) * (w as int) <= 0xffff_ffff_ffff_ffff * 50) by (nonlinear_arith)
            requires
                score <= 0xffff_ffff_ffff_ffff,
                w <= 50,
        ;
    }
    let p: u128 = (score as u128) * (w as u128) / 10;
    if p > 0xffff_ffff_ffff_ffffu128 {
        u64::MAX
    } else {
        p as u64
    }
}

/// The parts contributed by `meta` elements: the `content` attribute
/// of every `meta` whose `name` is `description` or `keywords`.
pub open spec fn meta_parts_upto(metas: Seq<GDom>, n: int) -> Seq<Seq<u8>>
    decreases n,
{
    if n <= 0 {
        Seq::empty()
    } else {
        let rest = meta_parts_upto(metas, n - 1);
        let m = metas[n - 1];
        let name = attr_of(m, "name".spec_bytes());
        let content = attr_of(m, "content".spec_bytes());
        if (name == Option::Some("description".spec_bytes()) || name == Option::Some(
            "keywords".spec_bytes(),
        )) && content is Some {
            rest.push(content->Some_0)
        } else {
            rest
        }
    }
}

/// Query parts taken from the page head: the first `title`, the first
/// `h1`, and the qualifying `meta` elements.
pub open spec fn query_parts(doc: GDom) -> Seq<Seq<u8>> {
    let tpart = match first_elem(doc, "title".spec_bytes()) {
        Option::Some(t) => seq![text_of(t)],
        Option::None => Seq::empty(),
    };
    let hpart = match first_elem(doc, "h1".spec_bytes()) {
        Option::Some(h) => seq![text_of(h)],
        Option::None => Seq::empty(),
    };
    let metas = elems_of(doc, "meta".spec_bytes());
    tpart + hpart + meta_parts_upto(metas, metas.len() as int)
}

/// The first paragraph among `ps` whose trimmed text exceeds 150
/// characters, cut to its first 150 characters.
pub open spec fn first_long_p_from(ps: Seq<GDom>, i: int) -> Option<Seq<u8>>
    decreases ps.len() - i,
{
    if i >= ps.len() {
        Option::None
    } else if char_count(trim_of(text_of(ps[i]))) > 150 {
        Option::Some(take_chars(trim_of(text_of(ps[i])), 150))
    } else {
        first_long_p_from(ps, i + 1)
    }
}

/// The query derived from the page when none is given: title, first
/// h1 and meta description/keywords joined by spaces; if none of those
/// exist, the first long paragraph of the body, cut to 150 bytes.
pub open spec fn page_query(doc: GDom, body: GDom) -> Seq<u8> {
    let parts = query_parts(doc);
    let parts2 = if parts.len() == 0 {
        match first_long_p_from(elems_of(body, "p".spec_bytes()), 0) {
            Option::Some(t) => seq![t],
            Option::None => Seq::empty(),
        }
    } else {
        parts
    };
    join_with(parts2, " ".spec_bytes())
}

/// The traversal root: the first `body` element, or the whole document
/// when there is none.
pub open spec fn body_of(g: GDom) -> GDom {
    match first_elem(g, "body".spec_bytes()) {
        Option::Some(b) => b,
        Option::None => g,
    }
}

/// The token lists of the first `n` chunks.
pub open spec fn corpus_tokens(chunks: Seq<(int, GChunk)>, stem: bool, n: int) -> Seq<
    Seq<Seq<u8>>,
>
    decreases n,
{
    if n <= 0 {
        Seq::empty()
    } else {
        corpus_tokens(chunks, stem, n - 1).push(tokens_of(chunks[n - 1].1.text, stem))
    }
}

/// A kept chunk in the output: its text, escaped, wrapped in the tag
/// of the element that flushed it. Only the chunk's own buffered text
/// is written, so nested block text is never emitted twice; by the
/// same rule the element's attributes and any inline markup inside it
/// are not reproduced — the chunk carries plain text.
pub open spec fn wrap_chunk(c: GChunk) -> Seq<u8> {
    seq![60u8] + c.tag + seq![62u8] + esc_text(c.text) + "</".spec_bytes() + c.tag + seq![62u8]
}

/// The adjusted score of chunk `k`: its BM25 score times its tag's
/// priority weight.
pub open spec fn adjusted_score(
    chunks: Seq<(int, GChunk)>,
    corpus: Seq<Seq<Seq<u8>>>,
    qt: Seq<Seq<u8>>,
    k: int,
) -> u64 {
    adjusted_spec(bm25_score(corpus, qt, k), priority_weight_tenths(chunks[k].1.tag))
}

/// The concatenated output over the first `n` chunks: exactly those
/// whose adjusted score reaches the threshold, in chunk order.
pub open spec fn kept_concat(
    chunks: Seq<(int, GChunk)>,
    corpus: Seq<Seq<Seq<u8>>>,
    qt: Seq<Seq<u8>>,
    threshold: u64,
    n: int,
) -> Seq<u8>
    decreases n,
{
    if n <= 0 {
        Seq::empty()
    } else {
        kept_concat(chunks, corpus, qt, threshold, n - 1) + if adjusted_score(
            chunks,
            corpus,
            qt,
            n - 1,
        ) >= threshold {
            wrap_chunk(chunks[n - 1].1)
        } else {
            Seq::empty()
        }
    }
}

/// The fragment the relevance filter produces for a parsed document.
pub open spec fn bm25_output(
    g: GDom,
    user_query: Option<Seq<u8>>,
    threshold: u64,
    stem: bool,
    min_words: Option<usize>,
) -> Seq<u8> {
    let body = body_of(g);
    let query = match user_query {
        Option::Some(q) => q,
        Option::None => page_query(g, body),
    };
    if query.len() == 0 {
        Seq::empty()
    } else {
        let chunks = text_chunks_of(body, min_words);
        if chunks.len() == 0 {
            Seq::empty()
        } else {
            let qt = tokens_of(query, stem);
            let corpus = corpus_tokens(chunks, stem, chunks.len() as int);
            kept_concat(chunks, corpus, qt, threshold, chunks.len() as int)
        }
    }
}

/// The view of the stored query.
pub open spec fn query_view(q: Option<Vec<u8>>) -> Option<Seq<u8>> {
    match q {
        Option::Some(v) => Option::Some(v@),
        Option::None => Option::None,
    }
}

/// The BM25 relevance filter's configuration: an optional explicit
/// query (bytes), the score threshold in micro units, the language
/// (only English stemming is available), whether to stem, and an
/// optional minimum word count per chunk.
pub struct BM25ContentFilter {
    pub user_query: Option<Vec<u8>>,
    pub bm25_threshold: u64,
    pub language: String,
    pub use_stemming: bool,
    pub min_word_threshold: Option<usize>,
}

impl Default for BM25ContentFilter {
    /// No explicit query, a threshold of one unit, English, stemming
    /// on, no word filter.
    fn default() -> (r: Self)
        ensures
            r.user_query is None,
            r.bm25_threshold == 1_000_000,
            r.language@ == "english"@,
            r.use_stemming == true,
            r.min_word_threshold is None,
    {
        BM25ContentFilter {
            user_query: Option::None,
            bm25_threshold: 1_000_000,
            language: "english".to_owned(),
            use_stemming: true,
            min_word_threshold: Option::None,
        }
    }
}

impl BM25ContentFilter {
    /// Builds a filter with an explicit query; the threshold is in
    /// micro units (1.0 is written 1_000_000).
    pub fn new(user_query: Option<Vec<u8>>, bm25_threshold: u64) -> (r: Self)
        ensures
            query_view(r.user_query) == query_view(user_query),
            r.bm25_threshold == bm25_threshold,
            r.language@ == "english"@,
            r.use_stemming == true,
            r.min_word_threshold is None,
    {
        BM25ContentFilter {
            user_query,
            bm25_threshold,
            language: "english".to_owned(),
            use_stemming: true,
            min_word_threshold: Option::None,
        }
    }

    /// The ordered text chunks of a traversal from `root`, after the
    /// word filter.
    pub fn extract_text_chunks(&self, root: &Dom) -> (r: Vec<TextChunk>)
        ensures
            indexed_chunks_of(r@) == text_chunks_of(root@, self.min_word_threshold),
    {
        extract_chunks(root, self.min_word_threshold)
    }

    /// Filters an HTML document, returning the fragment of relevant
    /// chunks in document order.
    pub fn filter_content(&self, html: &str) -> (r: String)
        ensures
            r@ == lossy_of(
                bm25_output(
                    parse_dom_of(html.spec_bytes()),
                    query_view(self.user_query),
                    self.bm25_threshold,
                    self.use_stemming,
                    self.min_word_threshold,
                ),
            ),
    {
        let d = parse_document(html);
        let out = self.filter_dom(&d);
        bytes_to_string(out.as_slice())
    }

    /// The filter on an already parsed document, byte-exact.
    pub fn filter_dom(&self, d: &Dom) -> (r: Vec<u8>)
        ensures
            r@ == bm25_output(
                d@,
                query_view(self.user_query),
                self.bm25_threshold,
                self.use_stemming,
                self.min_word_threshold,
            ),
    {
        let body: &Dom = match find_elem(d, "body") {
            Option::Some(b) => b,
            Option::None => d,
        };
        let query: Vec<u8> = match &self.user_query {
            Option::Some(q) => vstd::slice::slice_to_vec(q.as_slice()),
            Option::None => page_query_exec(d, body),
        };
        let mut out: Vec<u8> = Vec::new();
        if query.len() == 0 {
            proof {
                assert(out@ =~= bm25_output(
                    d@,
                    query_view(self.user_query),
                    self.bm25_threshold,
                    self.use_stemming,
                    self.min_word_threshold,
                ));
            }
            return out;
        }
        let chunks = extract_chunks(body, self.min_word_threshold);
        let ghost gchunks = text_chunks_of(body@, self.min_word_threshold);
        if chunks.len() == 0 {
            proof {
                assert(out@ =~= bm25_output(
                    d@,
                    query_view(self.user_query),
                    self.bm25_threshold,
                    self.use_stemming,
                    self.min_word_threshold,
                ));
            }
            return out;
        }
        let qt = tokenize(query.as_slice(), self.use_stemming);
        let ghost gqt = tokens_of(query@, self.use_stemming);
        let mut corpus: Vec<Vec<Vec<u8>>> = Vec::new();
        let mut i: usize = 0;
        proof {
            assert(corpus_view(corpus) =~= corpus_tokens(gchunks, self.use_stemming, 0));
        }
        while i < chunks.len()
            invariant
                i <= chunks.len(),
                gchunks == text_chunks_of(body@, self.min_word_threshold),
                indexed_chunks_of(chunks@) == gchunks,
                chunks@.len() == gchunks.len(),
                corpus@.len() == i,
                corpus_view(corpus) == corpus_tokens(gchunks, self.use_stemming, i as int),
            decreases chunks.len() - i,
        {
            let ghost before = corpus_view(corpus);
            let toks = tokenize(chunks[i].text.as_slice(), self.use_stemming);
            let ghost tv = seqs_of(toks);
            corpus.push(toks);
            proof {
                assert(indexed_chunks_of(chunks@)[i as int].1.text == chunks@[i as int].text@);
                assert(corpus_view(corpus) =~= before.push(tv));
            }
            i = i + 1;
        }
        let ghost gcorpus = corpus_tokens(gchunks, self.use_stemming, gchunks.len() as int);
        proof {
            assert(corpus_view(corpus) == gcorpus);
        }
        let total: u128 = total_tokens_exec(&corpus);
        let n_docs: u64 = if corpus.len() as u64 > 0xffff_ffff {
            0xffff_ffff
        } else {
            corpus.len() as u64
        };
        proof {
            assert(cap32(gcorpus.len() as int) == cap32(n_docs as int));
        }
        let mut k: usize = 0;
        proof {
            assert(out@ =~= kept_concat(gchunks, gcorpus, gqt, self.bm25_threshold, 0));
        }
        while k < chunks.len()
            invariant
                k <= chunks.len(),
                gchunks == text_chunks_of(body@, self.min_word_threshold),
                indexed_chunks_of(chunks@) == gchunks,
                chunks@.len() == gchunks.len(),
                corpus@.len() == chunks@.len(),
                corpus_view(corpus) == gcorpus,
                gcorpus == corpus_tokens(gchunks, self.use_stemming, gchunks.len() as int),
                gqt == tokens_of(query@, self.use_stemming),
                seqs_of(qt) == gqt,
                total == total_of(gcorpus),
                cap32(n_docs as int) == cap32(gcorpus.len() as int),
                out@ == kept_concat(gchunks, gcorpus, gqt, self.bm25_threshold, k as int),
            decreases chunks.len() - k,
        {
            let score = chunk_score_exec(&corpus, k, &qt, total, n_docs);
            proof {
                assert(score == bm25_score(gcorpus, gqt, k as int));
            }
            let w = priority_weight_tenths_exec(chunks[k].tag.as_slice());
            let adj = adjusted(score, w);
            proof {
                assert(chunks@[k as int].tag@ == gchunks[k as int].1.tag);
                assert(adj == adjusted_score(gchunks, gcorpus, gqt, k as int));
            }
            if adj >= self.bm25_threshold {
                let ghost before = out@;
                out.push(60);
                append_bytes(&mut out, chunks[k].tag.as_slice());
                out.push(62);
                crate::ser::esc_text_append(&mut out, chunks[k].text.as_slice());
                append_bytes(&mut out, "</".as_bytes());
                append_bytes(&mut out, chunks[k].tag.as_slice());
                out.push(62);
                proof {
                    assert(chunks@[k as int].text@ == gchunks[k as int].1.text);
                    assert(out@ =~= before + wrap_chunk(gchunks[k as int].1));
                }
            }
            k = k + 1;
        }
        proof {
            assert(out@ =~= bm25_output(
                d@,
                query_view(self.user_query),
                self.bm25_threshold,
                self.use_stemming,
                self.min_word_threshold,
            ));
        }
        out
    }
}

/// The views of a token corpus.
pub open spec fn corpus_view(c: Vec<Vec<Vec<u8>>>) -> Seq<Seq<Seq<u8>>> {
    Seq::new(c@.len(), |i: int| seqs_of(c@[i]))
}

/// Counts the occurrences of `term` in one token list.
pub fn tf_exec(doc: &Vec<Vec<u8>>, term: &[u8]) -> (r: u64)
    ensures
        r == tf_of(seqs_of(*doc), term@),
        r <= doc@.len(),
{
    let mut count: u64 = 0;
    let mut i: usize = 0;
    while i < doc.len()
        invariant
            i <= doc.len(),
            count <= i,
            count == tf_upto(seqs_of(*doc), term@, i as int),
        decreases doc.len() - i,
    {
        if bytes_eq(doc[i].as_slice(), term) {
            count = count + 1;
        }
        i = i + 1;
    }
    count
}

/// Counts the documents that contain `term`.
pub fn df_exec(corpus: &Vec<Vec<Vec<u8>>>, term: &[u8]) -> (r: u64)
    ensures
        r == df_of(corpus_view(*corpus), term@),
{
    let mut count: u64 = 0;
    let mut i: usize = 0;
    while i < corpus.len()
        invariant
            i <= corpus.len(),
            count <= i,
            count == df_upto(corpus_view(*corpus), term@, i as int),
        decreases corpus.len() - i,
    {
        let tf = tf_exec(&corpus[i], term);
        if tf > 0 {
            count = count + 1;
        }
        i = i + 1;
    }
    count
}

/// Sums the token counts of a corpus.
pub fn total_tokens_exec(corpus: &Vec<Vec<Vec<u8>>>) -> (r: u128)
    ensures
        r == total_of(corpus_view(*corpus)),
{
    let mut total: u128 = 0;
    let mut i: usize = 0;
    while i < corpus.len()
        invariant
            i <= corpus.len(),
            total == total_upto(corpus_view(*corpus), i as int),
            total <= i * 0x1_0000_0000_0000_0000u128,
        decreases corpus.len() - i,
    {
        total = total + corpus[i].len() as u128;
        proof {
            assert(corpus_view(*corpus)[i as int].len() == corpus@[i as int]@.len());
        }
        i = i + 1;
    }
    total
}

/// The BM25 score of chunk `k` against the query.
pub fn chunk_score_exec(
    corpus: &Vec<Vec<Vec<u8>>>,
    k: usize,
    qt: &Vec<Vec<u8>>,
    total: u128,
    n_docs: u64,
) -> (r: u64)
    requires
        k < corpus@.len(),
        total == total_of(corpus_view(*corpus)),
        cap32(n_docs as int) == cap32(corpus_view(*corpus).len() as int),
    ensures
        r == bm25_score(corpus_view(*corpus), seqs_of(*qt), k as int),
{
    let mut score: u64 = 0;
    let mut j: usize = 0;
    while j < qt.len()
        invariant
            j <= qt.len(),
            k < corpus@.len(),
            total == total_of(corpus_view(*corpus)),
            cap32(n_docs as int) == cap32(corpus_view(*corpus).len() as int),
            score == score_upto(corpus_view(*corpus), seqs_of(*qt), k as int, j as int),
        decreases qt.len() - j,
    {
        let term = &qt[j];
        let tf = tf_exec(&corpus[k], term.as_slice());
        let df = df_exec(corpus, term.as_slice());
        let idf = idf_micro(n_docs, df);
        proof {
            assert(idf_micro_spec(n_docs as int, df as int) == idf_micro_spec(
                corpus_view(*corpus).len() as int,
                df as int,
            ));
            assert(seqs_of(*qt)[j as int] == qt@[j as int]@);
            assert(corpus_view(*corpus)[k as int] == seqs_of(corpus@[k as int]));
        }
        let dl: u64 = if corpus[k].len() as u64 > 0xffff_ffff {
            0xffff_ffff
        } else {
            corpus[k].len() as u64
        };
        proof {
            assert(cap32(dl as int) == cap32(corpus_view(*corpus)[k as int].len() as int));
        }
        let c = contribution(tf, dl, total, n_docs, idf);
        proof {
            assert(c == contribution_micro(
                tf_of(corpus_view(*corpus)[k as int], seqs_of(*qt)[j as int]),
                corpus_view(*corpus)[k as int].len() as int,
                total_of(corpus_view(*corpus)),
                corpus_view(*corpus).len() as int,
                idf_micro_spec(
                    corpus_view(*corpus).len() as int,
                    df_of(corpus_view(*corpus), seqs_of(*qt)[j as int]),
                ),
            ));
        }
        score = sat_add(score, c);
        j = j + 1;
    }
    score
}

/// Derives the page query: title, first h1 and meta
/// description/keywords; or, failing those, the first long paragraph.
pub fn page_query_exec(doc: &Dom, body: &Dom) -> (r: Vec<u8>)
    ensures
        r@ == page_query(doc@, body@),
{
    let mut parts: Vec<Vec<u8>> = Vec::new();
    let ghost tpart: Seq<Seq<u8>> = match first_elem(doc@, "title".spec_bytes()) {
        Option::Some(t) => seq![text_of(t)],
        Option::None => Seq::empty(),
    };
    match find_elem(doc, "title") {
        Option::Some(t) => {
            let txt = node_text(t);
            parts.push(txt);
        },
        Option::None => {
        },
    }
    proof {
        assert(seqs_of(parts) =~= tpart);
    }
    let ghost hpart: Seq<Seq<u8>> = match first_elem(doc@, "h1".spec_bytes()) {
        Option::Some(h) => seq![text_of(h)],
        Option::None => Seq::empty(),
    };
    match find_elem(doc, "h1") {
        Option::Some(h) => {
            let txt = node_text(h);
            let ghost before = seqs_of(parts);
            parts.push(txt);
            proof {
                assert(seqs_of(parts) =~= before.push(text_of(first_elem(
                    doc@,
                    "h1".spec_bytes(),
                )->Some_0)));
            }
        },
        Option::None => {
        },
    }
    proof {
        assert(seqs_of(parts) =~= tpart + hpart);
    }
    let mut metas: Vec<&Dom> = Vec::new();
    collect_elems(doc, "meta", &mut metas);
    let ghost gmetas = elems_of(doc@, "meta".spec_bytes());
    let mut i: usize = 0;
    proof {
        assert(meta_parts_upto(gmetas, 0) =~= Seq::<Seq<u8>>::empty());
    }
    while i < metas.len()
        invariant
            i <= metas.len(),
            gmetas == elems_of(doc@, "meta".spec_bytes()),
            metas@.len() == gmetas.len(),
            forall|j: int| 0 <= j < metas@.len() ==> metas@[j]@ == gmetas[j],
            seqs_of(parts) == tpart + hpart + meta_parts_upto(gmetas, i as int),
        decreases metas.len() - i,
    {
        let m = metas[i];
        let keep = match get_attr(m, "name") {
            Option::Some(nm) => bytes_eq(nm.as_slice(), "description".as_bytes()) || bytes_eq(
                nm.as_slice(),
                "keywords".as_bytes(),
            ),
            Option::None => false,
        };
        if keep {
            match get_attr(m, "content") {
                Option::Some(content) => {
                    let ghost before = seqs_of(parts);
                    let ghost cv = content@;
                    parts.push(content);
                    proof {
                        assert(seqs_of(parts) =~= before.push(cv));
                    }
                },
                Option::None => {
                },
            }
        }
        i = i + 1;
    }
    proof {
        assert(seqs_of(parts) =~= query_parts(doc@));
    }
    if parts.len() == 0 {
        let mut ps: Vec<&Dom> = Vec::new();
        collect_elems(body, "p", &mut ps);
        let ghost gps = elems_of(body@, "p".spec_bytes());
        let mut j: usize = 0;
        while j < ps.len()
            invariant
                j <= ps.len(),
                gps == elems_of(body@, "p".spec_bytes()),
                ps@.len() == gps.len(),
                forall|m: int| 0 <= m < ps@.len() ==> ps@[m]@ == gps[m],
                parts@.len() == 0,
                seqs_of(parts) == query_parts(doc@),
                first_long_p_from(gps, 0) == first_long_p_from(gps, j as int),
            decreases ps.len() - j,
        {
            let txt = node_text(ps[j]);
            let trimmed = trim(txt.as_slice());
            let cc = char_count_exec(trimmed.as_slice());
            if cc > 150 {
                let cut = take_chars_exec(trimmed.as_slice(), 150);
                let ghost before = seqs_of(parts);
                let ghost cutv = cut@;
                parts.push(cut);
                proof {
                    assert(seqs_of(parts) =~= before.push(cutv));
                    assert(first_long_p_from(gps, j as int) == Option::Some(take_chars(
                        trim_of(text_of(gps[j as int])),
                        150,
                    )));
                }
                let r = join_bytes(&parts, " ".as_bytes());
                proof {
                    assert(r@ =~= page_query(doc@, body@));
                }
                return r;
            }
            j = j + 1;
        }
        proof {
            assert(first_long_p_from(gps, ps@.len() as int) is None);
        }
        let r = join_bytes(&parts, " ".as_bytes());
        proof {
            assert(r@ =~= page_query(doc@, body@));
        }
        return r;
    }
    let r = join_bytes(&parts, " ".as_bytes());
    proof {
        assert(r@ =~= page_query(doc@, body@));
    }
    r
}

} // verus!
