//! The pruning content filter: removes comments and excluded elements,
//! scores every remaining element by text density, link density, tag
//! weight and text length, and drops subtrees whose score falls below
//! the threshold. What survives below `body` is serialized back to an
//! HTML fragment.
//!
//! Scores are micro-unit fixed point (spec module `fixedpoint`); a
//! score exactly equal to the threshold keeps the subtree — only a
//! strictly smaller score removes it.

use vstd::prelude::*;
use vstd::string::StringSliceAdditionalSpecFns;
use crate::dom::{Dom, GDom, kids, dom_size, dom_size_seq, lemma_dom_size_elem, attrs_view};
use crate::parse::{parse_dom_of, parse_document};
use crate::ser::{ser_node, ser_attrs, esc_text, is_void_tag, is_void_tag_exec, serialize_node};
use crate::tree::{text_of, elems_seq, first_elem, find_elem};
use crate::strutil::{trim_of, trim, words_of, word_count, is_lit, append_bytes};
use crate::fixedpoint::{ln_micro_spec, ln_micro, sat_add_spec, sat_add};
use crate::text_to_string::{bytes_to_string, lossy_of};

verus! {

/// Tags that the filter always removes, whatever their score.
pub open spec fn excluded_tag(t: Seq<u8>) -> bool {
    ||| t == "nav".spec_bytes()
    ||| t == "footer".spec_bytes()
    ||| t == "header".spec_bytes()
    ||| t == "aside".spec_bytes()
    ||| t == "script".spec_bytes()
    ||| t == "style".spec_bytes()
    ||| t == "form".spec_bytes()
    ||| t == "iframe".spec_bytes()
    ||| t == "noscript".spec_bytes()
}

pub fn excluded_tag_exec(t: &[u8]) -> (r: bool)
    ensures
        r == excluded_tag(t@),
{
    is_lit(t, "nav") || is_lit(t, "footer") || is_lit(t, "header") || is_lit(t, "aside")
        || is_lit(t, "script") || is_lit(t, "style") || is_lit(t, "form") || is_lit(t, "iframe")
        || is_lit(t, "noscript")
}

/// The weight of a tag in micro units; unknown tags weigh 0.5.
pub open spec fn tag_weight_micro(t: Seq<u8>) -> u64 {
    if t == "div".spec_bytes() {
        500_000
    } else if t == "p".spec_bytes() {
        1_000_000
    } else if t == "article".spec_bytes() {
        1_500_000
    } else if t == "section".spec_bytes() {
        1_000_000
    } else if t == "span".spec_bytes() {
        300_000
    } else if t == "li".spec_bytes() {
        500_000
    } else if t == "ul".spec_bytes() {
        500_000
    } else if t == "ol".spec_bytes() {
        500_000
    } else if t == "h1".spec_bytes() {
        1_200_000
    } else if t == "h2".spec_bytes() {
        1_100_000
    } else if t == "h3".spec_bytes() {
        1_000_000
    } else if t == "h4".spec_bytes() {
        900_000
    } else if t == "h5".spec_bytes() {
        800_000
    } else if t == "h6".spec_bytes() {
        700_000
    } else {
        500_000
    }
}

pub fn tag_weight_micro_exec(t: &[u8]) -> (r: u64)
    ensures
        r == tag_weight_micro(t@),
{
    if is_lit(t, "div") {
        500_000
    } else if is_lit(t, "p") {
        1_000_000
    } else if is_lit(t, "article") {
        1_500_000
    } else if is_lit(t, "section") {
        1_000_000
    } else if is_lit(t, "span") {
        300_000
    } else if is_lit(t, "li") {
        500_000
    } else if is_lit(t, "ul") {
        500_000
    } else if is_lit(t, "ol") {
        500_000
    } else if is_lit(t, "h1") {
        1_200_000
    } else if is_lit(t, "h2") {
        1_100_000
    } else if is_lit(t, "h3") {
        1_000_000
    } else if is_lit(t, "h4") {
        900_000
    } else if is_lit(t, "h5") {
        800_000
    } else if is_lit(t, "h6") {
        700_000
    } else {
        500_000
    }
}

/// The children of a node with comments and excluded elements removed,
/// recursively.
pub open spec fn clean_kids(s: Seq<GDom>) -> Seq<GDom>
    decreases s, 0nat,
{
    if s.len() == 0 {
        Seq::empty()
    } else {
        clean_one(s[0]) + clean_kids(s.subrange(1, s.len() as int))
    }
}

/// A node after cleaning: comments and excluded elements vanish, the
/// rest keeps its place with cleaned children.
pub open spec fn clean_one(g: GDom) -> Seq<GDom>
    decreases g, 1nat,
{
    match g {
        GDom::Element { tag, attrs, children } => if excluded_tag(tag) {
            Seq::empty()
        } else {
            seq![GDom::Element { tag, attrs, children: clean_kids(children) }]
        },
        GDom::Document { children } => seq![GDom::Document { children: clean_kids(children) }],
        GDom::Comment => Seq::empty(),
        _ => seq![g],
    }
}

/// The whole document after the removal passes.
pub open spec fn clean_doc(g: GDom) -> GDom {
    match g {
        GDom::Document { children } => GDom::Document { children: clean_kids(children) },
        GDom::Element { tag, attrs, children } => GDom::Element {
            tag,
            attrs,
            children: clean_kids(children),
        },
        _ => g,
    }
}

/// The summed trimmed text length of the `a` elements strictly below a
/// list of elements, saturating at the u64 limit.
pub open spec fn link_sum_list(s: Seq<GDom>, n: int) -> u64
    decreases n,
{
    if n <= 0 {
        0
    } else {
        let l = trim_of(text_of(s[n - 1])).len();
        let l64: u64 = if l > u64::MAX {
            u64::MAX
        } else {
            l as u64
        };
        sat_add_spec(link_sum_list(s, n - 1), l64)
    }
}

/// The link text length of a node: over every `a` element strictly
/// below it.
pub open spec fn link_len_of(g: GDom) -> u64 {
    let links = elems_seq(kids(g), "a".spec_bytes());
    link_sum_list(links, links.len() as int)
}

/// The density-weighted score of an element, in micro units:
/// `(0.4 density + 0.2 link_density + 0.2 tag_weight + 0.1 ln(text+1)) / 0.9`.
pub open spec fn score_micro(tag: Seq<u8>, text_len: int, tag_len: int, link_len: int) -> int {
    let density = if tag_len > 0 {
        text_len * 1_000_000 / tag_len
    } else {
        0
    };
    let link_density = if text_len > 0 {
        1_000_000 - link_len * 1_000_000 / text_len
    } else {
        0
    };
    let tag_w = tag_weight_micro(tag) as int;
    let ln_arg = if text_len + 1 > u64::MAX {
        u64::MAX as int
    } else {
        text_len + 1
    };
    let len_score = ln_micro_spec(ln_arg);
    (4 * density + 2 * link_density + 2 * tag_w + len_score) / 9
}

/// The score of an element node of the cleaned tree.
pub open spec fn node_score(g: GDom) -> int {
    score_micro(
        g->Element_tag,
        trim_of(text_of(g)).len() as int,
        ser_node(g).len() as int,
        link_len_of(g) as int,
    )
}

/// Whether a visited element survives: it must pass the word threshold
/// if one is set, and its score must reach the pruning threshold — a
/// score equal to the threshold is kept.
pub open spec fn node_kept(g: GDom, threshold: u64, min_words: Option<usize>) -> bool {
    &&& match min_words {
        Option::Some(m) => words_of(text_of(g)).len() >= m,
        Option::None => true,
    }
    &&& node_score(g) >= threshold as int
}

/// The serialized output of pruning a list of sibling nodes: text is
/// kept, a surviving element is written with its pruned children, a
/// removed element vanishes.
pub open spec fn prune_ser_kids(s: Seq<GDom>, threshold: u64, min_words: Option<usize>) -> Seq<
    u8,
>
    decreases s, 0nat,
{
    if s.len() == 0 {
        Seq::empty()
    } else {
        prune_ser_one(s[0], threshold, min_words) + prune_ser_kids(
            s.subrange(1, s.len() as int),
            threshold,
            min_words,
        )
    }
}

pub open spec fn prune_ser_one(g: GDom, threshold: u64, min_words: Option<usize>) -> Seq<u8>
    decreases g, 1nat,
{
    match g {
        GDom::Element { tag, attrs, children } => if node_kept(g, threshold, min_words) {
            let open_tag = seq![60u8] + tag + ser_attrs(attrs) + seq![62u8];
            if is_void_tag(tag) {
                open_tag
            } else {
                open_tag + prune_ser_kids(children, threshold, min_words) + ("</".spec_bytes()
                    + tag + seq![62u8])
            }
        } else {
            Seq::empty()
        },
        GDom::Text { text } => esc_text(text),
        GDom::Document { children } => prune_ser_kids(children, threshold, min_words),
        _ => Seq::empty(),
    }
}

/// The fragment the pruning filter produces for a parsed document:
/// clean, then prune below `body` (below the whole document when there
/// is no `body`).
pub open spec fn prune_output(g: GDom, threshold: u64, min_words: Option<usize>) -> Seq<u8> {
    let cleaned = clean_doc(g);
    match first_elem(cleaned, "body".spec_bytes()) {
        Option::Some(body) => prune_ser_kids(kids(body), threshold, min_words),
        Option::None => prune_ser_kids(kids(cleaned), threshold, min_words),
    }
}

/// The pruning content filter's configuration: the score threshold in
/// micro units, the threshold type (only `fixed` is in effect; a
/// dynamic mode is a reserved extension point), and an optional
/// minimum word count per subtree.
pub struct PruningContentFilter {
    pub threshold: u64,
    pub threshold_type: String,
    pub min_word_threshold: Option<usize>,
}

impl PruningContentFilter {
    /// Builds a filter; the threshold is in micro units (0.48 is
    /// written 480_000).
    pub fn new(min_word_threshold: Option<usize>, threshold_type: &str, threshold: u64) -> (r:
        Self)
        ensures
            r.threshold == threshold,
            r.min_word_threshold == min_word_threshold,
            r.threshold_type@ == threshold_type@,
    {
        PruningContentFilter {
            threshold,
            threshold_type: threshold_type.to_owned(),
            min_word_threshold,
        }
    }

    /// Filters an HTML document, returning the serialized fragment of
    /// what survives.
    pub fn filter_content(&self, html: &str) -> (r: String)
        ensures
            r@ == lossy_of(
                prune_output(
                    parse_dom_of(html.spec_bytes()),
                    self.threshold,
                    self.min_word_threshold,
                ),
            ),
    {
        let d = parse_document(html);
        let out = self.filter_dom(&d);
        bytes_to_string(out.as_slice())
    }

    /// The filter on an already parsed document, byte-exact.
    pub fn filter_dom(&self, d: &Dom) -> (r: Vec<u8>)
        ensures
            r@ == prune_output(d@, self.threshold, self.min_word_threshold),
    {
        let cleaned = clean_exec(d);
        let mut out: Vec<u8> = Vec::new();
        let root = match find_elem(&cleaned, "body") {
            Option::Some(b) => b,
            Option::None => &cleaned,
        };
        match root {
            Dom::Element { tag, attrs, children } => {
                prune_children_into(
                    children,
                    self.threshold,
                    self.min_word_threshold,
                    &mut out,
                    Ghost(root@),
                );
            },
            Dom::Document { children } => {
                prune_children_into(
                    children,
                    self.threshold,
                    self.min_word_threshold,
                    &mut out,
                    Ghost(root@),
                );
            },
            _ => {
                proof {
                    assert(kids(root@) =~= Seq::<GDom>::empty());
                }
            },
        }
        proof {
            assert(out@ =~= prune_output(d@, self.threshold, self.min_word_threshold));
        }
        out
    }
}

/// Removes comments and excluded elements from a whole document.
pub fn clean_exec(d: &Dom) -> (r: Dom)
    ensures
        r@ == clean_doc(d@),
{
    match d {
        Dom::Document { children } => {
            let cleaned = clean_kids_exec(children, Ghost(d@));
            let ghost cviews = Seq::new(cleaned@.len(), |i: int| cleaned@[i]@);
            let r = Dom::Document { children: cleaned };
            proof {
                assert(r@->Document_children =~~= cviews);
                assert(r@ =~~= clean_doc(d@));
            }
            r
        },
        Dom::Element { tag, attrs, children } => {
            let cleaned = clean_kids_exec(children, Ghost(d@));
            let ghost cviews = Seq::new(cleaned@.len(), |i: int| cleaned@[i]@);
            let r = Dom::Element {
                tag: vstd::slice::slice_to_vec(tag.as_slice()),
                attrs: clone_attrs(attrs),
                children: cleaned,
            };
            proof {
                assert(r@->Element_children =~~= cviews);
                assert(r@->Element_attrs =~~= attrs_view(*attrs));
                assert(r@ =~~= clean_doc(d@));
            }
            r
        },
        Dom::Text { text } => {
            let r = Dom::Text { text: vstd::slice::slice_to_vec(text.as_slice()) };
            proof {
                assert(r@ =~~= clean_doc(d@));
            }
            r
        },
        Dom::Comment => Dom::Comment,
        Dom::Other => Dom::Other,
    }
}

fn clone_attrs(attrs: &Vec<(Vec<u8>, Vec<u8>)>) -> (r: Vec<(Vec<u8>, Vec<u8>)>)
    ensures
        attrs_view(r) == attrs_view(*attrs),
{
    let mut r: Vec<(Vec<u8>, Vec<u8>)> = Vec::new();
    let mut i: usize = 0;
    while i < attrs.len()
        invariant
            i <= attrs.len(),
            r@.len() == i,
            forall|j: int|
                0 <= j < i ==> (#[trigger] r@[j]).0@ == attrs@[j].0@ && r@[j].1@ == attrs@[j].1@,
        decreases attrs.len() - i,
    {
        let k = vstd::slice::slice_to_vec(attrs[i].0.as_slice());
        let v = vstd::slice::slice_to_vec(attrs[i].1.as_slice());
        r.push((k, v));
        i = i + 1;
    }
    proof {
        assert(attrs_view(r) =~= attrs_view(*attrs));
    }
    r
}

fn clean_kids_exec(children: &Vec<Dom>, parent: Ghost<GDom>) -> (r: Vec<Dom>)
    requires
        kids(parent@).len() == children@.len(),
        forall|j: int| 0 <= j < children@.len() ==> kids(parent@)[j] == children@[j]@,
    ensures
        Seq::new(r@.len(), |i: int| r@[i]@) == clean_kids(kids(parent@)),
    decreases dom_size(parent@), 0nat,
{
    let ghost gkids = kids(parent@);
    let mut r: Vec<Dom> = Vec::new();
    let mut i: usize = 0;
    proof {
        assert(gkids.subrange(0, 0) =~= Seq::empty());
        assert(clean_kids(gkids.subrange(0, 0)) =~= Seq::<GDom>::empty());
        assert(Seq::new(r@.len(), |k: int| r@[k]@) =~= Seq::<GDom>::empty());
    }
    while i < children.len()
        invariant
            i <= children.len(),
            gkids == kids(parent@),
            gkids.len() == children@.len(),
            forall|j: int| 0 <= j < children@.len() ==> gkids[j] == children@[j]@,
            dom_size_seq(gkids) < dom_size(parent@),
            Seq::new(r@.len(), |k: int| r@[k]@) == clean_kids(gkids.subrange(0, i as int)),
        decreases children.len() - i,
    {
        proof {
            lemma_dom_size_elem(gkids, i as int);
        }
        let ghost before = Seq::new(r@.len(), |k: int| r@[k]@);
        let c = &children[i];
        match c {
            Dom::Comment => {
                proof {
                    assert(Seq::new(r@.len(), |k: int| r@[k]@) =~~= before + clean_one(c@));
                }
            },
            Dom::Other => {
                r.push(Dom::Other);
                proof {
                    assert(Seq::new(r@.len(), |k: int| r@[k]@) =~~= before + clean_one(c@));
                }
            },
            Dom::Text { text } => {
                r.push(Dom::Text { text: vstd::slice::slice_to_vec(text.as_slice()) });
                proof {
                    assert(Seq::new(r@.len(), |k: int| r@[k]@) =~~= before + clean_one(c@));
                }
            },
            Dom::Document { children: gc } => {
                let cleaned = clean_kids_exec(gc, Ghost(c@));
                let ghost cviews = Seq::new(cleaned@.len(), |k: int| cleaned@[k]@);
                let nd = Dom::Document { children: cleaned };
                proof {
                    assert(nd@->Document_children =~~= cviews);
                    assert(nd@ =~~= clean_one(c@)[0]);
                }
                r.push(nd);
                proof {
                    assert(Seq::new(r@.len(), |k: int| r@[k]@) =~~= before + clean_one(c@));
                }
            },
            Dom::Element { tag, attrs, children: gc } => {
                if !excluded_tag_exec(tag.as_slice()) {
                    let cleaned = clean_kids_exec(gc, Ghost(c@));
                    let ghost cviews = Seq::new(cleaned@.len(), |k: int| cleaned@[k]@);
                    let nd = Dom::Element {
                        tag: vstd::slice::slice_to_vec(tag.as_slice()),
                        attrs: clone_attrs(attrs),
                        children: cleaned,
                    };
                    proof {
                        assert(nd@->Element_children =~~= cviews);
                        assert(nd@->Element_attrs =~~= attrs_view(*attrs));
                        assert(nd@ =~~= clean_one(c@)[0]);
                    }
                    r.push(nd);
                    proof {
                        assert(Seq::new(r@.len(), |k: int| r@[k]@) =~~= before + clean_one(c@));
                    }
                } else {
                    proof {
                        assert(Seq::new(r@.len(), |k: int| r@[k]@) =~~= before + clean_one(c@));
                    }
                }
            },
        }
        proof {
            lemma_clean_kids_snoc(gkids, i as int);
            assert(Seq::new(r@.len(), |k: int| r@[k]@) =~~= clean_kids(
                gkids.subrange(0, i + 1),
            ));
        }
        i = i + 1;
    }
    proof {
        assert(gkids.subrange(0, gkids.len() as int) =~= gkids);
    }
    r
}

pub proof fn lemma_clean_kids_snoc(s: Seq<GDom>, n: int)
    requires
        0 <= n < s.len(),
    ensures
        clean_kids(s.subrange(0, n + 1)) == clean_kids(s.subrange(0, n)) + clean_one(s[n]),
    decreases n,
{
    let p1 = s.subrange(0, n + 1);
    let p0 = s.subrange(0, n);
    if n == 0 {
        assert(p0 =~= Seq::empty());
        assert(p1.subrange(1, 1) =~= Seq::<GDom>::empty());
        assert(clean_kids(p1) =~= clean_kids(p0) + clean_one(s[0]));
    } else {
        let t = s.subrange(1, s.len() as int);
        lemma_clean_kids_snoc(t, n - 1);
        assert(p1.subrange(1, n + 1) =~= t.subrange(0, n));
        assert(p0.subrange(1, n) =~= t.subrange(0, n - 1));
        assert(t[n - 1] == s[n]);
        assert(clean_kids(p1) =~= clean_kids(p0) + clean_one(s[n]));
    }
}

pub proof fn lemma_prune_ser_kids_snoc(s: Seq<GDom>, threshold: u64, mw: Option<usize>, n: int)
    requires
        0 <= n < s.len(),
    ensures
        prune_ser_kids(s.subrange(0, n + 1), threshold, mw) == prune_ser_kids(
            s.subrange(0, n),
            threshold,
            mw,
        ) + prune_ser_one(s[n], threshold, mw),
    decreases n,
{
    let p1 = s.subrange(0, n + 1);
    let p0 = s.subrange(0, n);
    if n == 0 {
        assert(p0 =~= Seq::empty());
        assert(p1.subrange(1, 1) =~= Seq::<GDom>::empty());
        assert(prune_ser_kids(p1, threshold, mw) =~= prune_ser_kids(p0, threshold, mw)
            + prune_ser_one(s[0], threshold, mw));
    } else {
        let t = s.subrange(1, s.len() as int);
        lemma_prune_ser_kids_snoc(t, threshold, mw, n - 1);
        assert(p1.subrange(1, n + 1) =~= t.subrange(0, n));
        assert(p0.subrange(1, n) =~= t.subrange(0, n - 1));
        assert(t[n - 1] == s[n]);
        assert(prune_ser_kids(p1, threshold, mw) =~= prune_ser_kids(p0, threshold, mw)
            + prune_ser_one(s[n], threshold, mw));
    }
}

/// Floor division by 9 on a possibly negative score sum.
fn div9(a: i128) -> (r: i128)
    requires
        -200_000_000_000_000_000_000_000_000 <= a <= 200_000_000_000_000_000_000_000_000,
    ensures
        r == a as int / 9,
{
    if a >= 0 {
        let q: u128 = (a as u128) / 9;
        q as i128
    } else {
        let na: u128 = (-a) as u128;
        let q: u128 = (na + 8) / 9;
        proof {
            lemma_neg_div9(na as int);
        }
        -(q as i128)
    }
}

/// Floor division of a negative number by nine, written through the
/// ceiling of its magnitude.
proof fn lemma_neg_div9(n: int)
    requires
        n >= 0,
    ensures
        (-n) / 9 == -((n + 8) / 9),
{
    let k = n / 9;
    let s = n % 9;
    vstd::arithmetic::div_mod::lemma_fundamental_div_mod(n, 9);
    if s == 0 {
        vstd::arithmetic::div_mod::lemma_fundamental_div_mod_converse(n + 8, 9, k, 8);
        vstd::arithmetic::div_mod::lemma_fundamental_div_mod_converse(-n, 9, -k, 0);
    } else {
        vstd::arithmetic::div_mod::lemma_fundamental_div_mod_converse(n + 8, 9, k + 1, s - 1);
        vstd::arithmetic::div_mod::lemma_fundamental_div_mod_converse(-n, 9, -(k + 1), 9 - s);
    }
}

/// Computes the pruning score of an element of the cleaned tree.
pub fn compute_score(d: &Dom) -> (r: i128)
    requires
        d@ is Element,
    ensures
        r == node_score(d@),
{
    let tag: &Vec<u8> = match d {
        Dom::Element { tag, attrs, children } => tag,
        _ => vstd::pervasive::unreached(),
    };
    let text_full = crate::tree::node_text(d);
    let text_trim = trim(text_full.as_slice());
    let text_len: u64 = text_trim.len() as u64;
    let ser = serialize_node(d);
    let tag_len: u64 = ser.len() as u64;
    let link_len: u64 = link_text_len(d);
    let density: i128 = if tag_len > 0 {
        let dq: u128 = (text_len as u128) * 1_000_000 / (tag_len as u128);
        proof {
            vstd::arithmetic::div_mod::lemma_div_nonincreasing(
                (text_len as u128) * 1_000_000 as int,
                tag_len as int,
            );
        }
        dq as i128
    } else {
        0
    };
    let link_density: i128 = if text_len > 0 {
        let lq: u128 = (link_len as u128) * 1_000_000 / (text_len as u128);
        proof {
            vstd::arithmetic::div_mod::lemma_div_nonincreasing(
                (link_len as u128) * 1_000_000 as int,
                text_len as int,
            );
        }
        1_000_000i128 - (lq as i128)
    } else {
        0
    };
    let tag_w: i128 = tag_weight_micro_exec(tag.as_slice()) as i128;
    let ln_arg: u64 = if text_len < 0xffff_ffff_ffff_ffffu64 {
        text_len + 1
    } else {
        0xffff_ffff_ffff_ffffu64
    };
    let len_score: i128 = ln_micro(ln_arg) as i128;
    let sum: i128 = 4 * density + 2 * link_density + 2 * tag_w + len_score;
    div9(sum)
}

/// The summed trimmed link text below a node.
pub fn link_text_len(d: &Dom) -> (r: u64)
    ensures
        r == link_len_of(d@),
{
    let mut links: Vec<&Dom> = Vec::new();
    let ghost glinks = elems_seq(kids(d@), "a".spec_bytes());
    match d {
        Dom::Element { tag, attrs, children } => {
            crate::tree::collect_elems_children_pub(children, "a", &mut links, Ghost(d@));
        },
        Dom::Document { children } => {
            crate::tree::collect_elems_children_pub(children, "a", &mut links, Ghost(d@));
        },
        _ => {
            proof {
                assert(glinks =~= Seq::<GDom>::empty());
            }
        },
    }
    let mut total: u64 = 0;
    let mut i: usize = 0;
    while i < links.len()
        invariant
            i <= links.len(),
            glinks == elems_seq(kids(d@), "a".spec_bytes()),
            links@.len() == glinks.len(),
            forall|j: int| 0 <= j < links@.len() ==> links@[j]@ == glinks[j],
            total == link_sum_list(glinks, i as int),
        decreases links.len() - i,
    {
        let t = crate::tree::node_text(links[i]);
        let tt = trim(t.as_slice());
        total = sat_add(total, tt.len() as u64);
        i = i + 1;
    }
    total
}

/// Serializes, with pruning, each node of a sibling list in order.
fn prune_children_into(
    children: &Vec<Dom>,
    threshold: u64,
    mw: Option<usize>,
    out: &mut Vec<u8>,
    parent: Ghost<GDom>,
)
    requires
        kids(parent@).len() == children@.len(),
        forall|j: int| 0 <= j < children@.len() ==> kids(parent@)[j] == children@[j]@,
    ensures
        final(out)@ == old(out)@ + prune_ser_kids(kids(parent@), threshold, mw),
    decreases dom_size(parent@), 0nat,
{
    let ghost gkids = kids(parent@);
    let mut i: usize = 0;
    proof {
        assert(gkids.subrange(0, 0) =~= Seq::empty());
        assert(prune_ser_kids(gkids.subrange(0, 0), threshold, mw) =~= Seq::<u8>::empty());
    }
    while i < children.len()
        invariant
            i <= children.len(),
            gkids == kids(parent@),
            gkids.len() == children@.len(),
            forall|j: int| 0 <= j < children@.len() ==> gkids[j] == children@[j]@,
            dom_size_seq(gkids) < dom_size(parent@),
            out@ == old(out)@ + prune_ser_kids(gkids.subrange(0, i as int), threshold, mw),
        decreases children.len() - i,
    {
        proof {
            lemma_dom_size_elem(gkids, i as int);
        }
        prune_one_into(&children[i], threshold, mw, out);
        proof {
            lemma_prune_ser_kids_snoc(gkids, threshold, mw, i as int);
            assert(out@ =~= old(out)@ + prune_ser_kids(gkids.subrange(0, i + 1), threshold, mw));
        }
        i = i + 1;
    }
    proof {
        assert(gkids.subrange(0, gkids.len() as int) =~= gkids);
    }
}

/// Serializes one node with pruning: an element is scored and either
/// written with its pruned children or dropped whole.
#[verifier::rlimit(60)]
fn prune_one_into(d: &Dom, threshold: u64, mw: Option<usize>, out: &mut Vec<u8>)
    ensures
        final(out)@ == old(out)@ + prune_ser_one(d@, threshold, mw),
    decreases dom_size(d@), 1nat,
{
    match d {
        Dom::Text { text } => {
            crate::ser::esc_text_append(out, text.as_slice());
        },
        Dom::Document { children } => {
            prune_children_into(children, threshold, mw, out, Ghost(d@));
        },
        Dom::Element { tag, attrs, children } => {
            let keep_words = match mw {
                Option::Some(m) => {
                    let text_full = crate::tree::node_text(d);
                    word_count(text_full.as_slice()) >= m
                },
                Option::None => true,
            };
            let kept = if keep_words {
                let score = compute_score(d);
                let thr: i128 = threshold as i128;
                score >= thr
            } else {
                false
            };
            if kept {
                out.push(60);
                append_bytes(out, tag.as_slice());
                crate::ser::ser_attrs_append(out, attrs, Ghost(d@->Element_attrs));
                out.push(62);
                if !is_void_tag_exec(tag.as_slice()) {
                    prune_children_into(children, threshold, mw, out, Ghost(d@));
                    append_bytes(out, "</".as_bytes());
                    append_bytes(out, tag.as_slice());
                    out.push(62);
                }
                proof {
                    assert(out@ =~= old(out)@ + prune_ser_one(d@, threshold, mw));
                }
            } else {
                proof {
                    assert(out@ =~= old(out)@ + prune_ser_one(d@, threshold, mw));
                }
            }
        },
        Dom::Comment => {
            proof {
                assert(out@ =~= old(out)@ + prune_ser_one(d@, threshold, mw));
            }
        },
        Dom::Other => {
            proof {
                assert(out@ =~= old(out)@ + prune_ser_one(d@, threshold, mw));
            }
        },
    }
}

} // verus!
