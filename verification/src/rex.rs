//! Pattern-table entity extraction and the regular-expression calls
//! the schema extractor's `regex` fields make.

use vstd::prelude::*;
use vstd::string::StringSliceAdditionalSpecFns;
use crate::json::{JVal, GJson, jval_view};
use crate::strutil::lit;

verus! {

/// What running a pattern over a text yields for the first match: the
/// first capture group if the pattern has one, else the whole match;
/// nothing when the pattern is invalid or does not match. A function
/// of the pattern and text alone.
pub uninterp spec fn regex_capture_of(pat: Seq<u8>, text: Seq<u8>) -> Option<Seq<u8>>;

/// Relies on regex::Regex: compiles the pattern and takes the first
/// capture, preferring group one over the whole match.
#[verifier::external_body]
pub fn regex_capture(pat: &[u8], text: &[u8]) -> (r: Option<Vec<u8>>)
    ensures
        match r {
            Option::Some(v) => regex_capture_of(pat@, text@) == Option::Some(v@),
            Option::None => regex_capture_of(pat@, text@) is None,
        },
{
    let pat_s = String::from_utf8_lossy(pat).into_owned();
    let text_s = String::from_utf8_lossy(text).into_owned();
    let re = match regex::Regex::new(&pat_s) {
        Ok(re) => re,
        Err(_) => return None,
    };
    re.captures(&text_s).and_then(|caps| caps.get(1).or_else(|| caps.get(0))).map(
        |m| m.as_str().as_bytes().to_vec(),
    )
}

/// Whether a pattern compiles as a regular expression: a function of
/// the pattern bytes alone.
pub uninterp spec fn regex_valid(pat: Seq<u8>) -> bool;

/// Relies on regex::Regex::new: compilation succeeds or fails on the
/// pattern text alone.
#[verifier::external_body]
pub fn regex_compiles(pat: &[u8]) -> (r: bool)
    ensures
        r == regex_valid(pat@),
{
    regex::Regex::new(&String::from_utf8_lossy(pat)).is_ok()
}

/// Every match of a pattern over a text, in order: the matched bytes
/// with their offsets. The offsets index the lossy UTF-8 decoding of
/// the text; on valid UTF-8 input they are byte offsets into the text
/// itself, and the matched bytes are exactly that slice. A function of
/// the pattern and text alone; an invalid pattern matches nothing.
pub uninterp spec fn regex_matches_of(pat: Seq<u8>, text: Seq<u8>) -> Seq<(Seq<u8>, int, int)>;

/// Relies on regex::Regex::captures_iter: every non-overlapping match
/// in order, with its span. A match's text equals the slice its span
/// denotes in the searched string; when the input bytes are valid
/// UTF-8 the searched string is the input itself, so the span is a
/// byte range of the input and the matched bytes are that range.
#[verifier::external_body]
pub fn regex_match_spans(pat: &[u8], text: &[u8]) -> (r: Vec<(Vec<u8>, usize, usize)>)
    ensures
        r@.len() == regex_matches_of(pat@, text@).len(),
        forall|i: int|
            0 <= i < r@.len() ==> {
                let m = #[trigger] regex_matches_of(pat@, text@)[i];
                r@[i].0@ == m.0 && r@[i].1 == m.1 && r@[i].2 == m.2
            },
        vstd::utf8::valid_utf8(text@) ==> forall|i: int|
            0 <= i < r@.len() ==> {
                let m = #[trigger] regex_matches_of(pat@, text@)[i];
                0 <= m.1 <= m.2 <= text@.len() && m.0 == text@.subrange(m.1, m.2)
            },
{
    let pat_s = String::from_utf8_lossy(pat).into_owned();
    let text_s = String::from_utf8_lossy(text).into_owned();
    let re = match regex::Regex::new(&pat_s) {
        Ok(re) => re,
        Err(_) => return Vec::new(),
    };
    re.captures_iter(&text_s).filter_map(|c| c.get(0)).map(
        |m| (m.as_str().as_bytes().to_vec(), m.start(), m.end()),
    ).collect()
}

/// A byte offset as a record integer, clamped to the integer range.
pub open spec fn offset_int(x: int) -> i64 {
    if x > i64::MAX {
        i64::MAX
    } else if x < 0 {
        0
    } else {
        x as i64
    }
}

/// One extracted entity for a label and a match of its pattern.
pub open spec fn entity_record(
    url: Seq<u8>,
    label: Seq<u8>,
    value: Seq<u8>,
    start: int,
    end: int,
) -> GJson {
    GJson::Obj(
        seq![
            ("url".spec_bytes(), GJson::Str(url)),
            ("label".spec_bytes(), GJson::Str(label)),
            ("value".spec_bytes(), GJson::Str(value)),
            (
                "span".spec_bytes(),
                GJson::Arr(seq![GJson::Int(offset_int(start)), GJson::Int(offset_int(end))]),
            ),
        ],
    )
}

/// The records of one pattern over a text, in match order.
pub open spec fn label_records(url: Seq<u8>, label: Seq<u8>, pat: Seq<u8>, text: Seq<u8>, n: int) -> Seq<GJson>
    decreases n,
{
    if n <= 0 {
        Seq::empty()
    } else {
        let m = regex_matches_of(pat, text)[n - 1];
        label_records(url, label, pat, text, n - 1).push(entity_record(url, label, m.0, m.1, m.2))
    }
}

/// The records of the whole pattern table over a text: patterns in
/// table order, matches in text order, no deduplication across
/// patterns.
pub open spec fn table_records(
    url: Seq<u8>,
    pats: Seq<(Seq<u8>, Seq<u8>)>,
    text: Seq<u8>,
    n: int,
) -> Seq<GJson>
    decreases n,
{
    if n <= 0 {
        Seq::empty()
    } else {
        table_records(url, pats, text, n - 1) + label_records(
            url,
            pats[n - 1].0,
            pats[n - 1].1,
            text,
            regex_matches_of(pats[n - 1].1, text).len() as int,
        )
    }
}

/// The views of a pattern table.
pub open spec fn pats_view(v: Vec<(Vec<u8>, Vec<u8>)>) -> Seq<(Seq<u8>, Seq<u8>)> {
    Seq::new(v@.len(), |i: int| (v@[i].0@, v@[i].1@))
}

/// Ordered-map insertion into a pattern table: an existing label
/// keeps its place and takes the new pattern; a new label goes to the
/// end.
pub open spec fn pat_put(tbl: Seq<(Seq<u8>, Seq<u8>)>, name: Seq<u8>, pat: Seq<u8>) -> Seq<
    (Seq<u8>, Seq<u8>),
>
    decreases tbl.len(),
{
    if tbl.len() == 0 {
        seq![(name, pat)]
    } else if tbl[0].0 == name {
        seq![(name, pat)] + tbl.subrange(1, tbl.len() as int)
    } else {
        seq![tbl[0]] + pat_put(tbl.subrange(1, tbl.len() as int), name, pat)
    }
}

/// The table the first `n` entries build: entries whose pattern does
/// not compile are dropped, and a repeated label keeps the last
/// compiling pattern, in the position of its first kept occurrence.
pub open spec fn dedup_pats(pats: Seq<(Seq<u8>, Seq<u8>)>, n: int) -> Seq<(Seq<u8>, Seq<u8>)>
    decreases n,
{
    if n <= 0 {
        Seq::empty()
    } else {
        let tbl = dedup_pats(pats, n - 1);
        if regex_valid(pats[n - 1].1) {
            pat_put(tbl, pats[n - 1].0, pats[n - 1].1)
        } else {
            tbl
        }
    }
}

pub proof fn lemma_pat_put_found(
    tbl: Seq<(Seq<u8>, Seq<u8>)>,
    name: Seq<u8>,
    pat: Seq<u8>,
    i: int,
)
    requires
        0 <= i < tbl.len(),
        tbl[i].0 == name,
        forall|j: int| 0 <= j < i ==> (#[trigger] tbl[j]).0 != name,
    ensures
        pat_put(tbl, name, pat) == tbl.update(i, (name, pat)),
    decreases i,
{
    if i == 0 {
        assert(pat_put(tbl, name, pat) =~= tbl.update(0, (name, pat)));
    } else {
        let t = tbl.subrange(1, tbl.len() as int);
        lemma_pat_put_found(t, name, pat, i - 1);
        assert(t[i - 1] == tbl[i]);
        assert(forall|j: int| 0 <= j < i - 1 ==> (#[trigger] t[j]).0 != name);
        assert(pat_put(tbl, name, pat) =~= tbl.update(i, (name, pat)));
    }
}

pub proof fn lemma_pat_put_missing(tbl: Seq<(Seq<u8>, Seq<u8>)>, name: Seq<u8>, pat: Seq<u8>)
    requires
        forall|j: int| 0 <= j < tbl.len() ==> (#[trigger] tbl[j]).0 != name,
    ensures
        pat_put(tbl, name, pat) == tbl.push((name, pat)),
    decreases tbl.len(),
{
    if tbl.len() == 0 {
        assert(pat_put(tbl, name, pat) =~= tbl.push((name, pat)));
    } else {
        let t = tbl.subrange(1, tbl.len() as int);
        lemma_pat_put_missing(t, name, pat);
        assert(forall|j: int| 0 <= j < t.len() ==> (#[trigger] t[j]).0 != name);
        assert(pat_put(tbl, name, pat) =~= tbl.push((name, pat)));
    }
}

/// Inserts one compiled pattern with map semantics over the ordered
/// table.
fn put_pattern(tbl: &mut Vec<(Vec<u8>, Vec<u8>)>, name: Vec<u8>, pat: Vec<u8>)
    ensures
        pats_view(*final(tbl)) == pat_put(pats_view(*old(tbl)), name@, pat@),
{
    let ghost gt = pats_view(*tbl);
    let ghost gn = name@;
    let ghost gp = pat@;
    let mut i: usize = 0;
    while i < tbl.len()
        invariant
            i <= tbl@.len(),
            gt == pats_view(*tbl),
            gt == pats_view(*old(tbl)),
            gn == name@,
            gp == pat@,
            gt.len() == tbl@.len(),
            forall|j: int| 0 <= j < i ==> (#[trigger] gt[j]).0 != gn,
        decreases tbl.len() - i,
    {
        if crate::strutil::bytes_eq(tbl[i].0.as_slice(), name.as_slice()) {
            tbl.remove(i);
            tbl.insert(i, (name, pat));
            proof {
                lemma_pat_put_found(gt, gn, gp, i as int);
                assert(pats_view(*tbl) =~= gt.update(i as int, (gn, gp)));
            }
            return ;
        }
        i = i + 1;
    }
    tbl.push((name, pat));
    proof {
        lemma_pat_put_missing(gt, gn, gp);
        assert(pats_view(*tbl) =~= gt.push((gn, gp)));
    }
}

/// The default pattern table, label by label.
pub open spec fn default_patterns_spec() -> Seq<(Seq<u8>, Seq<u8>)> {
    seq![
        ("email".spec_bytes(), "[\\w.+-]+@[\\w-]+\\.[\\w.-]+".spec_bytes()),
        ("phone_intl".spec_bytes(), "\\+?\\d[\\d .()-]{7,}\\d".spec_bytes()),
        ("phone_us".spec_bytes(), "\\(?\\d{3}\\)?[ -. ]?\\d{3}[ -. ]?\\d{4}".spec_bytes()),
        ("url".spec_bytes(), "https?://[^\\s\\x22'<>]+".spec_bytes()),
        ("ipv4".spec_bytes(), "(?:\\d{1,3}\\.){3}\\d{1,3}".spec_bytes()),
        ("ipv6".spec_bytes(), "[A-F0-9]{1,4}(?::[A-F0-9]{1,4}){7}".spec_bytes()),
        (
            "uuid".spec_bytes(),
            "[0-9a-f]{8}-[0-9a-f]{4}-[1-5][0-9a-f]{3}-[89ab][0-9a-f]{3}-[0-9a-f]{12}".spec_bytes(),
        ),
        (
            "currency".spec_bytes(),
            "(?:USD|EUR|RM|\\$|\u{20ac}|\u{a3})\\s?\\d+(?:[.,]\\d{2})?".spec_bytes(),
        ),
        ("percentage".spec_bytes(), "\\d+(?:\\.\\d+)?%".spec_bytes()),
        ("number".spec_bytes(), "\\b\\d{1,3}(?:[,.\\s]\\d{3})*(?:\\.\\d+)?\\b".spec_bytes()),
        ("date_iso".spec_bytes(), "\\d{4}-\\d{2}-\\d{2}".spec_bytes()),
        ("date_us".spec_bytes(), "\\d{1,2}/\\d{1,2}/\\d{2,4}".spec_bytes()),
        (
            "time_24h".spec_bytes(),
            "\\b(?:[01]?\\d|2[0-3]):[0-5]\\d(?:[:.][0-5]\\d)?\\b".spec_bytes(),
        ),
    ]
}

/// A pattern-table entity scraper: independent named patterns, each
/// run over the whole text.
pub struct RegexExtractionStrategy {
    pub patterns: Vec<(Vec<u8>, Vec<u8>)>,
}

impl RegexExtractionStrategy {
    /// The default pattern table: emails, phone numbers, URLs,
    /// addresses, identifiers, amounts, dates and times.
    pub fn default_patterns() -> (r: Vec<(Vec<u8>, Vec<u8>)>)
        ensures
            pats_view(r) == default_patterns_spec(),
    {
        let mut v: Vec<(Vec<u8>, Vec<u8>)> = Vec::new();
        v.push((lit("email"), lit("[\\w.+-]+@[\\w-]+\\.[\\w.-]+")));
        v.push((lit("phone_intl"), lit("\\+?\\d[\\d .()-]{7,}\\d")));
        v.push((lit("phone_us"), lit("\\(?\\d{3}\\)?[ -. ]?\\d{3}[ -. ]?\\d{4}")));
        v.push((lit("url"), lit("https?://[^\\s\\x22'<>]+")));
        v.push((lit("ipv4"), lit("(?:\\d{1,3}\\.){3}\\d{1,3}")));
        v.push((lit("ipv6"), lit("[A-F0-9]{1,4}(?::[A-F0-9]{1,4}){7}")));
        v.push((
            lit("uuid"),
            lit("[0-9a-f]{8}-[0-9a-f]{4}-[1-5][0-9a-f]{3}-[89ab][0-9a-f]{3}-[0-9a-f]{12}"),
        ));
        v.push((lit("currency"), lit("(?:USD|EUR|RM|\\$|\u{20ac}|\u{a3})\\s?\\d+(?:[.,]\\d{2})?")));
        v.push((lit("percentage"), lit("\\d+(?:\\.\\d+)?%")));
        v.push((lit("number"), lit("\\b\\d{1,3}(?:[,.\\s]\\d{3})*(?:\\.\\d+)?\\b")));
        v.push((lit("date_iso"), lit("\\d{4}-\\d{2}-\\d{2}")));
        v.push((lit("date_us"), lit("\\d{1,2}/\\d{1,2}/\\d{2,4}")));
        v.push((lit("time_24h"), lit("\\b(?:[01]?\\d|2[0-3]):[0-5]\\d(?:[:.][0-5]\\d)?\\b")));
        proof {
            assert(pats_view(v) =~= default_patterns_spec());
        }
        v
    }

    /// A scraper with the default pattern table, each pattern checked
    /// to compile.
    pub fn new() -> (r: Self)
        ensures
            pats_view(r.patterns) == dedup_pats(
                default_patterns_spec(),
                default_patterns_spec().len() as int,
            ),
    {
        let dp = Self::default_patterns();
        proof {
            assert(dp@.len() == default_patterns_spec().len());
        }
        Self::with_patterns(dp)
    }

    /// A scraper with a custom pattern table: entries whose pattern
    /// does not compile are dropped, and a repeated label keeps the
    /// last compiling pattern, in the position of its first kept
    /// occurrence.
    pub fn with_patterns(patterns: Vec<(Vec<u8>, Vec<u8>)>) -> (r: Self)
        ensures
            pats_view(r.patterns) == dedup_pats(pats_view(patterns), patterns@.len() as int),
    {
        let ghost gin = pats_view(patterns);
        let mut tbl: Vec<(Vec<u8>, Vec<u8>)> = Vec::new();
        proof {
            assert(pats_view(tbl) =~= Seq::<(Seq<u8>, Seq<u8>)>::empty());
        }
        let mut i: usize = 0;
        while i < patterns.len()
            invariant
                i <= patterns@.len(),
                gin == pats_view(patterns),
                gin.len() == patterns@.len(),
                pats_view(tbl) == dedup_pats(gin, i as int),
            decreases patterns.len() - i,
        {
            if regex_compiles(patterns[i].1.as_slice()) {
                let name = vstd::slice::slice_to_vec(patterns[i].0.as_slice());
                let pat = vstd::slice::slice_to_vec(patterns[i].1.as_slice());
                put_pattern(&mut tbl, name, pat);
            }
            i = i + 1;
        }
        RegexExtractionStrategy { patterns: tbl }
    }

    /// Scans the text with every pattern and returns one record per
    /// match: the source url, the pattern's label, the matched value
    /// and its byte span.
    pub fn extract(&self, url: &[u8], content: &[u8]) -> (r: Vec<JVal>)
        ensures
            Seq::new(r@.len(), |i: int| r@[i]@) == table_records(
                url@,
                pats_view(self.patterns),
                content@,
                pats_view(self.patterns).len() as int,
            ),
    {
        let ghost gpats = pats_view(self.patterns);
        let mut out: Vec<JVal> = Vec::new();
        proof {
            assert(Seq::new(out@.len(), |i: int| out@[i]@) =~= Seq::<GJson>::empty());
        }
        let mut p: usize = 0;
        while p < self.patterns.len()
            invariant
                p <= self.patterns@.len(),
                gpats == pats_view(self.patterns),
                gpats.len() == self.patterns@.len(),
                Seq::new(out@.len(), |i: int| out@[i]@) == table_records(
                    url@,
                    gpats,
                    content@,
                    p as int,
                ),
            decreases self.patterns.len() - p,
        {
            let spans = regex_match_spans(self.patterns[p].1.as_slice(), content);
            let ghost gm = regex_matches_of(gpats[p as int].1, content@);
            let mut m: usize = 0;
            while m < spans.len()
                invariant
                    m <= spans@.len(),
                    p < self.patterns@.len(),
                    gpats == pats_view(self.patterns),
                    gpats.len() == self.patterns@.len(),
                    gm == regex_matches_of(gpats[p as int].1, content@),
                    spans@.len() == gm.len(),
                    forall|i: int|
                        0 <= i < spans@.len() ==> (#[trigger] spans@[i]).0@ == gm[i].0
                            && spans@[i].1 == gm[i].1 && spans@[i].2 == gm[i].2,
                    Seq::new(out@.len(), |i: int| out@[i]@) == table_records(
                        url@,
                        gpats,
                        content@,
                        p as int,
                    ) + label_records(
                        url@,
                        gpats[p as int].0,
                        gpats[p as int].1,
                        content@,
                        m as int,
                    ),
                decreases spans.len() - m,
            {
                let ghost before = Seq::new(out@.len(), |i: int| out@[i]@);
                let mut pairs: Vec<(Vec<u8>, JVal)> = Vec::new();
                let v_url = JVal::Str(vstd::slice::slice_to_vec(url));
                let ghost gv_url = v_url@;
                pairs.push((lit("url"), v_url));
                let v_label = JVal::Str(vstd::slice::slice_to_vec(self.patterns[p].0.as_slice()));
                let ghost gv_label = v_label@;
                pairs.push((lit("label"), v_label));
                let v_value = JVal::Str(vstd::slice::slice_to_vec(spans[m].0.as_slice()));
                let ghost gv_value = v_value@;
                pairs.push((lit("value"), v_value));
                let mut span_arr: Vec<JVal> = Vec::new();
                let s0 = spans[m].1;
                let s1 = spans[m].2;
                let i0: i64 = if s0 as u64 > 0x7fff_ffff_ffff_ffffu64 {
                    i64::MAX
                } else {
                    s0 as i64
                };
                let i1: i64 = if s1 as u64 > 0x7fff_ffff_ffff_ffffu64 {
                    i64::MAX
                } else {
                    s1 as i64
                };
                span_arr.push(JVal::Int(i0));
                span_arr.push(JVal::Int(i1));
                let v_span = JVal::Arr(span_arr);
                let ghost gv_span = v_span@;
                proof {
                    assert(spans@[m as int].0@ == gm[m as int].0);
                    assert(spans@[m as int].1 == gm[m as int].1);
                    assert(spans@[m as int].2 == gm[m as int].2);
                    assert(gv_span is Arr);
                    assert(gv_span->Arr_0.len() == 2);
                    assert(gv_span->Arr_0[0] == jval_view(JVal::Int(i0)));
                    assert(jval_view(JVal::Int(i0)) == GJson::Int(i0));
                    assert(i0 == offset_int(gm[m as int].1));
                    assert(gv_span->Arr_0[0] == GJson::Int(offset_int(gm[m as int].1)));
                    assert(gv_span->Arr_0[1] == jval_view(JVal::Int(i1)));
                    assert(jval_view(JVal::Int(i1)) == GJson::Int(i1));
                    assert(i1 == offset_int(gm[m as int].2));
                    assert(gv_span->Arr_0[1] == GJson::Int(offset_int(gm[m as int].2)));
                    assert(gv_span->Arr_0 =~= seq![
                        GJson::Int(offset_int(gm[m as int].1)),
                        GJson::Int(offset_int(gm[m as int].2)),
                    ]);
                    assert(gv_span == GJson::Arr(
                        seq![
                            GJson::Int(offset_int(gm[m as int].1)),
                            GJson::Int(offset_int(gm[m as int].2)),
                        ],
                    ));
                }
                pairs.push((lit("span"), v_span));
                let rec = JVal::Obj(pairs);
                proof {
                    let ge = entity_record(
                        url@,
                        gpats[p as int].0,
                        gm[m as int].0,
                        gm[m as int].1,
                        gm[m as int].2,
                    );
                    assert(gpats[p as int] == (
                        self.patterns@[p as int].0@,
                        self.patterns@[p as int].1@,
                    ));
                    assert(rec@ is Obj && ge is Obj);
                    assert(rec@->Obj_0.len() == 4 && ge->Obj_0.len() == 4);
                    assert(rec@->Obj_0[0].0 == "url".spec_bytes() && rec@->Obj_0[0].1 == gv_url);
                    assert(rec@->Obj_0[1].0 == "label".spec_bytes() && rec@->Obj_0[1].1
                        == gv_label);
                    assert(rec@->Obj_0[2].0 == "value".spec_bytes() && rec@->Obj_0[2].1
                        == gv_value);
                    assert(rec@->Obj_0[3].0 == "span".spec_bytes() && rec@->Obj_0[3].1 == gv_span);
                    assert(rec@->Obj_0[0] =~~= ge->Obj_0[0]);
                    assert(rec@->Obj_0[1] =~~= ge->Obj_0[1]);
                    assert(rec@->Obj_0[2] =~~= ge->Obj_0[2]);
                    assert(rec@->Obj_0[3] =~~= ge->Obj_0[3]);
                    assert(rec@->Obj_0 =~= ge->Obj_0);
                    assert(rec@ == GJson::Obj(ge->Obj_0));
                    assert(rec@ == ge);
                }
                out.push(rec);
                proof {
                    assert(Seq::new(out@.len(), |i: int| out@[i]@) =~= before.push(rec@));
                }
                m = m + 1;
            }
            p = p + 1;
        }
        out
    }
}

} // verus!
