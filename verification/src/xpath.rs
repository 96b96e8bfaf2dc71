//! An XPath engine over the document tree, for the path subset the
//! schemas use.
//!
//! The supported grammar: an optional leading `//` (descendant axis
//! for the first step) or `/`, then steps separated by `/`. A step is
//! an element name or `*` with zero or more predicates of the forms
//! `[@attr]`, `[@attr='value']`, `[@attr="value"]` or `[n]` (a 1-based
//! position, applied per parent and after the preceding predicates, as
//! the abbreviated child-axis syntax reads); every step after the
//! first walks the child axis. A path outside this subset fails to
//! parse, and a failed parse selects nothing — lookups fail open.

use vstd::prelude::*;
use vstd::string::StringSliceAdditionalSpecFns;
use crate::dom::{Dom, GDom, kids, dom_size, dom_size_seq, lemma_dom_size_elem};
use crate::tree::attr_of;
use crate::strutil::{split_acc, seqs_of, bytes_eq, is_lit};

verus! {

/// One step predicate: an attribute requirement, or a 1-based
/// position among the candidates the preceding predicates left.
pub enum Pred {
    Attr { name: Vec<u8>, value: Option<Vec<u8>> },
    Pos(u32),
}

/// Ghost mirror of a predicate.
#[verifier::ext_equal]
pub enum GPred {
    Attr { name: Seq<u8>, value: Option<Seq<u8>> },
    Pos(int),
}

pub open spec fn pred_view(p: Pred) -> GPred {
    match p {
        Pred::Attr { name, value } => GPred::Attr {
            name: name@,
            value: match value {
                Option::Some(v) => Option::Some(v@),
                Option::None => Option::None,
            },
        },
        Pred::Pos(k) => GPred::Pos(k as int),
    }
}

impl View for Pred {
    type V = GPred;

    open spec fn view(&self) -> GPred {
        pred_view(*self)
    }
}

/// One path step: the element name (`None` means `*`) and the
/// predicates, applied left to right.
pub struct Step {
    pub name: Option<Vec<u8>>,
    pub preds: Vec<Pred>,
}

/// Ghost mirror of a step.
#[verifier::ext_equal]
pub struct GStep {
    pub name: Option<Seq<u8>>,
    pub preds: Seq<GPred>,
}

pub open spec fn step_view(s: Step) -> GStep {
    GStep {
        name: match s.name {
            Option::Some(t) => Option::Some(t@),
            Option::None => Option::None,
        },
        preds: Seq::new(s.preds@.len(), |i: int| s.preds@[i]@),
    }
}

impl View for Step {
    type V = GStep;

    open spec fn view(&self) -> GStep {
        step_view(*self)
    }
}

/// The first index at or after `i` holding `=` or `]`.
pub open spec fn scan_eq_or_close(s: Seq<u8>, i: int) -> int
    decreases s.len() - i,
{
    if i < 0 || i >= s.len() {
        s.len() as int
    } else if s[i] == 61 || s[i] == 93 {
        i
    } else {
        scan_eq_or_close(s, i + 1)
    }
}

/// The first index at or after `i` holding the byte `q`.
pub open spec fn scan_byte(s: Seq<u8>, i: int, q: u8) -> int
    decreases s.len() - i,
{
    if i < 0 || i >= s.len() {
        s.len() as int
    } else if s[i] == q {
        i
    } else {
        scan_byte(s, i + 1, q)
    }
}

pub proof fn lemma_scan_eq_or_close_ge(s: Seq<u8>, i: int)
    requires
        0 <= i <= s.len(),
    ensures
        scan_eq_or_close(s, i) >= i,
        scan_eq_or_close(s, i) <= s.len(),
    decreases s.len() - i,
{
    if i >= s.len() {
    } else if s[i] == 61 || s[i] == 93 {
    } else {
        lemma_scan_eq_or_close_ge(s, i + 1);
    }
}

pub proof fn lemma_scan_byte_ge(s: Seq<u8>, i: int, q: u8)
    requires
        0 <= i <= s.len(),
    ensures
        scan_byte(s, i, q) >= i,
        scan_byte(s, i, q) <= s.len(),
    decreases s.len() - i,
{
    if i >= s.len() {
    } else if s[i] == q {
    } else {
        lemma_scan_byte_ge(s, i + 1, q);
    }
}

pub open spec fn is_digit(b: u8) -> bool {
    48 <= b && b <= 57
}

/// The first index at or after `i` holding a non-digit.
pub open spec fn scan_nondigit(s: Seq<u8>, i: int) -> int
    decreases s.len() - i,
{
    if i < 0 || i >= s.len() {
        s.len() as int
    } else if !is_digit(s[i]) {
        i
    } else {
        scan_nondigit(s, i + 1)
    }
}

pub proof fn lemma_scan_nondigit_ge(s: Seq<u8>, i: int)
    requires
        0 <= i <= s.len(),
    ensures
        scan_nondigit(s, i) >= i,
        scan_nondigit(s, i) <= s.len(),
    decreases s.len() - i,
{
    if i >= s.len() {
    } else if !is_digit(s[i]) {
    } else {
        lemma_scan_nondigit_ge(s, i + 1);
    }
}

/// The decimal value of the digits `s[a..b)`.
pub open spec fn digits_val(s: Seq<u8>, a: int, b: int) -> int
    decreases b - a,
{
    if b <= a {
        0
    } else {
        digits_val(s, a, b - 1) * 10 + (s[b - 1] - 48)
    }
}

/// Parses the predicate blocks of one step, from position `i`.
pub open spec fn parse_preds(s: Seq<u8>, i: int, acc: Seq<GPred>) -> Option<Seq<GPred>>
    decreases s.len() - i,
    via parse_preds_dec
{
    if i < 0 {
        Option::None
    } else if i >= s.len() {
        Option::Some(acc)
    } else if s[i] == 91 && i + 1 < s.len() && s[i + 1] == 64 {
        let j = scan_eq_or_close(s, i + 2);
        if j >= s.len() || j == i + 2 {
            Option::None
        } else {
            let name = s.subrange(i + 2, j);
            if s[j] == 93 {
                parse_preds(s, j + 1, acc.push(GPred::Attr { name, value: Option::None }))
            } else {
                if j + 1 >= s.len() || (s[j + 1] != 34 && s[j + 1] != 39) {
                    Option::None
                } else {
                    let q = s[j + 1];
                    let k = scan_byte(s, j + 2, q);
                    if k >= s.len() || k + 1 >= s.len() || s[k + 1] != 93 {
                        Option::None
                    } else {
                        parse_preds(
                            s,
                            k + 2,
                            acc.push(
                                GPred::Attr {
                                    name,
                                    value: Option::Some(s.subrange(j + 2, k)),
                                },
                            ),
                        )
                    }
                }
            }
        }
    } else if s[i] == 91 && i + 1 < s.len() && is_digit(s[i + 1]) {
        let j = scan_nondigit(s, i + 1);
        if j >= s.len() || s[j] != 93 || j - (i + 1) > 9 {
            Option::None
        } else {
            parse_preds(s, j + 1, acc.push(GPred::Pos(digits_val(s, i + 1, j))))
        }
    } else {
        Option::None
    }
}

#[via_fn]
proof fn parse_preds_dec(s: Seq<u8>, i: int, acc: Seq<GPred>) {
    if 0 <= i && i < s.len() && s[i] == 91 && i + 1 < s.len() && s[i + 1] == 64 {
        lemma_scan_eq_or_close_ge(s, i + 2);
        let j = scan_eq_or_close(s, i + 2);
        if !(j >= s.len() || j == i + 2) && s[j] != 93 {
            if !(j + 1 >= s.len() || (s[j + 1] != 34 && s[j + 1] != 39)) {
                lemma_scan_byte_ge(s, j + 2, s[j + 1]);
            }
        }
    } else if 0 <= i && i < s.len() && s[i] == 91 && i + 1 < s.len() && is_digit(s[i + 1]) {
        lemma_scan_nondigit_ge(s, i + 1);
    }
}

/// Bytes that may stand in a step's name.
pub open spec fn is_step_name_byte(b: u8) -> bool {
    &&& b != 91  // '['
    &&& b != 93  // ']'
    &&& b != 64  // '@'
    &&& b != 61  // '='
    &&& b != 34  // '"'
    &&& b != 39  // '\''
    &&& b != 47  // '/'
    &&& b != 32  // ' '
}

pub fn is_step_name_byte_exec(b: u8) -> (r: bool)
    ensures
        r == is_step_name_byte(b),
{
    b != 91 && b != 93 && b != 64 && b != 61 && b != 34 && b != 39 && b != 47 && b != 32
}

/// A parsed step: a non-empty valid name (or `*`), then predicates.
pub open spec fn parse_step(s: Seq<u8>) -> Option<GStep> {
    let ne = scan_byte(s, 0, 91);
    let name = s.subrange(0, ne);
    if name.len() == 0 {
        Option::None
    } else if !(forall|k: int| 0 <= k < name.len() ==> is_step_name_byte(#[trigger] name[k])) {
        Option::None
    } else {
        match parse_preds(s, ne, Seq::empty()) {
            Option::Some(preds) => Option::Some(
                GStep {
                    name: if name == "*".spec_bytes() {
                        Option::None
                    } else {
                        Option::Some(name)
                    },
                    preds,
                },
            ),
            Option::None => Option::None,
        }
    }
}

/// The slash-separated step texts.
pub open spec fn slash_step(s: Seq<u8>, i: int, cur: Seq<u8>, acc: Seq<Seq<u8>>) -> Seq<
    Seq<u8>,
> {
    split_acc(s, i, cur, acc, |b: u8| b != 47)
}

pub open spec fn slash_split(s: Seq<u8>) -> Seq<Seq<u8>> {
    slash_step(s, 0, Seq::empty(), Seq::empty())
}

/// A path without empty steps: no leading, trailing or doubled slash.
pub open spec fn valid_path(s: Seq<u8>) -> bool {
    &&& s.len() > 0
    &&& s[0] != 47
    &&& s[s.len() - 1] != 47
    &&& forall|k: int| 0 <= k < s.len() - 1 ==> !(#[trigger] s[k] == 47 && s[k + 1] == 47)
}

/// Whether the path starts on the descendant axis.
pub open spec fn path_desc(s: Seq<u8>) -> bool {
    s.len() >= 2 && s[0] == 47 && s[1] == 47
}

/// The path text after any leading slashes.
pub open spec fn path_rest(s: Seq<u8>) -> Seq<u8> {
    if path_desc(s) {
        s.subrange(2, s.len() as int)
    } else if s.len() >= 1 && s[0] == 47 {
        s.subrange(1, s.len() as int)
    } else {
        s
    }
}

/// A parsed path: whether the first step walks the descendant axis,
/// and the steps.
pub open spec fn parse_path(s: Seq<u8>) -> Option<(bool, Seq<GStep>)> {
    let desc = path_desc(s);
    let rest = path_rest(s);
    if !valid_path(rest) {
        Option::None
    } else {
        let parts = slash_split(rest);
        match parse_step_list(parts, parts.len() as int) {
            Option::Some(steps) => if steps.len() == 0 {
                Option::None
            } else {
                Option::Some((desc, steps))
            },
            Option::None => Option::None,
        }
    }
}

pub open spec fn parse_step_list(parts: Seq<Seq<u8>>, n: int) -> Option<Seq<GStep>>
    decreases n,
{
    if n <= 0 {
        Option::Some(Seq::empty())
    } else {
        match parse_step_list(parts, n - 1) {
            Option::Some(rest) => match parse_step(parts[n - 1]) {
                Option::Some(st) => Option::Some(rest.push(st)),
                Option::None => Option::None,
            },
            Option::None => Option::None,
        }
    }
}

/// Whether a node passes a step's node test.
pub open spec fn name_ok(g: GDom, name: Option<Seq<u8>>) -> bool {
    g is Element && match name {
        Option::Some(t) => g->Element_tag == t,
        Option::None => true,
    }
}

/// Whether a node satisfies one attribute predicate.
pub open spec fn attr_pred_holds(g: GDom, name: Seq<u8>, value: Option<Seq<u8>>) -> bool {
    match value {
        Option::Some(v) => attr_of(g, name) == Option::Some(v),
        Option::None => attr_of(g, name) is Some,
    }
}

/// The indices among the first `n` children that pass the node test,
/// ascending.
pub open spec fn name_idx(children: Seq<GDom>, name: Option<Seq<u8>>, n: int) -> Seq<int>
    decreases n,
{
    if n <= 0 {
        Seq::empty()
    } else {
        let r = name_idx(children, name, n - 1);
        if name_ok(children[n - 1], name) {
            r.push(n - 1)
        } else {
            r
        }
    }
}

/// The first `n` candidate indices that satisfy an attribute
/// predicate, in order.
pub open spec fn attr_filter(
    children: Seq<GDom>,
    idxs: Seq<int>,
    name: Seq<u8>,
    value: Option<Seq<u8>>,
    n: int,
) -> Seq<int>
    decreases n,
{
    if n <= 0 {
        Seq::empty()
    } else {
        let r = attr_filter(children, idxs, name, value, n - 1);
        let ix = idxs[n - 1];
        if 0 <= ix < children.len() && attr_pred_holds(children[ix], name, value) {
            r.push(ix)
        } else {
            r
        }
    }
}

/// One predicate over the current candidate list: an attribute test
/// filters it, a position picks its 1-based entry.
pub open spec fn apply_pred(children: Seq<GDom>, idxs: Seq<int>, p: GPred) -> Seq<int> {
    match p {
        GPred::Attr { name, value } => attr_filter(children, idxs, name, value, idxs.len() as int),
        GPred::Pos(k) => if 1 <= k <= idxs.len() {
            seq![idxs[k - 1]]
        } else {
            Seq::empty()
        },
    }
}

/// The candidate indices after the first `k` predicates.
pub open spec fn sel_idx_upto(children: Seq<GDom>, st: GStep, k: int) -> Seq<int>
    decreases k,
{
    if k <= 0 {
        name_idx(children, st.name, children.len() as int)
    } else {
        apply_pred(children, sel_idx_upto(children, st, k - 1), st.preds[k - 1])
    }
}

/// The child indices a step selects within one parent.
pub open spec fn sel_idx(children: Seq<GDom>, st: GStep) -> Seq<int> {
    sel_idx_upto(children, st, st.preds.len() as int)
}

/// A node without children selects nothing.
pub proof fn lemma_sel_idx_empty(children: Seq<GDom>, st: GStep, k: int)
    requires
        children.len() == 0,
    ensures
        sel_idx_upto(children, st, k).len() == 0,
    decreases k,
{
    if k <= 0 {
    } else {
        lemma_sel_idx_empty(children, st, k - 1);
    }
}

/// The nodes behind a list of child indices.
pub open spec fn idx_nodes(children: Seq<GDom>, idxs: Seq<int>) -> Seq<GDom> {
    Seq::new(
        idxs.len(),
        |i: int|
            if 0 <= i < idxs.len() && 0 <= idxs[i] < children.len() {
                children[idxs[i]]
            } else {
                GDom::Other
            },
    )
}

/// The children of a node that a step selects: the node test first,
/// then each predicate in order, positions counted within this parent.
pub open spec fn step_children(g: GDom, st: GStep) -> Seq<GDom> {
    idx_nodes(kids(g), sel_idx(kids(g), st))
}

/// The nodes a leading descendant step selects below `g`: the step
/// applied to every node's children, emitted in document order.
pub open spec fn step_descendants(g: GDom, st: GStep) -> Seq<GDom>
    decreases g, 0nat, 0nat,
{
    match g {
        GDom::Element { tag, attrs, children } => desc_from_kids(
            children,
            st,
            children.len() as int,
        ),
        GDom::Document { children } => desc_from_kids(children, st, children.len() as int),
        _ => Seq::empty(),
    }
}

pub open spec fn desc_from_kids(children: Seq<GDom>, st: GStep, n: int) -> Seq<GDom>
    decreases children, 1nat, (if n >= 0 {
        n as nat
    } else {
        0nat
    }),
{
    if n <= 0 || n > children.len() {
        Seq::empty()
    } else {
        desc_from_kids(children, st, n - 1) + (if sel_idx(children, st).contains(n - 1) {
            seq![children[n - 1]]
        } else {
            Seq::empty()
        }) + step_descendants(children[n - 1], st)
    }
}

/// One child-axis move over a whole frontier, keeping document order.
pub open spec fn apply_step(frontier: Seq<GDom>, st: GStep, n: int) -> Seq<GDom>
    decreases n,
{
    if n <= 0 {
        Seq::empty()
    } else {
        apply_step(frontier, st, n - 1) + step_children(frontier[n - 1], st)
    }
}

/// The frontier after the remaining steps, child axis each.
pub open spec fn eval_steps(frontier: Seq<GDom>, steps: Seq<GStep>, i: int) -> Seq<GDom>
    decreases steps.len() - i,
{
    if i < 0 || i >= steps.len() {
        frontier
    } else {
        eval_steps(apply_step(frontier, steps[i], frontier.len() as int), steps, i + 1)
    }
}

/// The nodes a path selects from a context node, in document order; an
/// unparsable path selects nothing.
pub open spec fn xpath_select(ctx: GDom, sel: Seq<u8>) -> Seq<GDom> {
    match parse_path(sel) {
        Option::Some((desc, steps)) => {
            let first = if desc {
                step_descendants(ctx, steps[0])
            } else {
                step_children(ctx, steps[0])
            };
            eval_steps(first, steps, 1)
        },
        Option::None => Seq::empty(),
    }
}

/// Parses the predicate blocks of a step from position `p`.
fn parse_preds_exec(s: &[u8], p: usize) -> (r: Option<Vec<Pred>>)
    requires
        p <= s@.len(),
    ensures
        match r {
            Option::Some(preds) => parse_preds(s@, p as int, Seq::empty()) == Option::Some(
                preds_view(preds),
            ),
            Option::None => parse_preds(s@, p as int, Seq::empty()) is None,
        },
{
    let mut acc: Vec<Pred> = Vec::new();
    let mut i: usize = p;
    proof {
        assert(preds_view(acc) =~= Seq::<GPred>::empty());
    }
    while i < s.len()
        invariant
            i <= s@.len(),
            parse_preds(s@, p as int, Seq::empty()) == parse_preds(
                s@,
                i as int,
                preds_view(acc),
            ),
        decreases s@.len() - i,
    {
        if s[i] == 91 && i + 1 < s.len() && s[i + 1] == 64 {
            let mut j: usize = i + 2;
            while j < s.len() && s[j] != 61 && s[j] != 93
                invariant
                    i + 2 <= j <= s@.len(),
                    scan_eq_or_close(s@, i + 2) == scan_eq_or_close(s@, j as int),
                decreases s@.len() - j,
            {
                j = j + 1;
            }
            proof {
                assert(scan_eq_or_close(s@, j as int) == j);
            }
            if j >= s.len() || j == i + 2 {
                return Option::None;
            }
            let mut name: Vec<u8> = Vec::new();
            let mut m: usize = i + 2;
            proof {
                assert(name@ =~= s@.subrange(i + 2, i + 2));
            }
            while m < j
                invariant
                    i + 2 <= m <= j <= s@.len(),
                    name@ == s@.subrange(i + 2, m as int),
                decreases j - m,
            {
                name.push(s[m]);
                proof {
                    assert(name@ =~= s@.subrange(i + 2, m + 1));
                }
                m = m + 1;
            }
            if s[j] == 93 {
                let ghost before = preds_view(acc);
                let ghost nv = name@;
                acc.push(Pred::Attr { name, value: Option::None });
                proof {
                    assert(preds_view(acc) =~= before.push(
                        GPred::Attr { name: nv, value: Option::None },
                    ));
                }
                i = j + 1;
            } else {
                if j + 1 >= s.len() || (s[j + 1] != 34 && s[j + 1] != 39) {
                    return Option::None;
                }
                let q = s[j + 1];
                let mut k: usize = j + 2;
                while k < s.len() && s[k] != q
                    invariant
                        j + 2 <= k <= s@.len(),
                        scan_byte(s@, j + 2, q) == scan_byte(s@, k as int, q),
                    decreases s@.len() - k,
                {
                    k = k + 1;
                }
                proof {
                    assert(scan_byte(s@, k as int, q) == k);
                }
                if k >= s.len() || k + 1 >= s.len() || s[k + 1] != 93 {
                    return Option::None;
                }
                let mut val: Vec<u8> = Vec::new();
                let mut m2: usize = j + 2;
                proof {
                    assert(val@ =~= s@.subrange(j + 2, j + 2));
                }
                while m2 < k
                    invariant
                        j + 2 <= m2 <= k <= s@.len(),
                        val@ == s@.subrange(j + 2, m2 as int),
                    decreases k - m2,
                {
                    val.push(s[m2]);
                    proof {
                        assert(val@ =~= s@.subrange(j + 2, m2 + 1));
                    }
                    m2 = m2 + 1;
                }
                let ghost before = preds_view(acc);
                let ghost nv = name@;
                let ghost vv = val@;
                acc.push(Pred::Attr { name, value: Option::Some(val) });
                proof {
                    assert(preds_view(acc) =~= before.push(
                        GPred::Attr { name: nv, value: Option::Some(vv) },
                    ));
                }
                i = k + 2;
            }
        } else if s[i] == 91 && i + 1 < s.len() && 48 <= s[i + 1] && s[i + 1] <= 57 {
            let mut j: usize = i + 1;
            while j < s.len() && 48 <= s[j] && s[j] <= 57
                invariant
                    i + 1 <= j <= s@.len(),
                    scan_nondigit(s@, i + 1) == scan_nondigit(s@, j as int),
                decreases s@.len() - j,
            {
                j = j + 1;
            }
            proof {
                assert(scan_nondigit(s@, j as int) == j);
            }
            if j >= s.len() || s[j] != 93 || j - (i + 1) > 9 {
                return Option::None;
            }
            proof {
                lemma_scan_nondigit_digits(s@, i + 1, j as int);
            }
            let mut val: u32 = 0;
            let mut m: usize = i + 1;
            while m < j
                invariant
                    i + 1 <= m <= j <= s@.len(),
                    j - (i + 1) <= 9,
                    val == digits_val(s@, i + 1, m as int),
                    forall|t: int| i + 1 <= t < j ==> is_digit(s@[t]),
                decreases j - m,
            {
                proof {
                    lemma_digits_val_tight(s@, i + 1, m as int);
                    lemma_pow10_le(m - (i + 1), 8);
                    assert(pow10(0) == 1);
                    assert(pow10(1) == 10);
                    assert(pow10(2) == 100);
                    assert(pow10(3) == 1000);
                    assert(pow10(4) == 10000);
                    assert(pow10(5) == 100000);
                    assert(pow10(6) == 1000000);
                    assert(pow10(7) == 10000000);
                    assert(pow10(8) == 100000000);
                }
                val = val * 10 + ((s[m] - 48) as u32);
                m = m + 1;
            }
            let ghost before = preds_view(acc);
            acc.push(Pred::Pos(val));
            proof {
                assert(preds_view(acc) =~= before.push(GPred::Pos(val as int)));
            }
            i = j + 1;
        } else {
            return Option::None;
        }
    }
    Option::Some(acc)
}

/// Everything before the first non-digit is a digit.
pub proof fn lemma_scan_nondigit_digits(s: Seq<u8>, a: int, j: int)
    requires
        0 <= a <= s.len(),
        scan_nondigit(s, a) == j,
    ensures
        forall|t: int| a <= t < j ==> is_digit(#[trigger] s[t]),
    decreases s.len() - a,
{
    if a >= s.len() {
    } else if !is_digit(s[a]) {
    } else {
        lemma_scan_nondigit_digits(s, a + 1, j);
    }
}

/// Powers of ten, for the digit-value bound.
pub open spec fn pow10(k: int) -> int
    decreases k,
{
    if k <= 0 {
        1
    } else {
        10 * pow10(k - 1)
    }
}

pub proof fn lemma_pow10_pos(k: int)
    ensures
        pow10(k) >= 1,
    decreases k,
{
    if k > 0 {
        lemma_pow10_pos(k - 1);
    }
}

pub proof fn lemma_pow10_le(a: int, b: int)
    requires
        a <= b,
    ensures
        pow10(a) <= pow10(b),
        pow10(a) >= 1,
    decreases b - a,
{
    lemma_pow10_pos(a);
    if a < b {
        lemma_pow10_le(a, b - 1);
        if b > 0 {
            lemma_pow10_pos(b - 1);
            assert(pow10(b) == 10 * pow10(b - 1));
        }
    }
}

/// The value of `k` digits is below ten to the `k`.
pub proof fn lemma_digits_val_tight(s: Seq<u8>, a: int, b: int)
    requires
        a <= b,
        forall|t: int| a <= t < b ==> is_digit(s[t]),
    ensures
        0 <= digits_val(s, a, b) < pow10(b - a),
    decreases b - a,
{
    if b <= a {
    } else {
        lemma_digits_val_tight(s, a, b - 1);
        assert(pow10(b - a) == 10 * pow10(b - a - 1));
        assert(digits_val(s, a, b) < 10 * pow10(b - a - 1)) by (nonlinear_arith)
            requires
                digits_val(s, a, b) == digits_val(s, a, b - 1) * 10 + (s[b - 1] - 48),
                0 <= digits_val(s, a, b - 1) < pow10(b - a - 1),
                0 <= s[b - 1] - 48 < 10,
        ;
    }
}

/// The views of a predicate list.
pub open spec fn preds_view(v: Vec<Pred>) -> Seq<GPred> {
    Seq::new(v@.len(), |i: int| v@[i]@)
}

/// Parses one step.
fn parse_step_exec(s: &[u8]) -> (r: Option<Step>)
    ensures
        match r {
            Option::Some(st) => parse_step(s@) == Option::Some(st@),
            Option::None => parse_step(s@) is None,
        },
{
    let mut ne: usize = 0;
    while ne < s.len() && s[ne] != 91
        invariant
            ne <= s@.len(),
            scan_byte(s@, 0, 91) == scan_byte(s@, ne as int, 91),
        decreases s@.len() - ne,
    {
        ne = ne + 1;
    }
    proof {
        assert(scan_byte(s@, ne as int, 91) == ne);
    }
    if ne == 0 {
        return Option::None;
    }
    let mut name: Vec<u8> = Vec::new();
    let mut m: usize = 0;
    proof {
        assert(name@ =~= s@.subrange(0, 0));
    }
    while m < ne
        invariant
            m <= ne <= s@.len(),
            0 < ne,
            scan_byte(s@, 0, 91) == ne,
            name@ == s@.subrange(0, m as int),
            forall|k: int| 0 <= k < m ==> is_step_name_byte(#[trigger] s@.subrange(0, ne as int)[k]),
        decreases ne - m,
    {
        if !is_step_name_byte_exec(s[m]) {
            proof {
                assert(s@.subrange(0, ne as int)[m as int] == s@[m as int]);
                assert(!is_step_name_byte(s@.subrange(0, ne as int)[m as int]));
            }
            return Option::None;
        }
        name.push(s[m]);
        proof {
            assert(name@ =~= s@.subrange(0, m + 1));
            assert(s@.subrange(0, ne as int)[m as int] == s@[m as int]);
        }
        m = m + 1;
    }
    match parse_preds_exec(s, ne) {
        Option::Some(preds) => {
            let nm: Option<Vec<u8>> = if is_lit(name.as_slice(), "*") {
                Option::None
            } else {
                Option::Some(name)
            };
            let st = Step { name: nm, preds };
            proof {
                assert(parse_step(s@) == Option::Some(st@)) by {
                    assert(st@ =~= parse_step(s@)->Some_0);
                }
            }
            Option::Some(st)
        },
        Option::None => Option::None,
    }
}

/// Whether a node passes a step's node test.
fn name_ok_exec(d: &Dom, name: &Option<Vec<u8>>) -> (r: bool)
    ensures
        r == name_ok(
            d@,
            match *name {
                Option::Some(t) => Option::Some(t@),
                Option::None => Option::None,
            },
        ),
{
    let tag: &Vec<u8> = match d {
        Dom::Element { tag, attrs, children } => tag,
        _ => {
            return false;
        },
    };
    match name {
        Option::Some(t) => bytes_eq(tag.as_slice(), t.as_slice()),
        Option::None => true,
    }
}

/// Whether a node satisfies one attribute predicate.
fn attr_pred_holds_exec(d: &Dom, name: &Vec<u8>, value: &Option<Vec<u8>>) -> (r: bool)
    ensures
        r == attr_pred_holds(
            d@,
            name@,
            match *value {
                Option::Some(v) => Option::Some(v@),
                Option::None => Option::None,
            },
        ),
{
    match crate::tree::get_attr_bytes(d, name.as_slice()) {
        Option::Some(actual) => match value {
            Option::Some(v) => bytes_eq(actual.as_slice(), v.as_slice()),
            Option::None => true,
        },
        Option::None => false,
    }
}

/// The views of an index list.
pub open spec fn idxs_view(v: Vec<usize>) -> Seq<int> {
    Seq::new(v@.len(), |i: int| v@[i] as int)
}

/// The child indices a step selects within one parent.
fn sel_idx_exec(children: &Vec<Dom>, st: &Step, parent: Ghost<Seq<GDom>>) -> (r: Vec<usize>)
    requires
        parent@.len() == children@.len(),
        forall|j: int| 0 <= j < children@.len() ==> parent@[j] == children@[j]@,
    ensures
        idxs_view(r) == sel_idx(parent@, st@),
        forall|j: int| 0 <= j < r@.len() ==> r@[j] < children@.len(),
{
    let ghost gkids = parent@;
    let mut idx: Vec<usize> = Vec::new();
    let mut i: usize = 0;
    proof {
        assert(idxs_view(idx) =~= Seq::<int>::empty());
    }
    while i < children.len()
        invariant
            i <= children.len(),
            gkids.len() == children@.len(),
            forall|j: int| 0 <= j < children@.len() ==> gkids[j] == children@[j]@,
            idxs_view(idx) == name_idx(gkids, st@.name, i as int),
            forall|j: int| 0 <= j < idx@.len() ==> idx@[j] < i,
        decreases children.len() - i,
    {
        if name_ok_exec(&children[i], &st.name) {
            let ghost before = idxs_view(idx);
            idx.push(i);
            proof {
                assert(idxs_view(idx) =~= before.push(i as int));
            }
        }
        i = i + 1;
    }
    let mut k: usize = 0;
    while k < st.preds.len()
        invariant
            k <= st.preds@.len(),
            st@.preds.len() == st.preds@.len(),
            gkids.len() == children@.len(),
            forall|j: int| 0 <= j < children@.len() ==> gkids[j] == children@[j]@,
            idxs_view(idx) == sel_idx_upto(gkids, st@, k as int),
            forall|j: int| 0 <= j < idx@.len() ==> idx@[j] < children@.len(),
        decreases st.preds.len() - k,
    {
        proof {
            assert(st@.preds[k as int] == st.preds@[k as int]@);
        }
        match &st.preds[k] {
            Pred::Attr { name, value } => {
                let ghost gin = idxs_view(idx);
                let ghost gname = name@;
                let ghost gvalue: Option<Seq<u8>> = match value {
                    Option::Some(v) => Option::Some(v@),
                    Option::None => Option::None,
                };
                let mut kept: Vec<usize> = Vec::new();
                let mut m: usize = 0;
                proof {
                    assert(idxs_view(kept) =~= Seq::<int>::empty());
                }
                while m < idx.len()
                    invariant
                        m <= idx@.len(),
                        gname == name@,
                        gvalue == (match value {
                            Option::Some(v) => Option::Some(v@),
                            Option::None => Option::None,
                        }),
                        gin == idxs_view(idx),
                        gin.len() == idx@.len(),
                        gkids.len() == children@.len(),
                        forall|j: int| 0 <= j < children@.len() ==> gkids[j] == children@[j]@,
                        forall|j: int| 0 <= j < idx@.len() ==> idx@[j] < children@.len(),
                        idxs_view(kept) == attr_filter(gkids, gin, gname, gvalue, m as int),
                        forall|j: int| 0 <= j < kept@.len() ==> kept@[j] < children@.len(),
                    decreases idx.len() - m,
                {
                    let ix = idx[m];
                    proof {
                        assert(gin[m as int] == ix as int);
                    }
                    if attr_pred_holds_exec(&children[ix], name, value) {
                        let ghost before = idxs_view(kept);
                        kept.push(ix);
                        proof {
                            assert(idxs_view(kept) =~= before.push(ix as int));
                            assert(idxs_view(kept) =~= attr_filter(
                                gkids,
                                gin,
                                gname,
                                gvalue,
                                m + 1,
                            ));
                        }
                    } else {
                        proof {
                            assert(idxs_view(kept) =~= attr_filter(
                                gkids,
                                gin,
                                gname,
                                gvalue,
                                m + 1,
                            ));
                        }
                    }
                    m = m + 1;
                }
                idx = kept;
            },
            Pred::Pos(p) => {
                let mut kept: Vec<usize> = Vec::new();
                let pv = *p;
                if 1 <= pv && (pv as usize) <= idx.len() {
                    kept.push(idx[(pv as usize) - 1]);
                    proof {
                        assert(idxs_view(kept) =~= seq![
                            idxs_view(idx)[(pv as usize) - 1],
                        ]);
                    }
                } else {
                    proof {
                        assert(idxs_view(kept) =~= Seq::<int>::empty());
                    }
                }
                idx = kept;
            },
        }
        k = k + 1;
    }
    idx
}

/// Collects the children of a node that a step selects.
fn step_children_exec<'a>(d: &'a Dom, st: &Step, out: &mut Vec<&'a Dom>)
    ensures
        final(out)@.len() == old(out)@.len() + step_children(d@, st@).len(),
        forall|j: int| 0 <= j < old(out)@.len() ==> final(out)@[j] == old(out)@[j],
        forall|j: int|
            0 <= j < step_children(d@, st@).len() ==> final(out)@[old(out)@.len() + j]@
                == step_children(d@, st@)[j],
{
    let children: &Vec<Dom> = match d {
        Dom::Element { tag, attrs, children } => children,
        Dom::Document { children } => children,
        _ => {
            proof {
                assert(kids(d@) =~= Seq::<GDom>::empty());
                lemma_sel_idx_empty(kids(d@), st@, st@.preds.len() as int);
                assert(step_children(d@, st@) =~= Seq::<GDom>::empty());
            }
            return ;
        },
    };
    let ghost gkids = kids(d@);
    let sel = sel_idx_exec(children, st, Ghost(gkids));
    let ghost gsel = sel_idx(gkids, st@);
    let mut i: usize = 0;
    while i < sel.len()
        invariant
            i <= sel@.len(),
            gkids == kids(d@),
            gkids.len() == children@.len(),
            forall|j: int| 0 <= j < children@.len() ==> gkids[j] == children@[j]@,
            gsel == sel_idx(gkids, st@),
            idxs_view(sel) == gsel,
            sel@.len() == gsel.len(),
            forall|j: int| 0 <= j < sel@.len() ==> sel@[j] < children@.len(),
            out@.len() == old(out)@.len() + i,
            forall|j: int| 0 <= j < old(out)@.len() ==> out@[j] == old(out)@[j],
            forall|j: int|
                0 <= j < i ==> out@[old(out)@.len() + j]@ == idx_nodes(gkids, gsel)[j],
        decreases sel.len() - i,
    {
        out.push(&children[sel[i]]);
        i = i + 1;
    }
}

/// Whether an index list holds a value.
fn contains_idx(sel: &Vec<usize>, i: usize) -> (r: bool)
    ensures
        r == idxs_view(*sel).contains(i as int),
{
    let mut k: usize = 0;
    while k < sel.len()
        invariant
            k <= sel@.len(),
            forall|j: int| 0 <= j < k ==> idxs_view(*sel)[j] != i as int,
        decreases sel.len() - k,
    {
        if sel[k] == i {
            proof {
                assert(idxs_view(*sel)[k as int] == i as int);
            }
            return true;
        }
        k = k + 1;
    }
    proof {
        assert(!idxs_view(*sel).contains(i as int));
    }
    false
}

/// Collects the nodes a leading descendant step selects below a node,
/// in document order.
fn step_descendants_exec<'a>(d: &'a Dom, st: &Step, out: &mut Vec<&'a Dom>)
    ensures
        final(out)@.len() == old(out)@.len() + step_descendants(d@, st@).len(),
        forall|j: int| 0 <= j < old(out)@.len() ==> final(out)@[j] == old(out)@[j],
        forall|j: int|
            0 <= j < step_descendants(d@, st@).len() ==> final(out)@[old(out)@.len() + j]@
                == step_descendants(d@, st@)[j],
    decreases dom_size(d@), 1nat,
{
    let children: &Vec<Dom> = match d {
        Dom::Element { tag, attrs, children } => children,
        Dom::Document { children } => children,
        _ => {
            proof {
                assert(step_descendants(d@, st@) =~= Seq::<GDom>::empty());
            }
            return ;
        },
    };
    let ghost gkids = kids(d@);
    let sel = sel_idx_exec(children, st, Ghost(gkids));
    let ghost gsel = sel_idx(gkids, st@);
    let mut i: usize = 0;
    proof {
        assert(desc_from_kids(gkids, st@, 0) =~= Seq::<GDom>::empty());
    }
    while i < children.len()
        invariant
            i <= children.len(),
            gkids == kids(d@),
            gkids.len() == children@.len(),
            forall|j: int| 0 <= j < children@.len() ==> gkids[j] == children@[j]@,
            gsel == sel_idx(gkids, st@),
            idxs_view(sel) == gsel,
            dom_size_seq(gkids) < dom_size(d@),
            step_descendants(d@, st@) == desc_from_kids(gkids, st@, gkids.len() as int),
            out@.len() == old(out)@.len() + desc_from_kids(gkids, st@, i as int).len(),
            forall|j: int| 0 <= j < old(out)@.len() ==> out@[j] == old(out)@[j],
            forall|j: int|
                0 <= j < desc_from_kids(gkids, st@, i as int).len() ==> out@[old(out)@.len()
                    + j]@ == desc_from_kids(gkids, st@, i as int)[j],
        decreases children.len() - i,
    {
        proof {
            lemma_dom_size_elem(gkids, i as int);
        }
        if contains_idx(&sel, i) {
            out.push(&children[i]);
        }
        step_descendants_exec(&children[i], st, out);
        i = i + 1;
    }
}

/// Selects the nodes a path denotes from a context node; an
/// unparsable path selects nothing.
pub fn xpath_select_exec<'a>(ctx: &'a Dom, sel: &[u8]) -> (r: Vec<&'a Dom>)
    ensures
        r@.len() == xpath_select(ctx@, sel@).len(),
        forall|j: int| 0 <= j < r@.len() ==> r@[j]@ == xpath_select(ctx@, sel@)[j],
{
    let (desc, start): (bool, usize) = if sel.len() >= 2 && sel[0] == 47 && sel[1] == 47 {
        (true, 2)
    } else if sel.len() >= 1 && sel[0] == 47 {
        (false, 1)
    } else {
        (false, 0)
    };
    let n = sel.len();
    let ghost rest = path_rest(sel@);
    proof {
        if sel@.len() >= 2 && sel@[0] == 47 && sel@[1] == 47 {
            assert(start == 2 && desc);
        } else if sel@.len() >= 1 && sel@[0] == 47 {
            assert(start == 1 && !desc);
        } else {
            assert(start == 0 && !desc);
        }
        assert(desc == path_desc(sel@));
        assert(rest =~= sel@.subrange(start as int, sel@.len() as int));
    }
    if start >= n || sel[start] == 47 || sel[n - 1] == 47 {
        proof {
            if start < n {
                assert(rest[0] == sel@[start as int]);
                assert(rest[rest.len() - 1] == sel@[n - 1]);
            }
            assert(!valid_path(rest));
            assert(parse_path(sel@) is None);
            assert(xpath_select(ctx@, sel@) =~= Seq::<GDom>::empty());
        }
        return Vec::new();
    }
    proof {
        assert(rest[0] == sel@[start as int]);
        assert(rest[rest.len() - 1] == sel@[n - 1]);
    }
    let mut c: usize = start;
    while c + 1 < n
        invariant
            start <= c,
            c + 1 <= n,
            n == sel@.len(),
            rest == path_rest(sel@),
            rest == sel@.subrange(start as int, sel@.len() as int),
            forall|k: int|
                0 <= k < c - start ==> !(#[trigger] rest[k] == 47 && rest[k + 1] == 47),
        decreases n - c,
    {
        if sel[c] == 47 && sel[c + 1] == 47 {
            proof {
                assert(rest[c - start] == 47 && rest[c - start + 1] == 47);
                assert(!valid_path(rest));
                assert(parse_path(sel@) is None);
                assert(xpath_select(ctx@, sel@) =~= Seq::<GDom>::empty());
            }
            return Vec::new();
        }
        c = c + 1;
    }
    proof {
        assert(valid_path(rest));
    }
    let mut steps: Vec<Step> = Vec::new();
    let ghost gsegs = slash_split(rest);
    let segs = split_on_slash(sel, start);
    let mut si: usize = 0;
    proof {
        assert(seqs_of(segs) == gsegs);
        assert(parse_step_list(gsegs, 0) == Option::Some(Seq::<GStep>::empty()));
        assert(steps_view(steps) =~= Seq::<GStep>::empty());
    }
    while si < segs.len()
        invariant
            si <= segs.len(),
            rest == path_rest(sel@),
            valid_path(rest),
            gsegs == slash_split(rest),
            seqs_of(segs) == gsegs,
            segs@.len() == gsegs.len(),
            parse_step_list(gsegs, si as int) == Option::Some(steps_view(steps)),
        decreases segs.len() - si,
    {
        match parse_step_exec(segs[si].as_slice()) {
            Option::Some(st) => {
                let ghost before = steps_view(steps);
                let ghost sv = st@;
                steps.push(st);
                proof {
                    assert(steps_view(steps) =~= before.push(sv));
                }
            },
            Option::None => {
                proof {
                    lemma_step_list_none(gsegs, gsegs.len() as int, si as int);
                    assert(parse_path(sel@) is None);
                    assert(xpath_select(ctx@, sel@) =~= Seq::<GDom>::empty());
                }
                return Vec::new();
            },
        }
        si = si + 1;
    }
    if steps.len() == 0 {
        proof {
            assert(parse_path(sel@) is None);
            assert(xpath_select(ctx@, sel@) =~= Seq::<GDom>::empty());
        }
        return Vec::new();
    }
    let mut frontier: Vec<&'a Dom> = Vec::new();
    let ghost gsteps = steps_view(steps);
    if desc {
        step_descendants_exec(ctx, &steps[0], &mut frontier);
    } else {
        step_children_exec(ctx, &steps[0], &mut frontier);
    }
    let ghost gfront0: Seq<GDom> = if desc {
        step_descendants(ctx@, gsteps[0])
    } else {
        step_children(ctx@, gsteps[0])
    };
    proof {
        assert(gsteps[0] == steps@[0]@);
        assert(frontier_view(frontier) =~= gfront0);
    }
    let mut si2: usize = 1;
    while si2 < steps.len()
        invariant
            1 <= si2 <= steps@.len(),
            gsteps == steps_view(steps),
            gsteps.len() == steps@.len(),
            eval_steps(gfront0, gsteps, 1) == eval_steps(
                frontier_view(frontier),
                gsteps,
                si2 as int,
            ),
        decreases steps.len() - si2,
    {
        let mut next: Vec<&'a Dom> = Vec::new();
        let ghost gf = frontier_view(frontier);
        let mut fi: usize = 0;
        proof {
            assert(apply_step(gf, gsteps[si2 as int], 0) =~= Seq::<GDom>::empty());
        }
        while fi < frontier.len()
            invariant
                fi <= frontier@.len(),
                si2 < steps@.len(),
                gsteps == steps_view(steps),
                gsteps.len() == steps@.len(),
                gf == frontier_view(frontier),
                gf.len() == frontier@.len(),
                forall|j: int| 0 <= j < frontier@.len() ==> gf[j] == frontier@[j]@,
                next@.len() == apply_step(gf, gsteps[si2 as int], fi as int).len(),
                forall|j: int|
                    0 <= j < next@.len() ==> next@[j]@ == apply_step(
                        gf,
                        gsteps[si2 as int],
                        fi as int,
                    )[j],
            decreases frontier.len() - fi,
        {
            proof {
                assert(steps_view(steps)[si2 as int] == steps@[si2 as int]@);
            }
            step_children_exec(frontier[fi], &steps[si2], &mut next);
            fi = fi + 1;
        }
        proof {
            assert(frontier_view(next) =~= apply_step(gf, gsteps[si2 as int], gf.len() as int));
        }
        frontier = next;
        si2 = si2 + 1;
    }
    proof {
        assert(parse_path(sel@) == Option::Some((desc, gsteps)));
        assert(xpath_select(ctx@, sel@) == eval_steps(gfront0, gsteps, 1));
        assert(eval_steps(frontier_view(frontier), gsteps, steps@.len() as int) == frontier_view(
            frontier,
        ));
    }
    frontier
}

/// The views of a node list.
pub open spec fn frontier_view(v: Vec<&Dom>) -> Seq<GDom> {
    Seq::new(v@.len(), |i: int| v@[i]@)
}

/// The views of a step list.
pub open spec fn steps_view(v: Vec<Step>) -> Seq<GStep> {
    Seq::new(v@.len(), |i: int| v@[i]@)
}

pub proof fn lemma_step_list_none(parts: Seq<Seq<u8>>, n: int, j: int)
    requires
        0 <= j < n,
        parse_step(parts[j]) is None,
    ensures
        parse_step_list(parts, n) is None,
    decreases n,
{
    if j == n - 1 {
    } else {
        lemma_step_list_none(parts, n - 1, j);
    }
}

/// Splits at slashes from a start offset.
fn split_on_slash(s: &[u8], start: usize) -> (r: Vec<Vec<u8>>)
    requires
        start <= s@.len(),
    ensures
        seqs_of(r) == slash_split(s@.subrange(start as int, s@.len() as int)),
{
    let ghost rest = s@.subrange(start as int, s@.len() as int);
    let mut acc: Vec<Vec<u8>> = Vec::new();
    let mut cur: Vec<u8> = Vec::new();
    proof {
        assert(seqs_of(acc) =~= Seq::<Seq<u8>>::empty());
    }
    let mut i: usize = start;
    while i < s.len()
        invariant
            start <= i <= s@.len(),
            rest == s@.subrange(start as int, s@.len() as int),
            slash_split(rest) == slash_step(rest, i - start, cur@, seqs_of(acc)),
        decreases s@.len() - i,
    {
        let b = s[i];
        proof {
            assert(rest[i - start] == s@[i as int]);
        }
        if b != 47 {
            cur.push(b);
        } else {
            if cur.len() > 0 {
                let ghost old_acc = seqs_of(acc);
                let done = cur;
                let ghost done_view = done@;
                acc.push(done);
                cur = Vec::new();
                proof {
                    assert(seqs_of(acc) =~= old_acc.push(done_view));
                }
            }
        }
        i = i + 1;
    }
    if cur.len() > 0 {
        let ghost old_acc = seqs_of(acc);
        let done = cur;
        let ghost done_view = done@;
        acc.push(done);
        proof {
            assert(seqs_of(acc) =~= old_acc.push(done_view));
        }
    }
    acc
}

} // verus!
