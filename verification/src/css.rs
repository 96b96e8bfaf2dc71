//! A CSS selector engine over the document tree.
//!
//! The supported grammar: selector lists separated by commas, compound
//! selectors joined by the descendant combinator (whitespace) or the
//! child combinator (`>`), and in a compound a tag name or `*`,
//! `.class` terms and `#id` terms. A selector outside this subset
//! fails to parse, and a failed parse selects nothing — lookups fail
//! open. Matching of the non-final compounds considers ancestors
//! within the searched subtree, the context node included.

use vstd::prelude::*;
use vstd::string::StringSliceAdditionalSpecFns;
use crate::dom::{Dom, GDom, kids, dom_size, dom_size_seq, lemma_dom_size_elem};
use crate::tree::attr_of;
use crate::strutil::{split_acc, words_of, split_words, seqs_of, bytes_eq, is_lit};

verus! {

/// One compound selector: an optional tag, an optional id, classes,
/// and whether the combinator before it is the child combinator.
pub struct Compound {
    pub tag: Option<Vec<u8>>,
    pub id: Option<Vec<u8>>,
    pub classes: Vec<Vec<u8>>,
    pub child_of_prev: bool,
}

/// Ghost mirror of a compound selector.
#[verifier::ext_equal]
pub struct GCompound {
    pub tag: Option<Seq<u8>>,
    pub id: Option<Seq<u8>>,
    pub classes: Seq<Seq<u8>>,
    pub child_of_prev: bool,
}

pub open spec fn compound_view(c: Compound) -> GCompound {
    GCompound {
        tag: match c.tag {
            Option::Some(t) => Option::Some(t@),
            Option::None => Option::None,
        },
        id: match c.id {
            Option::Some(t) => Option::Some(t@),
            Option::None => Option::None,
        },
        classes: seqs_of(c.classes),
        child_of_prev: c.child_of_prev,
    }
}

impl View for Compound {
    type V = GCompound;

    open spec fn view(&self) -> GCompound {
        compound_view(*self)
    }
}

/// Bytes that may stand in a tag, class or id name.
pub open spec fn is_name_byte(b: u8) -> bool {
    &&& b != 46  // '.'
    &&& b != 35  // '#'
    &&& b != 91  // '['
    &&& b != 93  // ']'
    &&& b != 62  // '>'
    &&& b != 58  // ':'
    &&& b != 43  // '+'
    &&& b != 126  // '~'
    &&& b != 40  // '('
    &&& b != 41  // ')'
    &&& b != 61  // '='
    &&& b != 34  // '"'
    &&& b != 39  // '\''
}

pub fn is_name_byte_exec(b: u8) -> (r: bool)
    ensures
        r == is_name_byte(b),
{
    b != 46 && b != 35 && b != 91 && b != 93 && b != 62 && b != 58 && b != 43 && b != 126 && b
        != 40 && b != 41 && b != 61 && b != 34 && b != 39
}

/// Commits one finished segment of a compound: segment kind 0 is the
/// tag position, 1 a class, 2 an id.
pub open spec fn commit_seg(acc: GCompound, kind: u8, cur: Seq<u8>) -> Option<GCompound> {
    if kind == 0 {
        if cur.len() == 0 {
            Option::Some(acc)
        } else if cur == "*".spec_bytes() {
            Option::Some(acc)
        } else {
            Option::Some(GCompound { tag: Option::Some(cur), ..acc })
        }
    } else if cur.len() == 0 {
        Option::None
    } else if kind == 1 {
        Option::Some(GCompound { classes: acc.classes.push(cur), ..acc })
    } else {
        Option::Some(GCompound { id: Option::Some(cur), ..acc })
    }
}

/// One pass over a compound selector's bytes.
pub open spec fn parse_compound_acc(
    s: Seq<u8>,
    i: int,
    kind: u8,
    cur: Seq<u8>,
    acc: GCompound,
) -> Option<GCompound>
    decreases s.len() - i,
{
    if i < 0 || i >= s.len() {
        commit_seg(acc, kind, cur)
    } else if s[i] == 46 || s[i] == 35 {
        match commit_seg(acc, kind, cur) {
            Option::Some(acc2) => parse_compound_acc(
                s,
                i + 1,
                if s[i] == 46 {
                    1u8
                } else {
                    2u8
                },
                Seq::empty(),
                acc2,
            ),
            Option::None => Option::None,
        }
    } else if is_name_byte(s[i]) {
        parse_compound_acc(s, i + 1, kind, cur.push(s[i]), acc)
    } else {
        Option::None
    }
}

pub open spec fn empty_compound() -> GCompound {
    GCompound { tag: Option::None, id: Option::None, classes: Seq::empty(), child_of_prev: false }
}

/// A parsed compound selector, if the text is within the subset.
pub open spec fn parse_compound(s: Seq<u8>) -> Option<GCompound> {
    parse_compound_acc(s, 0, 0, Seq::empty(), empty_compound())
}

/// One pass over a complex selector's bytes: compounds separated by
/// whitespace (descendant combinator) or by `>` (child combinator).
/// `cur` is the compound being read, `pending` whether a `>` waits to
/// attach to the next compound.
pub open spec fn parse_complex_acc(
    s: Seq<u8>,
    i: int,
    cur: Seq<u8>,
    pending: bool,
    acc: Seq<GCompound>,
) -> Option<Seq<GCompound>>
    decreases s.len() - i,
{
    if i < 0 {
        Option::None
    } else if i >= s.len() {
        if cur.len() > 0 {
            match parse_compound(cur) {
                Option::Some(c) => Option::Some(
                    acc.push(GCompound { child_of_prev: pending, ..c }),
                ),
                Option::None => Option::None,
            }
        } else if pending {
            Option::None
        } else if acc.len() == 0 {
            Option::None
        } else {
            Option::Some(acc)
        }
    } else if crate::strutil::is_space(s[i]) {
        if cur.len() > 0 {
            match parse_compound(cur) {
                Option::Some(c) => parse_complex_acc(
                    s,
                    i + 1,
                    Seq::empty(),
                    false,
                    acc.push(GCompound { child_of_prev: pending, ..c }),
                ),
                Option::None => Option::None,
            }
        } else {
            parse_complex_acc(s, i + 1, cur, pending, acc)
        }
    } else if s[i] == 62 {
        if cur.len() > 0 {
            match parse_compound(cur) {
                Option::Some(c) => parse_complex_acc(
                    s,
                    i + 1,
                    Seq::empty(),
                    true,
                    acc.push(GCompound { child_of_prev: pending, ..c }),
                ),
                Option::None => Option::None,
            }
        } else if acc.len() == 0 || pending {
            Option::None
        } else {
            parse_complex_acc(s, i + 1, cur, true, acc)
        }
    } else {
        parse_complex_acc(s, i + 1, cur.push(s[i]), pending, acc)
    }
}

/// A parsed complex selector: at least one compound, combinators
/// attached; anything malformed fails.
pub open spec fn parse_complex(s: Seq<u8>) -> Option<Seq<GCompound>> {
    parse_complex_acc(s, 0, Seq::empty(), false, Seq::empty())
}

/// One splitting state with the word alphabet fixed to non-comma
/// bytes.
pub open spec fn comma_step(s: Seq<u8>, i: int, cur: Seq<u8>, acc: Seq<Seq<u8>>) -> Seq<
    Seq<u8>,
> {
    split_acc(s, i, cur, acc, |b: u8| b != 44)
}

/// The comma-separated complex selectors of a selector list.
pub open spec fn comma_split(s: Seq<u8>) -> Seq<Seq<u8>> {
    comma_step(s, 0, Seq::empty(), Seq::empty())
}

/// A parsed selector list: every comma-separated complex selector must
/// parse, and there must be at least one.
pub open spec fn parse_selector(s: Seq<u8>) -> Option<Seq<Seq<GCompound>>> {
    let complexes = comma_split(s);
    if complexes.len() == 0 {
        Option::None
    } else {
        parse_complex_list(complexes, complexes.len() as int)
    }
}

pub open spec fn parse_complex_list(parts: Seq<Seq<u8>>, n: int) -> Option<Seq<Seq<GCompound>>>
    decreases n,
{
    if n <= 0 {
        Option::Some(Seq::empty())
    } else {
        match parse_complex_list(parts, n - 1) {
            Option::Some(rest) => match parse_complex(parts[n - 1]) {
                Option::Some(c) => Option::Some(rest.push(c)),
                Option::None => Option::None,
            },
            Option::None => Option::None,
        }
    }
}

pub proof fn lemma_complex_list_none(parts: Seq<Seq<u8>>, n: int, j: int)
    requires
        0 <= j < n,
        parse_complex(parts[j]) is None,
    ensures
        parse_complex_list(parts, n) is None,
    decreases n,
{
    if j == n - 1 {
    } else {
        lemma_complex_list_none(parts, n - 1, j);
    }
}

/// Whether an element carries a class, per its whitespace-separated
/// `class` attribute.
pub open spec fn has_class(g: GDom, c: Seq<u8>) -> bool {
    match attr_of(g, "class".spec_bytes()) {
        Option::Some(v) => words_of(v).contains(c),
        Option::None => false,
    }
}

/// Whether an element satisfies one compound selector.
pub open spec fn compound_matches(g: GDom, c: GCompound) -> bool {
    &&& g is Element
    &&& match c.tag {
        Option::Some(t) => g->Element_tag == t,
        Option::None => true,
    }
    &&& match c.id {
        Option::Some(idv) => attr_of(g, "id".spec_bytes()) == Option::Some(idv),
        Option::None => true,
    }
    &&& forall|k: int| 0 <= k < c.classes.len() ==> has_class(g, #[trigger] c.classes[k])
}

/// The ancestor state of one chain: slot `p` set means compounds
/// before `p` have been matched along the path, respecting their
/// combinators, so the chain now waits to match compound `p`.
/// Advancing past a node keeps a slot where the next combinator is the
/// descendant combinator, and fills the next slot where the node
/// matches the waited-for compound; a slot whose compound must be an
/// immediate child lives only one level down.
pub open spec fn advance_one(g: GDom, chain: Seq<GCompound>, st: Seq<bool>) -> Seq<bool> {
    Seq::new(
        st.len(),
        |p: int|
            (st[p] && (p == 0 || !chain[p].child_of_prev)) || (p >= 1 && st[p - 1]
                && compound_matches(g, chain[p - 1])),
    )
}

/// Whether a node is selected by one chain given its ancestor state.
pub open spec fn chain_hit(g: GDom, chain: Seq<GCompound>, st: Seq<bool>) -> bool {
    &&& chain.len() >= 1
    &&& st.len() == chain.len()
    &&& st[chain.len() - 1]
    &&& compound_matches(g, chain[chain.len() - 1])
}

/// Whether a node is selected by any chain of the list.
pub open spec fn any_hit(g: GDom, chains: Seq<Seq<GCompound>>, states: Seq<Seq<bool>>) -> bool {
    exists|k: int| 0 <= k < chains.len() && chain_hit(g, #[trigger] chains[k], states[k])
}

pub open spec fn advance_all(
    g: GDom,
    chains: Seq<Seq<GCompound>>,
    states: Seq<Seq<bool>>,
) -> Seq<Seq<bool>> {
    Seq::new(states.len(), |k: int| advance_one(g, chains[k], states[k]))
}

/// The starting state of each chain: only the first slot set.
pub open spec fn init_states(chains: Seq<Seq<GCompound>>) -> Seq<Seq<bool>> {
    Seq::new(chains.len(), |k: int| Seq::new(chains[k].len(), |p: int| p == 0))
}

/// The selected descendants below a node, in document order.
pub open spec fn css_collect_kids(
    s: Seq<GDom>,
    chains: Seq<Seq<GCompound>>,
    states: Seq<Seq<bool>>,
) -> Seq<GDom>
    decreases s, 0nat,
{
    if s.len() == 0 {
        Seq::empty()
    } else {
        css_collect_node(s[0], chains, states) + css_collect_kids(
            s.subrange(1, s.len() as int),
            chains,
            states,
        )
    }
}

pub open spec fn css_collect_node(
    g: GDom,
    chains: Seq<Seq<GCompound>>,
    states: Seq<Seq<bool>>,
) -> Seq<GDom>
    decreases g, 1nat,
{
    match g {
        GDom::Element { tag, attrs, children } => {
            let hit: Seq<GDom> = if any_hit(g, chains, states) {
                seq![g]
            } else {
                Seq::empty()
            };
            hit + css_collect_kids(children, chains, advance_all(g, chains, states))
        },
        GDom::Document { children } => css_collect_kids(children, chains, states),
        _ => Seq::empty(),
    }
}

/// The descendants of `ctx` selected by a selector text, in document
/// order; an unparsable selector selects nothing.
pub open spec fn css_select(ctx: GDom, sel: Seq<u8>) -> Seq<GDom> {
    match parse_selector(sel) {
        Option::Some(chains) => css_collect_kids(
            kids(ctx),
            chains,
            advance_all(ctx, chains, init_states(chains)),
        ),
        Option::None => Seq::empty(),
    }
}


/// The views of a chain list.
pub open spec fn chains_view(v: Vec<Vec<Compound>>) -> Seq<Seq<GCompound>> {
    Seq::new(v@.len(), |i: int| Seq::new(v@[i]@.len(), |j: int| v@[i]@[j]@))
}

/// The views of a state list.
pub open spec fn states_view(v: Vec<Vec<bool>>) -> Seq<Seq<bool>> {
    Seq::new(v@.len(), |i: int| v@[i]@)
}

/// Splits a selector list at commas.
pub fn split_commas(s: &[u8]) -> (r: Vec<Vec<u8>>)
    ensures
        seqs_of(r) == comma_split(s@),
{
    let mut acc: Vec<Vec<u8>> = Vec::new();
    let mut cur: Vec<u8> = Vec::new();
    proof {
        assert(seqs_of(acc) =~= Seq::<Seq<u8>>::empty());
    }
    let mut i: usize = 0;
    while i < s.len()
        invariant
            i <= s.len(),
            comma_split(s@) == comma_step(s@, i as int, cur@, seqs_of(acc)),
        decreases s.len() - i,
    {
        let b = s[i];
        if b != 44 {
            cur.push(b);
        } else {
            if cur.len() > 0 {
                let ghost old_acc = seqs_of(acc);
                let done = cur;
                let ghost done_view = done@;
                acc.push(done);
                cur = Vec::new();
                proof {
                    assert(seqs_of(acc) =~= old_acc.push(done_view));
                }
            }
        }
        i = i + 1;
    }
    if cur.len() > 0 {
        let ghost old_acc = seqs_of(acc);
        let done = cur;
        let ghost done_view = done@;
        acc.push(done);
        proof {
            assert(seqs_of(acc) =~= old_acc.push(done_view));
        }
    }
    acc
}

/// Parses one compound selector.
pub fn parse_compound_exec(s: &[u8]) -> (r: Option<Compound>)
    ensures
        match r {
            Option::Some(c) => parse_compound(s@) == Option::Some(c@),
            Option::None => parse_compound(s@) is None,
        },
{
    let mut kind: u8 = 0;
    let mut cur: Vec<u8> = Vec::new();
    let mut acc = Compound {
        tag: Option::None,
        id: Option::None,
        classes: Vec::new(),
        child_of_prev: false,
    };
    proof {
        assert(acc@ =~= empty_compound());
    }
    let mut i: usize = 0;
    while i < s.len()
        invariant
            i <= s.len(),
            kind == 0 || kind == 1 || kind == 2,
            parse_compound(s@) == parse_compound_acc(s@, i as int, kind, cur@, acc@),
        decreases s.len() - i,
    {
        let b = s[i];
        if b == 46 || b == 35 {
            match commit_seg_exec(acc, kind, &cur) {
                Option::Some(acc2) => {
                    acc = acc2;
                    cur = Vec::new();
                    kind = if b == 46 {
                        1
                    } else {
                        2
                    };
                },
                Option::None => {
                    return Option::None;
                },
            }
        } else if is_name_byte_exec(b) {
            cur.push(b);
        } else {
            return Option::None;
        }
        i = i + 1;
    }
    commit_seg_exec(acc, kind, &cur)
}

/// Commits one finished segment.
fn commit_seg_exec(acc: Compound, kind: u8, cur: &Vec<u8>) -> (r: Option<Compound>)
    ensures
        match r {
            Option::Some(c) => commit_seg(acc@, kind, cur@) == Option::Some(c@),
            Option::None => commit_seg(acc@, kind, cur@) is None,
        },
{
    let ghost ga = acc@;
    if kind == 0 {
        if cur.len() == 0 || is_lit(cur.as_slice(), "*") {
            Option::Some(acc)
        } else {
            let r = Compound {
                tag: Option::Some(vstd::slice::slice_to_vec(cur.as_slice())),
                id: acc.id,
                classes: acc.classes,
                child_of_prev: acc.child_of_prev,
            };
            proof {
                assert(r@ =~= (GCompound { tag: Option::Some(cur@), ..ga }));
            }
            Option::Some(r)
        }
    } else if cur.len() == 0 {
        Option::None
    } else if kind == 1 {
        let mut classes = acc.classes;
        let ghost old_classes = seqs_of(classes);
        classes.push(vstd::slice::slice_to_vec(cur.as_slice()));
        let r = Compound { tag: acc.tag, id: acc.id, classes, child_of_prev: acc.child_of_prev };
        proof {
            assert(seqs_of(r.classes) =~= old_classes.push(cur@));
            assert(r@ =~= (GCompound { classes: ga.classes.push(cur@), ..ga }));
        }
        Option::Some(r)
    } else {
        let r = Compound {
            tag: acc.tag,
            id: Option::Some(vstd::slice::slice_to_vec(cur.as_slice())),
            classes: acc.classes,
            child_of_prev: acc.child_of_prev,
        };
        proof {
            assert(r@ =~= (GCompound { id: Option::Some(cur@), ..ga }));
        }
        Option::Some(r)
    }
}

/// Parses a selector list; anything outside the subset gives nothing.
pub fn parse_selector_exec(s: &[u8]) -> (r: Option<Vec<Vec<Compound>>>)
    ensures
        match r {
            Option::Some(cs) => parse_selector(s@) == Option::Some(chains_view(cs)),
            Option::None => parse_selector(s@) is None,
        },
{
    let complexes = split_commas(s);
    if complexes.len() == 0 {
        return Option::None;
    }
    let mut chains: Vec<Vec<Compound>> = Vec::new();
    let ghost gcomplexes = comma_split(s@);
    let mut i: usize = 0;
    proof {
        assert(parse_complex_list(gcomplexes, 0) == Option::Some(Seq::<Seq<GCompound>>::empty()));
        assert(chains_view(chains) =~= Seq::<Seq<GCompound>>::empty());
    }
    while i < complexes.len()
        invariant
            i <= complexes.len(),
            gcomplexes == comma_split(s@),
            seqs_of(complexes) == gcomplexes,
            complexes@.len() == gcomplexes.len(),
            parse_complex_list(gcomplexes, i as int) == Option::Some(chains_view(chains)),
        decreases complexes.len() - i,
    {
        match parse_complex_exec(complexes[i].as_slice()) {
            Option::Some(chain) => {
                let ghost before_chains = chains_view(chains);
                let ghost chv = Seq::new(chain@.len(), |m: int| chain@[m]@);
                chains.push(chain);
                proof {
                    assert(chains_view(chains) =~= before_chains.push(chv));
                }
            },
            Option::None => {
                proof {
                    lemma_complex_list_none(gcomplexes, gcomplexes.len() as int, i as int);
                }
                return Option::None;
            },
        }
        i = i + 1;
    }
    Option::Some(chains)
}

/// Parses one complex selector: compounds joined by whitespace or
/// `>`.
fn parse_complex_exec(seg: &[u8]) -> (r: Option<Vec<Compound>>)
    ensures
        match r {
            Option::Some(chain) => parse_complex(seg@) == Option::Some(
                Seq::new(chain@.len(), |m: int| chain@[m]@),
            ),
            Option::None => parse_complex(seg@) is None,
        },
{
    let mut chain: Vec<Compound> = Vec::new();
    let mut cur: Vec<u8> = Vec::new();
    let mut pending = false;
    let mut j: usize = 0;
    proof {
        assert(Seq::new(chain@.len(), |m: int| chain@[m]@) =~= Seq::<GCompound>::empty());
    }
    while j < seg.len()
        invariant
            j <= seg@.len(),
            parse_complex(seg@) == parse_complex_acc(
                seg@,
                j as int,
                cur@,
                pending,
                Seq::new(chain@.len(), |m: int| chain@[m]@),
            ),
        decreases seg@.len() - j,
    {
        let b = seg[j];
        if crate::strutil::is_space_exec(b) {
            if cur.len() > 0 {
                match commit_compound(&cur, pending, &mut chain) {
                    true => {
                        cur = Vec::new();
                        pending = false;
                    },
                    false => {
                        return Option::None;
                    },
                }
            }
        } else if b == 62 {
            if cur.len() > 0 {
                match commit_compound(&cur, pending, &mut chain) {
                    true => {
                        cur = Vec::new();
                        pending = true;
                    },
                    false => {
                        return Option::None;
                    },
                }
            } else if chain.len() == 0 || pending {
                return Option::None;
            } else {
                pending = true;
            }
        } else {
            cur.push(b);
        }
        j = j + 1;
    }
    if cur.len() > 0 {
        if !commit_compound(&cur, pending, &mut chain) {
            return Option::None;
        }
    } else if pending || chain.len() == 0 {
        return Option::None;
    }
    Option::Some(chain)
}

/// Parses and appends one compound with its combinator flag; reports
/// whether the compound text parsed.
fn commit_compound(cur: &Vec<u8>, pending: bool, chain: &mut Vec<Compound>) -> (ok: bool)
    ensures
        ok ==> (parse_compound(cur@) matches Option::Some(pc) && Seq::new(
            final(chain)@.len(),
            |m: int| final(chain)@[m]@,
        ) == Seq::new(old(chain)@.len(), |m: int| old(chain)@[m]@).push(
            GCompound { child_of_prev: pending, ..pc },
        )),
        !ok ==> (parse_compound(cur@) is None && *final(chain) == *old(chain)),
{
    match parse_compound_exec(cur.as_slice()) {
        Option::Some(c) => {
            let Compound { tag, id, classes, child_of_prev: _unused } = c;
            let nc = Compound { tag, id, classes, child_of_prev: pending };
            let ghost before = Seq::new(chain@.len(), |m: int| chain@[m]@);
            let ghost ncv = nc@;
            chain.push(nc);
            proof {
                assert(ncv =~= (GCompound {
                    child_of_prev: pending,
                    ..parse_compound(cur@)->Some_0
                }));
                assert(Seq::new(chain@.len(), |m: int| chain@[m]@) =~= before.push(ncv));
            }
            true
        },
        Option::None => false,
    }
}

/// Whether an element carries the class.
pub fn has_class_exec(d: &Dom, c: &[u8]) -> (r: bool)
    ensures
        r == has_class(d@, c@),
{
    match crate::tree::get_attr(d, "class") {
        Option::Some(v) => {
            let ws = split_words(v.as_slice());
            let mut i: usize = 0;
            while i < ws.len()
                invariant
                    i <= ws.len(),
                    attr_of(d@, "class".spec_bytes()) == Option::Some(v@),
                    seqs_of(ws) == words_of(v@),
                    ws@.len() == words_of(v@).len(),
                    forall|j: int| 0 <= j < i ==> words_of(v@)[j] != c@,
                decreases ws.len() - i,
            {
                if bytes_eq(ws[i].as_slice(), c) {
                    proof {
                        assert(words_of(v@)[i as int] == c@);
                        assert(words_of(v@).contains(c@));
                    }
                    return true;
                }
                i = i + 1;
            }
            proof {
                assert(!words_of(v@).contains(c@));
            }
            false
        },
        Option::None => false,
    }
}

/// Whether an element satisfies one compound selector.
pub fn compound_matches_exec(d: &Dom, c: &Compound) -> (r: bool)
    ensures
        r == compound_matches(d@, c@),
{
    let tag: &Vec<u8> = match d {
        Dom::Element { tag, attrs, children } => tag,
        _ => {
            return false;
        },
    };
    let tag_ok = match &c.tag {
        Option::Some(t) => bytes_eq(tag.as_slice(), t.as_slice()),
        Option::None => true,
    };
    if !tag_ok {
        return false;
    }
    let id_ok = match &c.id {
        Option::Some(idv) => match crate::tree::get_attr(d, "id") {
            Option::Some(actual) => bytes_eq(actual.as_slice(), idv.as_slice()),
            Option::None => false,
        },
        Option::None => true,
    };
    if !id_ok {
        return false;
    }
    let mut k: usize = 0;
    while k < c.classes.len()
        invariant
            k <= c.classes.len(),
            forall|m: int| 0 <= m < k ==> has_class(d@, c@.classes[m]),
            c@.classes.len() == c.classes@.len(),
            forall|m: int| 0 <= m < c.classes@.len() ==> c@.classes[m] == c.classes@[m]@,
        decreases c.classes.len() - k,
    {
        if !has_class_exec(d, c.classes[k].as_slice()) {
            proof {
                assert(!has_class(d@, c@.classes[k as int]));
                assert(!compound_matches(d@, c@));
            }
            return false;
        }
        k = k + 1;
    }
    true
}

/// Whether any chain selects the node in its current state.
fn any_hit_exec(d: &Dom, chains: &Vec<Vec<Compound>>, states: &Vec<Vec<bool>>) -> (r: bool)
    requires
        states@.len() == chains@.len(),
    ensures
        r == any_hit(d@, chains_view(*chains), states_view(*states)),
{
    let mut k: usize = 0;
    while k < chains.len()
        invariant
            k <= chains@.len(),
            states@.len() == chains@.len(),
            forall|m: int|
                0 <= m < k ==> !chain_hit(
                    d@,
                    #[trigger] chains_view(*chains)[m],
                    states_view(*states)[m],
                ),
        decreases chains.len() - k,
    {
        let chain = &chains[k];
        let st = &states[k];
        if chain.len() >= 1 && st.len() == chain.len() && st[chain.len() - 1] {
            let last = &chain[chain.len() - 1];
            proof {
                assert(chains_view(*chains)[k as int][chain@.len() - 1] == chain@[chain@.len()
                    - 1]@);
                assert(states_view(*states)[k as int] == st@);
            }
            if compound_matches_exec(d, last) {
                return true;
            }
        }
        k = k + 1;
    }
    false
}

/// The advanced states after passing this node.
fn advance_all_exec(d: &Dom, chains: &Vec<Vec<Compound>>, states: &Vec<Vec<bool>>) -> (r: Vec<
    Vec<bool>,
>)
    requires
        states@.len() == chains@.len(),
        forall|m: int| 0 <= m < states@.len() ==> states@[m]@.len() == chains@[m]@.len(),
    ensures
        states_view(r) == advance_all(d@, chains_view(*chains), states_view(*states)),
        r@.len() == states@.len(),
        forall|m: int| 0 <= m < r@.len() ==> r@[m]@.len() == chains@[m]@.len(),
{
    let mut out: Vec<Vec<bool>> = Vec::new();
    let mut k: usize = 0;
    while k < states.len()
        invariant
            k <= states@.len(),
            states@.len() == chains@.len(),
            forall|m: int| 0 <= m < states@.len() ==> states@[m]@.len() == chains@[m]@.len(),
            out@.len() == k,
            forall|m: int| 0 <= m < k ==> out@[m]@.len() == chains@[m]@.len(),
            forall|m: int|
                0 <= m < k ==> out@[m]@ == advance_one(
                    d@,
                    chains_view(*chains)[m],
                    states_view(*states)[m],
                ),
        decreases states.len() - k,
    {
        let st = &states[k];
        let chain = &chains[k];
        let mut matched: Vec<bool> = Vec::new();
        let mut p: usize = 0;
        while p < chain.len()
            invariant
                p <= chain@.len(),
                k < chains@.len(),
                chain@ == chains@[k as int]@,
                matched@.len() == p,
                forall|q: int|
                    0 <= q < p ==> matched@[q] == compound_matches(
                        d@,
                        chains_view(*chains)[k as int][q],
                    ),
            decreases chain.len() - p,
        {
            proof {
                assert(chains_view(*chains)[k as int][p as int] == chain@[p as int]@);
            }
            let hit = compound_matches_exec(d, &chain[p]);
            matched.push(hit);
            p = p + 1;
        }
        let mut next: Vec<bool> = Vec::new();
        let mut q: usize = 0;
        while q < st.len()
            invariant
                q <= st@.len(),
                k < chains@.len(),
                k < states@.len(),
                chain@ == chains@[k as int]@,
                st@ == states@[k as int]@,
                st@.len() == chains@[k as int]@.len(),
                matched@.len() == chains@[k as int]@.len(),
                forall|t: int|
                    0 <= t < matched@.len() ==> matched@[t] == compound_matches(
                        d@,
                        chains_view(*chains)[k as int][t],
                    ),
                next@.len() == q,
                forall|t: int|
                    0 <= t < q ==> next@[t] == advance_one(
                        d@,
                        chains_view(*chains)[k as int],
                        states_view(*states)[k as int],
                    )[t],
            decreases st.len() - q,
        {
            let persist = st[q] && (q == 0 || !chains[k][q].child_of_prev);
            let created = q >= 1 && st[q - 1] && matched[q - 1];
            proof {
                assert(chains_view(*chains)[k as int][q as int] == chains@[k as int]@[q as int]@);
                assert(states_view(*states)[k as int] == st@);
            }
            next.push(persist || created);
            q = q + 1;
        }
        let ghost before = states_view(out);
        let ghost nv = next@;
        out.push(next);
        proof {
            assert(nv =~= advance_one(
                d@,
                chains_view(*chains)[k as int],
                states_view(*states)[k as int],
            ));
            assert(states_view(out) =~= before.push(nv));
        }
        k = k + 1;
    }
    proof {
        assert(states_view(out) =~= advance_all(d@, chains_view(*chains), states_view(*states)));
    }
    out
}

/// Collects the selected nodes below a sibling list, in document order.
fn css_collect_exec<'a>(
    children: &'a Vec<Dom>,
    chains: &Vec<Vec<Compound>>,
    states: &Vec<Vec<bool>>,
    out: &mut Vec<&'a Dom>,
    parent: Ghost<GDom>,
)
    requires
        kids(parent@).len() == children@.len(),
        forall|j: int| 0 <= j < children@.len() ==> kids(parent@)[j] == children@[j]@,
        states@.len() == chains@.len(),
        forall|m: int| 0 <= m < states@.len() ==> states@[m]@.len() == chains@[m]@.len(),
    ensures
        final(out)@.len() == old(out)@.len() + css_collect_kids(
            kids(parent@),
            chains_view(*chains),
            states_view(*states),
        ).len(),
        forall|j: int| 0 <= j < old(out)@.len() ==> final(out)@[j] == old(out)@[j],
        forall|j: int|
            0 <= j < css_collect_kids(
                kids(parent@),
                chains_view(*chains),
                states_view(*states),
            ).len() ==> final(out)@[old(out)@.len() + j]@ == css_collect_kids(
                kids(parent@),
                chains_view(*chains),
                states_view(*states),
            )[j],
    decreases dom_size(parent@), 0nat,
{
    let ghost gkids = kids(parent@);
    let ghost gchains = chains_view(*chains);
    let ghost gstates = states_view(*states);
    let mut i: usize = 0;
    proof {
        assert(css_collect_kids(gkids.subrange(0, 0), gchains, gstates)
            =~= Seq::<GDom>::empty());
    }
    while i < children.len()
        invariant
            i <= children.len(),
            gkids == kids(parent@),
            gchains == chains_view(*chains),
            gstates == states_view(*states),
            gkids.len() == children@.len(),
            forall|j: int| 0 <= j < children@.len() ==> gkids[j] == children@[j]@,
            states@.len() == chains@.len(),
            forall|m: int| 0 <= m < states@.len() ==> states@[m]@.len() == chains@[m]@.len(),
            dom_size_seq(gkids) < dom_size(parent@),
            out@.len() == old(out)@.len() + css_collect_kids(
                gkids.subrange(0, i as int),
                gchains,
                gstates,
            ).len(),
            forall|j: int| 0 <= j < old(out)@.len() ==> out@[j] == old(out)@[j],
            forall|j: int|
                0 <= j < css_collect_kids(gkids.subrange(0, i as int), gchains, gstates).len()
                    ==> out@[old(out)@.len() + j]@ == css_collect_kids(
                    gkids.subrange(0, i as int),
                    gchains,
                    gstates,
                )[j],
        decreases children.len() - i,
    {
        proof {
            lemma_dom_size_elem(gkids, i as int);
        }
        css_collect_node_exec(&children[i], chains, states, out);
        proof {
            lemma_css_collect_snoc(gkids, gchains, gstates, i as int);
        }
        i = i + 1;
    }
    proof {
        assert(gkids.subrange(0, gkids.len() as int) =~= gkids);
    }
}

fn css_collect_node_exec<'a>(
    d: &'a Dom,
    chains: &Vec<Vec<Compound>>,
    states: &Vec<Vec<bool>>,
    out: &mut Vec<&'a Dom>,
)
    requires
        states@.len() == chains@.len(),
        forall|m: int| 0 <= m < states@.len() ==> states@[m]@.len() == chains@[m]@.len(),
    ensures
        final(out)@.len() == old(out)@.len() + css_collect_node(
            d@,
            chains_view(*chains),
            states_view(*states),
        ).len(),
        forall|j: int| 0 <= j < old(out)@.len() ==> final(out)@[j] == old(out)@[j],
        forall|j: int|
            0 <= j < css_collect_node(d@, chains_view(*chains), states_view(*states)).len()
                ==> final(out)@[old(out)@.len() + j]@ == css_collect_node(
                d@,
                chains_view(*chains),
                states_view(*states),
            )[j],
    decreases dom_size(d@), 1nat,
{
    match d {
        Dom::Element { tag, attrs, children } => {
            if any_hit_exec(d, chains, states) {
                out.push(d);
            }
            let next = advance_all_exec(d, chains, states);
            css_collect_exec(children, chains, &next, out, Ghost(d@));
        },
        Dom::Document { children } => {
            css_collect_exec(children, chains, states, out, Ghost(d@));
        },
        _ => {
            proof {
                assert(css_collect_node(d@, chains_view(*chains), states_view(*states))
                    =~= Seq::<GDom>::empty());
            }
        },
    }
}

pub proof fn lemma_css_collect_snoc(
    s: Seq<GDom>,
    chains: Seq<Seq<GCompound>>,
    states: Seq<Seq<bool>>,
    n: int,
)
    requires
        0 <= n < s.len(),
    ensures
        css_collect_kids(s.subrange(0, n + 1), chains, states) == css_collect_kids(
            s.subrange(0, n),
            chains,
            states,
        ) + css_collect_node(s[n], chains, states),
    decreases n,
{
    let p1 = s.subrange(0, n + 1);
    let p0 = s.subrange(0, n);
    if n == 0 {
        assert(p0 =~= Seq::empty());
        assert(p1.subrange(1, 1) =~= Seq::<GDom>::empty());
        assert(css_collect_kids(p1, chains, states) =~= css_collect_kids(p0, chains, states)
            + css_collect_node(s[0], chains, states));
    } else {
        let t = s.subrange(1, s.len() as int);
        lemma_css_collect_snoc(t, chains, states, n - 1);
        assert(p1.subrange(1, n + 1) =~= t.subrange(0, n));
        assert(p0.subrange(1, n) =~= t.subrange(0, n - 1));
        assert(t[n - 1] == s[n]);
        assert(css_collect_kids(p1, chains, states) =~= css_collect_kids(p0, chains, states)
            + css_collect_node(s[n], chains, states));
    }
}

/// Selects the descendants of `ctx` matching a selector text, in
/// document order; an unparsable selector selects nothing.
pub fn css_select_exec<'a>(ctx: &'a Dom, sel: &[u8]) -> (r: Vec<&'a Dom>)
    ensures
        r@.len() == css_select(ctx@, sel@).len(),
        forall|j: int|
            0 <= j < r@.len() ==> r@[j]@ == css_select(ctx@, sel@)[j],
{
    let mut out: Vec<&'a Dom> = Vec::new();
    match parse_selector_exec(sel) {
        Option::Some(chains) => {
            let mut states: Vec<Vec<bool>> = Vec::new();
            let mut k: usize = 0;
            while k < chains.len()
                invariant
                    k <= chains@.len(),
                    states@.len() == k,
                    forall|m: int| 0 <= m < k ==> states@[m]@.len() == chains@[m]@.len(),
                    forall|m: int| 0 <= m < k ==> states@[m]@ == init_states(
                        chains_view(chains),
                    )[m],
                decreases chains.len() - k,
            {
                let chain = &chains[k];
                let mut st: Vec<bool> = Vec::new();
                let mut p: usize = 0;
                while p < chain.len()
                    invariant
                        p <= chain@.len(),
                        st@.len() == p,
                        forall|q: int| 0 <= q < p ==> st@[q] == (q == 0),
                    decreases chain.len() - p,
                {
                    st.push(p == 0);
                    p = p + 1;
                }
                let ghost stv = st@;
                states.push(st);
                proof {
                    assert(stv =~= init_states(chains_view(chains))[k as int]);
                }
                k = k + 1;
            }
            proof {
                assert(states_view(states) =~= init_states(chains_view(chains)));
            }
            let start = advance_all_exec(ctx, &chains, &states);
            match ctx {
                Dom::Element { tag, attrs, children } => {
                    css_collect_exec(children, &chains, &start, &mut out, Ghost(ctx@));
                },
                Dom::Document { children } => {
                    css_collect_exec(children, &chains, &start, &mut out, Ghost(ctx@));
                },
                _ => {
                    proof {
                        assert(css_collect_kids(
                            kids(ctx@),
                            chains_view(chains),
                            states_view(start),
                        ) =~= Seq::<GDom>::empty());
                    }
                },
            }
            out
        },
        Option::None => out,
    }
}

} // verus!
