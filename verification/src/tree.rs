//! Read-only queries over the document tree: text content, element
//! search by tag name, and attribute lookup.

use vstd::prelude::*;
use vstd::string::StringSliceAdditionalSpecFns;
use crate::dom::{Dom, GDom, kids, dom_size, dom_size_seq, lemma_dom_size_elem};
use crate::strutil::{append_bytes, is_lit};

verus! {

/// The concatenated text content of a subtree, in document order.
pub open spec fn text_of(g: GDom) -> Seq<u8>
    decreases g,
{
    match g {
        GDom::Text { text } => text,
        GDom::Document { children } => text_seq(children),
        GDom::Element { tag, attrs, children } => text_seq(children),
        _ => Seq::empty(),
    }
}

pub open spec fn text_seq(s: Seq<GDom>) -> Seq<u8>
    decreases s,
{
    if s.len() == 0 {
        Seq::empty()
    } else {
        text_of(s[0]) + text_seq(s.subrange(1, s.len() as int))
    }
}

pub proof fn lemma_text_seq_snoc(s: Seq<GDom>, n: int)
    requires
        0 <= n < s.len(),
    ensures
        text_seq(s.subrange(0, n + 1)) == text_seq(s.subrange(0, n)) + text_of(s[n]),
    decreases n,
{
    let p1 = s.subrange(0, n + 1);
    let p0 = s.subrange(0, n);
    if n == 0 {
        assert(p0 =~= Seq::empty());
        assert(p1.subrange(1, 1) =~= Seq::<GDom>::empty());
        assert(text_seq(p1) =~= text_seq(p0) + text_of(s[0]));
    } else {
        let t = s.subrange(1, s.len() as int);
        lemma_text_seq_snoc(t, n - 1);
        assert(p1.subrange(1, n + 1) =~= t.subrange(0, n));
        assert(p0.subrange(1, n) =~= t.subrange(0, n - 1));
        assert(t[n - 1] == s[n]);
        assert(text_seq(p1) =~= text_seq(p0) + text_of(s[n]));
    }
}

/// Appends the text content of `d` to `out`.
pub fn text_into(d: &Dom, out: &mut Vec<u8>)
    ensures
        final(out)@ == old(out)@ + text_of(d@),
    decreases dom_size(d@), 1nat,
{
    match d {
        Dom::Text { text } => {
            append_bytes(out, text.as_slice());
        },
        Dom::Document { children } => {
            text_children_into(children, out, Ghost(d@));
        },
        Dom::Element { tag, attrs, children } => {
            text_children_into(children, out, Ghost(d@));
        },
        Dom::Comment => {
            proof {
                assert(out@ =~= old(out)@ + text_of(d@));
            }
        },
        Dom::Other => {
            proof {
                assert(out@ =~= old(out)@ + text_of(d@));
            }
        },
    }
}

fn text_children_into(children: &Vec<Dom>, out: &mut Vec<u8>, parent: Ghost<GDom>)
    requires
        kids(parent@).len() == children@.len(),
        forall|j: int| 0 <= j < children@.len() ==> kids(parent@)[j] == children@[j]@,
    ensures
        final(out)@ == old(out)@ + text_seq(kids(parent@)),
    decreases dom_size(parent@), 0nat,
{
    let ghost gkids = kids(parent@);
    let mut i: usize = 0;
    proof {
        assert(gkids.subrange(0, 0) =~= Seq::empty());
    }
    while i < children.len()
        invariant
            i <= children.len(),
            gkids == kids(parent@),
            gkids.len() == children@.len(),
            forall|j: int| 0 <= j < children@.len() ==> gkids[j] == children@[j]@,
            out@ == old(out)@ + text_seq(gkids.subrange(0, i as int)),
            dom_size_seq(gkids) < dom_size(parent@),
        decreases children.len() - i,
    {
        proof {
            lemma_dom_size_elem(gkids, i as int);
        }
        text_into(&children[i], out);
        proof {
            lemma_text_seq_snoc(gkids, i as int);
            assert(out@ =~= old(out)@ + text_seq(gkids.subrange(0, i + 1)));
        }
        i = i + 1;
    }
    proof {
        assert(gkids.subrange(0, gkids.len() as int) =~= gkids);
    }
}

/// The text content of a subtree, as fresh bytes.
pub fn node_text(d: &Dom) -> (r: Vec<u8>)
    ensures
        r@ == text_of(d@),
{
    let mut out: Vec<u8> = Vec::new();
    text_into(d, &mut out);
    out
}

/// The first element with the given tag, in pre-order; the node itself
/// counts.
pub open spec fn first_elem(g: GDom, tag: Seq<u8>) -> Option<GDom>
    decreases g, 1nat,
{
    match g {
        GDom::Element { tag: t, attrs, children } => if t == tag {
            Some(g)
        } else {
            first_elem_seq(children, tag)
        },
        GDom::Document { children } => first_elem_seq(children, tag),
        _ => None,
    }
}

pub open spec fn first_elem_seq(s: Seq<GDom>, tag: Seq<u8>) -> Option<GDom>
    decreases s, 0nat,
{
    if s.len() == 0 {
        None
    } else if first_elem(s[0], tag) is Some {
        first_elem(s[0], tag)
    } else {
        first_elem_seq(s.subrange(1, s.len() as int), tag)
    }
}

/// Finds the first element with the given tag, in pre-order.
pub fn find_elem<'a>(d: &'a Dom, tag: &str) -> (r: Option<&'a Dom>)
    ensures
        match r {
            Some(e) => first_elem(d@, tag.spec_bytes()) == Some(e@),
            None => first_elem(d@, tag.spec_bytes()) is None,
        },
    decreases dom_size(d@),
{
    let ghost g = d@;
    if let Dom::Element { tag: t, attrs, children } = d {
        if is_lit(t.as_slice(), tag) {
            return Some(d);
        }
    }
    let children: &Vec<Dom> = match d {
        Dom::Document { children } => children,
        Dom::Element { tag: t, attrs, children } => children,
        _ => {
            return None;
        },
    };
    let mut i: usize = 0;
    proof {
        assert(kids(g).subrange(0, kids(g).len() as int) =~= kids(g));
    }
    while i < children.len()
        invariant
            i <= children.len(),
            g == d@,
            kids(g).len() == children@.len(),
            forall|j: int| 0 <= j < children@.len() ==> kids(g)[j] == children@[j]@,
            first_elem_seq(kids(g), tag.spec_bytes()) == first_elem_seq(
                kids(g).subrange(i as int, kids(g).len() as int),
                tag.spec_bytes(),
            ),
            !(g is Element && g->Element_tag == tag.spec_bytes()),
        decreases children.len() - i,
    {
        proof {
            lemma_dom_size_elem(kids(g), i as int);
            assert(kids(g).subrange(i as int, kids(g).len() as int)[0] == kids(g)[i as int]);
        }
        let r = find_elem(&children[i], tag);
        if r.is_some() {
            return r;
        }
        proof {
            assert(kids(g).subrange(i as int, kids(g).len() as int).subrange(
                1,
                kids(g).len() - i,
            ) =~= kids(g).subrange(i + 1, kids(g).len() as int));
        }
        i = i + 1;
    }
    proof {
        assert(kids(g).subrange(children@.len() as int, kids(g).len() as int)
            =~= Seq::<GDom>::empty());
    }
    None
}

/// Every element with the given tag in a subtree, in document order;
/// the node itself counts.
pub open spec fn elems_of(g: GDom, tag: Seq<u8>) -> Seq<GDom>
    decreases g, 1nat,
{
    match g {
        GDom::Element { tag: t, attrs, children } => if t == tag {
            seq![g] + elems_seq(children, tag)
        } else {
            elems_seq(children, tag)
        },
        GDom::Document { children } => elems_seq(children, tag),
        _ => Seq::empty(),
    }
}

pub open spec fn elems_seq(s: Seq<GDom>, tag: Seq<u8>) -> Seq<GDom>
    decreases s, 0nat,
{
    if s.len() == 0 {
        Seq::empty()
    } else {
        elems_of(s[0], tag) + elems_seq(s.subrange(1, s.len() as int), tag)
    }
}

pub proof fn lemma_elems_seq_snoc(s: Seq<GDom>, tag: Seq<u8>, n: int)
    requires
        0 <= n < s.len(),
    ensures
        elems_seq(s.subrange(0, n + 1), tag) == elems_seq(s.subrange(0, n), tag) + elems_of(
            s[n],
            tag,
        ),
    decreases n,
{
    let p1 = s.subrange(0, n + 1);
    let p0 = s.subrange(0, n);
    if n == 0 {
        assert(p0 =~= Seq::empty());
        assert(p1.subrange(1, 1) =~= Seq::<GDom>::empty());
        assert(elems_seq(p1, tag) =~= elems_seq(p0, tag) + elems_of(s[0], tag));
    } else {
        let t = s.subrange(1, s.len() as int);
        lemma_elems_seq_snoc(t, tag, n - 1);
        assert(p1.subrange(1, n + 1) =~= t.subrange(0, n));
        assert(p0.subrange(1, n) =~= t.subrange(0, n - 1));
        assert(t[n - 1] == s[n]);
        assert(elems_seq(p1, tag) =~= elems_seq(p0, tag) + elems_of(s[n], tag));
    }
}

/// Collects references to every element with the given tag, appending
/// to `out` in document order.
pub fn collect_elems<'a>(d: &'a Dom, tag: &str, out: &mut Vec<&'a Dom>)
    ensures
        final(out)@.len() == old(out)@.len() + elems_of(d@, tag.spec_bytes()).len(),
        forall|j: int|
            0 <= j < old(out)@.len() ==> final(out)@[j] == old(out)@[j],
        forall|j: int|
            0 <= j < elems_of(d@, tag.spec_bytes()).len() ==> final(out)@[old(out)@.len() + j]@
                == elems_of(d@, tag.spec_bytes())[j],
    decreases dom_size(d@), 1nat,
{
    let ghost g = d@;
    let ghost tg = tag.spec_bytes();
    if let Dom::Element { tag: t, attrs, children } = d {
        if is_lit(t.as_slice(), tag) {
            out.push(d);
        }
    }
    let children: &Vec<Dom> = match d {
        Dom::Document { children } => children,
        Dom::Element { tag: t, attrs, children } => children,
        _ => {
            proof {
                assert(elems_of(g, tg) =~= Seq::<GDom>::empty());
            }
            return ;
        },
    };
    collect_elems_children_pub(children, tag, out, Ghost(g));
    proof {
        if g is Element && g->Element_tag == tg {
            assert(elems_of(g, tg) =~= seq![g] + elems_seq(kids(g), tg));
        } else {
            assert(elems_of(g, tg) =~= elems_seq(kids(g), tg));
        }
    }
}

pub fn collect_elems_children_pub<'a>(
    children: &'a Vec<Dom>,
    tag: &str,
    out: &mut Vec<&'a Dom>,
    parent: Ghost<GDom>,
)
    requires
        kids(parent@).len() == children@.len(),
        forall|j: int| 0 <= j < children@.len() ==> kids(parent@)[j] == children@[j]@,
    ensures
        final(out)@.len() == old(out)@.len() + elems_seq(
            kids(parent@),
            tag.spec_bytes(),
        ).len(),
        forall|j: int|
            0 <= j < old(out)@.len() ==> final(out)@[j] == old(out)@[j],
        forall|j: int|
            0 <= j < elems_seq(kids(parent@), tag.spec_bytes()).len()
                ==> final(out)@[old(out)@.len() + j]@
                == elems_seq(kids(parent@), tag.spec_bytes())[j],
    decreases dom_size(parent@), 0nat,
{
    let ghost gkids = kids(parent@);
    let ghost tg = tag.spec_bytes();
    let mut i: usize = 0;
    proof {
        assert(gkids.subrange(0, 0) =~= Seq::empty());
        assert(elems_seq(gkids.subrange(0, 0), tg) =~= Seq::<GDom>::empty());
    }
    while i < children.len()
        invariant
            i <= children.len(),
            gkids == kids(parent@),
            tg == tag.spec_bytes(),
            gkids.len() == children@.len(),
            forall|j: int| 0 <= j < children@.len() ==> gkids[j] == children@[j]@,
            out@.len() == old(out)@.len() + elems_seq(gkids.subrange(0, i as int), tg).len(),
            forall|j: int| 0 <= j < old(out)@.len() ==> out@[j] == old(out)@[j],
            forall|j: int|
                0 <= j < elems_seq(gkids.subrange(0, i as int), tg).len()
                    ==> out@[old(out)@.len() + j]@
                    == elems_seq(gkids.subrange(0, i as int), tg)[j],
            dom_size_seq(gkids) < dom_size(parent@),
        decreases children.len() - i,
    {
        proof {
            lemma_dom_size_elem(gkids, i as int);
        }
        collect_elems(&children[i], tag, out);
        proof {
            lemma_elems_seq_snoc(gkids, tg, i as int);
        }
        i = i + 1;
    }
    proof {
        assert(gkids.subrange(0, gkids.len() as int) =~= gkids);
    }
}

/// The value of the first attribute with the given name.
pub open spec fn attr_in(attrs: Seq<(Seq<u8>, Seq<u8>)>, name: Seq<u8>) -> Option<Seq<u8>>
    decreases attrs.len(),
{
    if attrs.len() == 0 {
        None
    } else if attrs[0].0 == name {
        Some(attrs[0].1)
    } else {
        attr_in(attrs.subrange(1, attrs.len() as int), name)
    }
}

/// The named attribute of an element node, if present.
pub open spec fn attr_of(g: GDom, name: Seq<u8>) -> Option<Seq<u8>> {
    if g is Element {
        attr_in(g->Element_attrs, name)
    } else {
        None
    }
}

/// Looks up an attribute by byte-string name on an element node.
pub fn get_attr_bytes(d: &Dom, name: &[u8]) -> (r: Option<Vec<u8>>)
    ensures
        match r {
            Some(v) => attr_of(d@, name@) == Some(v@),
            None => attr_of(d@, name@) is None,
        },
{
    let ghost nm = name@;
    if let Dom::Element { tag, attrs, children } = d {
        let ghost gattrs = d@->Element_attrs;
        let mut i: usize = 0;
        proof {
            assert(gattrs.subrange(0, gattrs.len() as int) =~= gattrs);
        }
        while i < attrs.len()
            invariant
                i <= attrs.len(),
                nm == name@,
                gattrs == d@->Element_attrs,
                d@ is Element,
                gattrs.len() == attrs@.len(),
                forall|j: int| 0 <= j < attrs@.len() ==> gattrs[j] == (attrs@[j].0@, attrs@[j].1@),
                attr_in(gattrs, nm) == attr_in(
                    gattrs.subrange(i as int, gattrs.len() as int),
                    nm,
                ),
            decreases attrs.len() - i,
        {
            proof {
                assert(gattrs.subrange(i as int, gattrs.len() as int)[0] == gattrs[i as int]);
                assert(gattrs[i as int] == (attrs@[i as int].0@, attrs@[i as int].1@));
            }
            if crate::strutil::bytes_eq(attrs[i].0.as_slice(), name) {
                let v = vstd::slice::slice_to_vec(attrs[i].1.as_slice());
                proof {
                    let sub = gattrs.subrange(i as int, gattrs.len() as int);
                    assert(sub.len() > 0);
                    assert(sub[0] == gattrs[i as int]);
                    assert(sub[0].0 == nm);
                    assert(attr_in(sub, nm) == Some(sub[0].1));
                }
                return Some(v);
            }
            proof {
                assert(gattrs.subrange(i as int, gattrs.len() as int).subrange(
                    1,
                    gattrs.len() - i,
                ) =~= gattrs.subrange(i + 1, gattrs.len() as int));
            }
            i = i + 1;
        }
        proof {
            assert(gattrs.subrange(attrs@.len() as int, gattrs.len() as int)
                =~= Seq::<(Seq<u8>, Seq<u8>)>::empty());
        }
        None
    } else {
        None
    }
}

/// Looks up an attribute by name on an element node.
pub fn get_attr(d: &Dom, name: &str) -> (r: Option<Vec<u8>>)
    ensures
        match r {
            Some(v) => attr_of(d@, name.spec_bytes()) == Some(v@),
            None => attr_of(d@, name.spec_bytes()) is None,
        },
{
    let ghost nm = name.spec_bytes();
    if let Dom::Element { tag, attrs, children } = d {
        let ghost gattrs = d@->Element_attrs;
        let mut i: usize = 0;
        proof {
            assert(gattrs.subrange(0, gattrs.len() as int) =~= gattrs);
        }
        while i < attrs.len()
            invariant
                i <= attrs.len(),
                nm == name.spec_bytes(),
                gattrs == d@->Element_attrs,
                d@ is Element,
                gattrs.len() == attrs@.len(),
                forall|j: int| 0 <= j < attrs@.len() ==> gattrs[j] == (attrs@[j].0@, attrs@[j].1@),
                attr_in(gattrs, nm) == attr_in(
                    gattrs.subrange(i as int, gattrs.len() as int),
                    nm,
                ),
            decreases attrs.len() - i,
        {
            proof {
                assert(gattrs.subrange(i as int, gattrs.len() as int)[0] == gattrs[i as int]);
                assert(gattrs[i as int] == (attrs@[i as int].0@, attrs@[i as int].1@));
            }
            if is_lit(attrs[i].0.as_slice(), name) {
                let v = vstd::slice::slice_to_vec(attrs[i].1.as_slice());
                proof {
                    let sub = gattrs.subrange(i as int, gattrs.len() as int);
                    assert(sub.len() > 0);
                    assert(sub[0] == gattrs[i as int]);
                    assert(sub[0].0 == nm);
                    assert(attr_in(sub, nm) == Some(sub[0].1));
                    assert(attr_in(gattrs.subrange(i as int, gattrs.len() as int), nm)
                        == Some(attrs@[i as int].1@));
                }
                return Some(v);
            }
            proof {
                assert(gattrs.subrange(i as int, gattrs.len() as int).subrange(
                    1,
                    gattrs.len() - i,
                ) =~= gattrs.subrange(i + 1, gattrs.len() as int));
            }
            i = i + 1;
        }
        proof {
            assert(gattrs.subrange(attrs@.len() as int, gattrs.len() as int)
                =~= Seq::<(Seq<u8>, Seq<u8>)>::empty());
        }
        None
    } else {
        None
    }
}

} // verus!
