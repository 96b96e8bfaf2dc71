//! The document tree that every filter and extractor works on.
//!
//! An HTML document is modelled as an owned tree: each node owns its
//! children, so the tree is acyclic and no node has two parents. The
//! ghost counterpart `GDom` mirrors the tree with mathematical sequences
//! and is what all contracts speak about.

use vstd::prelude::*;

verus! {

/// Ghost mirror of a document node, used in specifications.
#[verifier::ext_equal]
pub enum GDom {
    Document { children: Seq<GDom> },
    Element { tag: Seq<u8>, attrs: Seq<(Seq<u8>, Seq<u8>)>, children: Seq<GDom> },
    Text { text: Seq<u8> },
    Comment,
    Other,
}

/// A node of the parsed document tree. Tag names, attribute names and
/// values, and text are kept as UTF-8 bytes.
pub enum Dom {
    Document { children: Vec<Dom> },
    Element { tag: Vec<u8>, attrs: Vec<(Vec<u8>, Vec<u8>)>, children: Vec<Dom> },
    Text { text: Vec<u8> },
    Comment,
    Other,
}

/// The pointwise view of an attribute list.
pub open spec fn attrs_view(attrs: Vec<(Vec<u8>, Vec<u8>)>) -> Seq<(Seq<u8>, Seq<u8>)> {
    Seq::new(attrs@.len(), |i: int| (attrs@[i].0@, attrs@[i].1@))
}

pub open spec fn deep_view_of(d: Dom) -> GDom
    decreases d,
{
    match d {
        Dom::Document { children } => GDom::Document {
            children: Seq::new(
                children@.len(),
                |i: int| if 0 <= i < children@.len() { deep_view_of(children@[i]) } else { GDom::Other },
            ),
        },
        Dom::Element { tag, attrs, children } => GDom::Element {
            tag: tag@,
            attrs: attrs_view(attrs),
            children: Seq::new(
                children@.len(),
                |i: int| if 0 <= i < children@.len() { deep_view_of(children@[i]) } else { GDom::Other },
            ),
        },
        Dom::Text { text } => GDom::Text { text: text@ },
        Dom::Comment => GDom::Comment,
        Dom::Other => GDom::Other,
    }
}

impl View for Dom {
    type V = GDom;

    open spec fn view(&self) -> GDom {
        deep_view_of(*self)
    }
}

/// The children of a ghost node; leaves have none.
pub open spec fn kids(g: GDom) -> Seq<GDom> {
    match g {
        GDom::Document { children } => children,
        GDom::Element { tag, attrs, children } => children,
        _ => Seq::empty(),
    }
}

/// Number of nodes in a ghost tree; the termination measure for every
/// traversal of the tree.
pub open spec fn dom_size(g: GDom) -> nat
    decreases g,
{
    match g {
        GDom::Document { children } => 1 + dom_size_seq(children),
        GDom::Element { tag, attrs, children } => 1 + dom_size_seq(children),
        _ => 1,
    }
}

pub open spec fn dom_size_seq(s: Seq<GDom>) -> nat
    decreases s,
{
    if s.len() == 0 {
        0
    } else {
        dom_size(s[0]) + dom_size_seq(s.subrange(1, s.len() as int))
    }
}

pub proof fn lemma_dom_size_elem(s: Seq<GDom>, i: int)
    requires
        0 <= i < s.len(),
    ensures
        dom_size(s[i]) <= dom_size_seq(s),
    decreases s.len(),
{
    if i == 0 {
    } else {
        lemma_dom_size_elem(s.subrange(1, s.len() as int), i - 1);
        assert(s.subrange(1, s.len() as int)[i - 1] == s[i]);
    }
}

/// A child is strictly smaller than the node that owns it.
pub proof fn lemma_dom_size_child(g: GDom, i: int)
    requires
        0 <= i < kids(g).len(),
    ensures
        dom_size(kids(g)[i]) < dom_size(g),
{
    lemma_dom_size_elem(kids(g), i);
}

} // verus!
