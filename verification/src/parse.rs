//! Bridge from the HTML parser to the library's own document tree.
//!
//! Parsing raw HTML is delegated to the kuchiki crate. Its node handles
//! are opaque here; a small set of trusted readers exposes the parsed
//! tree, and a verified traversal rebuilds it as a `Dom` value that the
//! rest of the library works on.

use vstd::prelude::*;
use crate::dom::{Dom, GDom, kids, dom_size, lemma_dom_size_child, attrs_view};
use kuchiki::traits::TendrilSink;
use vstd::string::StringSliceAdditionalSpecFns;

verus! {

/// The parser's node handle, opaque to the verifier.
#[verifier::external_type_specification]
#[verifier::external_body]
pub struct ExNodeRef(kuchiki::NodeRef);

/// The document tree that hangs below a parser node handle.
pub uninterp spec fn dom_view(n: kuchiki::NodeRef) -> GDom;

/// The tree that parsing an HTML byte sequence produces.
pub uninterp spec fn parse_dom_of(html: Seq<u8>) -> GDom;

/// What a single node is, without its children.
pub enum NodeInfo {
    Doc,
    Elem { tag: Vec<u8>, attrs: Vec<(Vec<u8>, Vec<u8>)> },
    Text { text: Vec<u8> },
    Comment,
    Other,
}

pub open spec fn info_matches(i: NodeInfo, g: GDom) -> bool {
    match i {
        NodeInfo::Doc => g is Document,
        NodeInfo::Elem { tag, attrs } => {
            &&& g is Element
            &&& g->Element_tag == tag@
            &&& g->Element_attrs == attrs_view(attrs)
        },
        NodeInfo::Text { text } => g matches GDom::Text { text: t } && t == text@,
        NodeInfo::Comment => g is Comment,
        NodeInfo::Other => g is Other,
    }
}

/// Relies on kuchiki::parse_html: parses a full HTML document string
/// into a tree, deterministically.
#[verifier::external_body]
pub(crate) fn parse_html_doc(html: &str) -> (n: kuchiki::NodeRef)
    ensures
        dom_view(n) == parse_dom_of(html.spec_bytes()),
{
    kuchiki::parse_html().one(html)
}

/// Relies on kuchiki::Node::data: tells the node kinds apart and hands
/// out tag name, attributes (sorted by name) and text as plain bytes.
#[verifier::external_body]
pub(crate) fn node_details(n: &kuchiki::NodeRef) -> (info: NodeInfo)
    ensures
        info_matches(info, dom_view(*n)),
{
    match n.data() {
        kuchiki::NodeData::Element(d) => NodeInfo::Elem {
            tag: d.name.local.as_bytes().to_vec(),
            attrs: d.attributes.borrow().map.iter().map(
                |(k, a)| (k.local.as_bytes().to_vec(), a.value.as_bytes().to_vec()),
            ).collect(),
        },
        kuchiki::NodeData::Text(t) => NodeInfo::Text { text: t.borrow().as_bytes().to_vec() },
        kuchiki::NodeData::Comment(_) => NodeInfo::Comment,
        kuchiki::NodeData::Document(_) | kuchiki::NodeData::DocumentFragment => NodeInfo::Doc,
        _ => NodeInfo::Other,
    }
}

/// Relies on kuchiki::NodeRef::children: the node's children in
/// document order, a finite list for any parsed tree.
#[verifier::external_body]
pub(crate) fn children_vec(n: &kuchiki::NodeRef) -> (v: Vec<kuchiki::NodeRef>)
    ensures
        v@.len() == kids(dom_view(*n)).len(),
        forall|i: int| 0 <= i < v@.len() ==> dom_view(v@[i]) == kids(dom_view(*n))[i],
{
    n.children().collect()
}

/// Rebuilds the tree below a parser node as an owned `Dom` tree.
pub(crate) fn build_dom(n: &kuchiki::NodeRef) -> (d: Dom)
    ensures
        d@ == dom_view(*n),
    decreases dom_size(dom_view(*n)),
{
    let ghost g = dom_view(*n);
    let info = node_details(n);
    let ch = children_vec(n);
    let mut built: Vec<Dom> = Vec::new();
    let mut i: usize = 0;
    while i < ch.len()
        invariant
            i <= ch.len(),
            built@.len() == i,
            ch@.len() == kids(g).len(),
            forall|j: int| 0 <= j < ch@.len() ==> dom_view(ch@[j]) == kids(g)[j],
            forall|j: int| 0 <= j < i ==> built@[j]@ == kids(g)[j],
            g == dom_view(*n),
        decreases ch.len() - i,
    {
        proof {
            lemma_dom_size_child(g, i as int);
        }
        let c = build_dom(&ch[i]);
        built.push(c);
        i = i + 1;
    }
    assert(forall|j: int| 0 <= j < kids(g).len() ==> built@[j]@ == kids(g)[j]);
    match info {
        NodeInfo::Doc => {
            let d = Dom::Document { children: built };
            assert(d@ is Document);
            assert(d@->Document_children =~~= g->Document_children);
            assert(d@ =~~= g);
            d
        },
        NodeInfo::Elem { tag, attrs } => {
            let d = Dom::Element { tag, attrs, children: built };
            assert(g is Element);
            assert(d@ is Element);
            assert(d@->Element_tag == g->Element_tag);
            assert(d@->Element_attrs =~~= g->Element_attrs);
            assert(d@->Element_children =~~= g->Element_children);
            assert(d@ =~~= g);
            d
        },
        NodeInfo::Text { text } => {
            let d = Dom::Text { text };
            assert(d@ =~= g);
            d
        },
        NodeInfo::Comment => {
            assert(Dom::Comment@ =~= g);
            Dom::Comment
        },
        NodeInfo::Other => {
            assert(Dom::Other@ =~= g);
            Dom::Other
        },
    }
}

/// Parses an HTML document into the library's tree; the result is the
/// tree that the parser assigns to those bytes.
pub fn parse_document(html: &str) -> (d: Dom)
    ensures
        d@ == parse_dom_of(html.spec_bytes()),
{
    let n = parse_html_doc(html);
    build_dom(&n)
}

} // verus!
