//! Serialization of the document tree back to HTML bytes.
//!
//! Text escapes `&`, `<` and `>`; attribute values escape `&` and `"`.
//! Void elements are written without a closing tag. Comments and other
//! non-content nodes are dropped.

use vstd::prelude::*;
use vstd::string::StringSliceAdditionalSpecFns;
use crate::dom::{Dom, GDom, dom_size, dom_size_seq, lemma_dom_size_elem};
use crate::strutil::{append_bytes, is_lit};

verus! {

/// Byte-for-sequence escaping, shared by text and attribute escaping.
pub open spec fn esc_map(s: Seq<u8>, f: spec_fn(u8) -> Seq<u8>) -> Seq<u8>
    decreases s.len(),
{
    if s.len() == 0 {
        Seq::empty()
    } else {
        f(s[0]) + esc_map(s.subrange(1, s.len() as int), f)
    }
}

pub proof fn lemma_esc_map_snoc(s: Seq<u8>, f: spec_fn(u8) -> Seq<u8>, n: int)
    requires
        0 <= n < s.len(),
    ensures
        esc_map(s.subrange(0, n + 1), f) == esc_map(s.subrange(0, n), f) + f(s[n]),
    decreases n,
{
    let p1 = s.subrange(0, n + 1);
    let p0 = s.subrange(0, n);
    if n == 0 {
        assert(p0 =~= Seq::empty());
        assert(p1.subrange(1, 1) =~= Seq::<u8>::empty());
        assert(esc_map(p1, f) =~= esc_map(p0, f) + f(s[0]));
    } else {
        let t = s.subrange(1, s.len() as int);
        lemma_esc_map_snoc(t, f, n - 1);
        assert(p1.subrange(1, n + 1) =~= t.subrange(0, n));
        assert(p0.subrange(1, n) =~= t.subrange(0, n - 1));
        assert(t[n - 1] == s[n]);
        assert(esc_map(p1, f) =~= esc_map(p0, f) + f(s[n]));
    }
}

pub open spec fn esc_text_byte(b: u8) -> Seq<u8> {
    if b == 38 {
        "&amp;".spec_bytes()
    } else if b == 60 {
        "&lt;".spec_bytes()
    } else if b == 62 {
        "&gt;".spec_bytes()
    } else {
        seq![b]
    }
}

/// Text content with `&`, `<`, `>` escaped.
pub open spec fn esc_text(s: Seq<u8>) -> Seq<u8> {
    esc_map(s, |b: u8| esc_text_byte(b))
}

pub open spec fn esc_attr_byte(b: u8) -> Seq<u8> {
    if b == 38 {
        "&amp;".spec_bytes()
    } else if b == 34 {
        "&quot;".spec_bytes()
    } else {
        seq![b]
    }
}

/// An attribute value with `&` and `"` escaped.
pub open spec fn esc_attr(s: Seq<u8>) -> Seq<u8> {
    esc_map(s, |b: u8| esc_attr_byte(b))
}

/// Elements that are serialized without a closing tag.
pub open spec fn is_void_tag(t: Seq<u8>) -> bool {
    ||| t == "area".spec_bytes()
    ||| t == "base".spec_bytes()
    ||| t == "basefont".spec_bytes()
    ||| t == "bgsound".spec_bytes()
    ||| t == "br".spec_bytes()
    ||| t == "col".spec_bytes()
    ||| t == "embed".spec_bytes()
    ||| t == "frame".spec_bytes()
    ||| t == "hr".spec_bytes()
    ||| t == "img".spec_bytes()
    ||| t == "input".spec_bytes()
    ||| t == "keygen".spec_bytes()
    ||| t == "link".spec_bytes()
    ||| t == "meta".spec_bytes()
    ||| t == "param".spec_bytes()
    ||| t == "source".spec_bytes()
    ||| t == "track".spec_bytes()
    ||| t == "wbr".spec_bytes()
}

pub fn is_void_tag_exec(t: &[u8]) -> (r: bool)
    ensures
        r == is_void_tag(t@),
{
    is_lit(t, "area") || is_lit(t, "base") || is_lit(t, "basefont") || is_lit(t, "bgsound")
        || is_lit(t, "br") || is_lit(t, "col") || is_lit(t, "embed") || is_lit(t, "frame")
        || is_lit(t, "hr") || is_lit(t, "img") || is_lit(t, "input") || is_lit(t, "keygen")
        || is_lit(t, "link") || is_lit(t, "meta") || is_lit(t, "param") || is_lit(t, "source")
        || is_lit(t, "track") || is_lit(t, "wbr")
}

pub open spec fn ser_attrs(attrs: Seq<(Seq<u8>, Seq<u8>)>) -> Seq<u8>
    decreases attrs.len(),
{
    if attrs.len() == 0 {
        Seq::empty()
    } else {
        seq![32u8] + attrs[0].0 + "=\"".spec_bytes() + esc_attr(attrs[0].1) + seq![34u8]
            + ser_attrs(attrs.subrange(1, attrs.len() as int))
    }
}

pub proof fn lemma_ser_attrs_snoc(attrs: Seq<(Seq<u8>, Seq<u8>)>, n: int)
    requires
        0 <= n < attrs.len(),
    ensures
        ser_attrs(attrs.subrange(0, n + 1)) == ser_attrs(attrs.subrange(0, n)) + (seq![32u8]
            + attrs[n].0 + "=\"".spec_bytes() + esc_attr(attrs[n].1) + seq![34u8]),
    decreases n,
{
    let p1 = attrs.subrange(0, n + 1);
    let p0 = attrs.subrange(0, n);
    if n == 0 {
        assert(p0 =~= Seq::empty());
        assert(p1.subrange(1, 1) =~= Seq::<(Seq<u8>, Seq<u8>)>::empty());
        assert(ser_attrs(p1) =~= ser_attrs(p0) + (seq![32u8] + attrs[0].0 + "=\"".spec_bytes()
            + esc_attr(attrs[0].1) + seq![34u8]));
    } else {
        let t = attrs.subrange(1, attrs.len() as int);
        lemma_ser_attrs_snoc(t, n - 1);
        assert(p1.subrange(1, n + 1) =~= t.subrange(0, n));
        assert(p0.subrange(1, n) =~= t.subrange(0, n - 1));
        assert(t[n - 1] == attrs[n]);
        assert(ser_attrs(p1) =~= ser_attrs(p0) + (seq![32u8] + attrs[n].0 + "=\"".spec_bytes()
            + esc_attr(attrs[n].1) + seq![34u8]));
    }
}

/// The HTML serialization of one node.
pub open spec fn ser_node(g: GDom) -> Seq<u8>
    decreases g,
{
    match g {
        GDom::Document { children } => ser_seq(children),
        GDom::Element { tag, attrs, children } => {
            let open_tag = seq![60u8] + tag + ser_attrs(attrs) + seq![62u8];
            if is_void_tag(tag) {
                open_tag
            } else {
                open_tag + ser_seq(children) + ("</".spec_bytes() + tag + seq![62u8])
            }
        },
        GDom::Text { text } => esc_text(text),
        GDom::Comment => Seq::empty(),
        GDom::Other => Seq::empty(),
    }
}

/// The concatenated serialization of a list of nodes.
pub open spec fn ser_seq(s: Seq<GDom>) -> Seq<u8>
    decreases s,
{
    if s.len() == 0 {
        Seq::empty()
    } else {
        ser_node(s[0]) + ser_seq(s.subrange(1, s.len() as int))
    }
}

pub proof fn lemma_ser_seq_snoc(s: Seq<GDom>, n: int)
    requires
        0 <= n < s.len(),
    ensures
        ser_seq(s.subrange(0, n + 1)) == ser_seq(s.subrange(0, n)) + ser_node(s[n]),
    decreases n,
{
    let p1 = s.subrange(0, n + 1);
    let p0 = s.subrange(0, n);
    if n == 0 {
        assert(p0 =~= Seq::empty());
        assert(p1.subrange(1, 1) =~= Seq::<GDom>::empty());
        assert(ser_seq(p1) =~= ser_seq(p0) + ser_node(s[0]));
    } else {
        let t = s.subrange(1, s.len() as int);
        lemma_ser_seq_snoc(t, n - 1);
        assert(p1.subrange(1, n + 1) =~= t.subrange(0, n));
        assert(p0.subrange(1, n) =~= t.subrange(0, n - 1));
        assert(t[n - 1] == s[n]);
        assert(ser_seq(p1) =~= ser_seq(p0) + ser_node(s[n]));
    }
}

/// Appends the escaped form of `s` to `out`; text escaping when
/// `attr_mode` is false, attribute escaping when it is true.
fn esc_append(out: &mut Vec<u8>, s: &[u8], attr_mode: bool)
    ensures
        !attr_mode ==> final(out)@ == old(out)@ + esc_text(s@),
        attr_mode ==> final(out)@ == old(out)@ + esc_attr(s@),
{
    let mut i: usize = 0;
    while i < s.len()
        invariant
            i <= s.len(),
            !attr_mode ==> out@ == old(out)@ + esc_map(
                s@.subrange(0, i as int),
                |b: u8| esc_text_byte(b),
            ),
            attr_mode ==> out@ == old(out)@ + esc_map(
                s@.subrange(0, i as int),
                |b: u8| esc_attr_byte(b),
            ),
        decreases s.len() - i,
    {
        let b = s[i];
        if b == 38 {
            append_bytes(out, "&amp;".as_bytes());
        } else if !attr_mode && b == 60 {
            append_bytes(out, "&lt;".as_bytes());
        } else if !attr_mode && b == 62 {
            append_bytes(out, "&gt;".as_bytes());
        } else if attr_mode && b == 34 {
            append_bytes(out, "&quot;".as_bytes());
        } else {
            out.push(b);
        }
        proof {
            if !attr_mode {
                lemma_esc_map_snoc(s@, |bb: u8| esc_text_byte(bb), i as int);
            } else {
                lemma_esc_map_snoc(s@, |bb: u8| esc_attr_byte(bb), i as int);
            }
            assert(seq![b] =~= s@.subrange(i as int, i + 1));
        }
        i = i + 1;
    }
    proof {
        assert(s@.subrange(0, s@.len() as int) =~= s@);
    }
}

/// Appends text-escaped bytes to `out`.
pub fn esc_text_append(out: &mut Vec<u8>, s: &[u8])
    ensures
        final(out)@ == old(out)@ + esc_text(s@),
{
    esc_append(out, s, false);
}

/// Appends the serialized attribute list to `out`.
pub fn ser_attrs_append(out: &mut Vec<u8>, attrs: &Vec<(Vec<u8>, Vec<u8>)>, gattrs: Ghost<Seq<(Seq<u8>, Seq<u8>)>>)
    requires
        gattrs@.len() == attrs@.len(),
        forall|j: int| 0 <= j < attrs@.len() ==> gattrs@[j] == (attrs@[j].0@, attrs@[j].1@),
    ensures
        final(out)@ == old(out)@ + ser_attrs(gattrs@),
{
    let mut k: usize = 0;
    proof {
        assert(gattrs@.subrange(0, 0) =~= Seq::empty());
        assert(ser_attrs(gattrs@.subrange(0, 0)) =~= Seq::<u8>::empty());
    }
    while k < attrs.len()
        invariant
            k <= attrs.len(),
            gattrs@.len() == attrs@.len(),
            forall|j: int| 0 <= j < attrs@.len() ==> gattrs@[j] == (attrs@[j].0@, attrs@[j].1@),
            out@ == old(out)@ + ser_attrs(gattrs@.subrange(0, k as int)),
        decreases attrs.len() - k,
    {
        out.push(32);
        append_bytes(out, attrs[k].0.as_slice());
        append_bytes(out, "=\"".as_bytes());
        esc_append(out, attrs[k].1.as_slice(), true);
        out.push(34);
        proof {
            lemma_ser_attrs_snoc(gattrs@, k as int);
            assert(out@ =~= old(out)@ + ser_attrs(gattrs@.subrange(0, k + 1)));
        }
        k = k + 1;
    }
    proof {
        assert(gattrs@.subrange(0, gattrs@.len() as int) =~= gattrs@);
    }
}

/// Appends the serialization of `d` to `out`.
pub fn ser_node_into(d: &Dom, out: &mut Vec<u8>)
    ensures
        final(out)@ == old(out)@ + ser_node(d@),
    decreases dom_size(d@),
{
    match d {
        Dom::Document { children } => {
            ser_children_into(children, out, Ghost(d@));
        },
        Dom::Element { tag, attrs, children } => {
            out.push(60);
            append_bytes(out, tag.as_slice());
            let mut k: usize = 0;
            let ghost gattrs = d@->Element_attrs;
            proof {
                assert(gattrs.subrange(0, 0) =~= Seq::empty());
            }
            while k < attrs.len()
                invariant
                    k <= attrs.len(),
                    gattrs.len() == attrs@.len(),
                    forall|j: int| 0 <= j < attrs@.len() ==> gattrs[j] == (
                    attrs@[j].0@,
                    attrs@[j].1@,
                    ),
                    out@ == old(out)@ + seq![60u8] + tag@ + ser_attrs(
                        gattrs.subrange(0, k as int),
                    ),
                decreases attrs.len() - k,
            {
                out.push(32);
                append_bytes(out, attrs[k].0.as_slice());
                append_bytes(out, "=\"".as_bytes());
                esc_append(out, attrs[k].1.as_slice(), true);
                out.push(34);
                proof {
                    lemma_ser_attrs_snoc(gattrs, k as int);
                    assert(out@ =~= old(out)@ + seq![60u8] + tag@ + ser_attrs(
                        gattrs.subrange(0, k + 1),
                    ));
                }
                k = k + 1;
            }
            proof {
                assert(gattrs.subrange(0, gattrs.len() as int) =~= gattrs);
            }
            out.push(62);
            if !is_void_tag_exec(tag.as_slice()) {
                ser_children_into(children, out, Ghost(d@));
                append_bytes(out, "</".as_bytes());
                append_bytes(out, tag.as_slice());
                out.push(62);
            }
            proof {
                assert(out@ =~= old(out)@ + ser_node(d@));
            }
        },
        Dom::Text { text } => {
            esc_append(out, text.as_slice(), false);
        },
        Dom::Comment => {
            proof {
                assert(out@ =~= old(out)@ + ser_node(d@));
            }
        },
        Dom::Other => {
            proof {
                assert(out@ =~= old(out)@ + ser_node(d@));
            }
        },
    }
}

/// Appends the serialization of each child in order to `out`.
fn ser_children_into(children: &Vec<Dom>, out: &mut Vec<u8>, parent: Ghost<GDom>)
    requires
        crate::dom::kids(parent@).len() == children@.len(),
        forall|j: int| 0 <= j < children@.len() ==> crate::dom::kids(parent@)[j] == children@[j]@,
    ensures
        final(out)@ == old(out)@ + ser_seq(crate::dom::kids(parent@)),
    decreases dom_size(parent@), 0nat,
{
    let ghost gkids = crate::dom::kids(parent@);
    let mut i: usize = 0;
    proof {
        assert(gkids.subrange(0, 0) =~= Seq::empty());
    }
    while i < children.len()
        invariant
            i <= children.len(),
            gkids == crate::dom::kids(parent@),
            gkids.len() == children@.len(),
            forall|j: int| 0 <= j < children@.len() ==> gkids[j] == children@[j]@,
            out@ == old(out)@ + ser_seq(gkids.subrange(0, i as int)),
            dom_size_seq(gkids) < dom_size(parent@),
        decreases children.len() - i,
    {
        proof {
            lemma_dom_size_elem(gkids, i as int);
        }
        ser_node_into(&children[i], out);
        proof {
            lemma_ser_seq_snoc(gkids, i as int);
            assert(out@ =~= old(out)@ + ser_seq(gkids.subrange(0, i + 1)));
        }
        i = i + 1;
    }
    proof {
        assert(gkids.subrange(0, gkids.len() as int) =~= gkids);
    }
}

/// The HTML serialization of a node, as fresh bytes.
pub fn serialize_node(d: &Dom) -> (r: Vec<u8>)
    ensures
        r@ == ser_node(d@),
{
    let mut out: Vec<u8> = Vec::new();
    ser_node_into(d, &mut out);
    out
}

} // verus!
