//! Laws of the filters: statements that hold of every input, proved
//! from the library's own specifications.

use vstd::prelude::*;
use vstd::string::StringSliceAdditionalSpecFns;
use crate::dom::{GDom, kids};
use crate::pruning::{
    excluded_tag,
    clean_kids,
    clean_one,
    clean_doc,
    node_kept,
    node_score,
    prune_ser_one,
    prune_ser_kids,
};
use crate::chunks::{GChunk, raw_chunks_of, picked_chunks, text_chunks_of, chunk_kept};
use crate::bm25::{adjusted_score, kept_concat, score_upto, tf_of};
use crate::ser::{ser_attrs, is_void_tag};
use crate::strutil::words_of;
use crate::extract::{
    GField,
    GSchema,
    gfield_size,
    gfield_size_seq,
    lemma_gfield_size_elem,
    sel_nodes,
    single_of,
    value_of,
    item_from,
    item_of,
    list_items,
    base_item,
    record_of,
    records_of,
};
use crate::json::GJson;

verus! {

/// No element anywhere in a node list carries an excluded tag.
pub open spec fn excluded_free_seq(s: Seq<GDom>) -> bool
    decreases s, 0nat,
{
    if s.len() == 0 {
        true
    } else {
        excluded_free_one(s[0]) && excluded_free_seq(s.subrange(1, s.len() as int))
    }
}

pub open spec fn excluded_free_one(g: GDom) -> bool
    decreases g, 1nat,
{
    match g {
        GDom::Element { tag, attrs, children } => !excluded_tag(tag) && excluded_free_seq(
            children,
        ),
        GDom::Document { children } => excluded_free_seq(children),
        _ => true,
    }
}

/// The pruning filter's removal pass removes every element with an
/// excluded tag, wherever it stands and whatever its score: the
/// cleaned node list holds no excluded element at any depth.
pub proof fn lemma_clean_removes_excluded(s: Seq<GDom>)
    ensures
        excluded_free_seq(clean_kids(s)),
    decreases s, 1nat,
{
    if s.len() == 0 {
        assert(excluded_free_seq(clean_kids(s)));
    } else {
        lemma_clean_one_removes_excluded(s[0]);
        lemma_clean_removes_excluded(s.subrange(1, s.len() as int));
        lemma_excluded_free_concat(
            clean_one(s[0]),
            clean_kids(s.subrange(1, s.len() as int)),
        );
    }
}

pub proof fn lemma_clean_one_removes_excluded(g: GDom)
    ensures
        excluded_free_seq(clean_one(g)),
    decreases g, 0nat,
{
    match g {
        GDom::Element { tag, attrs, children } => {
            if excluded_tag(tag) {
                assert(excluded_free_seq(clean_one(g)));
            } else {
                lemma_clean_removes_excluded(children);
                assert(clean_one(g)[0] == (GDom::Element {
                    tag,
                    attrs,
                    children: clean_kids(children),
                }));
                assert(excluded_free_one(clean_one(g)[0]));
                assert(clean_one(g).subrange(1, 1) =~= Seq::<GDom>::empty());
                assert(excluded_free_seq(clean_one(g).subrange(1, 1)));
                assert(excluded_free_seq(clean_one(g)));
            }
        },
        GDom::Document { children } => {
            lemma_clean_removes_excluded(children);
            assert(clean_one(g)[0] == (GDom::Document { children: clean_kids(children) }));
            assert(excluded_free_one(clean_one(g)[0]));
            assert(clean_one(g).subrange(1, 1) =~= Seq::<GDom>::empty());
            assert(excluded_free_seq(clean_one(g).subrange(1, 1)));
            assert(excluded_free_seq(clean_one(g)));
        },
        _ => {
            if clean_one(g).len() > 0 {
                assert(clean_one(g)[0] == g);
                assert(excluded_free_one(clean_one(g)[0]));
                assert(clean_one(g).subrange(1, 1) =~= Seq::<GDom>::empty());
                assert(excluded_free_seq(clean_one(g).subrange(1, 1)));
            }
            assert(excluded_free_seq(clean_one(g)));
        },
    }
}

/// Excluded-freedom is preserved by concatenation.
pub proof fn lemma_excluded_free_concat(a: Seq<GDom>, b: Seq<GDom>)
    requires
        excluded_free_seq(a),
        excluded_free_seq(b),
    ensures
        excluded_free_seq(a + b),
    decreases a.len(),
{
    if a.len() == 0 {
        assert(a + b =~= b);
    } else {
        lemma_excluded_free_concat(a.subrange(1, a.len() as int), b);
        assert((a + b).subrange(1, (a + b).len() as int) =~= a.subrange(1, a.len() as int) + b);
        assert((a + b)[0] == a[0]);
    }
}

/// The whole document after cleaning holds no excluded element below
/// it.
pub proof fn lemma_clean_doc_removes_excluded(g: GDom)
    ensures
        excluded_free_seq(kids(clean_doc(g))),
{
    match g {
        GDom::Document { children } => {
            lemma_clean_removes_excluded(children);
        },
        GDom::Element { tag, attrs, children } => {
            lemma_clean_removes_excluded(children);
        },
        _ => {
            assert(kids(clean_doc(g)) =~= Seq::<GDom>::empty());
        },
    }
}

/// The pruning boundary: an element whose score is exactly the
/// threshold is kept — its serialization is written out, opening tag
/// first. Only a strictly smaller score removes a subtree.
pub proof fn lemma_threshold_boundary(g: GDom, threshold: u64, min_words: Option<usize>)
    requires
        g is Element,
        node_score(g) == threshold as int,
        match min_words {
            Option::Some(m) => words_of(crate::tree::text_of(g)).len() >= m,
            Option::None => true,
        },
    ensures
        node_kept(g, threshold, min_words),
        prune_ser_one(g, threshold, min_words) == {
            let open_tag = seq![60u8] + g->Element_tag + ser_attrs(g->Element_attrs)
                + seq![62u8];
            if is_void_tag(g->Element_tag) {
                open_tag
            } else {
                open_tag + prune_ser_kids(g->Element_children, threshold, min_words) + (
                "</".spec_bytes() + g->Element_tag + seq![62u8])
            }
        },
{
}

/// A subtree is removed exactly when it fails the word threshold or
/// its score is strictly below the pruning threshold.
pub proof fn lemma_prune_decision(g: GDom, threshold: u64, min_words: Option<usize>)
    requires
        g is Element,
    ensures
        node_kept(g, threshold, min_words) <==> (node_score(g) >= threshold as int && (
        match min_words {
            Option::Some(m) => words_of(crate::tree::text_of(g)).len() >= m,
            Option::None => true,
        })),
        !node_kept(g, threshold, min_words) ==> prune_ser_one(g, threshold, min_words)
            == Seq::<u8>::empty(),
{
}

/// The chunk order numbers of a traversal are strictly increasing:
/// scores gate inclusion but never reorder, so the relevance filter's
/// output follows original document order.
pub proof fn lemma_chunk_order(root: GDom, min_words: Option<usize>)
    ensures
        forall|i: int, j: int|
            0 <= i < j < text_chunks_of(root, min_words).len() ==> text_chunks_of(
                root,
                min_words,
            )[i].0 < text_chunks_of(root, min_words)[j].0,
{
    lemma_picked_bounds(
        raw_chunks_of(root),
        min_words,
        raw_chunks_of(root).len() as int,
    );
}

/// Every order number among the first `n` picked chunks is below `n`,
/// and the numbers increase along the list.
pub proof fn lemma_picked_bounds(cs: Seq<GChunk>, min_words: Option<usize>, n: int)
    ensures
        forall|i: int|
            0 <= i < picked_chunks(cs, min_words, n).len() ==> (#[trigger] picked_chunks(
                cs,
                min_words,
                n,
            )[i]).0 < n,
        forall|i: int, j: int|
            0 <= i < j < picked_chunks(cs, min_words, n).len() ==> picked_chunks(
                cs,
                min_words,
                n,
            )[i].0 < picked_chunks(cs, min_words, n)[j].0,
    decreases n,
{
    if n <= 0 {
    } else {
        lemma_picked_bounds(cs, min_words, n - 1);
        let p = picked_chunks(cs, min_words, n);
        let q = picked_chunks(cs, min_words, n - 1);
        if chunk_kept(cs[n - 1], min_words) {
            assert(p == q.push((n - 1, cs[n - 1])));
            assert(forall|i: int| 0 <= i < q.len() ==> p[i] == q[i]);
            assert(p[p.len() - 1].0 == n - 1);
        } else {
            assert(p == q);
        }
    }
}

/// A chunk holding no query term scores zero. The converse holds over
/// real numbers but not in fixed point: near the saturation caps a
/// tiny contribution can truncate to zero micro-units (see the bm25
/// module doc).
pub proof fn lemma_no_term_zero_score(
    corpus: Seq<Seq<Seq<u8>>>,
    qt: Seq<Seq<u8>>,
    k: int,
    n: int,
)
    requires
        forall|j: int| 0 <= j < n ==> tf_of(corpus[k], #[trigger] qt[j]) == 0,
    ensures
        score_upto(corpus, qt, k, n) == 0,
    decreases n,
{
    if n <= 0 {
    } else {
        lemma_no_term_zero_score(corpus, qt, k, n - 1);
    }
}

/// When no chunk's adjusted score reaches the threshold, the relevance
/// filter emits nothing.
pub proof fn lemma_below_threshold_empty(
    chunks: Seq<(int, GChunk)>,
    corpus: Seq<Seq<Seq<u8>>>,
    qt: Seq<Seq<u8>>,
    threshold: u64,
    n: int,
)
    requires
        forall|k: int| 0 <= k < n ==> adjusted_score(chunks, corpus, qt, k) < threshold,
    ensures
        kept_concat(chunks, corpus, qt, threshold, n) == Seq::<u8>::empty(),
    decreases n,
{
    if n <= 0 {
    } else {
        lemma_below_threshold_empty(chunks, corpus, qt, threshold, n - 1);
        assert(kept_concat(chunks, corpus, qt, threshold, n) =~= Seq::<u8>::empty());
    }
}

/// Two selector texts are equivalent across backends when they resolve
/// to the same nodes from every node.
pub open spec fn sel_equiv(x1: bool, x2: bool, s1: Seq<u8>, s2: Seq<u8>) -> bool {
    forall|g: GDom| #[trigger] sel_nodes(x1, g, s1) == #[trigger] sel_nodes(x2, g, s2)
}

pub open spec fn opt_sel_equiv(
    x1: bool,
    x2: bool,
    s1: Option<Seq<u8>>,
    s2: Option<Seq<u8>>,
) -> bool {
    match (s1, s2) {
        (Option::Some(a), Option::Some(b)) => sel_equiv(x1, x2, a, b),
        (Option::None, Option::None) => true,
        _ => false,
    }
}

/// Two fields are equivalent across backends: equal in everything but
/// their selectors, which must be equivalent, recursively.
pub open spec fn field_equiv(x1: bool, x2: bool, f1: GField, f2: GField) -> bool
    decreases gfield_size(f1), 0nat,
{
    &&& f1.name == f2.name
    &&& f1.kind == f2.kind
    &&& f1.attribute == f2.attribute
    &&& f1.transform == f2.transform
    &&& f1.default == f2.default
    &&& f1.pattern == f2.pattern
    &&& opt_sel_equiv(x1, x2, f1.selector, f2.selector)
    &&& match (f1.fields, f2.fields) {
        (Option::Some(a), Option::Some(b)) => fields_equiv(x1, x2, a, b),
        (Option::None, Option::None) => true,
        _ => false,
    }
}

pub open spec fn fields_equiv(x1: bool, x2: bool, a: Seq<GField>, b: Seq<GField>) -> bool
    decreases gfield_size_seq(a), 1nat,
    via fields_equiv_dec
{
    &&& a.len() == b.len()
    &&& forall|i: int|
        0 <= i < a.len() ==> field_equiv(x1, x2, #[trigger] a[i], b[i])
}

#[via_fn]
proof fn fields_equiv_dec(x1: bool, x2: bool, a: Seq<GField>, b: Seq<GField>) {
    assert forall|i: int| 0 <= i < a.len() implies gfield_size(a[i]) <= gfield_size_seq(a) by {
        lemma_gfield_size_elem(a, i);
    }
}

/// Equivalent fields read the same leaf value from any node.
pub proof fn lemma_single_equiv(x1: bool, x2: bool, g: GDom, f1: GField, f2: GField)
    requires
        field_equiv(x1, x2, f1, f2),
    ensures
        single_of(x1, g, f1) == single_of(x2, g, f2),
{
    match (f1.selector, f2.selector) {
        (Option::Some(a), Option::Some(b)) => {
            assert(sel_nodes(x1, g, a) == sel_nodes(x2, g, b));
        },
        _ => {
        },
    }
}

/// Equivalent fields take the same value in a record, whichever
/// backend resolves their selectors.
pub proof fn lemma_value_equiv(x1: bool, x2: bool, g: GDom, f1: GField, f2: GField)
    requires
        field_equiv(x1, x2, f1, f2),
    ensures
        value_of(x1, g, f1) == value_of(x2, g, f2),
    decreases gfield_size(f1), 2nat, 0nat,
{
    if f1.kind == "nested".spec_bytes() {
        match (f1.selector, f2.selector, f1.fields, f2.fields) {
            (Option::Some(a), Option::Some(b), Option::Some(fs1), Option::Some(fs2)) => {
                assert(sel_nodes(x1, g, a) == sel_nodes(x2, g, b));
                let m = sel_nodes(x1, g, a);
                if m.len() > 0 {
                    lemma_item_equiv(x1, x2, m[0], fs1, fs2, Seq::empty(), fs1.len() as int);
                }
            },
            _ => {
            },
        }
    } else if f1.kind == "list".spec_bytes() || f1.kind == "nested_list".spec_bytes() {
        match (f1.selector, f2.selector) {
            (Option::Some(a), Option::Some(b)) => {
                assert(sel_nodes(x1, g, a) == sel_nodes(x2, g, b));
                let m = sel_nodes(x1, g, a);
                match (f1.fields, f2.fields) {
                    (Option::Some(fs1), Option::Some(fs2)) => {
                        lemma_list_equiv(x1, x2, m, fs1, fs2, m.len() as int);
                    },
                    _ => {
                    },
                }
            },
            _ => {
            },
        }
    } else {
        lemma_single_equiv(x1, x2, g, f1, f2);
    }
}

/// Equivalent field lists build the same record pairs.
pub proof fn lemma_item_equiv(
    x1: bool,
    x2: bool,
    g: GDom,
    fs1: Seq<GField>,
    fs2: Seq<GField>,
    acc: Seq<(Seq<u8>, GJson)>,
    n: int,
)
    requires
        fields_equiv(x1, x2, fs1, fs2),
    ensures
        item_from(acc, x1, g, fs1, n) == item_from(acc, x2, g, fs2, n),
    decreases gfield_size_seq(fs1), 3nat, (if n >= 0 {
        n as nat
    } else {
        0nat
    }),
{
    if n <= 0 || n > fs1.len() {
    } else {
        lemma_item_equiv(x1, x2, g, fs1, fs2, acc, n - 1);
        proof_field_measure(fs1, n - 1);
        lemma_value_equiv(x1, x2, g, fs1[n - 1], fs2[n - 1]);
    }
}

/// Equivalent field lists build the same sub-records over any matches.
pub proof fn lemma_list_equiv(
    x1: bool,
    x2: bool,
    m: Seq<GDom>,
    fs1: Seq<GField>,
    fs2: Seq<GField>,
    n: int,
)
    requires
        fields_equiv(x1, x2, fs1, fs2),
    ensures
        list_items(x1, m, fs1, n) == list_items(x2, m, fs2, n),
    decreases gfield_size_seq(fs1), 4nat, (if n >= 0 {
        n as nat
    } else {
        0nat
    }),
{
    if n <= 0 {
    } else {
        lemma_list_equiv(x1, x2, m, fs1, fs2, n - 1);
        lemma_item_equiv(x1, x2, m[n - 1], fs1, fs2, Seq::empty(), fs1.len() as int);
        assert(fs1.len() == fs2.len());
        assert(item_of(x1, m[n - 1], fs1, fs1.len() as int) == item_of(
            x2,
            m[n - 1],
            fs2,
            fs2.len() as int,
        ));
        assert(list_items(x1, m, fs1, n) =~= list_items(x2, m, fs2, n));
    }
}

proof fn proof_field_measure(fs: Seq<GField>, i: int)
    requires
        0 <= i < fs.len(),
    ensures
        gfield_size(fs[i]) <= gfield_size_seq(fs),
{
    lemma_gfield_size_elem(fs, i);
}

/// Equivalent base-field lists build the same starting pairs.
pub proof fn lemma_base_equiv(
    x1: bool,
    x2: bool,
    g: GDom,
    fs1: Seq<GField>,
    fs2: Seq<GField>,
    n: int,
)
    requires
        fields_equiv(x1, x2, fs1, fs2),
    ensures
        base_item(x1, g, fs1, n) == base_item(x2, g, fs2, n),
    decreases n,
{
    if n <= 0 {
    } else {
        lemma_base_equiv(x1, x2, g, fs1, fs2, n - 1);
        if 0 <= n - 1 < fs1.len() {
            lemma_single_equiv(x1, x2, g, fs1[n - 1], fs2[n - 1]);
        }
    }
}

/// Two schemas are equivalent across backends: equal in everything but
/// their selectors, which must resolve identically.
pub open spec fn schema_equiv(x1: bool, x2: bool, s1: GSchema, s2: GSchema) -> bool {
    &&& sel_equiv(x1, x2, s1.base_selector, s2.base_selector)
    &&& match (s1.base_fields, s2.base_fields) {
        (Option::Some(a), Option::Some(b)) => fields_equiv(x1, x2, a, b),
        (Option::None, Option::None) => true,
        _ => false,
    }
    &&& fields_equiv(x1, x2, s1.fields, s2.fields)
}

/// The two selector backends agree: schemas with equivalent selectors
/// yield field-identical record sets over any document, one record per
/// base match in document order.
pub proof fn lemma_backends_agree(
    x1: bool,
    x2: bool,
    doc: GDom,
    s1: GSchema,
    s2: GSchema,
)
    requires
        schema_equiv(x1, x2, s1, s2),
    ensures
        records_of(x1, doc, s1) == records_of(x2, doc, s2),
{
    assert(sel_nodes(x1, doc, s1.base_selector) == sel_nodes(x2, doc, s2.base_selector));
    let m = sel_nodes(x1, doc, s1.base_selector);
    assert forall|i: int| 0 <= i < m.len() implies record_of(x1, m[i], s1) == record_of(
        x2,
        m[i],
        s2,
    ) by {
        match (s1.base_fields, s2.base_fields) {
            (Option::Some(a), Option::Some(b)) => {
                lemma_base_equiv(x1, x2, m[i], a, b, a.len() as int);
            },
            _ => {
            },
        }
        let pairs0 = match s1.base_fields {
            Option::Some(bf) => base_item(x1, m[i], bf, bf.len() as int),
            Option::None => Seq::empty(),
        };
        let pairs0b = match s2.base_fields {
            Option::Some(bf) => base_item(x2, m[i], bf, bf.len() as int),
            Option::None => Seq::empty(),
        };
        assert(pairs0b == pairs0);
        lemma_item_equiv(x1, x2, m[i], s1.fields, s2.fields, pairs0, s1.fields.len() as int);
        assert(s1.fields.len() == s2.fields.len());
        assert(record_of(x1, m[i], s1) == record_of(x2, m[i], s2));
    }
    assert(records_of(x1, doc, s1).len() == records_of(x2, doc, s2).len());
    assert forall|i: int| 0 <= i < records_of(x1, doc, s1).len() implies records_of(
        x1,
        doc,
        s1,
    )[i] == records_of(x2, doc, s2)[i] by {
        assert(records_of(x1, doc, s1)[i] == record_of(x1, m[i], s1));
        assert(records_of(x2, doc, s2)[i] == record_of(x2, m[i], s2));
    }
    assert(records_of(x1, doc, s1) =~= records_of(x2, doc, s2));
}

} // verus!
