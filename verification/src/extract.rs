//! The schema-driven structured extractor, shared by the CSS and XPath
//! backends.
//!
//! A schema names a base selector and a list of fields; for every node
//! the base selector matches, one record is built. Leaf fields extract
//! trimmed text, an attribute, serialized markup or a regex capture;
//! `nested` builds one sub-record, `list` and `nested_list` one
//! sub-record per match. Lookups fail open: a missing target falls
//! back to the field's default or leaves the field out, and a malformed
//! schema yields no records. The two backends run the same interpreter
//! and differ only in how a selector text resolves to nodes.

use vstd::prelude::*;
use vstd::string::StringSliceAdditionalSpecFns;
use crate::dom::{Dom, GDom};
use crate::parse::{parse_dom_of, parse_document};
use crate::json::{
    JVal,
    GJson,
    jval_view,
    obj_get,
    obj_put,
    gjson_size,
    gjson_size_seq,
    gjson_size_pairs,
    lemma_gjson_size_elem,
    lemma_gjson_size_pair,
};
use crate::tree::{text_of, attr_of, node_text, get_attr_bytes};
use crate::ser::{ser_node, serialize_node};
use crate::css::{css_select, css_select_exec};
use crate::xpath::{xpath_select, xpath_select_exec};
use crate::rex::{regex_capture_of, regex_capture};
use crate::strutil::{trim_of, trim, lower_of, to_lower, upper_of, to_upper, is_lit, bytes_eq};

verus! {

/// One schema field.
pub struct Field {
    pub name: Vec<u8>,
    pub selector: Option<Vec<u8>>,
    pub kind: Vec<u8>,
    pub attribute: Option<Vec<u8>>,
    pub transform: Option<Vec<u8>>,
    pub fields: Option<Vec<Field>>,
    pub default: Option<JVal>,
    pub pattern: Option<Vec<u8>>,
}

/// Ghost mirror of a field.
#[verifier::ext_equal]
pub struct GField {
    pub name: Seq<u8>,
    pub selector: Option<Seq<u8>>,
    pub kind: Seq<u8>,
    pub attribute: Option<Seq<u8>>,
    pub transform: Option<Seq<u8>>,
    pub fields: Option<Seq<GField>>,
    pub default: Option<GJson>,
    pub pattern: Option<Seq<u8>>,
}

pub open spec fn opt_bytes(v: Option<Vec<u8>>) -> Option<Seq<u8>> {
    match v {
        Option::Some(x) => Option::Some(x@),
        Option::None => Option::None,
    }
}

pub open spec fn field_view(f: Field) -> GField
    decreases f,
{
    GField {
        name: f.name@,
        selector: opt_bytes(f.selector),
        kind: f.kind@,
        attribute: opt_bytes(f.attribute),
        transform: opt_bytes(f.transform),
        fields: match f.fields {
            Option::Some(fs) => Option::Some(
                Seq::new(
                    fs@.len(),
                    |i: int|
                        if 0 <= i < fs@.len() {
                            field_view(fs@[i])
                        } else {
                            GField {
                                name: Seq::empty(),
                                selector: Option::None,
                                kind: Seq::empty(),
                                attribute: Option::None,
                                transform: Option::None,
                                fields: Option::None,
                                default: Option::None,
                                pattern: Option::None,
                            }
                        },
                ),
            ),
            Option::None => Option::None,
        },
        default: match f.default {
            Option::Some(d) => Option::Some(jval_view(d)),
            Option::None => Option::None,
        },
        pattern: opt_bytes(f.pattern),
    }
}

impl View for Field {
    type V = GField;

    open spec fn view(&self) -> GField {
        field_view(*self)
    }
}

/// The number of fields in a ghost field tree; a termination measure.
pub open spec fn gfield_size(f: GField) -> nat
    decreases f,
{
    match f.fields {
        Option::Some(fs) => 1 + gfield_size_seq(fs),
        Option::None => 1,
    }
}

pub open spec fn gfield_size_seq(s: Seq<GField>) -> nat
    decreases s,
{
    if s.len() == 0 {
        0
    } else {
        gfield_size(s[0]) + gfield_size_seq(s.subrange(1, s.len() as int))
    }
}

pub proof fn lemma_gfield_size_elem(s: Seq<GField>, i: int)
    requires
        0 <= i < s.len(),
    ensures
        gfield_size(s[i]) <= gfield_size_seq(s),
    decreases s.len(),
{
    if i == 0 {
    } else {
        lemma_gfield_size_elem(s.subrange(1, s.len() as int), i - 1);
        assert(s.subrange(1, s.len() as int)[i - 1] == s[i]);
    }
}

/// A parsed schema.
pub struct ExtractionSchema {
    pub name: Option<Vec<u8>>,
    pub base_selector: Vec<u8>,
    pub base_fields: Option<Vec<Field>>,
    pub fields: Vec<Field>,
}

/// Ghost mirror of a schema.
#[verifier::ext_equal]
pub struct GSchema {
    pub name: Option<Seq<u8>>,
    pub base_selector: Seq<u8>,
    pub base_fields: Option<Seq<GField>>,
    pub fields: Seq<GField>,
}

pub open spec fn fields_view(v: Vec<Field>) -> Seq<GField> {
    Seq::new(v@.len(), |i: int| v@[i]@)
}

pub open spec fn schema_view(s: ExtractionSchema) -> GSchema {
    GSchema {
        name: opt_bytes(s.name),
        base_selector: s.base_selector@,
        base_fields: match s.base_fields {
            Option::Some(fs) => Option::Some(fields_view(fs)),
            Option::None => Option::None,
        },
        fields: fields_view(s.fields),
    }
}

impl View for ExtractionSchema {
    type V = GSchema;

    open spec fn view(&self) -> GSchema {
        schema_view(*self)
    }
}

pub proof fn lemma_obj_get_size(pairs: Seq<(Seq<u8>, GJson)>, key: Seq<u8>)
    ensures
        obj_get(pairs, key) matches Option::Some(v) ==> gjson_size(v) <= gjson_size_pairs(
            pairs,
        ),
    decreases pairs.len(),
{
    if pairs.len() == 0 {
    } else if pairs[0].0 == key {
    } else {
        lemma_obj_get_size(pairs.subrange(1, pairs.len() as int), key);
    }
}

/// A required string entry of a schema object.
pub open spec fn get_str_req(pairs: Seq<(Seq<u8>, GJson)>, key: Seq<u8>) -> Option<Seq<u8>> {
    match obj_get(pairs, key) {
        Option::Some(GJson::Str(s)) => Option::Some(s),
        _ => Option::None,
    }
}

/// An optional string entry: absent or null is accepted as nothing; a
/// non-string value is an error.
pub open spec fn get_str_opt(pairs: Seq<(Seq<u8>, GJson)>, key: Seq<u8>) -> Option<
    Option<Seq<u8>>,
> {
    match obj_get(pairs, key) {
        Option::None => Option::Some(Option::None),
        Option::Some(GJson::Null) => Option::Some(Option::None),
        Option::Some(GJson::Str(s)) => Option::Some(Option::Some(s)),
        Option::Some(_) => Option::None,
    }
}

/// The optional default entry: absent or null is nothing.
pub open spec fn get_default(pairs: Seq<(Seq<u8>, GJson)>) -> Option<GJson> {
    match obj_get(pairs, "default".spec_bytes()) {
        Option::None => Option::None,
        Option::Some(GJson::Null) => Option::None,
        Option::Some(v) => Option::Some(v),
    }
}

/// A field parsed from a record value; anything malformed fails.
pub open spec fn field_of_json(g: GJson) -> Option<GField>
    decreases gjson_size(g), 0nat, 0nat,
    via field_of_json_dec
{
    match g {
        GJson::Obj(pairs) => {
            let name = get_str_req(pairs, "name".spec_bytes());
            let kind = get_str_req(pairs, "type".spec_bytes());
            let sel = get_str_opt(pairs, "selector".spec_bytes());
            let attribute = get_str_opt(pairs, "attribute".spec_bytes());
            let transform = get_str_opt(pairs, "transform".spec_bytes());
            let pattern = get_str_opt(pairs, "pattern".spec_bytes());
            let nested: Option<Option<Seq<GField>>> = match obj_get(
                pairs,
                "fields".spec_bytes(),
            ) {
                Option::None => Option::Some(Option::None),
                Option::Some(GJson::Null) => Option::Some(Option::None),
                Option::Some(GJson::Arr(items)) => match fields_of_list(
                    items,
                    items.len() as int,
                ) {
                    Option::Some(fs) => Option::Some(Option::Some(fs)),
                    Option::None => Option::None,
                },
                Option::Some(_) => Option::None,
            };
            if name is Some && kind is Some && sel is Some && attribute is Some && transform
                is Some && pattern is Some && nested is Some {
                Option::Some(
                    GField {
                        name: name->Some_0,
                        selector: sel->Some_0,
                        kind: kind->Some_0,
                        attribute: attribute->Some_0,
                        transform: transform->Some_0,
                        fields: nested->Some_0,
                        default: get_default(pairs),
                        pattern: pattern->Some_0,
                    },
                )
            } else {
                Option::None
            }
        },
        _ => Option::None,
    }
}

/// The first `n` entries of a field array, all of which must parse.
pub open spec fn fields_of_list(items: Seq<GJson>, n: int) -> Option<Seq<GField>>
    decreases gjson_size_seq(items), 1nat, (if n >= 0 {
        n as nat
    } else {
        0nat
    }),
    via fields_of_list_dec
{
    if n <= 0 || n > items.len() {
        Option::Some(Seq::empty())
    } else {
        match fields_of_list(items, n - 1) {
            Option::Some(rest) => match field_of_json(items[n - 1]) {
                Option::Some(f) => Option::Some(rest.push(f)),
                Option::None => Option::None,
            },
            Option::None => Option::None,
        }
    }
}

#[via_fn]
proof fn field_of_json_dec(g: GJson) {
    match g {
        GJson::Obj(pairs) => {
            lemma_obj_get_size(pairs, "fields".spec_bytes());
        },
        _ => {
        },
    }
}

#[via_fn]
proof fn fields_of_list_dec(items: Seq<GJson>, n: int) {
    if 0 < n && n <= items.len() {
        lemma_gjson_size_elem(items, n - 1);
    }
}

/// A schema parsed from a record value; anything malformed fails.
pub open spec fn schema_of_json(g: GJson) -> Option<GSchema> {
    match g {
        GJson::Obj(pairs) => {
            let base_selector = get_str_req(pairs, "baseSelector".spec_bytes());
            let name = get_str_opt(pairs, "name".spec_bytes());
            let fields: Option<Seq<GField>> = match obj_get(pairs, "fields".spec_bytes()) {
                Option::Some(GJson::Arr(items)) => fields_of_list(items, items.len() as int),
                _ => Option::None,
            };
            let base_fields: Option<Option<Seq<GField>>> = match obj_get(
                pairs,
                "baseFields".spec_bytes(),
            ) {
                Option::None => Option::Some(Option::None),
                Option::Some(GJson::Null) => Option::Some(Option::None),
                Option::Some(GJson::Arr(items)) => match fields_of_list(
                    items,
                    items.len() as int,
                ) {
                    Option::Some(fs) => Option::Some(Option::Some(fs)),
                    Option::None => Option::None,
                },
                Option::Some(_) => Option::None,
            };
            if base_selector is Some && name is Some && fields is Some && base_fields is Some {
                Option::Some(
                    GSchema {
                        name: name->Some_0,
                        base_selector: base_selector->Some_0,
                        base_fields: base_fields->Some_0,
                        fields: fields->Some_0,
                    },
                )
            } else {
                Option::None
            }
        },
        _ => Option::None,
    }
}

/// The nodes a selector text resolves to: one engine per backend.
pub open spec fn sel_nodes(xp: bool, g: GDom, sel: Seq<u8>) -> Seq<GDom> {
    if xp {
        xpath_select(g, sel)
    } else {
        css_select(g, sel)
    }
}

/// The node a leaf field reads: the first selector match, or the
/// current node when the field has no selector.
pub open spec fn target_of(xp: bool, g: GDom, f: GField) -> Option<GDom> {
    match f.selector {
        Option::Some(sel) => {
            let m = sel_nodes(xp, g, sel);
            if m.len() > 0 {
                Option::Some(m[0])
            } else {
                Option::None
            }
        },
        Option::None => Option::Some(g),
    }
}

/// A transform applied to a string result; other results and unknown
/// transforms pass through.
pub open spec fn transformed(tr: Option<Seq<u8>>, v: Option<GJson>) -> Option<GJson> {
    match (tr, v) {
        (Option::Some(t), Option::Some(GJson::Str(s))) => if t == "lowercase".spec_bytes() {
            Option::Some(GJson::Str(lower_of(s)))
        } else if t == "uppercase".spec_bytes() {
            Option::Some(GJson::Str(upper_of(s)))
        } else {
            Option::Some(GJson::Str(s))
        },
        (_, v2) => v2,
    }
}

/// A leaf field's value: trimmed text, an attribute, markup or a regex
/// capture from the target node, transformed; the default when the
/// target is missing; nothing for an unknown kind.
pub open spec fn single_of(xp: bool, g: GDom, f: GField) -> Option<GJson> {
    match target_of(xp, g, f) {
        Option::Some(t) => {
            let raw: Option<GJson> = if f.kind == "text".spec_bytes() {
                Option::Some(GJson::Str(trim_of(text_of(t))))
            } else if f.kind == "attribute".spec_bytes() {
                match f.attribute {
                    Option::Some(a) => match attr_of(t, a) {
                        Option::Some(v) => Option::Some(GJson::Str(v)),
                        Option::None => Option::None,
                    },
                    Option::None => Option::None,
                }
            } else if f.kind == "html".spec_bytes() {
                Option::Some(GJson::Str(ser_node(t)))
            } else if f.kind == "regex".spec_bytes() {
                match f.pattern {
                    Option::Some(p) => match regex_capture_of(p, text_of(t)) {
                        Option::Some(m) => Option::Some(GJson::Str(m)),
                        Option::None => Option::None,
                    },
                    Option::None => Option::None,
                }
            } else {
                Option::None
            };
            transformed(f.transform, raw)
        },
        Option::None => f.default,
    }
}

/// A field's value in a record; `Null` stands for no value.
pub open spec fn value_of(xp: bool, g: GDom, f: GField) -> GJson
    decreases gfield_size(f), 0nat, 0nat,
    via value_of_dec
{
    if f.kind == "nested".spec_bytes() {
        match (f.selector, f.fields) {
            (Option::Some(sel), Option::Some(fs)) => {
                let m = sel_nodes(xp, g, sel);
                if m.len() > 0 {
                    GJson::Obj(item_of(xp, m[0], fs, fs.len() as int))
                } else {
                    GJson::Null
                }
            },
            _ => GJson::Null,
        }
    } else if f.kind == "list".spec_bytes() || f.kind == "nested_list".spec_bytes() {
        match f.selector {
            Option::Some(sel) => {
                let m = sel_nodes(xp, g, sel);
                match f.fields {
                    Option::Some(fs) => GJson::Arr(list_items(xp, m, fs, m.len() as int)),
                    Option::None => GJson::Arr(Seq::empty()),
                }
            },
            Option::None => GJson::Null,
        }
    } else {
        match single_of(xp, g, f) {
            Option::Some(v) => v,
            Option::None => GJson::Null,
        }
    }
}

/// Record pairs from a field list, appended to `n` fields deep: a
/// `Null` value leaves the field out; an existing name takes the new
/// value.
pub open spec fn item_from(
    acc: Seq<(Seq<u8>, GJson)>,
    xp: bool,
    g: GDom,
    fields: Seq<GField>,
    n: int,
) -> Seq<(Seq<u8>, GJson)>
    decreases gfield_size_seq(fields), 1nat, (if n >= 0 {
        n as nat
    } else {
        0nat
    }),
    via item_from_dec
{
    if n <= 0 || n > fields.len() {
        acc
    } else {
        let acc2 = item_from(acc, xp, g, fields, n - 1);
        let v = value_of(xp, g, fields[n - 1]);
        if v is Null {
            acc2
        } else {
            obj_put(acc2, fields[n - 1].name, v)
        }
    }
}

/// The record pairs of one sub-record.
pub open spec fn item_of(xp: bool, g: GDom, fields: Seq<GField>, n: int) -> Seq<
    (Seq<u8>, GJson),
>
    decreases gfield_size_seq(fields), 2nat, (if n >= 0 {
        n as nat
    } else {
        0nat
    }),
{
    item_from(Seq::empty(), xp, g, fields, n)
}

/// One sub-record per matched node, in match order.
pub open spec fn list_items(xp: bool, m: Seq<GDom>, fields: Seq<GField>, n: int) -> Seq<GJson>
    decreases gfield_size_seq(fields), 3nat, (if n >= 0 {
        n as nat
    } else {
        0nat
    }),
{
    if n <= 0 {
        Seq::empty()
    } else {
        list_items(xp, m, fields, n - 1).push(
            GJson::Obj(item_of(xp, m[n - 1], fields, fields.len() as int)),
        )
    }
}

#[via_fn]
proof fn value_of_dec(xp: bool, g: GDom, f: GField) {
    match f.fields {
        Option::Some(fs) => {
        },
        Option::None => {
        },
    }
}

#[via_fn]
proof fn item_from_dec(acc: Seq<(Seq<u8>, GJson)>, xp: bool, g: GDom, fields: Seq<GField>, n: int) {
    if 0 < n && n <= fields.len() {
        lemma_gfield_size_elem(fields, n - 1);
    }
}

/// The base-field pairs of a record: leaf extraction only, against the
/// matched node itself.
pub open spec fn base_item(xp: bool, g: GDom, fields: Seq<GField>, n: int) -> Seq<
    (Seq<u8>, GJson),
>
    decreases n,
{
    if n <= 0 || n > fields.len() {
        Seq::empty()
    } else {
        let acc = base_item(xp, g, fields, n - 1);
        match single_of(xp, g, fields[n - 1]) {
            Option::Some(v) => obj_put(acc, fields[n - 1].name, v),
            Option::None => acc,
        }
    }
}

/// The record built for one base match.
pub open spec fn record_of(xp: bool, g: GDom, sch: GSchema) -> GJson {
    let pairs0 = match sch.base_fields {
        Option::Some(bf) => base_item(xp, g, bf, bf.len() as int),
        Option::None => Seq::empty(),
    };
    GJson::Obj(item_from(pairs0, xp, g, sch.fields, sch.fields.len() as int))
}

/// Every record of a schema over a document: one per base-selector
/// match, in document order.
pub open spec fn records_of(xp: bool, doc: GDom, sch: GSchema) -> Seq<GJson> {
    let m = sel_nodes(xp, doc, sch.base_selector);
    Seq::new(m.len(), |i: int| record_of(xp, m[i], sch))
}

/// What extraction yields for a document and a raw schema value: no
/// records when the schema is malformed.
pub open spec fn extraction_records(xp: bool, doc: GDom, schema_json: GJson) -> Seq<GJson> {
    match schema_of_json(schema_json) {
        Option::Some(sch) => records_of(xp, doc, sch),
        Option::None => Seq::empty(),
    }
}

/// The views of an object pair list.
pub open spec fn pairs_view(v: Vec<(Vec<u8>, JVal)>) -> Seq<(Seq<u8>, GJson)> {
    Seq::new(v@.len(), |i: int| (v@[i].0@, v@[i].1@))
}

pub proof fn lemma_obj_put_found(
    pairs: Seq<(Seq<u8>, GJson)>,
    k: Seq<u8>,
    v: GJson,
    i: int,
)
    requires
        0 <= i < pairs.len(),
        pairs[i].0 == k,
        forall|j: int| 0 <= j < i ==> (#[trigger] pairs[j]).0 != k,
    ensures
        obj_put(pairs, k, v) == pairs.update(i, (k, v)),
    decreases i,
{
    if i == 0 {
        assert(obj_put(pairs, k, v) =~= pairs.update(0, (k, v)));
    } else {
        let t = pairs.subrange(1, pairs.len() as int);
        lemma_obj_put_found(t, k, v, i - 1);
        assert(t[i - 1] == pairs[i]);
        assert(forall|j: int| 0 <= j < i - 1 ==> (#[trigger] t[j]).0 != k);
        assert(obj_put(pairs, k, v) =~= pairs.update(i, (k, v)));
    }
}

pub proof fn lemma_obj_put_missing(pairs: Seq<(Seq<u8>, GJson)>, k: Seq<u8>, v: GJson)
    requires
        forall|j: int| 0 <= j < pairs.len() ==> (#[trigger] pairs[j]).0 != k,
    ensures
        obj_put(pairs, k, v) == pairs.push((k, v)),
    decreases pairs.len(),
{
    if pairs.len() == 0 {
        assert(obj_put(pairs, k, v) =~= pairs.push((k, v)));
    } else {
        let t = pairs.subrange(1, pairs.len() as int);
        lemma_obj_put_missing(t, k, v);
        assert(forall|j: int| 0 <= j < t.len() ==> (#[trigger] t[j]).0 != k);
        assert(obj_put(pairs, k, v) =~= pairs.push((k, v)));
    }
}

/// Inserts with map semantics: an existing name keeps its place and
/// takes the new value, a new name goes to the end.
fn obj_put_exec(pairs: &mut Vec<(Vec<u8>, JVal)>, key: Vec<u8>, v: JVal)
    ensures
        pairs_view(*final(pairs)) == obj_put(pairs_view(*old(pairs)), key@, v@),
{
    let ghost gp = pairs_view(*pairs);
    let ghost gk = key@;
    let ghost gv = v@;
    let mut i: usize = 0;
    while i < pairs.len()
        invariant
            i <= pairs@.len(),
            gp == pairs_view(*pairs),
            gp == pairs_view(*old(pairs)),
            gk == key@,
            gv == v@,
            gp.len() == pairs@.len(),
            forall|j: int| 0 <= j < i ==> (#[trigger] gp[j]).0 != gk,
        decreases pairs.len() - i,
    {
        if bytes_eq(pairs[i].0.as_slice(), key.as_slice()) {
            pairs.remove(i);
            pairs.insert(i, (key, v));
            proof {
                lemma_obj_put_found(gp, gk, gv, i as int);
                assert(pairs_view(*pairs) =~= gp.update(i as int, (gk, gv)));
            }
            return ;
        }
        i = i + 1;
    }
    pairs.push((key, v));
    proof {
        lemma_obj_put_missing(gp, gk, gv);
        assert(pairs_view(*pairs) =~= gp.push((gk, gv)));
    }
}

/// Finds the value under a key in an object pair list.
fn jval_get<'a>(pairs: &'a Vec<(Vec<u8>, JVal)>, key: &str) -> (r: Option<&'a JVal>)
    ensures
        match r {
            Option::Some(v) => obj_get(pairs_view(*pairs), key.spec_bytes()) == Option::Some(
                v@,
            ),
            Option::None => obj_get(pairs_view(*pairs), key.spec_bytes()) is None,
        },
{
    let ghost gp = pairs_view(*pairs);
    let ghost gk = key.spec_bytes();
    let mut i: usize = 0;
    proof {
        assert(gp.subrange(0, gp.len() as int) =~= gp);
    }
    while i < pairs.len()
        invariant
            i <= pairs@.len(),
            gp == pairs_view(*pairs),
            gk == key.spec_bytes(),
            gp.len() == pairs@.len(),
            obj_get(gp, gk) == obj_get(gp.subrange(i as int, gp.len() as int), gk),
        decreases pairs.len() - i,
    {
        proof {
            assert(gp.subrange(i as int, gp.len() as int)[0] == gp[i as int]);
        }
        if is_lit(pairs[i].0.as_slice(), key) {
            return Option::Some(&pairs[i].1);
        }
        proof {
            assert(gp.subrange(i as int, gp.len() as int).subrange(1, gp.len() - i)
                =~= gp.subrange(i + 1, gp.len() as int));
        }
        i = i + 1;
    }
    proof {
        assert(gp.subrange(pairs@.len() as int, gp.len() as int)
            =~= Seq::<(Seq<u8>, GJson)>::empty());
    }
    Option::None
}

/// The pairs of an object value; anything else has none.
fn obj_pairs<'a>(v: &'a JVal) -> (r: Option<&'a Vec<(Vec<u8>, JVal)>>)
    ensures
        match r {
            Option::Some(pairs) => v@ is Obj && v@->Obj_0 == pairs_view(*pairs),
            Option::None => !(v@ is Obj),
        },
{
    match v {
        JVal::Obj(pairs) => {
            proof {
                assert(v@->Obj_0 =~= pairs_view(*pairs));
            }
            Option::Some(pairs)
        },
        _ => Option::None,
    }
}

/// A required string entry.
fn get_str_req_exec(pairs: &Vec<(Vec<u8>, JVal)>, key: &str) -> (r: Option<Vec<u8>>)
    ensures
        match r {
            Option::Some(s) => get_str_req(pairs_view(*pairs), key.spec_bytes())
                == Option::Some(s@),
            Option::None => get_str_req(pairs_view(*pairs), key.spec_bytes()) is None,
        },
{
    match jval_get(pairs, key) {
        Option::Some(JVal::Str(s)) => Option::Some(vstd::slice::slice_to_vec(s.as_slice())),
        _ => Option::None,
    }
}

/// An optional string entry; the outer option reports a wrong type.
fn get_str_opt_exec(pairs: &Vec<(Vec<u8>, JVal)>, key: &str) -> (r: Option<Option<Vec<u8>>>)
    ensures
        match r {
            Option::Some(o) => get_str_opt(pairs_view(*pairs), key.spec_bytes())
                == Option::Some(opt_bytes(o)),
            Option::None => get_str_opt(pairs_view(*pairs), key.spec_bytes()) is None,
        },
{
    match jval_get(pairs, key) {
        Option::None => Option::Some(Option::None),
        Option::Some(JVal::Null) => Option::Some(Option::None),
        Option::Some(JVal::Str(s)) => Option::Some(
            Option::Some(vstd::slice::slice_to_vec(s.as_slice())),
        ),
        Option::Some(_) => Option::None,
    }
}

/// Parses one field from a record value.
fn field_of_exec(v: &JVal) -> (r: Option<Field>)
    ensures
        match r {
            Option::Some(f) => field_of_json(v@) == Option::Some(f@),
            Option::None => field_of_json(v@) is None,
        },
    decreases gjson_size(v@), 1nat,
{
    let pairs = match obj_pairs(v) {
        Option::Some(p) => p,
        Option::None => {
            return Option::None;
        },
    };
    let ghost gp = v@->Obj_0;
    let name = match get_str_req_exec(pairs, "name") {
        Option::Some(x) => x,
        Option::None => {
            return Option::None;
        },
    };
    let kind = match get_str_req_exec(pairs, "type") {
        Option::Some(x) => x,
        Option::None => {
            return Option::None;
        },
    };
    let selector = match get_str_opt_exec(pairs, "selector") {
        Option::Some(x) => x,
        Option::None => {
            return Option::None;
        },
    };
    let attribute = match get_str_opt_exec(pairs, "attribute") {
        Option::Some(x) => x,
        Option::None => {
            return Option::None;
        },
    };
    let transform = match get_str_opt_exec(pairs, "transform") {
        Option::Some(x) => x,
        Option::None => {
            return Option::None;
        },
    };
    let pattern = match get_str_opt_exec(pairs, "pattern") {
        Option::Some(x) => x,
        Option::None => {
            return Option::None;
        },
    };
    let nested: Option<Vec<Field>> = match jval_get(pairs, "fields") {
        Option::None => Option::None,
        Option::Some(JVal::Null) => Option::None,
        Option::Some(arr) => {
            match arr {
                JVal::Arr(items) => {
                    proof {
                        lemma_obj_get_size(gp, "fields".spec_bytes());
                        assert(arr@->Arr_0.len() == items@.len());
                    }
                    match fields_list_exec(items, Ghost(arr@)) {
                        Option::Some(fs) => Option::Some(fs),
                        Option::None => {
                            return Option::None;
                        },
                    }
                },
                _ => {
                    return Option::None;
                },
            }
        },
    };
    let default: Option<JVal> = match jval_get(pairs, "default") {
        Option::None => Option::None,
        Option::Some(JVal::Null) => Option::None,
        Option::Some(d) => Option::Some(d.duplicate()),
    };
    let f = Field { name, selector, kind, attribute, transform, fields: nested, default, pattern };
    proof {
        assert(field_of_json(v@) is Some);
        let gf = field_of_json(v@)->Some_0;
        assert(gf.name == f@.name);
        assert(gf.selector == f@.selector);
        assert(gf.kind == f@.kind);
        assert(gf.attribute == f@.attribute);
        assert(gf.transform == f@.transform);
        assert(gf.pattern == f@.pattern);
        assert(gf.default == f@.default);
        if gf.fields is Some {
            assert(f@.fields is Some);
            assert(gf.fields->Some_0 =~= f@.fields->Some_0);
            assert(gf.fields->Some_0 == f@.fields->Some_0);
        } else {
            assert(f@.fields is None);
        }
        assert(gf =~~= f@);
    }
    Option::Some(f)
}

/// Parses a whole field array.
fn fields_list_exec(items: &Vec<JVal>, owner: Ghost<GJson>) -> (r: Option<Vec<Field>>)
    requires
        owner@ is Arr,
        owner@->Arr_0.len() == items@.len(),
        forall|j: int| 0 <= j < items@.len() ==> owner@->Arr_0[j] == items@[j]@,
    ensures
        match r {
            Option::Some(fs) => fields_of_list(owner@->Arr_0, owner@->Arr_0.len() as int)
                == Option::Some(fields_view(fs)),
            Option::None => fields_of_list(owner@->Arr_0, owner@->Arr_0.len() as int) is None,
        },
    decreases gjson_size(owner@), 0nat,
{
    let ghost gitems = owner@->Arr_0;
    let mut out: Vec<Field> = Vec::new();
    let mut i: usize = 0;
    proof {
        assert(fields_view(out) =~= Seq::<GField>::empty());
    }
    while i < items.len()
        invariant
            i <= items@.len(),
            owner@ is Arr,
            gitems == owner@->Arr_0,
            gitems.len() == items@.len(),
            forall|j: int| 0 <= j < items@.len() ==> gitems[j] == items@[j]@,
            fields_of_list(gitems, i as int) == Option::Some(fields_view(out)),
        decreases items.len() - i,
    {
        proof {
            lemma_gjson_size_elem(gitems, i as int);
        }
        match field_of_exec(&items[i]) {
            Option::Some(f) => {
                let ghost before = fields_view(out);
                let ghost fv = f@;
                out.push(f);
                proof {
                    assert(fields_view(out) =~= before.push(fv));
                }
            },
            Option::None => {
                proof {
                    lemma_fields_list_none(gitems, gitems.len() as int, i as int);
                }
                return Option::None;
            },
        }
        i = i + 1;
    }
    Option::Some(out)
}

pub proof fn lemma_fields_list_none(items: Seq<GJson>, n: int, j: int)
    requires
        0 <= j < n <= items.len(),
        field_of_json(items[j]) is None,
    ensures
        fields_of_list(items, n) is None,
    decreases n,
{
    if j == n - 1 {
    } else {
        lemma_fields_list_none(items, n - 1, j);
    }
}

/// Parses a schema from a record value.
pub fn schema_of_exec(v: &JVal) -> (r: Option<ExtractionSchema>)
    ensures
        match r {
            Option::Some(s) => schema_of_json(v@) == Option::Some(s@),
            Option::None => schema_of_json(v@) is None,
        },
{
    let pairs = match obj_pairs(v) {
        Option::Some(p) => p,
        Option::None => {
            return Option::None;
        },
    };
    let ghost gp = v@->Obj_0;
    let base_selector = match get_str_req_exec(pairs, "baseSelector") {
        Option::Some(x) => x,
        Option::None => {
            return Option::None;
        },
    };
    let name = match get_str_opt_exec(pairs, "name") {
        Option::Some(x) => x,
        Option::None => {
            return Option::None;
        },
    };
    let fields: Vec<Field> = match jval_get(pairs, "fields") {
        Option::Some(arr) => match arr {
            JVal::Arr(items) => {
                proof {
                    lemma_obj_get_size(gp, "fields".spec_bytes());
                }
                match fields_list_exec(items, Ghost(arr@)) {
                    Option::Some(fs) => fs,
                    Option::None => {
                        return Option::None;
                    },
                }
            },
            _ => {
                return Option::None;
            },
        },
        Option::None => {
            return Option::None;
        },
    };
    let base_fields: Option<Vec<Field>> = match jval_get(pairs, "baseFields") {
        Option::None => Option::None,
        Option::Some(JVal::Null) => Option::None,
        Option::Some(arr) => match arr {
            JVal::Arr(items) => {
                proof {
                    lemma_obj_get_size(gp, "baseFields".spec_bytes());
                }
                match fields_list_exec(items, Ghost(arr@)) {
                    Option::Some(fs) => Option::Some(fs),
                    Option::None => {
                        return Option::None;
                    },
                }
            },
            _ => {
                return Option::None;
            },
        },
    };
    let s = ExtractionSchema { name, base_selector, base_fields, fields };
    proof {
        assert(schema_of_json(v@) matches Option::Some(gs) && gs =~~= s@);
    }
    Option::Some(s)
}

/// Resolves a selector with the chosen backend.
fn sel_exec<'a>(xp: bool, d: &'a Dom, sel: &[u8]) -> (r: Vec<&'a Dom>)
    ensures
        r@.len() == sel_nodes(xp, d@, sel@).len(),
        forall|j: int| 0 <= j < r@.len() ==> r@[j]@ == sel_nodes(xp, d@, sel@)[j],
{
    if xp {
        xpath_select_exec(d, sel)
    } else {
        css_select_exec(d, sel)
    }
}

/// A leaf field's value from a node.
fn single_exec(xp: bool, d: &Dom, f: &Field) -> (r: Option<JVal>)
    ensures
        match r {
            Option::Some(v) => single_of(xp, d@, f@) == Option::Some(v@),
            Option::None => single_of(xp, d@, f@) is None,
        },
{
    let mut target_holder: Vec<&Dom> = Vec::new();
    let target: Option<&Dom> = match &f.selector {
        Option::Some(sel) => {
            let m = sel_exec(xp, d, sel.as_slice());
            if m.len() > 0 {
                let t = m[0];
                Option::Some(t)
            } else {
                Option::None
            }
        },
        Option::None => Option::Some(d),
    };
    match target {
        Option::Some(t) => {
            let raw: Option<JVal> = if is_lit(f.kind.as_slice(), "text") {
                let txt = node_text(t);
                Option::Some(JVal::Str(trim(txt.as_slice())))
            } else if is_lit(f.kind.as_slice(), "attribute") {
                match &f.attribute {
                    Option::Some(a) => match get_attr_bytes(t, a.as_slice()) {
                        Option::Some(v) => Option::Some(JVal::Str(v)),
                        Option::None => Option::None,
                    },
                    Option::None => Option::None,
                }
            } else if is_lit(f.kind.as_slice(), "html") {
                Option::Some(JVal::Str(serialize_node(t)))
            } else if is_lit(f.kind.as_slice(), "regex") {
                match &f.pattern {
                    Option::Some(p) => {
                        let txt = node_text(t);
                        match regex_capture(p.as_slice(), txt.as_slice()) {
                            Option::Some(m) => Option::Some(JVal::Str(m)),
                            Option::None => Option::None,
                        }
                    },
                    Option::None => Option::None,
                }
            } else {
                Option::None
            };
            match (&f.transform, raw) {
                (Option::Some(tr), Option::Some(JVal::Str(sv))) => {
                    if is_lit(tr.as_slice(), "lowercase") {
                        Option::Some(JVal::Str(to_lower(sv.as_slice())))
                    } else if is_lit(tr.as_slice(), "uppercase") {
                        Option::Some(JVal::Str(to_upper(sv.as_slice())))
                    } else {
                        Option::Some(JVal::Str(sv))
                    }
                },
                (_, raw2) => raw2,
            }
        },
        Option::None => {
            match &f.default {
                Option::Some(dv) => Option::Some(dv.duplicate()),
                Option::None => Option::None,
            }
        },
    }
}

/// A field's value in a record; `Null` stands for no value.
fn value_exec(xp: bool, d: &Dom, f: &Field) -> (r: JVal)
    ensures
        r@ == value_of(xp, d@, f@),
    decreases gfield_size(f@), 3nat,
{
    if is_lit(f.kind.as_slice(), "nested") {
        match (&f.selector, &f.fields) {
            (Option::Some(sel), Option::Some(fs)) => {
                let m = sel_exec(xp, d, sel.as_slice());
                if m.len() > 0 {
                    let mut pairs: Vec<(Vec<u8>, JVal)> = Vec::new();
                    proof {
                        assert(pairs_view(pairs) =~= Seq::<(Seq<u8>, GJson)>::empty());
                        assert(f@.fields->Some_0 =~= fields_view(*fs));
                    }
                    item_into_exec(xp, m[0], fs, &mut pairs);
                    let ghost gpv = pairs_view(pairs);
                    let r = JVal::Obj(pairs);
                    proof {
                        assert(r@ is Obj);
                        assert(r@->Obj_0 =~= gpv);
                        assert(r@ == GJson::Obj(gpv));
                        let gm = sel_nodes(xp, d@, f@.selector->Some_0);
                        assert(gpv =~= item_of(
                            xp,
                            gm[0],
                            f@.fields->Some_0,
                            f@.fields->Some_0.len() as int,
                        ));
                        assert(r@ == value_of(xp, d@, f@));
                    }
                    r
                } else {
                    JVal::Null
                }
            },
            _ => JVal::Null,
        }
    } else if is_lit(f.kind.as_slice(), "list") || is_lit(f.kind.as_slice(), "nested_list") {
        match &f.selector {
            Option::Some(sel) => {
                let m = sel_exec(xp, d, sel.as_slice());
                match &f.fields {
                    Option::Some(fs) => {
                        let ghost gm = sel_nodes(xp, d@, sel@);
                        let ghost gfs = fields_view(*fs);
                        proof {
                            assert(f@.fields->Some_0 =~= gfs);
                        }
                        let mut arr: Vec<JVal> = Vec::new();
                        let mut i: usize = 0;
                        proof {
                            assert(Seq::new(arr@.len(), |k: int| arr@[k]@)
                                =~= Seq::<GJson>::empty());
                        }
                        while i < m.len()
                            invariant
                                i <= m@.len(),
                                gm == sel_nodes(xp, d@, sel@),
                                gm.len() == m@.len(),
                                forall|j: int| 0 <= j < m@.len() ==> m@[j]@ == gm[j],
                                gfs == fields_view(*fs),
                                gfs =~= f@.fields->Some_0,
                                gfield_size_seq(gfs) < gfield_size(f@),
                                fs@.len() == gfs.len(),
                                forall|j: int| 0 <= j < fs@.len() ==> gfs[j] == fs@[j]@,
                                Seq::new(arr@.len(), |k: int| arr@[k]@) == list_items(
                                    xp,
                                    gm,
                                    gfs,
                                    i as int,
                                ),
                            decreases m.len() - i,
                        {
                            let mut pairs: Vec<(Vec<u8>, JVal)> = Vec::new();
                            proof {
                                assert(pairs_view(pairs)
                                    =~= Seq::<(Seq<u8>, GJson)>::empty());
                            }
                            item_into_exec(xp, m[i], fs, &mut pairs);
                            let ghost gpv = pairs_view(pairs);
                            let ghost before = Seq::new(arr@.len(), |k: int| arr@[k]@);
                            let rec = JVal::Obj(pairs);
                            let ghost rv = rec@;
                            proof {
                                assert(rv is Obj);
                                assert(rv->Obj_0 =~= gpv);
                                assert(gpv =~= item_of(xp, gm[i as int], gfs, gfs.len() as int));
                                assert(rv == GJson::Obj(
                                    item_of(xp, gm[i as int], gfs, gfs.len() as int),
                                ));
                            }
                            arr.push(rec);
                            proof {
                                assert(Seq::new(arr@.len(), |k: int| arr@[k]@) =~= before.push(
                                    rv,
                                ));
                            }
                            i = i + 1;
                        }
                        let ghost gav = Seq::new(arr@.len(), |k: int| arr@[k]@);
                        let r = JVal::Arr(arr);
                        proof {
                            assert(r@ is Arr);
                            assert(r@->Arr_0 =~= gav);
                            assert(r@ == GJson::Arr(gav));
                            assert(gav =~= list_items(xp, gm, gfs, gm.len() as int));
                            assert(r@ == value_of(xp, d@, f@));
                        }
                        r
                    },
                    Option::None => {
                        let empty_arr: Vec<JVal> = Vec::new();
                        let r = JVal::Arr(empty_arr);
                        proof {
                            assert(r@ is Arr);
                            assert(r@->Arr_0 =~= Seq::<GJson>::empty());
                            assert(r@ == GJson::Arr(Seq::<GJson>::empty()));
                        }
                        r
                    },
                }
            },
            Option::None => JVal::Null,
        }
    } else {
        match single_exec(xp, d, f) {
            Option::Some(v) => v,
            Option::None => JVal::Null,
        }
    }
}

/// Adds every field's value of a sub-record into `pairs`.
fn item_into_exec(xp: bool, d: &Dom, fields: &Vec<Field>, pairs: &mut Vec<(Vec<u8>, JVal)>)
    ensures
        pairs_view(*final(pairs)) == item_from(
            pairs_view(*old(pairs)),
            xp,
            d@,
            fields_view(*fields),
            fields_view(*fields).len() as int,
        ),
    decreases gfield_size_seq(fields_view(*fields)), 4nat,
{
    let ghost gfs = fields_view(*fields);
    let ghost gp0 = pairs_view(*pairs);
    let mut i: usize = 0;
    while i < fields.len()
        invariant
            i <= fields@.len(),
            gfs == fields_view(*fields),
            gfs.len() == fields@.len(),
            forall|j: int| 0 <= j < fields@.len() ==> gfs[j] == fields@[j]@,
            gp0 == pairs_view(*old(pairs)),
            pairs_view(*pairs) == item_from(gp0, xp, d@, gfs, i as int),
        decreases fields.len() - i,
    {
        proof {
            lemma_gfield_size_elem(gfs, i as int);
        }
        let v = value_exec(xp, d, &fields[i]);
        let is_null = match &v {
            JVal::Null => true,
            _ => false,
        };
        if !is_null {
            let key = vstd::slice::slice_to_vec(fields[i].name.as_slice());
            obj_put_exec(pairs, key, v);
        }
        i = i + 1;
    }
}

/// Adds the base fields' values into `pairs`.
fn base_item_exec(xp: bool, d: &Dom, fields: &Vec<Field>, pairs: &mut Vec<(Vec<u8>, JVal)>)
    requires
        pairs_view(*old(pairs)) == Seq::<(Seq<u8>, GJson)>::empty(),
    ensures
        pairs_view(*final(pairs)) == base_item(
            xp,
            d@,
            fields_view(*fields),
            fields_view(*fields).len() as int,
        ),
{
    let ghost gfs = fields_view(*fields);
    let mut i: usize = 0;
    while i < fields.len()
        invariant
            i <= fields@.len(),
            gfs == fields_view(*fields),
            gfs.len() == fields@.len(),
            forall|j: int| 0 <= j < fields@.len() ==> gfs[j] == fields@[j]@,
            pairs_view(*pairs) == base_item(xp, d@, gfs, i as int),
        decreases fields.len() - i,
    {
        match single_exec(xp, d, &fields[i]) {
            Option::Some(v) => {
                let key = vstd::slice::slice_to_vec(fields[i].name.as_slice());
                obj_put_exec(pairs, key, v);
            },
            Option::None => {
            },
        }
        i = i + 1;
    }
}

/// Extracts every record of a parsed schema from a parsed document.
pub fn extract_records(xp: bool, doc: &Dom, sch: &ExtractionSchema) -> (r: Vec<JVal>)
    ensures
        Seq::new(r@.len(), |i: int| r@[i]@) == records_of(xp, doc@, sch@),
        r@.len() == sel_nodes(xp, doc@, sch@.base_selector).len(),
{
    let ghost gsch = sch@;
    let m = sel_exec(xp, doc, sch.base_selector.as_slice());
    let ghost gm = sel_nodes(xp, doc@, gsch.base_selector);
    let mut out: Vec<JVal> = Vec::new();
    let mut i: usize = 0;
    proof {
        assert(Seq::new(out@.len(), |k: int| out@[k]@) =~= Seq::<GJson>::empty());
    }
    while i < m.len()
        invariant
            i <= m@.len(),
            gsch == sch@,
            gm == sel_nodes(xp, doc@, gsch.base_selector),
            gm.len() == m@.len(),
            forall|j: int| 0 <= j < m@.len() ==> m@[j]@ == gm[j],
            out@.len() == i,
            Seq::new(out@.len(), |k: int| out@[k]@) == records_of(xp, doc@, gsch).subrange(
                0,
                i as int,
            ),
        decreases m.len() - i,
    {
        let mut pairs: Vec<(Vec<u8>, JVal)> = Vec::new();
        proof {
            assert(pairs_view(pairs) =~= Seq::<(Seq<u8>, GJson)>::empty());
        }
        match &sch.base_fields {
            Option::Some(bf) => {
                proof {
                    assert(gsch.base_fields->Some_0 =~= fields_view(*bf));
                }
                base_item_exec(xp, m[i], bf, &mut pairs);
            },
            Option::None => {
            },
        }
        proof {
            assert(gsch.fields =~= fields_view(sch.fields));
        }
        item_into_exec(xp, m[i], &sch.fields, &mut pairs);
        let ghost gpv = pairs_view(pairs);
        let rec = JVal::Obj(pairs);
        let ghost before = Seq::new(out@.len(), |k: int| out@[k]@);
        let ghost rv = rec@;
        proof {
            assert(rv is Obj);
            assert(rv->Obj_0 =~= gpv);
            let gpairs0: Seq<(Seq<u8>, GJson)> = match gsch.base_fields {
                Option::Some(bf) => base_item(xp, gm[i as int], bf, bf.len() as int),
                Option::None => Seq::empty(),
            };
            assert(gpv =~= item_from(gpairs0, xp, gm[i as int], gsch.fields, gsch.fields.len() as int));
            assert(rv == GJson::Obj(
                item_from(gpairs0, xp, gm[i as int], gsch.fields, gsch.fields.len() as int),
            ));
            assert(rv == record_of(xp, gm[i as int], gsch));
            assert(records_of(xp, doc@, gsch)[i as int] == record_of(xp, gm[i as int], gsch));
        }
        out.push(rec);
        proof {
            assert(Seq::new(out@.len(), |k: int| out@[k]@) =~= records_of(
                xp,
                doc@,
                gsch,
            ).subrange(0, i + 1));
        }
        i = i + 1;
    }
    proof {
        assert(records_of(xp, doc@, gsch).subrange(0, gm.len() as int) =~= records_of(
            xp,
            doc@,
            gsch,
        ));
    }
    out
}

/// A structured extractor whose selectors are CSS.
pub struct JsonCssExtractionStrategy {
    pub schema: JVal,
}

impl JsonCssExtractionStrategy {
    /// A strategy over a raw schema value.
    pub fn new(schema: JVal) -> (r: Self)
        ensures
            r.schema@ == schema@,
    {
        JsonCssExtractionStrategy { schema }
    }

    /// One record per base-selector match; a malformed schema yields
    /// none.
    pub fn extract(&self, html: &str) -> (r: Vec<JVal>)
        ensures
            Seq::new(r@.len(), |i: int| r@[i]@) == extraction_records(
                false,
                parse_dom_of(html.spec_bytes()),
                self.schema@,
            ),
    {
        let d = parse_document(html);
        extract_with(false, &d, &self.schema)
    }
}

/// A structured extractor whose selectors are XPath.
pub struct JsonXPathExtractionStrategy {
    pub schema: JVal,
}

impl JsonXPathExtractionStrategy {
    /// A strategy over a raw schema value.
    pub fn new(schema: JVal) -> (r: Self)
        ensures
            r.schema@ == schema@,
    {
        JsonXPathExtractionStrategy { schema }
    }

    /// One record per base-selector match; a malformed schema yields
    /// none.
    pub fn extract(&self, html: &str) -> (r: Vec<JVal>)
        ensures
            Seq::new(r@.len(), |i: int| r@[i]@) == extraction_records(
                true,
                parse_dom_of(html.spec_bytes()),
                self.schema@,
            ),
    {
        let d = parse_document(html);
        extract_with(true, &d, &self.schema)
    }
}

/// Parses the raw schema and extracts; a malformed schema yields no
/// records.
pub fn extract_with(xp: bool, doc: &Dom, schema: &JVal) -> (r: Vec<JVal>)
    ensures
        Seq::new(r@.len(), |i: int| r@[i]@) == extraction_records(xp, doc@, schema@),
{
    match schema_of_exec(schema) {
        Option::Some(sch) => extract_records(xp, doc, &sch),
        Option::None => {
            let r: Vec<JVal> = Vec::new();
            proof {
                assert(Seq::new(r@.len(), |i: int| r@[i]@) =~= Seq::<GJson>::empty());
            }
            r
        },
    }
}

} // verus!
