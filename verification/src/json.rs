//! JSON-like record values produced by the structured extractors.

use vstd::prelude::*;

verus! {

/// Ghost mirror of a record value.
#[verifier::ext_equal]
pub enum GJson {
    Null,
    Bool(bool),
    Int(i64),
    Str(Seq<u8>),
    Arr(Seq<GJson>),
    Obj(Seq<(Seq<u8>, GJson)>),
}

/// A JSON-like value: strings are UTF-8 bytes, objects keep their
/// fields in insertion order.
pub enum JVal {
    Null,
    Bool(bool),
    Int(i64),
    Str(Vec<u8>),
    Arr(Vec<JVal>),
    Obj(Vec<(Vec<u8>, JVal)>),
}

pub open spec fn jval_view(v: JVal) -> GJson
    decreases v,
{
    match v {
        JVal::Null => GJson::Null,
        JVal::Bool(b) => GJson::Bool(b),
        JVal::Int(n) => GJson::Int(n),
        JVal::Str(s) => GJson::Str(s@),
        JVal::Arr(items) => GJson::Arr(
            Seq::new(
                items@.len(),
                |i: int|
                    if 0 <= i < items@.len() {
                        jval_view(items@[i])
                    } else {
                        GJson::Null
                    },
            ),
        ),
        JVal::Obj(pairs) => GJson::Obj(
            Seq::new(
                pairs@.len(),
                |i: int|
                    if 0 <= i < pairs@.len() {
                        (pairs@[i].0@, jval_view(pairs@[i].1))
                    } else {
                        (Seq::empty(), GJson::Null)
                    },
            ),
        ),
    }
}

impl View for JVal {
    type V = GJson;

    open spec fn view(&self) -> GJson {
        jval_view(*self)
    }
}

/// The number of nodes in a ghost value; a termination measure.
pub open spec fn gjson_size(g: GJson) -> nat
    decreases g,
{
    match g {
        GJson::Arr(items) => 1 + gjson_size_seq(items),
        GJson::Obj(pairs) => 1 + gjson_size_pairs(pairs),
        _ => 1,
    }
}

pub open spec fn gjson_size_seq(s: Seq<GJson>) -> nat
    decreases s,
{
    if s.len() == 0 {
        0
    } else {
        gjson_size(s[0]) + gjson_size_seq(s.subrange(1, s.len() as int))
    }
}

pub open spec fn gjson_size_pairs(s: Seq<(Seq<u8>, GJson)>) -> nat
    decreases s,
{
    if s.len() == 0 {
        0
    } else {
        gjson_size(s[0].1) + gjson_size_pairs(s.subrange(1, s.len() as int))
    }
}

pub proof fn lemma_gjson_size_elem(s: Seq<GJson>, i: int)
    requires
        0 <= i < s.len(),
    ensures
        gjson_size(s[i]) <= gjson_size_seq(s),
    decreases s.len(),
{
    if i == 0 {
    } else {
        lemma_gjson_size_elem(s.subrange(1, s.len() as int), i - 1);
        assert(s.subrange(1, s.len() as int)[i - 1] == s[i]);
    }
}

pub proof fn lemma_gjson_size_pair(s: Seq<(Seq<u8>, GJson)>, i: int)
    requires
        0 <= i < s.len(),
    ensures
        gjson_size(s[i].1) <= gjson_size_pairs(s),
    decreases s.len(),
{
    if i == 0 {
    } else {
        lemma_gjson_size_pair(s.subrange(1, s.len() as int), i - 1);
        assert(s.subrange(1, s.len() as int)[i - 1] == s[i]);
    }
}

impl JVal {
    /// Structural copy of a value.
    pub fn duplicate(&self) -> (r: JVal)
        ensures
            r@ == self@,
        decreases gjson_size(self@),
    {
        match self {
            JVal::Null => JVal::Null,
            JVal::Bool(b) => JVal::Bool(*b),
            JVal::Int(n) => JVal::Int(*n),
            JVal::Str(s) => JVal::Str(vstd::slice::slice_to_vec(s.as_slice())),
            JVal::Arr(items) => {
                let mut out: Vec<JVal> = Vec::new();
                let mut i: usize = 0;
                while i < items.len()
                    invariant
                        i <= items.len(),
                        self@ is Arr,
                        self@->Arr_0.len() == items@.len(),
                        forall|j: int|
                            0 <= j < items@.len() ==> self@->Arr_0[j] == items@[j]@,
                        out@.len() == i,
                        forall|j: int| 0 <= j < i ==> out@[j]@ == items@[j]@,
                    decreases items.len() - i,
                {
                    proof {
                        lemma_gjson_size_elem(self@->Arr_0, i as int);
                    }
                    let c = items[i].duplicate();
                    out.push(c);
                    i = i + 1;
                }
                let r = JVal::Arr(out);
                proof {
                    assert(r@ is Arr);
                    assert(r@->Arr_0 =~~= self@->Arr_0);
                    assert(r@ =~~= self@);
                }
                r
            },
            JVal::Obj(pairs) => {
                let mut out: Vec<(Vec<u8>, JVal)> = Vec::new();
                let mut i: usize = 0;
                while i < pairs.len()
                    invariant
                        i <= pairs.len(),
                        self@ is Obj,
                        self@->Obj_0.len() == pairs@.len(),
                        forall|j: int|
                            0 <= j < pairs@.len() ==> self@->Obj_0[j] == (
                            pairs@[j].0@,
                            pairs@[j].1@,
                            ),
                        out@.len() == i,
                        forall|j: int|
                            0 <= j < i ==> (#[trigger] out@[j]).0@ == pairs@[j].0@ && out@[j].1@
                                == pairs@[j].1@,
                    decreases pairs.len() - i,
                {
                    proof {
                        lemma_gjson_size_pair(self@->Obj_0, i as int);
                    }
                    let k = vstd::slice::slice_to_vec(pairs[i].0.as_slice());
                    let v = pairs[i].1.duplicate();
                    out.push((k, v));
                    i = i + 1;
                }
                let r = JVal::Obj(out);
                proof {
                    assert(r@ is Obj);
                    assert(r@->Obj_0 =~~= self@->Obj_0);
                    assert(r@ =~~= self@);
                }
                r
            },
        }
    }
}

/// The value under a key, the first occurrence deciding.
pub open spec fn obj_get(pairs: Seq<(Seq<u8>, GJson)>, key: Seq<u8>) -> Option<GJson>
    decreases pairs.len(),
{
    if pairs.len() == 0 {
        Option::None
    } else if pairs[0].0 == key {
        Option::Some(pairs[0].1)
    } else {
        obj_get(pairs.subrange(1, pairs.len() as int), key)
    }
}

/// Insertion with map semantics over ordered pairs: an existing key
/// keeps its place and takes the new value; a new key goes to the end.
pub open spec fn obj_put(pairs: Seq<(Seq<u8>, GJson)>, key: Seq<u8>, v: GJson) -> Seq<
    (Seq<u8>, GJson),
>
    decreases pairs.len(),
{
    if pairs.len() == 0 {
        seq![(key, v)]
    } else if pairs[0].0 == key {
        seq![(key, v)] + pairs.subrange(1, pairs.len() as int)
    } else {
        seq![pairs[0]] + obj_put(pairs.subrange(1, pairs.len() as int), key, v)
    }
}

} // verus!
