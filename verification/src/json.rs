//! The JSON value tree that the converter produces, and the object
//! operations the fold relies on.
//!
//! A number is carried as the bit pattern of a finite IEEE-754 double, so
//! that the tree is made of plain values throughout. An object keeps its
//! entries in insertion order with unique keys; inserting an existing key
//! replaces the value in place.

use vstd::prelude::*;

verus! {

/// Mathematical model of a JSON value.
pub ghost enum JsonModel {
    Null,
    Bool(bool),
    /// The bit pattern of a finite double.
    Num(u64),
    Str(Seq<char>),
    Arr(Seq<JsonModel>),
    Obj(Seq<(Seq<char>, JsonModel)>),
}

/// One JSON value: null, boolean, finite number (as its double bit
/// pattern), string, array, or object with uniquely-keyed entries in
/// insertion order.
#[derive(Debug, PartialEq)]
pub enum JsonValue {
    Null,
    Bool(bool),
    /// The bit pattern of a finite double.
    Num(u64),
    Str(String),
    Arr(Vec<JsonValue>),
    Obj(Vec<(String, JsonValue)>),
}

/// The model of a JSON value: every string replaced by its character
/// sequence, recursively.
pub open spec fn json_model(v: JsonValue) -> JsonModel
    decreases v,
{
    match v {
        JsonValue::Null => JsonModel::Null,
        JsonValue::Bool(b) => JsonModel::Bool(b),
        JsonValue::Num(n) => JsonModel::Num(n),
        JsonValue::Str(s) => JsonModel::Str(s@),
        JsonValue::Arr(a) => JsonModel::Arr(arr_model(a@)),
        JsonValue::Obj(o) => JsonModel::Obj(entries_model(o@)),
    }
}

/// The models of a sequence of JSON values, in order.
pub open spec fn arr_model(a: Seq<JsonValue>) -> Seq<JsonModel>
    decreases a,
{
    if a.len() == 0 {
        Seq::empty()
    } else {
        seq![json_model(a[0])] + arr_model(a.drop_first())
    }
}

/// The models of a sequence of object entries, in order.
pub open spec fn entries_model(o: Seq<(String, JsonValue)>) -> Seq<(Seq<char>, JsonModel)>
    decreases o,
{
    if o.len() == 0 {
        Seq::empty()
    } else {
        seq![(o[0].0@, json_model(o[0].1))] + entries_model(o.drop_first())
    }
}

impl View for JsonValue {
    type V = JsonModel;

    open spec fn view(&self) -> JsonModel {
        json_model(*self)
    }
}

/// Each entry of `arr_model` is the model of the value at the same
/// position.
pub proof fn lemma_arr_model(a: Seq<JsonValue>)
    ensures
        arr_model(a).len() == a.len(),
        forall|i: int| 0 <= i < a.len() ==> arr_model(a)[i] == json_model(a[i]),
    decreases a.len(),
{
    if a.len() > 0 {
        lemma_arr_model(a.drop_first());
    }
}

/// Each entry of `entries_model` is the entry at the same position with
/// the key as characters and the value as its model.
pub proof fn lemma_entries_model(o: Seq<(String, JsonValue)>)
    ensures
        entries_model(o).len() == o.len(),
        forall|i: int| 0 <= i < o.len() ==> entries_model(o)[i] == (o[i].0@, json_model(o[i].1)),
    decreases o.len(),
{
    if o.len() > 0 {
        lemma_entries_model(o.drop_first());
    }
}

/// No two entries of the object share a key.
pub open spec fn keys_unique(o: Seq<(Seq<char>, JsonModel)>) -> bool {
    forall|i: int, j: int| 0 <= i < j < o.len() ==> o[i].0 != o[j].0
}

/// Some entry of the object has key `k`.
pub open spec fn obj_has_key(o: Seq<(Seq<char>, JsonModel)>, k: Seq<char>) -> bool {
    exists|i: int| 0 <= i < o.len() && o[i].0 == k
}

/// The position of the entry with key `k` (meaningful where the key is
/// present and keys are unique).
pub open spec fn key_index(o: Seq<(Seq<char>, JsonModel)>, k: Seq<char>) -> int {
    choose|i: int| 0 <= i < o.len() && o[i].0 == k
}

/// Insert `k -> v`: replace the value in place where the key is present,
/// append a new entry at the end where it is not.
pub open spec fn obj_insert(
    o: Seq<(Seq<char>, JsonModel)>,
    k: Seq<char>,
    v: JsonModel,
) -> Seq<(Seq<char>, JsonModel)> {
    if obj_has_key(o, k) {
        o.update(key_index(o, k), (k, v))
    } else {
        o.push((k, v))
    }
}

/// Push `v` onto the array stored under key `k`. The object is unchanged
/// where that entry holds no array; the fold only appends under keys it
/// has already grouped into arrays.
pub open spec fn obj_append(
    o: Seq<(Seq<char>, JsonModel)>,
    k: Seq<char>,
    v: JsonModel,
) -> Seq<(Seq<char>, JsonModel)> {
    let i = key_index(o, k);
    match o[i].1 {
        JsonModel::Arr(a) => o.update(i, (k, JsonModel::Arr(a.push(v)))),
        _ => o,
    }
}

/// Insertion keeps the keys unique.
pub proof fn lemma_obj_insert_unique(o: Seq<(Seq<char>, JsonModel)>, k: Seq<char>, v: JsonModel)
    requires
        keys_unique(o),
    ensures
        keys_unique(obj_insert(o, k, v)),
        obj_has_key(obj_insert(o, k, v), k),
{
    if obj_has_key(o, k) {
        let i = key_index(o, k);
        assert(0 <= i < o.len() && o[i].0 == k);
        assert(obj_insert(o, k, v)[i].0 == k);
    } else {
        let r = obj_insert(o, k, v);
        assert(r[o.len() as int].0 == k);
        assert forall|i: int, j: int| 0 <= i < j < r.len() implies r[i].0 != r[j].0 by {
            if j < o.len() {
                assert(o[i].0 != o[j].0);
            } else {
                assert(!(0 <= i < o.len() && o[i].0 == k));
            }
        }
    }
}

/// Find the first entry of the object whose key reads `k`.
pub(crate) fn obj_find(o: &Vec<(String, JsonValue)>, k: &String) -> (r: Option<usize>)
    ensures
        match r {
            Option::Some(i) => i < o@.len() && o@[i as int].0@ == k@,
            Option::None => forall|j: int| 0 <= j < o@.len() ==> o@[j].0@ != k@,
        },
{
    let mut i: usize = 0;
    while i < o.len()
        invariant
            i <= o@.len(),
            forall|j: int| 0 <= j < i ==> o@[j].0@ != k@,
        decreases o@.len() - i,
    {
        if o[i].0 == *k {
            return Option::Some(i);
        }
        i += 1;
    }
    Option::None
}

/// Insert `k -> v` into the object: replace the value in place where the
/// key is present, push a new entry where it is not.
pub(crate) fn obj_insert_exec(o: &mut Vec<(String, JsonValue)>, k: String, v: JsonValue)
    requires
        keys_unique(entries_model(old(o)@)),
    ensures
        entries_model(final(o)@) == obj_insert(entries_model(old(o)@), k@, v@),
        keys_unique(entries_model(final(o)@)),
{
    proof {
        lemma_entries_model(o@);
        lemma_obj_insert_unique(entries_model(o@), k@, v@);
    }
    let ghost o0 = o@;
    match obj_find(o, &k) {
        Option::Some(i) => {
            let _replaced = o.remove(i);
            o.insert(i, (k, v));
            proof {
                lemma_entries_model(o@);
                let m0 = entries_model(o0);
                assert(obj_has_key(m0, k@)) by {
                    assert(m0[i as int].0 == o0[i as int].0@);
                }
                let ci = key_index(m0, k@);
                assert(0 <= ci < m0.len() && m0[ci].0 == k@);
                assert(ci == i) by {
                    if ci != i {
                        assert(m0[i as int].0 == k@);
                    }
                }
                assert(entries_model(o@) =~= m0.update(i as int, (k@, v@)));
            }
        }
        Option::None => {
            o.push((k, v));
            proof {
                lemma_entries_model(o@);
                let m0 = entries_model(o0);
                assert(!obj_has_key(m0, k@)) by {
                    if obj_has_key(m0, k@) {
                        let j = choose|j: int| 0 <= j < m0.len() && m0[j].0 == k@;
                        assert(o0[j].0@ == k@);
                    }
                }
                assert(entries_model(o@) =~= m0.push((k@, v@)));
            }
        }
    }
}

/// Push `v` onto the array held by the entry at position `i`.
pub(crate) fn obj_append_at(o: &mut Vec<(String, JsonValue)>, i: usize, v: JsonValue)
    requires
        i < old(o)@.len(),
        old(o)@[i as int].1 is Arr,
    ensures
        entries_model(final(o)@) == entries_model(old(o)@).update(
            i as int,
            (
                entries_model(old(o)@)[i as int].0,
                JsonModel::Arr(entries_model(old(o)@)[i as int].1->Arr_0.push(v@)),
            ),
        ),
{
    let ghost o0 = o@;
    let ghost vm = v@;
    let entry = o.remove(i);
    let (key, val) = entry;
    match val {
        JsonValue::Arr(mut a) => {
            let ghost a0 = a@;
            let ghost ve = v;
            a.push(v);
            o.insert(i, (key, JsonValue::Arr(a)));
            proof {
                lemma_entries_model(o0);
                lemma_entries_model(o@);
                lemma_arr_model(a0);
                lemma_arr_model(a@);
                let m0 = entries_model(o0);
                assert(a@ =~= a0.push(ve));
                assert(arr_model(a@) =~= arr_model(a0).push(vm));
                assert(json_model(o0[i as int].1) == JsonModel::Arr(arr_model(a0)));
                assert(m0[i as int].1->Arr_0 == arr_model(a0));
                assert(entries_model(o@) =~= m0.update(
                    i as int,
                    (m0[i as int].0, JsonModel::Arr(m0[i as int].1->Arr_0.push(vm))),
                ));
            }
        }
        _ => {
            proof {
                assert(false);
            }
        }
    }
}

} // verus!
