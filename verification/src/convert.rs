//! The recursive tree fold: classify each element, fold its attributes and
//! children into a JSON object, and group same-named siblings into arrays.
//!
//! Every child that survives the fold is wrapped in an array, even when it
//! occurs once. An element mixing text with child elements
//! (SemiStructured) is a known limitation: it folds to nothing, so it is
//! absent as a key in its parent, and yields Null at the root.

use vstd::prelude::*;
use vstd::string::StringExecFns;

use crate::json::JsonModel;
use crate::json::JsonValue;
use crate::json::arr_model;
use crate::json::entries_model;
use crate::json::json_model;
use crate::json::key_index;
use crate::json::keys_unique;
use crate::json::lemma_arr_model;
use crate::json::lemma_entries_model;
use crate::json::lemma_obj_insert_unique;
use crate::json::obj_append;
use crate::json::obj_append_at;
use crate::json::obj_find;
use crate::json::obj_has_key;
use crate::json::obj_insert;
use crate::json::obj_insert_exec;
use crate::names::child_key;
use crate::names::child_key_of;
use crate::names::snake_of;
use crate::names::to_snake_case;
use crate::scalar::infer_scalar;
use crate::scalar::parse_text;
use crate::xml::Element;
use crate::xml::ElemModel;
use crate::xml::XMLNodeType;
use crate::xml::attrs_model;
use crate::xml::classify;
use crate::xml::lemma_children_model;
use crate::xml::scan_xml_node;

verus! {

/// Direct text and CDATA assembled into one string: the text immediately
/// followed by the CDATA, a missing part contributing nothing.
pub open spec fn assembled_text(e: ElemModel) -> Seq<char> {
    (match e.text {
        Option::Some(t) => t,
        Option::None => Seq::empty(),
    }) + (match e.cdata {
        Option::Some(c) => c,
        Option::None => Seq::empty(),
    })
}

/// The object that folding the attributes in order produces: each name
/// snake_cased, each raw value run through scalar inference. A later
/// attribute whose normalized name collides with an earlier one
/// overwrites its value in place.
pub open spec fn attrs_obj(attrs: Seq<(Seq<char>, Seq<char>)>) -> Seq<(Seq<char>, JsonModel)>
    decreases attrs.len(),
{
    if attrs.len() == 0 {
        Seq::empty()
    } else {
        obj_insert(
            attrs_obj(attrs.drop_last()),
            snake_of(attrs.last().0),
            infer_scalar(attrs.last().1),
        )
    }
}

/// Folding attributes keeps the object's keys unique.
pub proof fn lemma_attrs_obj_unique(attrs: Seq<(Seq<char>, Seq<char>)>)
    ensures
        keys_unique(attrs_obj(attrs)),
    decreases attrs.len(),
{
    if attrs.len() > 0 {
        lemma_attrs_obj_unique(attrs.drop_last());
        lemma_obj_insert_unique(
            attrs_obj(attrs.drop_last()),
            snake_of(attrs.last().0),
            infer_scalar(attrs.last().1),
        );
    }
}

/// The key occurs among the grouped names.
pub open spec fn name_seen(g: Seq<Seq<char>>, k: Seq<char>) -> bool {
    exists|i: int| 0 <= i < g.len() && g[i] == k
}

/// Some entry of the object holds an array under key `k`.
pub open spec fn grouped_key_ok(o: Seq<(Seq<char>, JsonModel)>, k: Seq<char>) -> bool {
    exists|i: int| 0 <= i < o.len() && o[i].0 == k && o[i].1 is Arr
}

/// Every grouped name has an array entry in the object.
pub open spec fn grouped_ok(o: Seq<(Seq<char>, JsonModel)>, g: Seq<Seq<char>>) -> bool {
    forall|j: int| 0 <= j < g.len() ==> grouped_key_ok(o, #[trigger] g[j])
}

/// Fold the children `cs` one by one into the object `o`, `g` holding the
/// child keys already grouped into arrays. A child that folds to nothing
/// is skipped; the first child under a key starts a one-element array;
/// every later child under the same key is appended in arrival order.
pub open spec fn fold_children(
    o: Seq<(Seq<char>, JsonModel)>,
    g: Seq<Seq<char>>,
    cs: Seq<ElemModel>,
) -> Seq<(Seq<char>, JsonModel)>
    decreases cs,
{
    if cs.len() == 0 {
        o
    } else {
        let rest = cs.drop_first();
        match fold_element(cs[0]) {
            Option::Some(v) => {
                let k = child_key(cs[0].name);
                if name_seen(g, k) {
                    fold_children(obj_append(o, k, v), g, rest)
                } else {
                    fold_children(obj_insert(o, k, JsonModel::Arr(seq![v])), g.push(k), rest)
                }
            },
            Option::None => fold_children(o, g, rest),
        }
    }
}

/// The folded value of one element, decided by its shape; `None` exactly
/// for the SemiStructured shape.
pub open spec fn fold_element(e: ElemModel) -> Option<JsonModel>
    decreases e,
{
    match classify(e) {
        XMLNodeType::Empty => Option::Some(JsonModel::Null),
        XMLNodeType::Text => Option::Some(infer_scalar(assembled_text(e))),
        XMLNodeType::Attributes => Option::Some(JsonModel::Obj(attrs_obj(e.attrs))),
        XMLNodeType::TextAndAttributes => Option::Some(
            JsonModel::Obj(
                obj_insert(attrs_obj(e.attrs), "text"@, infer_scalar(assembled_text(e))),
            ),
        ),
        XMLNodeType::Parent => Option::Some(
            JsonModel::Obj(fold_children(attrs_obj(e.attrs), Seq::empty(), e.children)),
        ),
        XMLNodeType::SemiStructured => Option::None,
    }
}

/// The converted document: one object with exactly one key, the
/// snake_cased root name, holding the root's folded value, or Null where
/// the root folds to nothing.
pub open spec fn node2object_model(e: ElemModel) -> Seq<(Seq<char>, JsonModel)> {
    seq![
        (
            snake_of(e.name),
            match fold_element(e) {
                Option::Some(v) => v,
                Option::None => JsonModel::Null,
            },
        ),
    ]
}

/// Assemble an element's text and CDATA and infer a scalar from the
/// result.
pub fn parse_text_contents(e: &Element) -> (v: JsonValue)
    ensures
        v@ == infer_scalar(assembled_text(e@)),
{
    let mut s = String::new();
    match &e.text {
        Option::Some(t) => s.append(t.as_str()),
        Option::None => {},
    }
    match &e.cdata {
        Option::Some(c) => s.append(c.as_str()),
        Option::None => {},
    }
    proof {
        assert(s@ =~= assembled_text(e@));
    }
    parse_text(s.as_str())
}

/// Fold the attribute list into an object, in order.
fn fold_attributes(attrs: &Vec<(String, String)>) -> (o: Vec<(String, JsonValue)>)
    ensures
        entries_model(o@) == attrs_obj(attrs_model(attrs@)),
        keys_unique(entries_model(o@)),
{
    let mut o: Vec<(String, JsonValue)> = Vec::new();
    proof {
        assert(entries_model(o@) =~= attrs_obj(attrs_model(attrs@).subrange(0, 0)));
    }
    let mut i: usize = 0;
    while i < attrs.len()
        invariant
            i <= attrs@.len(),
            entries_model(o@) == attrs_obj(attrs_model(attrs@).subrange(0, i as int)),
            keys_unique(entries_model(o@)),
        decreases attrs@.len() - i,
    {
        let pair = &attrs[i];
        let name = to_snake_case(pair.0.as_str());
        let val = parse_text(pair.1.as_str());
        let ghost pre = attrs_model(attrs@).subrange(0, i as int);
        obj_insert_exec(&mut o, name, val);
        proof {
            let post = attrs_model(attrs@).subrange(0, i as int + 1);
            assert(post.drop_last() =~= pre);
            assert(post.last() == (attrs@[i as int].0@, attrs@[i as int].1@));
        }
        i += 1;
    }
    proof {
        assert(attrs_model(attrs@).subrange(0, attrs@.len() as int) =~= attrs_model(attrs@));
    }
    o
}

/// The grouped names as character sequences, in order.
pub open spec fn names_model(g: Seq<String>) -> Seq<Seq<char>> {
    Seq::new(g.len(), |i: int| g[i]@)
}

/// Whether the key already stands among the grouped names.
fn names_contain(g: &Vec<String>, k: &String) -> (r: bool)
    ensures
        r == name_seen(names_model(g@), k@),
{
    let mut i: usize = 0;
    while i < g.len()
        invariant
            i <= g@.len(),
            forall|j: int| 0 <= j < i ==> g@[j]@ != k@,
        decreases g@.len() - i,
    {
        if g[i] == *k {
            proof {
                assert(names_model(g@)[i as int] == k@);
            }
            return true;
        }
        i += 1;
    }
    proof {
        if name_seen(names_model(g@), k@) {
            let j = choose|j: int| 0 <= j < names_model(g@).len() && names_model(g@)[j] == k@;
            assert(g@[j]@ != k@);
        }
    }
    false
}

/// A value whose model is an array is itself the Arr variant.
proof fn lemma_model_arr(v: JsonValue)
    ensures
        (json_model(v) is Arr) == (v is Arr),
{
    match v {
        JsonValue::Null => {},
        JsonValue::Bool(_) => {},
        JsonValue::Num(_) => {},
        JsonValue::Str(_) => {},
        JsonValue::Arr(_) => {},
        JsonValue::Obj(_) => {},
    }
}

/// Fold one element into its JSON value: `None` exactly for the
/// SemiStructured shape, which is deliberately unsupported.
pub fn convert_node_aux(e: &Element) -> (r: Option<JsonValue>)
    ensures
        match r {
            Option::Some(v) => fold_element(e@) == Option::Some(v@),
            Option::None => fold_element(e@) == Option::<JsonModel>::None,
        },
    decreases e,
{
    match scan_xml_node(e) {
        XMLNodeType::Empty => Option::Some(JsonValue::Null),
        XMLNodeType::Text => Option::Some(parse_text_contents(e)),
        XMLNodeType::Attributes => {
            let data = fold_attributes(&e.attributes);
            Option::Some(JsonValue::Obj(data))
        },
        XMLNodeType::TextAndAttributes => {
            let mut data = fold_attributes(&e.attributes);
            let tv = parse_text_contents(e);
            obj_insert_exec(&mut data, "text".to_owned(), tv);
            Option::Some(JsonValue::Obj(data))
        },
        XMLNodeType::Parent => {
            let mut data = fold_attributes(&e.attributes);
            let mut vectorized: Vec<String> = Vec::new();
            let ghost target = fold_children(attrs_obj(e@.attrs), Seq::empty(), e@.children);
            proof {
                lemma_children_model(e.children@);
                assert(names_model(vectorized@) =~= Seq::<Seq<char>>::empty());
                assert(e@.children.subrange(0, e@.children.len() as int) =~= e@.children);
            }
            let mut i: usize = 0;
            while i < e.children.len()
                invariant
                    i <= e.children@.len(),
                    e@.children.len() == e.children@.len(),
                    keys_unique(entries_model(data@)),
                    grouped_ok(entries_model(data@), names_model(vectorized@)),
                    fold_children(
                        entries_model(data@),
                        names_model(vectorized@),
                        e@.children.subrange(i as int, e@.children.len() as int),
                    ) == target,
                decreases e.children@.len() - i,
            {
                let ghost rest = e@.children.subrange(i as int, e@.children.len() as int);
                proof {
                    lemma_children_model(e.children@);
                    assert(rest[0] == e@.children[i as int]);
                    assert(rest.drop_first() =~= e@.children.subrange(
                        i as int + 1,
                        e@.children.len() as int,
                    ));
                    assert(decreases_to!(*e => e.children));
                    assert(decreases_to!(e.children => e.children[i as int]));
                }
                let c = &e.children[i];
                match convert_node_aux(c) {
                    Option::Some(v) => {
                        let ghost m0 = entries_model(data@);
                        let ghost g0 = names_model(vectorized@);
                        let ghost vm = v@;
                        let k = child_key_of(c.name.as_str());
                        let ghost km = k@;
                        proof {
                            assert(km == child_key(rest[0].name));
                        }
                        if names_contain(&vectorized, &k) {
                            match obj_find(&data, &k) {
                                Option::Some(idx) => {
                                    proof {
                                        lemma_entries_model(data@);
                                        let w = choose|w: int|
                                            0 <= w < m0.len() && m0[w].0 == km && m0[w].1 is Arr;
                                        assert(m0[idx as int].0 == km);
                                        assert(w == idx as int);
                                        lemma_model_arr(data@[idx as int].1);
                                        assert(data@[idx as int].1 is Arr);
                                    }
                                    obj_append_at(&mut data, idx, v);
                                    proof {
                                        let ci = key_index(m0, km);
                                        assert(obj_has_key(m0, km)) by {
                                            assert(m0[idx as int].0 == km);
                                        }
                                        assert(0 <= ci < m0.len() && m0[ci].0 == km);
                                        assert(ci == idx as int);
                                        assert(entries_model(data@) == obj_append(m0, km, vm));
                                        assert(keys_unique(entries_model(data@))) by {
                                            assert forall|a: int, b: int|
                                                0 <= a < b < entries_model(data@).len() implies
                                                entries_model(data@)[a].0 != entries_model(
                                                    data@,
                                                )[b].0 by {
                                                assert(entries_model(data@)[a].0 == m0[a].0);
                                                assert(entries_model(data@)[b].0 == m0[b].0);
                                            }
                                        }
                                        assert(grouped_ok(entries_model(data@), g0)) by {
                                            assert forall|j: int| 0 <= j < g0.len() implies
                                                grouped_key_ok(entries_model(data@), g0[j]) by {
                                                let w2 = choose|w2: int|
                                                    0 <= w2 < m0.len() && m0[w2].0 == g0[j]
                                                        && m0[w2].1 is Arr;
                                                assert(entries_model(data@)[w2].0 == g0[j]);
                                                assert(entries_model(data@)[w2].1 is Arr);
                                            }
                                        }
                                    }
                                },
                                Option::None => {
                                    proof {
                                        let w = choose|w: int|
                                            0 <= w < m0.len() && m0[w].0 == km && m0[w].1 is Arr;
                                        lemma_entries_model(data@);
                                        assert(data@[w].0@ == km);
                                        assert(false);
                                    }
                                },
                            }
                        } else {
                            let k2 = k.clone();
                            let mut arr: Vec<JsonValue> = Vec::new();
                            arr.push(v);
                            proof {
                                lemma_arr_model(arr@);
                                assert(arr_model(arr@) =~= seq![vm]);
                            }
                            obj_insert_exec(&mut data, k, JsonValue::Arr(arr));
                            vectorized.push(k2);
                            proof {
                                assert(names_model(vectorized@) =~= g0.push(km));
                                assert(entries_model(data@) == obj_insert(
                                    m0,
                                    km,
                                    JsonModel::Arr(seq![vm]),
                                ));
                                assert(grouped_ok(entries_model(data@), names_model(vectorized@)))
                                    by {
                                    let m1 = entries_model(data@);
                                    let g1 = names_model(vectorized@);
                                    lemma_obj_insert_unique(m0, km, JsonModel::Arr(seq![vm]));
                                    assert forall|j: int| 0 <= j < g1.len() implies
                                        grouped_key_ok(m1, g1[j]) by {
                                        if j < g0.len() {
                                            let w = choose|w: int|
                                                0 <= w < m0.len() && m0[w].0 == g0[j]
                                                    && m0[w].1 is Arr;
                                            assert(g0[j] != km);
                                            if obj_has_key(m0, km) {
                                                let ci = key_index(m0, km);
                                                assert(m0[ci].0 == km);
                                                assert(w != ci);
                                                assert(m1[w] == m0[w]);
                                            } else {
                                                assert(m1[w] == m0[w]);
                                            }
                                        } else {
                                            if obj_has_key(m0, km) {
                                                let ci = key_index(m0, km);
                                                assert(m1[ci].0 == km && m1[ci].1 is Arr);
                                            } else {
                                                let last = m0.len() as int;
                                                assert(m1[last].0 == km && m1[last].1 is Arr);
                                            }
                                        }
                                    }
                                }
                            }
                        }
                    },
                    Option::None => {},
                }
                i += 1;
            }
            proof {
                assert(e@.children.subrange(
                    e@.children.len() as int,
                    e@.children.len() as int,
                ) =~= Seq::<ElemModel>::empty());
            }
            Option::Some(JsonValue::Obj(data))
        },
        XMLNodeType::SemiStructured => Option::None,
    }
}

/// Convert an element tree into a JSON object with exactly one key: the
/// snake_cased root name, holding the root's folded value, or Null where
/// the root itself is SemiStructured.
pub fn node2object(e: &Element) -> (r: Vec<(String, JsonValue)>)
    ensures
        entries_model(r@) == node2object_model(e@),
        entries_model(r@).len() == 1,
        entries_model(r@)[0].0 == snake_of(e@.name),
{
    let key = to_snake_case(e.name.as_str());
    let val = match convert_node_aux(e) {
        Option::Some(v) => v,
        Option::None => JsonValue::Null,
    };
    let mut data: Vec<(String, JsonValue)> = Vec::new();
    data.push((key, val));
    proof {
        lemma_entries_model(data@);
        assert(entries_model(data@) =~= node2object_model(e@));
    }
    data
}

} // verus!
