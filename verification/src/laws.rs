//! Laws of the conversion, stated and proved over the spec-level fold.

use vstd::prelude::*;

use crate::convert::attrs_obj;
use crate::convert::fold_children;
use crate::convert::fold_element;
use crate::convert::name_seen;
use crate::convert::node2object_model;
use crate::json::JsonModel;
use crate::json::key_index;
use crate::json::obj_append;
use crate::json::obj_has_key;
use crate::json::obj_insert;
use crate::names::child_key;
use crate::names::snake_of;
use crate::scalar::finite_double_bits_of;
use crate::scalar::infer_scalar;
use crate::xml::ElemModel;
use crate::xml::XMLNodeType;
use crate::xml::classify;

verus! {

/// An element with no children, no text or CDATA, and no attributes folds
/// to Null.
pub proof fn lemma_empty_folds_to_null(e: ElemModel)
    requires
        e.children.len() == 0,
        e.text is None,
        e.cdata is None,
        e.attrs.len() == 0,
    ensures
        fold_element(e) == Option::Some(JsonModel::Null),
{
}

/// Text that parses as a finite double is inferred as exactly that number.
pub proof fn lemma_scalar_number(s: Seq<char>, b: u64)
    requires
        finite_double_bits_of(s) == Option::Some(b),
    ensures
        infer_scalar(s) == JsonModel::Num(b),
{
}

/// Text that is exactly "true" or "false", and is not a finite number, is
/// inferred as the matching boolean.
pub proof fn lemma_scalar_boolean(s: Seq<char>)
    requires
        finite_double_bits_of(s) is None,
        s == "true"@ || s == "false"@,
    ensures
        infer_scalar(s) == JsonModel::Bool(s == "true"@),
{
    reveal_strlit("true");
    reveal_strlit("false");
}

/// Any other text is inferred as the string itself, unchanged.
pub proof fn lemma_scalar_string(s: Seq<char>)
    requires
        finite_double_bits_of(s) is None,
        s != "true"@,
        s != "false"@,
    ensures
        infer_scalar(s) == JsonModel::Str(s),
{
}

/// Grouping: an element without attributes or text whose three children
/// fold under keys k, k, k2 (with k2 != k) to values v0, v1, v2 folds to
/// an object mapping k to the two values in arrival order and k2 to a
/// one-element array; a child occurring once is still wrapped in an array.
pub proof fn lemma_smart_list_grouping(e: ElemModel, v0: JsonModel, v1: JsonModel, v2: JsonModel)
    requires
        e.attrs.len() == 0,
        e.text is None,
        e.cdata is None,
        e.children.len() == 3,
        fold_element(e.children[0]) == Option::Some(v0),
        fold_element(e.children[1]) == Option::Some(v1),
        fold_element(e.children[2]) == Option::Some(v2),
        child_key(e.children[1].name) == child_key(e.children[0].name),
        child_key(e.children[2].name) != child_key(e.children[0].name),
    ensures
        fold_element(e) == Option::Some(
            JsonModel::Obj(
                seq![
                    (child_key(e.children[0].name), JsonModel::Arr(seq![v0, v1])),
                    (child_key(e.children[2].name), JsonModel::Arr(seq![v2])),
                ],
            ),
        ),
{
    let k = child_key(e.children[0].name);
    let k2 = child_key(e.children[2].name);
    let cs = e.children;
    let cs1 = cs.drop_first();
    let cs2 = cs1.drop_first();
    let cs3 = cs2.drop_first();
    assert(cs1[0] == cs[1] && cs1[1] == cs[2]);
    assert(cs2[0] == cs[2]);
    assert(cs3.len() == 0);

    assert(classify(e) == XMLNodeType::Parent);
    let o0 = Seq::<(Seq<char>, JsonModel)>::empty();
    let g0 = Seq::<Seq<char>>::empty();
    assert(attrs_obj(e.attrs) =~= o0);

    // first child: k starts a one-element array
    let o1 = obj_insert(o0, k, JsonModel::Arr(seq![v0]));
    let g1 = g0.push(k);
    assert(o1 =~= seq![(k, JsonModel::Arr(seq![v0]))]);
    assert(fold_children(o0, g0, cs) == fold_children(o1, g1, cs1));

    // second child: same key, the value is appended
    assert(name_seen(g1, k)) by {
        assert(g1[0] == k);
    }
    assert(obj_has_key(o1, k)) by {
        assert(o1[0].0 == k);
    }
    let ci = key_index(o1, k);
    assert(0 <= ci < o1.len() && o1[ci].0 == k);
    let o2 = obj_append(o1, k, v1);
    assert(o2 =~= seq![(k, JsonModel::Arr(seq![v0, v1]))]) by {
        assert(seq![v0].push(v1) =~= seq![v0, v1]);
    }
    assert(fold_children(o1, g1, cs1) == fold_children(o2, g1, cs2));

    // third child: a fresh key, wrapped in a one-element array of its own
    assert(!name_seen(g1, k2)) by {
        if name_seen(g1, k2) {
            let j = choose|j: int| 0 <= j < g1.len() && g1[j] == k2;
            assert(j == 0);
        }
    }
    assert(!obj_has_key(o2, k2)) by {
        if obj_has_key(o2, k2) {
            let j = choose|j: int| 0 <= j < o2.len() && o2[j].0 == k2;
            assert(j == 0);
        }
    }
    let o3 = obj_insert(o2, k2, JsonModel::Arr(seq![v2]));
    let g2 = g1.push(k2);
    assert(o3 =~= seq![(k, JsonModel::Arr(seq![v0, v1])), (k2, JsonModel::Arr(seq![v2]))]);
    assert(fold_children(o2, g1, cs2) == fold_children(o3, g2, cs3));
    assert(fold_children(o3, g2, cs3) == o3);
}

/// A SemiStructured element folds to nothing, and at the root it yields
/// Null under the single wrapped key; no error is ever raised.
pub proof fn lemma_semistructured_root(e: ElemModel)
    requires
        e.children.len() > 0,
        e.text is Some || e.cdata is Some,
    ensures
        fold_element(e) is None,
        node2object_model(e) == seq![(snake_of(e.name), JsonModel::Null)],
{
}

/// A child that folds to nothing contributes no key to its parent's fold:
/// it is skipped entirely.
pub proof fn lemma_semistructured_child_skipped(
    o: Seq<(Seq<char>, JsonModel)>,
    g: Seq<Seq<char>>,
    cs: Seq<ElemModel>,
)
    requires
        cs.len() > 0,
        fold_element(cs[0]) is None,
    ensures
        fold_children(o, g, cs) == fold_children(o, g, cs.drop_first()),
{
}

} // verus!
