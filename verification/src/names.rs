//! Name normalization: element and attribute names are snake_cased before
//! they are used as object keys, and the reserved child name "option" is
//! remapped to "option_tag".

use vstd::prelude::*;

verus! {

/// What inflector's to_snake_case returns for a name: a pure function of
/// the characters alone.
pub uninterp spec fn snake_of(s: Seq<char>) -> Seq<char>;

/// Relies on inflector::cases::snakecase::to_snake_case: a deterministic,
/// side-effect-free normalization of a name to snake_case.
#[verifier::external_body]
pub(crate) fn to_snake_case(s: &str) -> (r: String)
    ensures
        r@ == snake_of(s@),
{
    inflector::cases::snakecase::to_snake_case(s)
}

/// The object key a child element is stored under: its snake_cased name,
/// with the reserved key "option" remapped to "option_tag".
pub open spec fn child_key(name: Seq<char>) -> Seq<char> {
    if snake_of(name) == "option"@ {
        "option_tag"@
    } else {
        snake_of(name)
    }
}

/// Compute the object key for a child element's name.
pub(crate) fn child_key_of(name: &str) -> (k: String)
    ensures
        k@ == child_key(name@),
{
    let s = to_snake_case(name);
    let reserved = "option".to_owned();
    if s == reserved {
        "option_tag".to_owned()
    } else {
        s
    }
}

} // verus!
