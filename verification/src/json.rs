//! The one question the library asks of a JSON value: whether it reads as a
//! three-component vector.

use vstd::prelude::*;

verus! {

/// Whether the JSON text `text` reads, with `serde_json`, as an array of
/// exactly three JSON numbers (what `[f32; 3]` accepts).
pub uninterp spec fn json_reads_as_vec3(text: Seq<char>) -> bool;

/// Calls `serde_json::from_str::<[serde_json::Number; 3]>` on `text` and tells
/// whether it succeeded. The contract claims only that the answer depends on
/// the text alone, and names it; which texts `serde_json` accepts is not
/// stated. Reading into `serde_json::Number` rather than `f32` accepts the
/// same texts, since serde reads an `f32` from any JSON number.
#[verifier::external_body]
pub(crate) fn reads_as_vec3(text: &str) -> (r: bool)
    ensures
        r == json_reads_as_vec3(text@),
{
    serde_json::from_str::<[serde_json::Number; 3]>(text).is_ok()
}

} // verus!
