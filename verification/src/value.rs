use vstd::prelude::*;

verus! {

/// Declares serde_json::Value, the JSON document type the store maps keys
/// to. Values are opaque here: the store moves them around whole and never
/// looks inside one.
#[verifier::external_type_specification]
#[verifier::external_body]
pub struct ExValue(serde_json::Value);

/// Relies on serde_json::Value's Clone: the copy equals the original.
#[verifier::external_body]
pub fn clone_value(v: &serde_json::Value) -> (r: serde_json::Value)
    ensures
        r == v,
{
    v.clone()
}

} // verus!
