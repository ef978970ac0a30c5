//! Fresh identifiers for rows the gateway creates itself.

use vstd::prelude::*;

verus! {

/// Relies on uuid's Uuid::new_v4 and its hyphenated Display: a random
/// version-4 UUID printed as 36 characters. Nothing else can be promised
/// of a random value; the store checks every new id against the ids in
/// use.
#[verifier::external_body]
pub fn new_uuid() -> (r: String)
    ensures
        r@.len() == 36,
{
    uuid::Uuid::new_v4().to_string()
}

} // verus!
