//! Random identifiers for layout objects.
use vstd::prelude::*;

verus! {

/// A fresh random identifier from `uuid::Uuid::new_v4`, as its 128-bit
/// value. The contract claims only what `new_v4` does to the random bits it
/// draws: the version nibble reads 4 and the variant bits read `10`.
#[verifier::external_body]
pub(crate) fn random_id() -> (id: u128)
    ensures
        id & 0xF000_C000_0000_0000_0000u128 == 0x4000_8000_0000_0000_0000u128,
{
    uuid::Uuid::new_v4().as_u128()
}

} // verus!
