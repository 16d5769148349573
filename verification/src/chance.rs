//! The two sources of chance the arena draws from: a random number
//! generator and a generator of fresh identifiers. Nothing is proved of
//! these calls; their contracts state what the libraries document.

use rand::Rng;
use uuid::Uuid;
use vstd::prelude::*;

verus! {

/// Calls `rand::thread_rng().gen_range(0..bound)`.
///
/// `gen_range` panics on an empty range, hence the precondition; it
/// returns a value of the range it is given, which is all that is claimed.
#[verifier::external_body]
pub(crate) fn random_below(bound: i64) -> (r: i64)
    requires
        bound > 0,
    ensures
        0 <= r < bound,
{
    rand::thread_rng().gen_range(0..bound)
}

/// Calls `uuid::Uuid::new_v4()` and returns the identifier as the 128-bit
/// number `Uuid::as_u128` gives. Nothing is claimed of the value.
#[verifier::external_body]
pub(crate) fn fresh_id() -> u128 {
    Uuid::new_v4().as_u128()
}

} // verus!
