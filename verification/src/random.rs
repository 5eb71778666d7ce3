//! The places where chance enters: thin calls into the `rand` crate.
//!
//! Of the two functions that call `rand` nothing is proved. Each states,
//! of every value the generator may hand back, only what `rand`
//! documents.

use rand::Rng;
use vstd::prelude::*;

verus! {

/// Calls `rand::random::<bool>()`, a coin toss on the generator of the
/// current thread. Nothing is claimed of the result.
#[verifier::external_body]
pub(crate) fn random_bool() -> (coin: bool) {
    rand::random()
}

/// Calls `Rng::gen_range` on the generator of the current thread with the
/// inclusive range from `low` to `high`. `rand` panics on an empty range,
/// which the precondition rules out, and otherwise returns a value of the
/// range.
#[verifier::external_body]
pub(crate) fn random_between(low: i64, high: i64) -> (drawn: i64)
    requires
        low <= high,
    ensures
        low <= drawn <= high,
{
    rand::thread_rng().gen_range(low..=high)
}

/// A place in a list of `len` items, drawn by `random_between`.
pub fn random_index(len: usize) -> (index: usize)
    requires
        len > 0,
    ensures
        index < len,
{
    let last: u64 = (len - 1) as u64;
    let high: i64 = if last > 0x7fff_ffff_ffff_ffff {
        0x7fff_ffff_ffff_ffff
    } else {
        last as i64
    };
    random_between(0, high) as usize
}

} // verus!
