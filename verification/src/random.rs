//! Random numbers, from the `rand` crate. What this module states of them
//! is taken on trust from that crate.

use vstd::prelude::*;
use rand::Rng;

verus! {

/// A number drawn at random from 0 up to, but not including, `below`:
/// `Rng::gen_range` on the generator that `rand::thread_rng` hands out. The
/// range must not be empty; nothing but its bounds is known of the number.
#[verifier::external_body]
pub(crate) fn random_below(below: usize) -> (picked: usize)
    requires
        below > 0,
    ensures
        picked < below,
{
    rand::thread_rng().gen_range(0, below)
}

} // verus!
