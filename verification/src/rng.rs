//! Trusted access to the `rand` crate.  Each worker creates its own
//! thread-local generator at the call site, so no generator is ever shared
//! across concurrently running tasks.

use vstd::prelude::*;

use rand::prelude::SliceRandom;
use rand::Rng;

verus! {

/// Relies on rand's `Rng::gen_range` over the non-empty range `0..n`: the
/// sample always lies within the range.
#[verifier::external_body]
pub(crate) fn rand_below(n: usize) -> (r: usize)
    requires
        n >= 1,
    ensures
        r < n,
{
    rand::thread_rng().gen_range(0..n)
}

/// Relies on rand's `SliceRandom::shuffle`: an in-place rearrangement of
/// the slice by swaps, which keeps the multiset of entries.
#[verifier::external_body]
pub(crate) fn shuffle(v: &mut Vec<usize>)
    ensures
        final(v)@.to_multiset() == old(v)@.to_multiset(),
{
    v.shuffle(&mut rand::thread_rng());
}

} // verus!
