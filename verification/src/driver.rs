//! The two decisions of the loop that drives the search from generation to
//! generation: whether to stop, and whether a generation has brought a better
//! schedule than all before it.

use vstd::prelude::*;

verus! {

/// Whether the search ends before the next generation: it was cancelled, or
/// there is a cap on the generations and `done` generations have reached it.
pub fn finished(done: u64, cap: Option<u64>, cancelled: bool) -> (stop: bool)
    ensures
        stop == (cancelled || (cap matches Some(n) && done >= n)),
{
    cancelled || match cap {
        Some(n) => done >= n,
        None => false,
    }
}

/// Whether the makespan `current` takes the place of the best one so far:
/// there is none yet, or `current` lies below it.
pub fn improves(best: Option<u64>, current: u64) -> (better: bool)
    ensures
        better == (best matches Some(b) ==> current < b),
{
    match best {
        Some(b) => current < b,
        None => true,
    }
}

} // verus!
