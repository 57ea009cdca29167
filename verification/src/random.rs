//! The random sources of the search: a jumpable generator whose state is
//! opaque to the proofs, and the draws that the search makes from it.

use rand::distributions::Bernoulli;
use rand::distributions::Distribution;
use rand::seq::SliceRandom;
use rand::Rng;
use rand_xoshiro::Xoshiro256PlusPlus;
use vstd::prelude::*;

verus! {

#[verifier::external_type_specification]
#[verifier::external_body]
pub struct ExXoshiro256PlusPlus(Xoshiro256PlusPlus);

/// The generator that drives every random choice of the search.
pub type FastRng = Xoshiro256PlusPlus;

/// `SliceRandom::shuffle` reorders the slice by a run of swaps, so the
/// shuffled vector holds the same items as before, each as often.
#[verifier::external_body]
pub(crate) fn shuffle(items: &mut Vec<usize>, rng: &mut FastRng)
    ensures
        final(items)@.to_multiset() == old(items)@.to_multiset(),
{
    items.shuffle(rng);
}

/// `Rng::gen_range` on the closed range from zero to `high`, which is never
/// empty: the draw does not exceed `high`.
#[verifier::external_body]
pub(crate) fn draw_up_to(rng: &mut FastRng, high: usize) -> (drawn: usize)
    ensures
        drawn <= high,
{
    rng.gen_range(0..=high)
}

/// `Rng::gen_range` on the half-open range from zero to `bound`, which
/// panics on an empty range: the draw lies below `bound`.
#[verifier::external_body]
pub(crate) fn draw_below(rng: &mut FastRng, bound: usize) -> (drawn: usize)
    requires
        bound > 0,
    ensures
        drawn < bound,
{
    rng.gen_range(0..bound)
}

/// `Distribution::sample` of a `Bernoulli`: one trial, of whose outcome
/// nothing is known beforehand.
#[verifier::external_body]
pub(crate) fn trial(dist: &Bernoulli, rng: &mut FastRng) -> bool {
    dist.sample(rng)
}

/// `Clone::clone` of the generator, which the generator derives: a second
/// generator in the state of the first.
#[verifier::external_body]
pub(crate) fn fork(rng: &FastRng) -> (forked: FastRng)
    ensures
        forked == *rng,
{
    rng.clone()
}

/// The generator that `Xoshiro256PlusPlus::jump` makes of `rng`. The jump
/// works on the state of the generator and on nothing else, so equal
/// generators are equal after it.
pub uninterp spec fn jumped(rng: FastRng) -> FastRng;

/// `rng` after `n` jumps.
pub open spec fn jumps(rng: FastRng, n: nat) -> FastRng
    decreases n,
{
    if n == 0 {
        rng
    } else {
        jumped(jumps(rng, (n - 1) as nat))
    }
}

/// The `count` generators that are split off `rng`: `rng` as it is, `rng`
/// after one jump, after two jumps, and so on.
pub open spec fn split(rng: FastRng, count: nat) -> Seq<FastRng> {
    Seq::new(count, |k: int| jumps(rng, k as nat))
}

/// `Xoshiro256PlusPlus::jump`: moves the generator far ahead in its
/// sequence, so that what was forked before the jump does not overlap with
/// what is drawn after it. Where it lands is `jumped` of where it stood.
#[verifier::external_body]
pub(crate) fn jump(rng: &mut FastRng)
    ensures
        *final(rng) == jumped(*old(rng)),
{
    rng.jump();
}

/// A list of `count` generators split off `rng`, each forked before one of
/// `count` jumps: generator `k` of the list is `rng` after `k` jumps, and
/// `rng` is left after `count` jumps.
pub fn gen_rngs(rng: &mut FastRng, count: usize) -> (rngs: Vec<FastRng>)
    ensures
        rngs@ == split(*old(rng), count as nat),
        *final(rng) == jumps(*old(rng), count as nat),
{
    let mut rngs: Vec<FastRng> = Vec::with_capacity(count);
    let mut i: usize = 0;
    while i < count
        invariant
            i <= count,
            rngs@ == split(*old(rng), i as nat),
            *rng == jumps(*old(rng), i as nat),
        decreases count - i,
    {
        rngs.push(fork(rng));
        jump(rng);
        assert(rngs@ =~= split(*old(rng), (i + 1) as nat));
        i += 1;
    }
    rngs
}

} // verus!
