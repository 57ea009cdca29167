//! The work that is handed to the thread pool: each function here maps one
//! verified operation over the individuals and collects what comes back in
//! the order of the individuals.

use crate::cfg::Config;
use crate::operators::crossover_seq;
use crate::random::fork;
use crate::random::FastRng;
use crate::schedule::mutation_of;
use crate::schedule::Schedule;
use crate::selection::sorted_pairs;
use rayon::iter::IndexedParallelIterator;
use rayon::iter::IntoParallelIterator;
use rayon::iter::IntoParallelRefIterator;
use rayon::iter::IntoParallelRefMutIterator;
use rayon::iter::ParallelIterator;
use rayon::slice::ParallelSliceMut;
use vstd::prelude::*;

verus! {

/// Every individual of `pool` is a feasible schedule of `conf`.
pub open spec fn pool_wf<'c>(pool: Seq<Schedule<'c>>, conf: &'c Config) -> bool {
    forall|i: int| 0 <= i < pool.len() ==> (#[trigger] pool[i]).conf == conf && pool[i].wf()
}

/// The makespans of the individuals of `pool`, in their order.
pub open spec fn pool_times<'c>(pool: Seq<Schedule<'c>>) -> Seq<u64> {
    Seq::new(pool.len(), |i: int| pool[i].makespan() as u64)
}

/// `child` is a child of `first` and `second`: their crossover at some cut
/// point from zero to their length.
pub open spec fn child_of<'c>(first: Schedule<'c>, second: Schedule<'c>, child: Schedule<'c>) -> bool {
    &&& child.conf == first.conf
    &&& child.wf()
    &&& exists|cut: int|
        0 <= cut <= first@.len() && child@ == #[trigger] crossover_seq(first@, second@, cut)
}

/// Two parents, by their positions in the population, and the generator
/// that draws the cut points of their two children.
pub struct Couple {
    pub parent_a: usize,
    pub parent_b: usize,
    pub rng: FastRng,
}

/// The positions of both parents lie within a population of `len`
/// individuals.
pub open spec fn couples_within(couples: Seq<Couple>, len: int) -> bool {
    forall|k: int|
        0 <= k < couples.len() ==> (#[trigger] couples[k]).parent_a < len && couples[k].parent_b
            < len
}

/// The two children of one couple: the crossover of the first parent with
/// the second, and that of the second with the first.
pub fn breed<'c>(population: &Vec<Schedule<'c>>, conf: &'c Config, couple: Couple) -> (children: [Schedule<'c>; 2])
    requires
        pool_wf(population@, conf),
        couple.parent_a < population@.len(),
        couple.parent_b < population@.len(),
    ensures
        child_of(
            population@[couple.parent_a as int],
            population@[couple.parent_b as int],
            children@[0],
        ),
        child_of(
            population@[couple.parent_b as int],
            population@[couple.parent_a as int],
            children@[1],
        ),
{
    let parent_a = &population[couple.parent_a];
    let parent_b = &population[couple.parent_b];
    let child_a = parent_a.crossover(parent_b, fork(&couple.rng));
    let child_b = parent_b.crossover(parent_a, couple.rng);
    [child_a, child_b]
}

/// rayon's `into_par_iter`, `map` and `collect` with `Schedule::new` as the
/// map: one new schedule for each generator, in the order of the
/// generators. What holds of each is what `Schedule::new` ensures.
#[verifier::external_body]
pub(crate) fn spawn_all<'c>(conf: &'c Config, rngs: Vec<FastRng>) -> (population: Vec<Schedule<'c>>)
    requires
        conf.problem_wf(),
    ensures
        population@.len() == rngs@.len(),
        pool_wf(population@, conf),
{
    rngs.into_par_iter().map(|rng| Schedule::new(conf, rng)).collect()
}

/// rayon's `par_iter`, `map` and `collect` with `Schedule::evaluate` as the
/// map: the makespan of each individual, in the order of the individuals.
#[verifier::external_body]
pub(crate) fn evaluate_all<'c>(population: &Vec<Schedule<'c>>, conf: &'c Config) -> (times: Vec<u64>)
    requires
        pool_wf(population@, conf),
    ensures
        times@.len() == population@.len(),
        forall|i: int| 0 <= i < times@.len() ==> (#[trigger] times@[i]) == population@[i].makespan(),
        forall|i: int| 0 <= i < times@.len() ==> (#[trigger] times@[i]) > 0,
{
    population.par_iter().map(|s| s.evaluate()).collect()
}

/// rayon's `into_par_iter`, `flat_map` and `collect` with `breed` as the
/// map: the two children of each couple, couple after couple.
#[verifier::external_body]
pub(crate) fn breed_all<'c>(
    population: &Vec<Schedule<'c>>,
    conf: &'c Config,
    couples: Vec<Couple>,
) -> (children: Vec<Schedule<'c>>)
    requires
        pool_wf(population@, conf),
        couples_within(couples@, population@.len() as int),
    ensures
        children@.len() == 2 * couples@.len(),
        forall|k: int|
            0 <= k < couples@.len() ==> child_of(
                population@[(#[trigger] couples@[k]).parent_a as int],
                population@[couples@[k].parent_b as int],
                children@[2 * k],
            ) && child_of(
                population@[couples@[k].parent_b as int],
                population@[couples@[k].parent_a as int],
                children@[2 * k + 1],
            ),
{
    couples.into_par_iter().flat_map(|couple| breed(population, conf, couple)).collect()
}

/// rayon's `par_iter_mut`, `zip` and `for_each` with `Schedule::mutate` as
/// the action: each individual mutated with the generator at its own
/// position.
#[verifier::external_body]
pub(crate) fn mutate_all<'c>(population: &mut Vec<Schedule<'c>>, conf: &'c Config, rngs: Vec<FastRng>)
    requires
        pool_wf(old(population)@, conf),
        rngs@.len() == old(population)@.len(),
    ensures
        final(population)@.len() == old(population)@.len(),
        pool_wf(final(population)@, conf),
        forall|i: int|
            0 <= i < old(population)@.len() ==> mutation_of(
                old(population)@[i]@,
                (#[trigger] final(population)@[i])@,
            ),
{
    population.par_iter_mut().zip(rngs).for_each(|(s, rng)| s.mutate(rng));
}

/// rayon's `par_sort_unstable` on pairs of integers, whose order is that of
/// the first parts and, where these are equal, of the second parts: the same
/// pairs, in rising order.
#[verifier::external_body]
pub(crate) fn sort_pairs(pairs: &mut Vec<(u64, u64)>)
    ensures
        final(pairs)@.to_multiset() == old(pairs)@.to_multiset(),
        sorted_pairs(final(pairs)@),
{
    pairs.par_sort_unstable();
}

} // verus!
