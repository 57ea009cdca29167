//! The population engine: a pool of schedules that is filled at random,
//! grows by recombination, is perturbed by mutation and cut back to its size
//! by selection.

use crate::cfg::Config;
use crate::parallel::breed_all;
use crate::parallel::child_of;
use crate::parallel::couples_within;
use crate::parallel::evaluate_all;
use crate::parallel::mutate_all;
use crate::parallel::pool_times;
use crate::parallel::pool_wf;
use crate::parallel::sort_pairs;
use crate::parallel::spawn_all;
use crate::parallel::Couple;
use crate::random::gen_rngs;
use crate::random::jumps;
use crate::random::split;
use crate::random::FastRng;
use crate::schedule::mutation_of;
use crate::schedule::Schedule;
use crate::selection::flipped_pairs;
use crate::selection::lemma_selection;
use crate::selection::positions;
use crate::selection::ranked_pairs;
use crate::selection::selection;
use vstd::prelude::*;

verus! {

/// The individuals of `pool` at the positions `kept`, in the order of
/// `kept`.
pub open spec fn picked<'c>(pool: Seq<Schedule<'c>>, kept: Seq<int>) -> Seq<Schedule<'c>> {
    Seq::new(kept.len(), |k: int| pool[kept[k]])
}

/// A pool of schedules of one configuration, and the generator from which
/// every random choice of the search descends.
#[derive(Debug)]
pub struct Population<'c> {
    pub conf: &'c Config,
    pub population: Vec<Schedule<'c>>,
    pub rng: FastRng,
}

impl<'c> Population<'c> {
    /// The configuration is complete, the pool holds at least as many
    /// individuals as the configured population size, and each of them is a
    /// feasible schedule of the configuration.
    pub open spec fn wf(&self) -> bool {
        &&& self.conf.wf()
        &&& self.population@.len() >= self.conf.population
        &&& pool_wf(self.population@, self.conf)
    }

    /// A population of the configured size, each individual a random
    /// schedule made with a generator of its own that is split off `rng`.
    /// The population keeps `rng` as it is after one jump for each
    /// individual.
    pub fn new(conf: &'c Config, rng: FastRng) -> (pool: Population<'c>)
        requires
            conf.wf(),
        ensures
            pool.conf == conf,
            pool.wf(),
            pool.population@.len() == conf.population,
            pool.rng == jumps(rng, conf.population as nat),
    {
        let mut rng = rng;
        let rngs = gen_rngs(&mut rng, conf.population);
        let population = spawn_all(conf, rngs);
        Population { conf, population, rng }
    }

    /// The makespan of each individual, in the order of the individuals.
    pub fn makespans(&self) -> (times: Vec<u64>)
        requires
            self.wf(),
        ensures
            times@ == pool_times(self.population@),
            forall|i: int|
                0 <= i < times@.len() ==> (#[trigger] times@[i]) == self.population@[i].makespan(),
            forall|i: int| 0 <= i < times@.len() ==> (#[trigger] times@[i]) > 0,
    {
        let times = evaluate_all(&self.population, self.conf);
        assert(times@ =~= pool_times(self.population@));
        times
    }

    /// One generator for each of the configured couples, split off the
    /// generator of the population, which is left after one jump for each
    /// couple. The individuals stay as they are.
    pub fn couple_rngs(&mut self) -> (rngs: Vec<FastRng>)
        ensures
            rngs@ == split(old(self).rng, old(self).conf.couples as nat),
            final(self).rng == jumps(old(self).rng, old(self).conf.couples as nat),
            final(self).conf == old(self).conf,
            final(self).population == old(self).population,
    {
        gen_rngs(&mut self.rng, self.conf.couples)
    }

    /// Appends two children for each couple: the crossover of the first
    /// parent with the second and that of the second with the first, each at
    /// a cut point drawn with the generator of the couple. The individuals
    /// that were there stay as they are.
    pub fn recombine(&mut self, couples: Vec<Couple>)
        requires
            old(self).wf(),
            couples_within(couples@, old(self).population@.len() as int),
        ensures
            final(self).conf == old(self).conf,
            final(self).rng == old(self).rng,
            final(self).wf(),
            final(self).population@.len() == old(self).population@.len() + 2 * couples@.len(),
            final(self).population@.take(old(self).population@.len() as int) == old(
                self,
            ).population@,
            forall|k: int|
                0 <= k < couples@.len() ==> child_of(
                    old(self).population@[(#[trigger] couples@[k]).parent_a as int],
                    old(self).population@[couples@[k].parent_b as int],
                    final(self).population@[old(self).population@.len() + 2 * k],
                ) && child_of(
                    old(self).population@[couples@[k].parent_b as int],
                    old(self).population@[couples@[k].parent_a as int],
                    final(self).population@[old(self).population@.len() + 2 * k + 1],
                ),
    {
        let mut next_gen = breed_all(&self.population, self.conf, couples);
        let ghost children = next_gen@;
        assert forall|i: int| 0 <= i < children.len() implies (#[trigger] children[i]).conf
            == self.conf && children[i].wf() by {
            let k = i / 2;
            assert(0 <= k < couples@.len());
            let couple = couples@[k];
            if i == 2 * k {
                assert(child_of(
                    self.population@[couple.parent_a as int],
                    self.population@[couple.parent_b as int],
                    children[2 * k],
                ));
            } else {
                assert(i == 2 * k + 1);
                assert(child_of(
                    self.population@[couple.parent_b as int],
                    self.population@[couple.parent_a as int],
                    children[2 * k + 1],
                ));
            }
        }
        self.population.append(&mut next_gen);
        assert(final(self).population@.take(old(self).population@.len() as int) =~= old(
            self,
        ).population@);
    }

    /// Mutates every individual, each with a generator of its own that is
    /// split off the generator of the population, which is left after one
    /// jump for each individual.
    pub fn mutate(&mut self)
        requires
            old(self).wf(),
        ensures
            final(self).conf == old(self).conf,
            final(self).rng == jumps(old(self).rng, old(self).population@.len()),
            final(self).wf(),
            final(self).population@.len() == old(self).population@.len(),
            forall|i: int|
                0 <= i < old(self).population@.len() ==> mutation_of(
                    old(self).population@[i]@,
                    (#[trigger] final(self).population@[i])@,
                ),
    {
        let rngs = gen_rngs(&mut self.rng, self.population.len());
        mutate_all(&mut self.population, self.conf, rngs);
    }

    /// Cuts the pool back to the configured population size. The
    /// individuals with the least makespans survive, among equal makespans
    /// those that stood first, and the survivors keep their order. Returns
    /// the least makespan of the whole pool and the individual that has it,
    /// the one that stood first where several have it.
    pub fn select(&mut self) -> (best: (&Schedule<'c>, u64))
        requires
            old(self).wf(),
        ensures
            final(self).conf == old(self).conf,
            final(self).rng == old(self).rng,
            final(self).wf(),
            final(self).population@.len() == old(self).conf.population,
            exists|kept: Seq<int>|
                #[trigger] selection(
                    pool_times(old(self).population@),
                    old(self).conf.population as int,
                    kept,
                ) && final(self).population@ == picked(old(self).population@, kept),
            forall|i: int|
                0 <= i < old(self).population@.len() ==> best.1 <= (#[trigger] old(
                    self,
                ).population@[i]).makespan(),
            final(self).population@.contains(*best.0),
            best.0.makespan() == best.1,
            exists|b: int|
                0 <= b < old(self).population@.len() && *best.0 == #[trigger] old(
                    self,
                ).population@[b] && old(self).population@[b].makespan() == best.1 && forall|j: int|
                    0 <= j < b ==> (#[trigger] old(self).population@[j]).makespan() != best.1,
    {
        let size = self.conf.population;
        let times = self.makespans();
        let ghost pool = self.population@;
        let ghost ages = times@;
        let mut ranked: Vec<(u64, u64)> = Vec::with_capacity(times.len());
        let mut i: usize = 0;
        while i < times.len()
            invariant
                i <= times.len(),
                ranked@ == ranked_pairs(times@).take(i as int),
            decreases times.len() - i,
        {
            ranked.push((times[i], i as u64));
            assert(ranked@ =~= ranked_pairs(times@).take(i + 1));
            i += 1;
        }
        assert(ranked@ =~= ranked_pairs(times@));
        sort_pairs(&mut ranked);
        let ghost order = ranked@;
        proof {
            crate::selection::lemma_same_entries(ranked_pairs(ages), order);
        }
        ranked.truncate(size);
        assert(ranked@ =~= order.take(size as int));
        let best_time = ranked[0].0;
        let best_before = ranked[0].1;
        let mut placed: Vec<(u64, u64)> = Vec::with_capacity(size);
        let mut k: usize = 0;
        while k < size
            invariant
                k <= size,
                ranked@.len() == size,
                placed@ == flipped_pairs(ranked@).take(k as int),
            decreases size - k,
        {
            placed.push((ranked[k].1, ranked[k].0));
            assert(placed@ =~= flipped_pairs(ranked@).take(k + 1));
            k += 1;
        }
        assert(placed@ =~= flipped_pairs(ranked@));
        sort_pairs(&mut placed);
        let ghost kept = positions(placed@);
        proof {
            lemma_selection(ages, order, placed@, size as int);
        }
        let mut old_pool: Vec<Schedule<'c>> = Vec::with_capacity(size);
        std::mem::swap(&mut old_pool, &mut self.population);
        let mut next: usize = 0;
        let mut curr: usize = 0;
        let mut best_after: usize = 0;
        for schedule in it: old_pool.into_iter()
            invariant
                it.seq() == pool,
                curr == it.index(),
                self.conf == old(self).conf,
                self.rng == old(self).rng,
                size == self.conf.population,
                kept == positions(placed@),
                placed@.len() == size,
                selection(ages, size as int, kept),
                ages.len() == pool.len(),
                pool.len() <= usize::MAX,
                next <= size,
                self.population@ == picked(pool, kept.take(next as int)),
                forall|k: int| 0 <= k < next ==> kept[k] < curr,
                next < size ==> kept[next as int] >= curr,
                (exists|k: int| 0 <= k < next && #[trigger] placed@[k].0 == best_before) ==> (
                best_after < next && placed@[best_after as int].0 == best_before),
        {
            if next < placed.len() && placed[next].0 == curr as u64 {
                if curr as u64 == best_before {
                    best_after = next;
                }
                self.population.push(schedule);
                proof {
                    assert(kept[next as int] == curr);
                    assert(kept.take(next + 1) =~= kept.take(next as int).push(curr as int));
                    assert(self.population@ =~= picked(pool, kept.take(next + 1)));
                    if next + 1 < size {
                        assert(kept[next as int] < kept[next + 1]);
                    }
                    assert forall|k: int| 0 <= k < next + 1 && #[trigger] placed@[k].0
                        == best_before implies curr as u64 == best_before || k < next by {
                        if k == next {
                            assert(placed@[k].0 == curr as u64);
                        }
                    }
                }
                next += 1;
            }
            curr += 1;
        }
        proof {
            assert(next == size) by {
                if next < size {
                    assert(kept[next as int] < ages.len());
                }
            }
            assert(kept.take(size as int) =~= kept);
            assert forall|i: int| 0 <= i < pool.len() implies best_time <= (#[trigger] pool[i]).makespan() by {
                assert(ages[i] == pool[i].makespan());
                assert(best_time <= ages[i]);
            }
            let k = choose|k: int| 0 <= k < size && #[trigger] placed@[k].0 == best_before;
            assert(best_after < size && placed@[best_after as int].0 == best_before);
            assert(self.population@[best_after as int] == pool[kept[best_after as int]]);
            assert(kept[best_after as int] == best_before);
            assert(pool[best_before as int].makespan() == best_time) by {
                assert(ages[best_before as int] == pool[best_before as int].makespan());
            }
            assert forall|j: int| 0 <= j < best_before implies (#[trigger] pool[j]).makespan()
                != best_time by {
                assert(ages[j] == pool[j].makespan());
                assert(best_time != ages[j]);
            }
            assert forall|i: int| 0 <= i < self.population@.len() implies (
            #[trigger] self.population@[i]).conf == self.conf && self.population@[i].wf() by {
                assert(self.population@[i] == pool[kept[i]]);
            }
        }
        (&self.population[best_after], best_time)
    }
}

} // verus!
