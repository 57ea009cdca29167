//! The chromosome: a reordering of the canonical template, with the
//! operators that create, recombine, perturb and evaluate it.

use crate::bounds::lemma_finish_bounded;
use crate::bounds::lemma_makespan_covers;
use crate::bounds::lemma_makespan_covers_job;
use crate::bounds::lemma_makespan_covers_machine;
use crate::cfg::job_length;
use crate::cfg::lemma_machine_in_range;
use crate::cfg::machine_load;
use crate::cfg::occurrences;
use crate::cfg::Config;
use crate::cfg::Operation;
use crate::decode::feasible;
use crate::decode::finish_time;
use crate::decode::job_ready;
use crate::decode::lemma_feasible;
use crate::decode::lemma_occurrences_none;
use crate::decode::lemma_occurrences_step;
use crate::decode::machine_ready;
use crate::decode::makespan;
use crate::decode::makespan_upto;
use crate::decode::op_at;
use crate::decode::rank;
use crate::decode::start_time;
use crate::operators::crossover_seq;
use crate::operators::donated;
use crate::operators::lacking;
use crate::operators::lemma_crossover_keeps_entries;
use crate::operators::lemma_swap_keeps_entries;
use crate::operators::owed;
use crate::operators::swapped;
use crate::random::draw_below;
use crate::random::draw_up_to;
use crate::random::shuffle;
use crate::random::trial;
use crate::random::FastRng;
use vstd::prelude::*;

verus! {

/// One decoded entry of a schedule: the operation `operation` of job `job`
/// starts at time `start`.
#[derive(Clone, Copy, Debug, PartialEq, Eq, Structural)]
pub struct Visit {
    pub job: usize,
    pub operation: usize,
    pub start: u64,
}

/// What the entry at position `i` of `s` decodes to.
pub open spec fn visit_at(jobs: Seq<Seq<Operation>>, s: Seq<usize>, i: int) -> Visit {
    Visit { job: s[i], operation: rank(s, i) as usize, start: start_time(jobs, s, i) as u64 }
}

/// A candidate solution: a sequence of job numbers in which the k-th
/// occurrence of a job stands for the k-th operation of that job.
#[derive(Clone, Debug)]
pub struct Schedule<'c> {
    pub conf: &'c Config,
    pub schedule: Vec<usize>,
}

impl<'c> View for Schedule<'c> {
    type V = Seq<usize>;

    open spec fn view(&self) -> Seq<usize> {
        self.schedule@
    }
}

impl<'c> Schedule<'c> {
    /// The schedule belongs to a loaded problem and holds each job as often
    /// as the canonical template does.
    pub open spec fn wf(&self) -> bool {
        &&& self.conf.problem_wf()
        &&& feasible(self.conf.problem(), self@)
    }

    /// The makespan that the schedule decodes to.
    pub open spec fn makespan(&self) -> int {
        makespan(self.conf.problem(), self@)
    }

    /// A random reordering of the template that `conf` holds.
    pub fn new(conf: &'c Config, rng: FastRng) -> (s: Schedule<'c>)
        ensures
            s.conf == conf,
            s@.to_multiset() == conf.ordered_schedule@.to_multiset(),
            conf.problem_wf() ==> s.wf(),
    {
        let mut rng = rng;
        let mut schedule = conf.ordered_schedule.clone();
        shuffle(&mut schedule, &mut rng);
        Schedule { conf, schedule }
    }

    /// Decodes the schedule: for each entry in turn the job, the index of
    /// the operation that the entry stands for, and the time at which that
    /// operation starts.
    pub fn visit_schedule(&self) -> (visits: Vec<Visit>)
        requires
            self.wf(),
        ensures
            visits@.len() == self@.len(),
            forall|i: int|
                0 <= i < visits@.len() ==> visits@[i] == visit_at(self.conf.problem(), self@, i),
    {
        let ghost jobs = self.conf.problem();
        let ghost s = self@;
        let job_count = self.conf.jobs.len();
        let mut job_indices: Vec<usize> = vec![0; job_count];
        let mut times_job: Vec<u64> = vec![0; job_count];
        let mut times_mach: Vec<u64> = vec![0; self.conf.machines];
        let mut visits: Vec<Visit> = Vec::with_capacity(self.schedule.len());
        proof {
            self.conf.lemma_problem_size();
            lemma_feasible(jobs, s);
            assert forall|j: int| 0 <= j < job_count implies job_indices@[j] == occurrences(
                s.take(0),
                j as usize,
            ) by {
                lemma_occurrences_none(s, j as usize);
            }
        }
        let mut i: usize = 0;
        while i < self.schedule.len()
            invariant
                i <= self.schedule.len(),
                self.wf(),
                jobs == self.conf.problem(),
                s == self@,
                job_count == self.conf.jobs.len(),
                job_indices@.len() == job_count,
                times_job@.len() == job_count,
                times_mach@.len() == self.conf.machines,
                forall|j: int|
                    0 <= j < job_count ==> job_indices@[j] == occurrences(s.take(i as int), j as usize),
                forall|j: int| 0 <= j < job_count ==> times_job@[j] == job_ready(jobs, s, i as int, j),
                forall|m: int|
                    0 <= m < self.conf.machines ==> times_mach@[m] == machine_ready(
                        jobs,
                        s,
                        i as int,
                        m,
                    ),
                visits@.len() == i,
                forall|p: int| 0 <= p < i ==> visits@[p] == visit_at(jobs, s, p),
            decreases self.schedule.len() - i,
        {
            proof {
                lemma_feasible(jobs, s);
                lemma_finish_bounded(jobs, s, i as int);
            }
            let job = self.schedule[i];
            let op_idx = job_indices[job];
            assert(op_idx == rank(s, i as int));
            assert(op_idx < self.conf.jobs[job as int].len());
            let operation = self.conf.jobs[job][op_idx];
            assert(operation == op_at(jobs, s, i as int));
            proof {
                lemma_machine_in_range(jobs, job as int, op_idx as int);
            }
            let time_job = times_job[job];
            let time_mach = times_mach[operation.machine];
            let time = if time_job >= time_mach {
                time_job
            } else {
                time_mach
            };
            assert(time == start_time(jobs, s, i as int));
            visits.push(Visit { job, operation: op_idx, start: time });
            let finish = time + operation.duration;
            assert(finish == finish_time(jobs, s, i as int));
            times_mach[operation.machine] = finish;
            times_job[job] = finish;
            job_indices[job] = op_idx + 1;
            proof {
                assert forall|j: int| 0 <= j < job_count implies job_indices@[j] == occurrences(
                    s.take(i + 1),
                    j as usize,
                ) by {
                    lemma_occurrences_step(s, i as int, j as usize);
                }
            }
            i += 1;
        }
        visits
    }

    /// The makespan of the schedule: the time at which the last of its
    /// operations ends. It is never zero.
    pub fn evaluate(&self) -> (time_max: u64)
        requires
            self.wf(),
        ensures
            time_max == self.makespan(),
            time_max > 0,
    {
        let ghost jobs = self.conf.problem();
        let ghost s = self@;
        let visits = self.visit_schedule();
        let mut time_max: u64 = 0;
        proof {
            self.conf.lemma_problem_size();
            lemma_feasible(jobs, s);
        }
        let mut i: usize = 0;
        while i < visits.len()
            invariant
                i <= visits.len(),
                self.wf(),
                jobs == self.conf.problem(),
                s == self@,
                jobs.len() <= usize::MAX,
                visits@.len() == s.len(),
                forall|p: int| 0 <= p < visits@.len() ==> visits@[p] == visit_at(jobs, s, p),
                time_max == makespan_upto(jobs, s, i as int),
            decreases visits.len() - i,
        {
            proof {
                lemma_feasible(jobs, s);
                lemma_finish_bounded(jobs, s, i as int);
            }
            let visit = visits[i];
            assert(visit == visit_at(jobs, s, i as int));
            assert(rank(s, i as int) < self.conf.jobs[visit.job as int].len());
            assert(visit.start == start_time(jobs, s, i as int));
            let operation = self.conf.jobs[visit.job][visit.operation];
            assert(operation == op_at(jobs, s, i as int));
            let finish = visit.start + operation.duration;
            if finish > time_max {
                time_max = finish;
            }
            i += 1;
        }
        proof {
            lemma_makespan_covers(jobs, s, s.len() as int, 0);
            lemma_finish_bounded(jobs, s, 0);
            assert(op_at(jobs, s, 0).duration > 0);
        }
        time_max
    }
    /// The child of `self` and `other` at the cut point `cut`: the first
    /// `cut` entries of `self`, then the entries of `other` that are still
    /// lacking, in the order of `other`.
    pub fn crossover_at(&self, other: &Schedule<'c>, cut: usize) -> (child: Schedule<'c>)
        requires
            self.wf(),
            other.wf(),
            other.conf == self.conf,
            cut <= self@.len(),
        ensures
            child.conf == self.conf,
            child@ == crossover_seq(self@, other@, cut as int),
            child.wf(),
    {
        let ghost jobs = self.conf.problem();
        let ghost parent = self@;
        let ghost donor = other@;
        proof {
            self.conf.lemma_problem_size();
            lemma_feasible(jobs, parent);
            lemma_feasible(jobs, donor);
        }
        let job_count = self.conf.jobs.len();
        let mut left: Vec<usize> = Vec::with_capacity(job_count);
        let mut j: usize = 0;
        while j < job_count
            invariant
                j <= job_count,
                job_count == self.conf.jobs.len(),
                jobs == self.conf.problem(),
                left@.len() == j,
                forall|k: int| 0 <= k < j ==> left@[k] == jobs[k].len(),
            decreases job_count - j,
        {
            left.push(self.conf.jobs[j].len());
            j += 1;
        }
        let mut schedule: Vec<usize> = Vec::with_capacity(self.schedule.len());
        proof {
            assert forall|k: int| 0 <= k < job_count implies left@[k] == lacking(
                parent,
                0,
                k as usize,
            ) by {
                lemma_occurrences_none(parent, k as usize);
            }
            assert(parent.take(0) =~= Seq::<usize>::empty());
        }
        let mut i: usize = 0;
        while i < cut
            invariant
                i <= cut <= parent.len(),
                parent == self@,
                job_count == jobs.len(),
                left@.len() == job_count,
                forall|p: int| 0 <= p < parent.len() ==> (#[trigger] parent[p]) < job_count,
                schedule@ == parent.take(i as int),
                forall|k: int|
                    0 <= k < job_count ==> left@[k] == lacking(parent, i as int, k as usize),
            decreases cut - i,
        {
            let job = self.schedule[i];
            proof {
                crate::decode::lemma_occurrences_prefix(parent, i as int, job);
                assert forall|k: int| 0 <= k < job_count implies #[trigger] lacking(
                    parent,
                    i + 1,
                    k as usize,
                ) == lacking(parent, i as int, k as usize) - if k == job {
                    1int
                } else {
                    0int
                } by {
                    lemma_occurrences_step(parent, i as int, k as usize);
                }
                assert(parent.take(i + 1) =~= parent.take(i as int).push(job));
            }
            schedule.push(job);
            left[job] = left[job] - 1;
            i += 1;
        }
        let ghost head = schedule@;
        let mut i: usize = 0;
        proof {
            assert forall|k: int| 0 <= k < job_count implies #[trigger] occurrences(
                donor.take(0),
                k as usize,
            ) == 0 by {
                lemma_occurrences_none(donor, k as usize);
            }
            assert(head + donated(parent, donor, cut as int, 0) =~= head);
        }
        while i < other.schedule.len()
            invariant
                i <= donor.len(),
                donor == other@,
                cut <= parent.len(),
                job_count == jobs.len(),
                left@.len() == job_count,
                forall|p: int| 0 <= p < donor.len() ==> (#[trigger] donor[p]) < job_count,
                head == parent.take(cut as int),
                schedule@ == head + donated(parent, donor, cut as int, i as int),
                forall|k: int|
                    0 <= k < job_count ==> left@[k] == if occurrences(
                        donor.take(i as int),
                        k as usize,
                    ) <= lacking(parent, cut as int, k as usize) {
                        lacking(parent, cut as int, k as usize) - occurrences(
                            donor.take(i as int),
                            k as usize,
                        )
                    } else {
                        0
                    },
            decreases donor.len() - i,
        {
            let job = other.schedule[i];
            proof {
                assert forall|k: int| 0 <= k < job_count implies #[trigger] occurrences(
                    donor.take(i + 1),
                    k as usize,
                ) == occurrences(donor.take(i as int), k as usize) + if k == job {
                    1int
                } else {
                    0int
                } by {
                    lemma_occurrences_step(donor, i as int, k as usize);
                }
            }
            if left[job] != 0 {
                assert(owed(parent, donor, cut as int, i as int));
                schedule.push(job);
                left[job] = left[job] - 1;
                assert(schedule@ =~= head + donated(parent, donor, cut as int, i + 1));
            } else {
                assert(!owed(parent, donor, cut as int, i as int));
            }
            i += 1;
        }
        proof {
            lemma_crossover_keeps_entries(parent, donor, cut as int);
        }
        Schedule { conf: self.conf, schedule }
    }

    /// A child of `self` and `other` at a cut point drawn from `rng`, which
    /// may be any from zero to the length of the schedule.
    pub fn crossover(&self, other: &Schedule<'c>, rng: FastRng) -> (child: Schedule<'c>)
        requires
            self.wf(),
            other.wf(),
            other.conf == self.conf,
        ensures
            child.conf == self.conf,
            child.wf(),
            exists|cut: int|
                0 <= cut <= self@.len() && child@ == #[trigger] crossover_seq(self@, other@, cut),
    {
        let mut rng = rng;
        let cut = draw_up_to(&mut rng, self.schedule.len());
        self.crossover_at(other, cut)
    }

    /// Exchanges the entries at the positions `a` and `b`, which may be one
    /// position.
    pub fn swap_entries(&mut self, a: usize, b: usize)
        requires
            a < old(self)@.len(),
            b < old(self)@.len(),
        ensures
            final(self).conf == old(self).conf,
            final(self)@ == swapped(old(self)@, a as int, b as int),
            old(self).wf() ==> final(self).wf(),
    {
        let at_a = self.schedule[a];
        let at_b = self.schedule[b];
        self.schedule[a] = at_b;
        self.schedule[b] = at_a;
        proof {
            lemma_swap_keeps_entries(old(self)@, a as int, b as int);
        }
    }

    /// With the mutation chance of the configuration, exchanges two entries
    /// at positions drawn from `rng`, which may coincide; otherwise leaves
    /// the schedule as it is.
    pub fn mutate(&mut self, rng: FastRng)
        requires
            old(self).wf(),
        ensures
            final(self).conf == old(self).conf,
            final(self).wf(),
            mutation_of(old(self)@, final(self)@),
    {
        let mut rng = rng;
        proof {
            self.conf.lemma_problem_size();
            lemma_feasible(self.conf.problem(), self@);
        }
        let drawn = if trial(&self.conf.mutation_dist, &mut rng) {
            let op_a = draw_below(&mut rng, self.schedule.len());
            let op_b = draw_below(&mut rng, self.schedule.len());
            Some((op_a, op_b))
        } else {
            None
        };
        self.apply_mutation(drawn);
        proof {
            if let Some((op_a, op_b)) = drawn {
                assert(final(self)@ == swapped(old(self)@, op_a as int, op_b as int));
            }
        }
    }

    /// Applies what a mutation has drawn: exchanges the entries at the two
    /// positions if the trial has hit and two positions were drawn, and
    /// leaves the schedule as it is if the trial has missed.
    pub fn apply_mutation(&mut self, drawn: Option<(usize, usize)>)
        requires
            drawn matches Some((a, b)) ==> a < old(self)@.len() && b < old(self)@.len(),
        ensures
            final(self).conf == old(self).conf,
            final(self)@ == match drawn {
                Some((a, b)) => swapped(old(self)@, a as int, b as int),
                None => old(self)@,
            },
            old(self).wf() ==> final(self).wf(),
    {
        if let Some((a, b)) = drawn {
            self.swap_entries(a, b);
        }
    }

    /// Whether the schedule holds each job as often as the canonical
    /// template of its configuration does.
    pub fn verify(&self) -> (ok: bool)
        requires
            self.conf.problem_wf(),
        ensures
            ok == self.wf(),
    {
        let ghost jobs = self.conf.problem();
        let ghost s = self@;
        proof {
            self.conf.lemma_problem_size();
        }
        let job_count = self.conf.jobs.len();
        let mut counts: Vec<usize> = vec![0; job_count];
        proof {
            assert forall|j: int| 0 <= j < job_count implies counts@[j] == occurrences(
                s.take(0),
                j as usize,
            ) by {
                lemma_occurrences_none(s, j as usize);
            }
        }
        let mut i: usize = 0;
        while i < self.schedule.len()
            invariant
                i <= s.len(),
                s == self@,
                jobs == self.conf.problem(),
                job_count == jobs.len(),
                jobs.len() <= usize::MAX,
                counts@.len() == job_count,
                forall|p: int| 0 <= p < i ==> (#[trigger] s[p]) < job_count,
                forall|j: int|
                    0 <= j < job_count ==> counts@[j] == occurrences(s.take(i as int), j as usize),
            decreases s.len() - i,
        {
            let job = self.schedule[i];
            if job >= job_count {
                proof {
                    if feasible(jobs, s) {
                        lemma_feasible(jobs, s);
                    }
                }
                return false;
            }
            proof {
                assert forall|j: int| 0 <= j < job_count implies #[trigger] occurrences(
                    s.take(i + 1),
                    j as usize,
                ) == occurrences(s.take(i as int), j as usize) + if j == job {
                    1int
                } else {
                    0int
                } by {
                    lemma_occurrences_step(s, i as int, j as usize);
                }
                crate::decode::lemma_occurrences_at_most(s, i as int, job);
            }
            counts[job] = counts[job] + 1;
            i += 1;
        }
        assert(s.take(s.len() as int) =~= s);
        let mut j: usize = 0;
        while j < job_count
            invariant
                j <= job_count,
                s == self@,
                jobs == self.conf.problem(),
                job_count == jobs.len(),
                job_count == self.conf.jobs.len(),
                jobs.len() <= usize::MAX,
                counts@.len() == job_count,
                forall|k: int| 0 <= k < job_count ==> counts@[k] == occurrences(s, k as usize),
                forall|k: int| 0 <= k < j ==> occurrences(s, k as usize) == jobs[k].len(),
            decreases job_count - j,
        {
            if counts[j] != self.conf.jobs[j].len() {
                proof {
                    if feasible(jobs, s) {
                        lemma_feasible(jobs, s);
                        assert(occurrences(s, j as int as usize) == jobs[j as int].len());
                    }
                }
                return false;
            }
            j += 1;
        }
        proof {
            lemma_counts_settle(jobs, s);
        }
        true
    }
}

/// The makespan depends on nothing but the jobs of the problem and the
/// sequence of the schedule: two schedules that agree in both have one
/// makespan.
pub proof fn lemma_makespan_determined<'c>(a: Schedule<'c>, b: Schedule<'c>)
    requires
        a.conf.problem() == b.conf.problem(),
        a@ == b@,
    ensures
        a.makespan() == b.makespan(),
{
}

/// The makespan of a feasible schedule is at least the load of the busiest
/// machine and at least the length of the longest job: it is no less than
/// the load of any machine and the length of any job.
pub proof fn lemma_makespan_lower_bounds<'c>(s: Schedule<'c>)
    requires
        s.wf(),
    ensures
        forall|machine: int| s.makespan() >= #[trigger] machine_load(s.conf.problem(), machine),
        forall|job: int|
            0 <= job < s.conf.problem().len() ==> s.makespan() >= job_length(
                #[trigger] s.conf.problem()[job],
            ),
{
    s.conf.lemma_problem_size();
    assert forall|machine: int|
        s.makespan() >= #[trigger] machine_load(s.conf.problem(), machine) by {
        lemma_makespan_covers_machine(s.conf.problem(), s@, machine);
    }
    assert forall|job: int| 0 <= job < s.conf.problem().len() implies s.makespan() >= job_length(
        #[trigger] s.conf.problem()[job],
    ) by {
        lemma_makespan_covers_job(s.conf.problem(), s@, job);
    }
}

/// `after` is what a mutation can make of `before`: the same sequence, or
/// the sequence with two of its entries exchanged.
pub open spec fn mutation_of(before: Seq<usize>, after: Seq<usize>) -> bool {
    after == before || exists|a: int, b: int|
        0 <= a < before.len() && 0 <= b < before.len() && after == #[trigger] swapped(before, a, b)
}

/// A sequence of jobs that holds each job as often as the job has
/// operations is feasible.
pub proof fn lemma_counts_settle(jobs: Seq<Seq<Operation>>, s: Seq<usize>)
    requires
        jobs.len() <= usize::MAX,
        forall|p: int| 0 <= p < s.len() ==> (#[trigger] s[p]) < jobs.len(),
        forall|k: int| 0 <= k < jobs.len() ==> occurrences(s, k as usize) == jobs[k].len(),
    ensures
        feasible(jobs, s),
{
    s.to_multiset_ensures();
    assert forall|job: usize|
        s.to_multiset().count(job) == crate::cfg::template(jobs).to_multiset().count(job) by {
        crate::cfg::lemma_template_occurrences(jobs, job);
        if job >= jobs.len() {
            if s.to_multiset().count(job) > 0 {
                assert(s.contains(job));
            }
        } else {
            assert(occurrences(s, job as int as usize) == jobs[job as int].len());
        }
    }
    assert(s.to_multiset() =~= crate::cfg::template(jobs).to_multiset());
}

} // verus!
