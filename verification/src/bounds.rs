//! Bounds on the times of a decoded sequence: no end lies beyond the sum of
//! all durations, and the makespan covers the load of every machine and the
//! length of every job.

use crate::cfg::duration_weight;
use crate::cfg::job_length;
use crate::cfg::job_weight;
use crate::cfg::jobs_weight;
use crate::cfg::load_weight;
use crate::cfg::machine_load;
use crate::cfg::occurrences;
use crate::cfg::total_duration;
use crate::cfg::Operation;
use crate::decode::feasible;
use crate::decode::finish_time;
use crate::decode::job_ready;
use crate::decode::lemma_feasible;
use crate::decode::lemma_occurrences_none;
use crate::decode::lemma_occurrences_step;
use crate::decode::machine_ready;
use crate::decode::makespan;
use crate::decode::makespan_upto;
use crate::decode::op_at;
use crate::decode::start_time;
use vstd::prelude::*;

verus! {

/// The weights of the operations that the first `n` entries of `s` stand
/// for, added up.
pub open spec fn scheduled_weight(
    jobs: Seq<Seq<Operation>>,
    s: Seq<usize>,
    n: int,
    weight: spec_fn(Operation) -> int,
) -> int
    decreases n,
{
    if n <= 0 {
        0
    } else {
        scheduled_weight(jobs, s, n - 1, weight) + weight(op_at(jobs, s, n - 1))
    }
}

/// The same sum taken job by job, over the first `upto` jobs: of each job
/// as many operations as the first `n` entries of `s` give it.
spec fn grouped_weight(
    jobs: Seq<Seq<Operation>>,
    s: Seq<usize>,
    n: int,
    upto: int,
    weight: spec_fn(Operation) -> int,
) -> int
    decreases upto,
{
    if upto <= 0 {
        0
    } else {
        grouped_weight(jobs, s, n, upto - 1, weight) + job_weight(
            jobs[upto - 1],
            occurrences(s.take(n), (upto - 1) as usize) as int,
            weight,
        )
    }
}

proof fn lemma_grouped_empty(
    jobs: Seq<Seq<Operation>>,
    s: Seq<usize>,
    upto: int,
    weight: spec_fn(Operation) -> int,
)
    ensures
        grouped_weight(jobs, s, 0, upto, weight) == 0,
    decreases upto,
{
    if upto > 0 {
        lemma_grouped_empty(jobs, s, upto - 1, weight);
        lemma_occurrences_none(s, (upto - 1) as usize);
    }
}

proof fn lemma_grouped_step(
    jobs: Seq<Seq<Operation>>,
    s: Seq<usize>,
    n: int,
    upto: int,
    weight: spec_fn(Operation) -> int,
)
    requires
        0 <= n < s.len(),
        0 <= upto <= usize::MAX + 1,
    ensures
        grouped_weight(jobs, s, n + 1, upto, weight) == grouped_weight(jobs, s, n, upto, weight)
            + if s[n] < upto {
            weight(op_at(jobs, s, n))
        } else {
            0
        },
    decreases upto,
{
    if upto > 0 {
        lemma_grouped_step(jobs, s, n, upto - 1, weight);
        lemma_occurrences_step(s, n, (upto - 1) as usize);
    }
}

proof fn lemma_regroup(
    jobs: Seq<Seq<Operation>>,
    s: Seq<usize>,
    n: int,
    weight: spec_fn(Operation) -> int,
)
    requires
        0 <= n <= s.len(),
        jobs.len() <= usize::MAX,
        forall|i: int| 0 <= i < s.len() ==> (#[trigger] s[i]) < jobs.len(),
    ensures
        scheduled_weight(jobs, s, n, weight) == grouped_weight(
            jobs,
            s,
            n,
            jobs.len() as int,
            weight,
        ),
    decreases n,
{
    if n == 0 {
        lemma_grouped_empty(jobs, s, jobs.len() as int, weight);
    } else {
        lemma_regroup(jobs, s, n - 1, weight);
        lemma_grouped_step(jobs, s, n - 1, jobs.len() as int, weight);
    }
}

proof fn lemma_grouped_complete(
    jobs: Seq<Seq<Operation>>,
    s: Seq<usize>,
    upto: int,
    weight: spec_fn(Operation) -> int,
)
    requires
        0 <= upto <= jobs.len() <= usize::MAX,
        forall|j: int| 0 <= j < jobs.len() ==> occurrences(s, j as usize) == jobs[j].len(),
    ensures
        grouped_weight(jobs, s, s.len() as int, upto, weight) == jobs_weight(jobs, upto, weight),
    decreases upto,
{
    if upto > 0 {
        lemma_grouped_complete(jobs, s, upto - 1, weight);
        assert(s.take(s.len() as int) =~= s);
    }
}

/// The operations that a feasible sequence stands for are the operations of
/// the problem, each once: their weights add up to the same sum.
pub proof fn lemma_scheduled_total(
    jobs: Seq<Seq<Operation>>,
    s: Seq<usize>,
    weight: spec_fn(Operation) -> int,
)
    requires
        jobs.len() <= usize::MAX,
        feasible(jobs, s),
    ensures
        scheduled_weight(jobs, s, s.len() as int, weight) == jobs_weight(
            jobs,
            jobs.len() as int,
            weight,
        ),
{
    lemma_feasible(jobs, s);
    lemma_regroup(jobs, s, s.len() as int, weight);
    lemma_grouped_complete(jobs, s, jobs.len() as int, weight);
}

/// With weights that are never negative, a longer prefix weighs no less.
pub proof fn lemma_scheduled_grows(
    jobs: Seq<Seq<Operation>>,
    s: Seq<usize>,
    m: int,
    n: int,
    weight: spec_fn(Operation) -> int,
)
    requires
        m <= n,
        forall|op: Operation| #[trigger] weight(op) >= 0,
    ensures
        0 <= scheduled_weight(jobs, s, m, weight) <= scheduled_weight(jobs, s, n, weight),
    decreases n,
{
    if n > 0 {
        if m < n {
            lemma_scheduled_grows(jobs, s, m, n - 1, weight);
        } else {
            lemma_scheduled_grows(jobs, s, m - 1, n - 1, weight);
        }
    }
}

/// After `n` entries no job and no machine is busy beyond the durations of
/// the operations scheduled so far, added up.
proof fn lemma_ready_bounded(jobs: Seq<Seq<Operation>>, s: Seq<usize>, n: int)
    requires
        0 <= n,
    ensures
        forall|job: int|
            0 <= #[trigger] job_ready(jobs, s, n, job) && job_ready(jobs, s, n, job)
                <= scheduled_weight(jobs, s, n, duration_weight()),
        forall|machine: int|
            0 <= #[trigger] machine_ready(jobs, s, n, machine) && machine_ready(
                jobs,
                s,
                n,
                machine,
            ) <= scheduled_weight(jobs, s, n, duration_weight()),
        n > 0 ==> 0 <= start_time(jobs, s, n - 1) <= finish_time(jobs, s, n - 1)
            <= scheduled_weight(jobs, s, n, duration_weight()),
    decreases n,
{
    let bound = scheduled_weight(jobs, s, n, duration_weight());
    if n > 0 {
        lemma_ready_bounded(jobs, s, n - 1);
        let before = scheduled_weight(jobs, s, n - 1, duration_weight());
        let op = op_at(jobs, s, n - 1);
        let start = start_time(jobs, s, n - 1);
        let finish = finish_time(jobs, s, n - 1);
        assert(bound == before + op.duration);
        assert(0 <= job_ready(jobs, s, n - 1, s[n - 1] as int) <= before);
        assert(0 <= machine_ready(jobs, s, n - 1, op.machine as int) <= before);
        assert(0 <= start <= before);
        assert(finish == start + op.duration);
        assert forall|job: int|
            0 <= #[trigger] job_ready(jobs, s, n, job) && job_ready(jobs, s, n, job) <= bound by {
            assert(0 <= job_ready(jobs, s, n - 1, job) <= before);
        }
        assert forall|machine: int|
            0 <= #[trigger] machine_ready(jobs, s, n, machine) && machine_ready(
                jobs,
                s,
                n,
                machine,
            ) <= bound by {
            assert(0 <= machine_ready(jobs, s, n - 1, machine) <= before);
        }
    }
}

/// Every operation of a feasible sequence starts at or after zero and ends
/// no later than the sum of all durations.
pub proof fn lemma_finish_bounded(jobs: Seq<Seq<Operation>>, s: Seq<usize>, i: int)
    requires
        jobs.len() <= usize::MAX,
        feasible(jobs, s),
        0 <= i < s.len(),
    ensures
        0 <= start_time(jobs, s, i) <= finish_time(jobs, s, i) <= total_duration(jobs),
{
    lemma_ready_bounded(jobs, s, i + 1);
    lemma_scheduled_grows(jobs, s, i + 1, s.len() as int, duration_weight());
    lemma_scheduled_total(jobs, s, duration_weight());
}

/// After `n` entries each job and each machine is ready at a time that lies
/// between zero and the latest end so far.
pub proof fn lemma_ready_within_makespan(jobs: Seq<Seq<Operation>>, s: Seq<usize>, n: int)
    requires
        0 <= n,
    ensures
        forall|job: int|
            0 <= #[trigger] job_ready(jobs, s, n, job) && job_ready(jobs, s, n, job)
                <= makespan_upto(jobs, s, n),
        forall|machine: int|
            0 <= #[trigger] machine_ready(jobs, s, n, machine) && machine_ready(
                jobs,
                s,
                n,
                machine,
            ) <= makespan_upto(jobs, s, n),
    decreases n,
{
    if n > 0 {
        lemma_ready_within_makespan(jobs, s, n - 1);
        lemma_ready_bounded(jobs, s, n);
        let top = makespan_upto(jobs, s, n);
        assert(top >= makespan_upto(jobs, s, n - 1));
        assert(top >= finish_time(jobs, s, n - 1));
        assert forall|job: int|
            0 <= #[trigger] job_ready(jobs, s, n, job) && job_ready(jobs, s, n, job) <= top by {
            assert(job_ready(jobs, s, n - 1, job) <= makespan_upto(jobs, s, n - 1));
        }
        assert forall|machine: int|
            0 <= #[trigger] machine_ready(jobs, s, n, machine) && machine_ready(
                jobs,
                s,
                n,
                machine,
            ) <= top by {
            assert(machine_ready(jobs, s, n - 1, machine) <= makespan_upto(jobs, s, n - 1));
        }
    }
}

/// The latest end among the first `n` entries is the end of none of them
/// exceeded.
pub proof fn lemma_makespan_covers(jobs: Seq<Seq<Operation>>, s: Seq<usize>, n: int, i: int)
    requires
        0 <= i < n,
    ensures
        finish_time(jobs, s, i) <= makespan_upto(jobs, s, n),
    decreases n,
{
    if i < n - 1 {
        lemma_makespan_covers(jobs, s, n - 1, i);
    }
}

proof fn lemma_machine_busy(jobs: Seq<Seq<Operation>>, s: Seq<usize>, n: int, machine: int)
    requires
        0 <= n,
    ensures
        machine_ready(jobs, s, n, machine) >= scheduled_weight(jobs, s, n, load_weight(machine)),
    decreases n,
{
    if n > 0 {
        lemma_machine_busy(jobs, s, n - 1, machine);
        lemma_ready_bounded(jobs, s, n);
        lemma_ready_bounded(jobs, s, n - 1);
    }
}

proof fn lemma_job_busy(jobs: Seq<Seq<Operation>>, s: Seq<usize>, n: int, job: usize)
    requires
        0 <= n <= s.len(),
    ensures
        job_ready(jobs, s, n, job as int) >= job_weight(
            jobs[job as int],
            occurrences(s.take(n), job) as int,
            duration_weight(),
        ),
    decreases n,
{
    if n == 0 {
        lemma_occurrences_none(s, job);
    } else {
        lemma_job_busy(jobs, s, n - 1, job);
        lemma_occurrences_step(s, n - 1, job);
        lemma_ready_bounded(jobs, s, n);
        lemma_ready_bounded(jobs, s, n - 1);
    }
}

/// The makespan of a feasible sequence is at least the time that any one
/// machine needs for all its operations.
pub proof fn lemma_makespan_covers_machine(jobs: Seq<Seq<Operation>>, s: Seq<usize>, machine: int)
    requires
        jobs.len() <= usize::MAX,
        feasible(jobs, s),
    ensures
        makespan(jobs, s) >= machine_load(jobs, machine),
{
    lemma_machine_busy(jobs, s, s.len() as int, machine);
    lemma_ready_within_makespan(jobs, s, s.len() as int);
    lemma_scheduled_total(jobs, s, load_weight(machine));
}

/// The makespan of a feasible sequence is at least the time that any one
/// job needs for all its operations.
pub proof fn lemma_makespan_covers_job(jobs: Seq<Seq<Operation>>, s: Seq<usize>, job: int)
    requires
        jobs.len() <= usize::MAX,
        feasible(jobs, s),
        0 <= job < jobs.len(),
    ensures
        makespan(jobs, s) >= job_length(jobs[job]),
{
    lemma_feasible(jobs, s);
    lemma_job_busy(jobs, s, s.len() as int, job as usize);
    lemma_ready_within_makespan(jobs, s, s.len() as int);
    assert(s.take(s.len() as int) =~= s);
}

} // verus!
