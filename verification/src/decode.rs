//! What a sequence of job occurrences means: which operation each entry
//! stands for, when it starts and ends, and the makespan of the whole.

use crate::cfg::occurrences;
use crate::cfg::template;
use crate::cfg::Operation;
use vstd::prelude::*;
use vstd::seq_lib::to_multiset_build;

verus! {

/// `s` is a reordering of the canonical template of `jobs`.
pub open spec fn feasible(jobs: Seq<Seq<Operation>>, s: Seq<usize>) -> bool {
    s.to_multiset() == template(jobs).to_multiset()
}

/// How often the job at position `i` has occurred before that position:
/// the index of the operation that the entry stands for.
pub open spec fn rank(s: Seq<usize>, i: int) -> nat {
    occurrences(s.take(i), s[i])
}

/// The operation that the entry at position `i` stands for.
pub open spec fn op_at(jobs: Seq<Seq<Operation>>, s: Seq<usize>, i: int) -> Operation {
    jobs[s[i] as int][rank(s, i) as int]
}

/// When `job` has finished the operations that the first `n` entries give
/// it; zero if they give it none.
pub open spec fn job_ready(jobs: Seq<Seq<Operation>>, s: Seq<usize>, n: int, job: int) -> int
    decreases n, 0int,
{
    if n <= 0 {
        0
    } else if s[n - 1] == job {
        finish_time(jobs, s, n - 1)
    } else {
        job_ready(jobs, s, n - 1, job)
    }
}

/// When `machine` has finished the operations that the first `n` entries
/// give it; zero if they give it none.
pub open spec fn machine_ready(
    jobs: Seq<Seq<Operation>>,
    s: Seq<usize>,
    n: int,
    machine: int,
) -> int
    decreases n, 0int,
{
    if n <= 0 {
        0
    } else if op_at(jobs, s, n - 1).machine == machine {
        finish_time(jobs, s, n - 1)
    } else {
        machine_ready(jobs, s, n - 1, machine)
    }
}

/// When the operation at position `i` starts: as soon as both its job and
/// its machine are done with what the entries before it gave them.
pub open spec fn start_time(jobs: Seq<Seq<Operation>>, s: Seq<usize>, i: int) -> int
    decreases i, 1int,
{
    if i < 0 {
        0
    } else {
        let by_job = job_ready(jobs, s, i, s[i] as int);
        let by_machine = machine_ready(jobs, s, i, op_at(jobs, s, i).machine as int);
        if by_job >= by_machine {
            by_job
        } else {
            by_machine
        }
    }
}

/// When the operation at position `i` ends.
pub open spec fn finish_time(jobs: Seq<Seq<Operation>>, s: Seq<usize>, i: int) -> int
    decreases i, 2int,
{
    if i < 0 {
        0
    } else {
        start_time(jobs, s, i) + op_at(jobs, s, i).duration
    }
}

/// The latest end among the operations of the first `n` entries.
pub open spec fn makespan_upto(jobs: Seq<Seq<Operation>>, s: Seq<usize>, n: int) -> int
    decreases n,
{
    if n <= 0 {
        0
    } else {
        let before = makespan_upto(jobs, s, n - 1);
        let here = finish_time(jobs, s, n - 1);
        if here > before {
            here
        } else {
            before
        }
    }
}

/// The makespan of `s`: the time at which its last operation ends.
pub open spec fn makespan(jobs: Seq<Seq<Operation>>, s: Seq<usize>) -> int {
    makespan_upto(jobs, s, s.len() as int)
}

/// Taking one more entry of `s` adds one occurrence of that entry's job and
/// of no other.
pub proof fn lemma_occurrences_step(s: Seq<usize>, n: int, job: usize)
    requires
        0 <= n < s.len(),
    ensures
        occurrences(s.take(n + 1), job) == occurrences(s.take(n), job) + if s[n] == job {
            1nat
        } else {
            0nat
        },
{
    assert(s.take(n + 1) =~= s.take(n).push(s[n]));
    to_multiset_build(s.take(n), s[n]);
}

/// No job occurs in an empty prefix.
pub proof fn lemma_occurrences_none(s: Seq<usize>, job: usize)
    ensures
        occurrences(s.take(0), job) == 0,
{
    assert(s.take(0) =~= Seq::<usize>::empty());
    s.take(0).to_multiset_ensures();
}

/// A prefix of `n` entries holds no job more than `n` times.
pub proof fn lemma_occurrences_at_most(s: Seq<usize>, n: int, job: usize)
    requires
        0 <= n <= s.len(),
    ensures
        occurrences(s.take(n), job) <= n,
    decreases n,
{
    if n == 0 {
        lemma_occurrences_none(s, job);
    } else {
        lemma_occurrences_at_most(s, n - 1, job);
        lemma_occurrences_step(s, n - 1, job);
    }
}

/// A prefix holds a job at most as often as the whole sequence does, and
/// less often if the job stands right behind the prefix.
pub proof fn lemma_occurrences_prefix(s: Seq<usize>, n: int, job: usize)
    requires
        0 <= n <= s.len(),
    ensures
        occurrences(s.take(n), job) <= occurrences(s, job),
        n < s.len() && s[n] == job ==> occurrences(s.take(n), job) < occurrences(s, job),
    decreases s.len() - n,
{
    if n == s.len() {
        assert(s.take(n) =~= s);
    } else {
        lemma_occurrences_step(s, n, job);
        lemma_occurrences_prefix(s, n + 1, job);
    }
}

/// In a feasible sequence every entry is a job, every job occurs as often
/// as it has operations, and every entry stands for an operation that its
/// job has.
pub proof fn lemma_feasible(jobs: Seq<Seq<Operation>>, s: Seq<usize>)
    requires
        jobs.len() <= usize::MAX,
        feasible(jobs, s),
    ensures
        s.len() == template(jobs).len(),
        forall|i: int| 0 <= i < s.len() ==> (#[trigger] s[i]) < jobs.len(),
        forall|j: int| 0 <= j < jobs.len() ==> occurrences(s, j as usize) == jobs[j].len(),
        forall|i: int| 0 <= i < s.len() ==> #[trigger] rank(s, i) < jobs[s[i] as int].len(),
{
    s.to_multiset_ensures();
    template(jobs).to_multiset_ensures();
    crate::cfg::lemma_template_entries(jobs);
    assert forall|i: int| 0 <= i < s.len() implies (#[trigger] s[i]) < jobs.len() by {
        assert(s.contains(s[i]));
        assert(s.to_multiset().count(s[i]) > 0);
        assert(template(jobs).to_multiset().count(s[i]) > 0);
        assert(template(jobs).contains(s[i]));
    }
    assert forall|j: int| 0 <= j < jobs.len() implies occurrences(s, j as usize)
        == jobs[j].len() by {
        crate::cfg::lemma_template_occurrences(jobs, j as usize);
    }
    assert forall|i: int| 0 <= i < s.len() implies #[trigger] rank(s, i) < jobs[s[i] as int].len() by {
        lemma_occurrences_prefix(s, i, s[i]);
        assert(occurrences(s, s[i] as int as usize) == jobs[s[i] as int].len());
    }
}

} // verus!
