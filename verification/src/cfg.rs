//! The problem definition: jobs, machines and the canonical template of
//! job occurrences, together with the parameters of the search.

use rand::distributions::Bernoulli;
use vstd::prelude::*;
use vstd::seq_lib::lemma_multiset_commutative;
use vstd::seq_lib::to_multiset_build;

verus! {

#[verifier::external_type_specification]
#[verifier::external_body]
pub struct ExBernoulli(Bernoulli);

/// One step of a job: it occupies `machine` for `duration` time units.
#[derive(Clone, Copy, Debug, PartialEq, Eq, Structural)]
pub struct Operation {
    pub duration: u64,
    pub machine: usize,
}

/// Why a search cannot be configured.
#[derive(Clone, Copy, Debug, PartialEq, Eq, Structural)]
pub enum ConfigError {
    /// The requested population size is zero.
    ZeroPopulation,
}

/// Why an input is not a problem the search can work on.
#[derive(Clone, Copy, Debug, PartialEq, Eq, Structural)]
pub enum InputError {
    /// The text is empty: it lacks even the header line.
    Empty,
    /// The token from byte `start` up to byte `end` of the text stands where
    /// a machine number belongs and is no number that `usize` can hold.
    BadMachine { start: usize, end: usize },
    /// A line ends behind a machine number, where a duration belongs.
    MissingDuration,
    /// The token from byte `start` up to byte `end` of the text stands where
    /// a duration belongs and is no number that `u64` can hold.
    BadDuration { start: usize, end: usize },
    /// Some operation has duration zero.
    ZeroDuration,
    /// Some operation names the largest machine number there is, so the
    /// number of machines cannot be represented.
    MachineTooLarge,
    /// The jobs hold no operation at all.
    NoOperations,
    /// The durations of all operations together exceed `u64::MAX`.
    DurationOverflow,
}

/// The jobs as mathematical sequences.
pub open spec fn jobs_view(jobs: Seq<Vec<Operation>>) -> Seq<Seq<Operation>> {
    Seq::new(jobs.len(), |j: int| jobs[j]@)
}

/// The canonical template: job `0` as often as it has operations, then job
/// `1` as often as it has operations, and so on.
pub open spec fn template(jobs: Seq<Seq<Operation>>) -> Seq<usize>
    decreases jobs.len(),
{
    if jobs.len() == 0 {
        Seq::empty()
    } else {
        template(jobs.drop_last()) + Seq::new(
            jobs.last().len(),
            |k: int| (jobs.len() - 1) as usize,
        )
    }
}

/// One more than the largest machine number among the first `n`
/// operations of `job`; zero where there is none.
pub open spec fn job_machines(job: Seq<Operation>, n: int) -> int
    decreases n,
{
    if n <= 0 {
        0
    } else {
        let rest = job_machines(job, n - 1);
        if job[n - 1].machine + 1 > rest {
            job[n - 1].machine + 1
        } else {
            rest
        }
    }
}

/// One more than the largest machine number that any operation of the first
/// `n` jobs names; zero where they hold no operation.
pub open spec fn machines_upto(jobs: Seq<Seq<Operation>>, n: int) -> int
    decreases n,
{
    if n <= 0 {
        0
    } else {
        let rest = machines_upto(jobs, n - 1);
        let here = job_machines(jobs[n - 1], jobs[n - 1].len() as int);
        if here > rest {
            here
        } else {
            rest
        }
    }
}

/// The number of machines of a problem.
pub open spec fn machine_count(jobs: Seq<Seq<Operation>>) -> int {
    machines_upto(jobs, jobs.len() as int)
}

/// Weighs an operation by its duration.
pub open spec fn duration_weight() -> spec_fn(Operation) -> int {
    |op: Operation| op.duration as int
}

/// Weighs an operation by its duration if it runs on `machine`, and by zero
/// if it runs elsewhere.
pub open spec fn load_weight(machine: int) -> spec_fn(Operation) -> int {
    |op: Operation|
        if op.machine == machine {
            op.duration as int
        } else {
            0
        }
}

/// The weights of the first `n` operations of `job`, added up.
pub open spec fn job_weight(job: Seq<Operation>, n: int, weight: spec_fn(Operation) -> int) -> int
    decreases n,
{
    if n <= 0 {
        0
    } else {
        job_weight(job, n - 1, weight) + weight(job[n - 1])
    }
}

/// The weights of all operations of the first `n` jobs, added up.
pub open spec fn jobs_weight(
    jobs: Seq<Seq<Operation>>,
    n: int,
    weight: spec_fn(Operation) -> int,
) -> int
    decreases n,
{
    if n <= 0 {
        0
    } else {
        jobs_weight(jobs, n - 1, weight) + job_weight(
            jobs[n - 1],
            jobs[n - 1].len() as int,
            weight,
        )
    }
}

/// The durations of all operations of `job`, added up.
pub open spec fn job_length(job: Seq<Operation>) -> int {
    job_weight(job, job.len() as int, duration_weight())
}

/// The durations of all operations of a problem, added up.
pub open spec fn total_duration(jobs: Seq<Seq<Operation>>) -> int {
    jobs_weight(jobs, jobs.len() as int, duration_weight())
}

/// The durations of all operations of a problem that run on `machine`,
/// added up.
pub open spec fn machine_load(jobs: Seq<Seq<Operation>>, machine: int) -> int {
    jobs_weight(jobs, jobs.len() as int, load_weight(machine))
}

/// Every operation takes time.
pub open spec fn durations_positive(jobs: Seq<Seq<Operation>>) -> bool {
    forall|j: int, k: int|
        0 <= j < jobs.len() && 0 <= k < jobs[j].len() ==> (#[trigger] jobs[j][k]).duration > 0
}

/// No operation names the largest `usize` as its machine.
pub open spec fn machines_representable(jobs: Seq<Seq<Operation>>) -> bool {
    forall|j: int, k: int|
        0 <= j < jobs.len() && 0 <= k < jobs[j].len() ==> (#[trigger] jobs[j][k]).machine
            < usize::MAX
}

/// What `Config::load_jobs` answers for the given jobs: the first of the
/// four defects that they have, or `Ok`.
pub open spec fn check_jobs(jobs: Seq<Seq<Operation>>) -> Result<(), InputError> {
    if !durations_positive(jobs) {
        Err(InputError::ZeroDuration)
    } else if !machines_representable(jobs) {
        Err(InputError::MachineTooLarge)
    } else if template(jobs).len() == 0 {
        Err(InputError::NoOperations)
    } else if total_duration(jobs) > u64::MAX {
        Err(InputError::DurationOverflow)
    } else {
        Ok(())
    }
}

/// How often `job` occurs in `s`.
pub open spec fn occurrences(s: Seq<usize>, job: usize) -> nat {
    s.to_multiset().count(job)
}

/// A run of `n` copies of one job holds that job `n` times and no other.
pub proof fn lemma_run_occurrences(n: nat, job: usize, other: usize)
    ensures
        occurrences(Seq::new(n, |k: int| job), other) == if other == job {
            n
        } else {
            0
        },
    decreases n,
{
    let run = Seq::new(n, |k: int| job);
    if n == 0 {
        assert(run =~= Seq::<usize>::empty());
        run.to_multiset_ensures();
    } else {
        let shorter = Seq::new((n - 1) as nat, |k: int| job);
        lemma_run_occurrences((n - 1) as nat, job, other);
        assert(run =~= shorter.push(job));
        to_multiset_build(shorter, job);
    }
}

/// The canonical template holds each job as often as the job has
/// operations, and nothing that is not a job.
pub proof fn lemma_template_occurrences(jobs: Seq<Seq<Operation>>, job: usize)
    requires
        jobs.len() <= usize::MAX,
    ensures
        occurrences(template(jobs), job) == if job < jobs.len() {
            jobs[job as int].len()
        } else {
            0
        },
    decreases jobs.len(),
{
    if jobs.len() == 0 {
        template(jobs).to_multiset_ensures();
    } else {
        let front = template(jobs.drop_last());
        let last = (jobs.len() - 1) as usize;
        let run = Seq::new(jobs.last().len(), |k: int| last);
        lemma_template_occurrences(jobs.drop_last(), job);
        lemma_run_occurrences(jobs.last().len(), last, job);
        lemma_multiset_commutative(front, run);
    }
}

/// The template is as long as the jobs have operations, and every entry of it
/// is a job.
pub proof fn lemma_template_entries(jobs: Seq<Seq<Operation>>)
    requires
        jobs.len() <= usize::MAX,
    ensures
        forall|i: int| 0 <= i < template(jobs).len() ==> (#[trigger] template(jobs)[i]) < jobs.len(),
    decreases jobs.len(),
{
    if jobs.len() > 0 {
        let front = template(jobs.drop_last());
        lemma_template_entries(jobs.drop_last());
        assert forall|i: int| 0 <= i < template(jobs).len() implies (#[trigger] template(jobs)[i])
            < jobs.len() by {
            if i < front.len() {
                assert(template(jobs)[i] == front[i]);
            }
        }
    }
}

/// Every machine that an operation names lies below the machine count.
pub proof fn lemma_machine_in_range(jobs: Seq<Seq<Operation>>, j: int, k: int)
    requires
        0 <= j < jobs.len(),
        0 <= k < jobs[j].len(),
    ensures
        jobs[j][k].machine < machine_count(jobs),
{
    lemma_job_machines_bound(jobs[j], jobs[j].len() as int, k);
    lemma_machines_upto_bound(jobs, jobs.len() as int, j);
}

proof fn lemma_job_machines_bound(job: Seq<Operation>, n: int, k: int)
    requires
        0 <= k < n,
    ensures
        job[k].machine < job_machines(job, n),
    decreases n,
{
    if k < n - 1 {
        lemma_job_machines_bound(job, n - 1, k);
    }
}

proof fn lemma_machines_upto_bound(jobs: Seq<Seq<Operation>>, n: int, j: int)
    requires
        0 <= j < n,
    ensures
        job_machines(jobs[j], jobs[j].len() as int) <= machines_upto(jobs, n),
    decreases n,
{
    if j < n - 1 {
        lemma_machines_upto_bound(jobs, n - 1, j);
    }
}

/// Weights that are never negative add up to sums that only grow.
pub proof fn lemma_job_weight_grows(
    job: Seq<Operation>,
    m: int,
    n: int,
    weight: spec_fn(Operation) -> int,
)
    requires
        m <= n,
        forall|op: Operation| #[trigger] weight(op) >= 0,
    ensures
        0 <= job_weight(job, m, weight) <= job_weight(job, n, weight),
    decreases n,
{
    if n > 0 {
        if m < n {
            lemma_job_weight_grows(job, m, n - 1, weight);
        } else {
            lemma_job_weight_grows(job, m - 1, n - 1, weight);
        }
    }
}

/// Weights that are never negative add up to sums that only grow.
pub proof fn lemma_jobs_weight_grows(
    jobs: Seq<Seq<Operation>>,
    m: int,
    n: int,
    weight: spec_fn(Operation) -> int,
)
    requires
        m <= n,
        forall|op: Operation| #[trigger] weight(op) >= 0,
    ensures
        0 <= jobs_weight(jobs, m, weight) <= jobs_weight(jobs, n, weight),
    decreases n,
{
    if n > 0 {
        lemma_job_weight_grows(jobs[n - 1], 0, jobs[n - 1].len() as int, weight);
        if m < n {
            lemma_jobs_weight_grows(jobs, m, n - 1, weight);
        } else {
            lemma_jobs_weight_grows(jobs, m - 1, n - 1, weight);
        }
    }
}

/// Whether every operation of `jobs` has a duration above zero.
fn all_durations_positive(jobs: &Vec<Vec<Operation>>) -> (ok: bool)
    ensures
        ok == durations_positive(jobs_view(jobs@)),
{
    let ghost view = jobs_view(jobs@);
    let mut j: usize = 0;
    while j < jobs.len()
        invariant
            j <= jobs.len(),
            view == jobs_view(jobs@),
            forall|a: int, b: int|
                0 <= a < j && 0 <= b < view[a].len() ==> (#[trigger] view[a][b]).duration > 0,
        decreases jobs.len() - j,
    {
        let job = &jobs[j];
        let mut k: usize = 0;
        while k < job.len()
            invariant
                k <= job.len(),
                j < jobs.len(),
                view == jobs_view(jobs@),
                job@ == view[j as int],
                forall|b: int| 0 <= b < k ==> (#[trigger] view[j as int][b]).duration > 0,
            decreases job.len() - k,
        {
            if job[k].duration == 0 {
                assert(view[j as int][k as int].duration == 0);
                return false;
            }
            k += 1;
        }
        j += 1;
    }
    true
}

/// Whether every operation of `jobs` names a machine below `usize::MAX`.
fn all_machines_representable(jobs: &Vec<Vec<Operation>>) -> (ok: bool)
    ensures
        ok == machines_representable(jobs_view(jobs@)),
{
    let ghost view = jobs_view(jobs@);
    let mut j: usize = 0;
    while j < jobs.len()
        invariant
            j <= jobs.len(),
            view == jobs_view(jobs@),
            forall|a: int, b: int|
                0 <= a < j && 0 <= b < view[a].len() ==> (#[trigger] view[a][b]).machine
                    < usize::MAX,
        decreases jobs.len() - j,
    {
        let job = &jobs[j];
        let mut k: usize = 0;
        while k < job.len()
            invariant
                k <= job.len(),
                j < jobs.len(),
                view == jobs_view(jobs@),
                job@ == view[j as int],
                forall|b: int| 0 <= b < k ==> (#[trigger] view[j as int][b]).machine < usize::MAX,
            decreases job.len() - k,
        {
            if job[k].machine == usize::MAX {
                assert(view[j as int][k as int].machine == usize::MAX);
                return false;
            }
            k += 1;
        }
        j += 1;
    }
    true
}

/// The number of machines that `jobs` use.
fn count_machines(jobs: &Vec<Vec<Operation>>) -> (machines: usize)
    requires
        machines_representable(jobs_view(jobs@)),
    ensures
        machines == machine_count(jobs_view(jobs@)),
{
    let ghost view = jobs_view(jobs@);
    let mut machines: usize = 0;
    let mut j: usize = 0;
    while j < jobs.len()
        invariant
            j <= jobs.len(),
            view == jobs_view(jobs@),
            machines_representable(view),
            machines == machines_upto(view, j as int),
        decreases jobs.len() - j,
    {
        let job = &jobs[j];
        let mut here: usize = 0;
        let mut k: usize = 0;
        while k < job.len()
            invariant
                k <= job.len(),
                j < jobs.len(),
                view == jobs_view(jobs@),
                machines_representable(view),
                job@ == view[j as int],
                here == job_machines(view[j as int], k as int),
            decreases job.len() - k,
        {
            let machine = job[k].machine;
            assert(view[j as int][k as int].machine < usize::MAX);
            if machine + 1 > here {
                here = machine + 1;
            }
            k += 1;
        }
        if here > machines {
            machines = here;
        }
        j += 1;
    }
    machines
}

/// The canonical template of `jobs`.
fn build_template(jobs: &Vec<Vec<Operation>>) -> (ordered: Vec<usize>)
    ensures
        ordered@ == template(jobs_view(jobs@)),
{
    let ghost view = jobs_view(jobs@);
    let mut ordered: Vec<usize> = Vec::new();
    let mut j: usize = 0;
    while j < jobs.len()
        invariant
            j <= jobs.len(),
            view == jobs_view(jobs@),
            ordered@ == template(view.take(j as int)),
        decreases jobs.len() - j,
    {
        let ghost front = ordered@;
        let count = jobs[j].len();
        let mut k: usize = 0;
        while k < count
            invariant
                k <= count,
                ordered@ == front + Seq::new(k as nat, |i: int| j),
            decreases count - k,
        {
            ordered.push(j);
            k += 1;
        }
        proof {
            let next = view.take(j + 1);
            assert(next.drop_last() == view.take(j as int));
            assert(next.last().len() == count);
            assert(Seq::new(k as nat, |i: int| j) == Seq::new(
                next.last().len(),
                |i: int| (next.len() - 1) as usize,
            ));
        }
        j += 1;
    }
    assert(view.take(j as int) == view);
    ordered
}

/// The durations of all operations of `jobs` together, if they fit.
fn sum_durations(jobs: &Vec<Vec<Operation>>) -> (total: Option<u64>)
    ensures
        match total {
            Some(t) => t == total_duration(jobs_view(jobs@)),
            None => total_duration(jobs_view(jobs@)) > u64::MAX,
        },
{
    let ghost view = jobs_view(jobs@);
    let ghost w = duration_weight();
    let mut total: u64 = 0;
    let mut j: usize = 0;
    while j < jobs.len()
        invariant
            j <= jobs.len(),
            view == jobs_view(jobs@),
            w == duration_weight(),
            total == jobs_weight(view, j as int, w),
        decreases jobs.len() - j,
    {
        let job = &jobs[j];
        let mut k: usize = 0;
        while k < job.len()
            invariant
                k <= job.len(),
                j < jobs.len(),
                view == jobs_view(jobs@),
                w == duration_weight(),
                job@ == view[j as int],
                total == jobs_weight(view, j as int, w) + job_weight(view[j as int], k as int, w),
            decreases job.len() - k,
        {
            match total.checked_add(job[k].duration) {
                Some(t) => {
                    total = t;
                },
                None => {
                    proof {
                        lemma_job_weight_grows(view[j as int], k + 1, job.len() as int, w);
                        lemma_jobs_weight_grows(view, j + 1, jobs.len() as int, w);
                    }
                    return None;
                },
            }
            k += 1;
        }
        j += 1;
    }
    Some(total)
}

/// The problem definition and the parameters of the search.
#[derive(Debug)]
pub struct Config {
    pub jobs: Vec<Vec<Operation>>,
    pub machines: usize,
    pub ordered_schedule: Vec<usize>,
    pub population: usize,
    pub couples: usize,
    pub mutation_dist: Bernoulli,
}

impl Config {
    /// The jobs of the problem.
    pub open spec fn problem(&self) -> Seq<Seq<Operation>> {
        jobs_view(self.jobs@)
    }

    /// The problem is one that schedules can be built and decoded for.
    pub open spec fn problem_wf(&self) -> bool {
        &&& check_jobs(self.problem()) is Ok
        &&& self.machines == machine_count(self.problem())
        &&& self.ordered_schedule@ == template(self.problem())
    }

    /// The jobs of a configuration are few enough to be numbered by `usize`.
    pub proof fn lemma_problem_size(&self)
        ensures
            self.problem().len() == self.jobs@.len(),
            self.problem().len() <= usize::MAX,
    {
        assert(self.jobs.len() == self.jobs@.len());
    }

    /// The configuration is complete: a problem is loaded and the population
    /// is not empty.
    pub open spec fn wf(&self) -> bool {
        &&& self.problem_wf()
        &&& self.population > 0
    }

    /// A configuration with the given search parameters and no problem
    /// loaded yet. Fails exactly when the population size is zero.
    pub fn from_opt(population: usize, couples: usize, mutation_dist: Bernoulli) -> (r: Result<
        Config,
        ConfigError,
    >)
        ensures
            population == 0 ==> r == Err::<Config, ConfigError>(ConfigError::ZeroPopulation),
            population > 0 ==> r is Ok,
            r matches Ok(conf) ==> {
                &&& conf.population == population
                &&& conf.couples == couples
                &&& conf.mutation_dist == mutation_dist
                &&& conf.jobs@.len() == 0
                &&& conf.machines == 0
                &&& conf.ordered_schedule@.len() == 0
            },
    {
        if population == 0 {
            return Err(ConfigError::ZeroPopulation);
        }
        Ok(
            Config {
                jobs: Vec::new(),
                machines: 0,
                ordered_schedule: Vec::new(),
                population,
                couples,
                mutation_dist,
            },
        )
    }
    /// Loads `jobs` as the problem to solve: sets the jobs, the machine
    /// count and the canonical template. Answers what `check_jobs` says of
    /// the jobs, and changes nothing when that is an error.
    pub fn load_jobs(&mut self, jobs: Vec<Vec<Operation>>) -> (r: Result<(), InputError>)
        ensures
            r == check_jobs(jobs_view(jobs@)),
            r is Ok ==> {
                &&& final(self).jobs == jobs
                &&& final(self).problem_wf()
                &&& final(self).population == old(self).population
                &&& final(self).couples == old(self).couples
                &&& final(self).mutation_dist == old(self).mutation_dist
            },
            r is Err ==> *final(self) == *old(self),
    {
        if !all_durations_positive(&jobs) {
            return Err(InputError::ZeroDuration);
        }
        if !all_machines_representable(&jobs) {
            return Err(InputError::MachineTooLarge);
        }
        let ordered = build_template(&jobs);
        if ordered.len() == 0 {
            return Err(InputError::NoOperations);
        }
        if sum_durations(&jobs).is_none() {
            return Err(InputError::DurationOverflow);
        }
        self.machines = count_machines(&jobs);
        self.ordered_schedule = ordered;
        self.jobs = jobs;
        Ok(())
    }
}

} // verus!
