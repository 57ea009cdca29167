//! The listing of a schedule: for each machine one line with the operations
//! that it runs, in their order, each with its start time.

use crate::cfg::lemma_machine_in_range;
use crate::cfg::Operation;
use crate::decode::lemma_feasible;
use crate::decode::op_at;
use crate::decode::rank;
use crate::schedule::visit_at;
use crate::schedule::Schedule;
use crate::schedule::Visit;
use vstd::prelude::*;
use vstd::string::StringExecFns;

verus! {

/// The visits among the first `n` entries of `s` whose operation runs on
/// `machine`, in their order.
pub open spec fn machine_visits(
    jobs: Seq<Seq<Operation>>,
    s: Seq<usize>,
    n: int,
    machine: int,
) -> Seq<Visit>
    decreases n,
{
    if n <= 0 {
        Seq::empty()
    } else {
        let before = machine_visits(jobs, s, n - 1, machine);
        if op_at(jobs, s, n - 1).machine == machine {
            before.push(visit_at(jobs, s, n - 1))
        } else {
            before
        }
    }
}

/// The ten digits.
pub open spec fn digits() -> Seq<char> {
    seq!['0', '1', '2', '3', '4', '5', '6', '7', '8', '9']
}

/// `n` in decimal notation, without leading zeros.
pub open spec fn decimal(n: nat) -> Seq<char>
    decreases n,
{
    if n < 10 {
        seq![digits()[n as int]]
    } else {
        decimal(n / 10).push(digits()[(n % 10) as int])
    }
}

/// One visit in the listing: a blank, then job, operation and start time,
/// set apart by `/` and `@`.
pub open spec fn visit_text(visit: Visit) -> Seq<char> {
    seq![' '] + decimal(visit.job as nat) + seq!['/'] + decimal(visit.operation as nat) + seq!['@']
        + decimal(visit.start as nat)
}

/// The first `n` of `visits` in the listing, one behind the other.
pub open spec fn visits_text(visits: Seq<Visit>, n: int) -> Seq<char>
    decreases n,
{
    if n <= 0 {
        Seq::empty()
    } else {
        visits_text(visits, n - 1) + visit_text(visits[n - 1])
    }
}

/// The line of one machine: `M`, its number and a colon, then its visits.
pub open spec fn line_text(machine: nat, visits: Seq<Visit>) -> Seq<char> {
    seq!['M'] + decimal(machine) + seq![':'] + visits_text(visits, visits.len() as int)
}

/// The lines of the first `n` machines, with a line break between one line
/// and the next.
pub open spec fn listing(lines: Seq<Seq<Visit>>, n: int) -> Seq<char>
    decreases n,
{
    if n <= 0 {
        Seq::empty()
    } else if n == 1 {
        line_text(0, lines[0])
    } else {
        listing(lines, n - 1) + seq!['\n'] + line_text((n - 1) as nat, lines[n - 1])
    }
}

/// The digit `d` as text.
fn digit_text(d: u64) -> (text: &'static str)
    requires
        d < 10,
    ensures
        text@ == seq![digits()[d as int]],
{
    proof {
        reveal_strlit("0");
        reveal_strlit("1");
        reveal_strlit("2");
        reveal_strlit("3");
        reveal_strlit("4");
        reveal_strlit("5");
        reveal_strlit("6");
        reveal_strlit("7");
        reveal_strlit("8");
        reveal_strlit("9");
    }
    let text = if d == 0 {
        "0"
    } else if d == 1 {
        "1"
    } else if d == 2 {
        "2"
    } else if d == 3 {
        "3"
    } else if d == 4 {
        "4"
    } else if d == 5 {
        "5"
    } else if d == 6 {
        "6"
    } else if d == 7 {
        "7"
    } else if d == 8 {
        "8"
    } else {
        "9"
    };
    assert(text@ =~= seq![digits()[d as int]]);
    text
}

/// Appends `n` in decimal notation to `out`.
fn push_decimal(out: &mut String, n: u64)
    ensures
        final(out)@ == old(out)@ + decimal(n as nat),
    decreases n,
{
    if n >= 10 {
        push_decimal(out, n / 10);
    }
    out.append(digit_text(n % 10));
    assert(final(out)@ =~= old(out)@ + decimal(n as nat));
}

/// Appends one visit to `out`.
fn push_visit(out: &mut String, visit: &Visit)
    ensures
        final(out)@ == old(out)@ + visit_text(*visit),
{
    proof {
        reveal_strlit(" ");
        reveal_strlit("/");
        reveal_strlit("@");
    }
    out.append(" ");
    push_decimal(out, visit.job as u64);
    out.append("/");
    push_decimal(out, visit.operation as u64);
    out.append("@");
    push_decimal(out, visit.start);
    assert(final(out)@ =~= old(out)@ + visit_text(*visit));
}

/// The listing of the given lines, one for each machine.
pub fn render_lines(lines: &Vec<Vec<Visit>>) -> (text: String)
    ensures
        text@ == listing(Seq::new(lines@.len(), |m: int| lines@[m]@), lines@.len() as int),
{
    let ghost view = Seq::new(lines@.len(), |m: int| lines@[m]@);
    let mut text = String::new();
    proof {
        reveal_strlit("\n");
        reveal_strlit("M");
        reveal_strlit(":");
    }
    let mut m: usize = 0;
    while m < lines.len()
        invariant
            m <= lines.len(),
            view == Seq::new(lines@.len(), |m: int| lines@[m]@),
            text@ == listing(view, m as int),
            "\n"@ == seq!['\n'],
            "M"@ == seq!['M'],
            ":"@ == seq![':'],
        decreases lines.len() - m,
    {
        let ghost before = text@;
        if m != 0 {
            text.append("\n");
        }
        text.append("M");
        push_decimal(&mut text, m as u64);
        text.append(":");
        let line = &lines[m];
        let ghost head = text@;
        let mut k: usize = 0;
        while k < line.len()
            invariant
                k <= line.len(),
                text@ == head + visits_text(line@, k as int),
            decreases line.len() - k,
        {
            push_visit(&mut text, &line[k]);
            assert(text@ =~= head + visits_text(line@, k + 1));
            k += 1;
        }
        assert(line@ == view[m as int]);
        assert(text@ =~= listing(view, m + 1));
        m += 1;
    }
    text
}

impl<'c> Schedule<'c> {
    /// For each machine the visits that it serves, in the order in which the
    /// schedule gives them to it.
    pub fn timelines(&self) -> (lines: Vec<Vec<Visit>>)
        requires
            self.wf(),
        ensures
            lines@.len() == self.conf.machines,
            forall|m: int|
                0 <= m < lines@.len() ==> (#[trigger] lines@[m])@ == machine_visits(
                    self.conf.problem(),
                    self@,
                    self@.len() as int,
                    m,
                ),
    {
        let ghost jobs = self.conf.problem();
        let ghost s = self@;
        let visits = self.visit_schedule();
        let mut lines: Vec<Vec<Visit>> = Vec::with_capacity(self.conf.machines);
        let mut m: usize = 0;
        while m < self.conf.machines
            invariant
                m <= self.conf.machines,
                lines@.len() == m,
                forall|a: int| 0 <= a < m ==> (#[trigger] lines@[a])@ == Seq::<Visit>::empty(),
            decreases self.conf.machines - m,
        {
            lines.push(Vec::new());
            m += 1;
        }
        proof {
            self.conf.lemma_problem_size();
            lemma_feasible(jobs, s);
        }
        let mut i: usize = 0;
        while i < visits.len()
            invariant
                i <= visits.len(),
                self.wf(),
                jobs == self.conf.problem(),
                s == self@,
                jobs.len() <= usize::MAX,
                visits@.len() == s.len(),
                forall|p: int| 0 <= p < visits@.len() ==> visits@[p] == visit_at(jobs, s, p),
                lines@.len() == self.conf.machines,
                forall|a: int|
                    0 <= a < lines@.len() ==> (#[trigger] lines@[a])@ == machine_visits(
                        jobs,
                        s,
                        i as int,
                        a,
                    ),
            decreases visits.len() - i,
        {
            proof {
                lemma_feasible(jobs, s);
            }
            let visit = visits[i];
            assert(visit == visit_at(jobs, s, i as int));
            assert(rank(s, i as int) < self.conf.jobs[visit.job as int].len());
            let operation = self.conf.jobs[visit.job][visit.operation];
            assert(operation == op_at(jobs, s, i as int));
            proof {
                lemma_machine_in_range(jobs, visit.job as int, visit.operation as int);
            }
            lines[operation.machine].push(visit);
            i += 1;
        }
        lines
    }

    /// The listing of the schedule: one line for each machine, with the
    /// operations that it runs and their start times.
    pub fn render(&self) -> (text: String)
        requires
            self.wf(),
        ensures
            text@ == listing(
                Seq::new(
                    self.conf.machines as nat,
                    |m: int|
                        machine_visits(self.conf.problem(), self@, self@.len() as int, m),
                ),
                self.conf.machines as int,
            ),
    {
        let lines = self.timelines();
        let text = render_lines(&lines);
        assert(Seq::new(lines@.len(), |m: int| lines@[m]@) =~= Seq::new(
            self.conf.machines as nat,
            |m: int| machine_visits(self.conf.problem(), self@, self@.len() as int, m),
        ));
        text
    }
}

} // verus!
