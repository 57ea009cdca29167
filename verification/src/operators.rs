//! The two operators of the search as functions on sequences, and what
//! they keep: crossover at a cut point and the exchange of two entries.

use crate::cfg::occurrences;
use crate::decode::lemma_occurrences_none;
use crate::decode::lemma_occurrences_prefix;
use crate::decode::lemma_occurrences_step;
use crate::decode::rank;
use vstd::multiset::group_multiset_axioms;
use vstd::prelude::*;
use vstd::seq_lib::lemma_multiset_commutative;
use vstd::seq_lib::to_multiset_build;
use vstd::seq_lib::to_multiset_update;

verus! {

/// How many occurrences of `job` the child still lacks when the first `cut`
/// entries of `parent` are copied.
pub open spec fn lacking(parent: Seq<usize>, cut: int, job: usize) -> int {
    occurrences(parent, job) - occurrences(parent.take(cut), job)
}

/// Whether the child takes the entry at position `i` of `donor`: its job
/// has occurred in `donor` before that position less often than the child
/// lacks it.
pub open spec fn owed(parent: Seq<usize>, donor: Seq<usize>, cut: int, i: int) -> bool {
    rank(donor, i) < lacking(parent, cut, donor[i])
}

/// The entries that the child takes from the first `n` entries of `donor`,
/// in the order of `donor`.
pub open spec fn donated(parent: Seq<usize>, donor: Seq<usize>, cut: int, n: int) -> Seq<usize>
    decreases n,
{
    if n <= 0 {
        Seq::empty()
    } else {
        let before = donated(parent, donor, cut, n - 1);
        if owed(parent, donor, cut, n - 1) {
            before.push(donor[n - 1])
        } else {
            before
        }
    }
}

/// The child of `parent` and `donor` at `cut`: the first `cut` entries of
/// `parent`, then of each job the first occurrences in `donor` that are
/// still lacking, in the order of `donor`.
pub open spec fn crossover_seq(parent: Seq<usize>, donor: Seq<usize>, cut: int) -> Seq<usize> {
    parent.take(cut) + donated(parent, donor, cut, donor.len() as int)
}

/// `s` with the entries at `a` and `b` exchanged.
pub open spec fn swapped(s: Seq<usize>, a: int, b: int) -> Seq<usize> {
    s.update(a, s[b]).update(b, s[a])
}

proof fn lemma_donated_occurrences(
    parent: Seq<usize>,
    donor: Seq<usize>,
    cut: int,
    n: int,
    job: usize,
)
    requires
        0 <= cut <= parent.len(),
        0 <= n <= donor.len(),
    ensures
        occurrences(donated(parent, donor, cut, n), job) == if occurrences(donor.take(n), job)
            <= lacking(parent, cut, job) {
            occurrences(donor.take(n), job) as int
        } else {
            lacking(parent, cut, job)
        },
    decreases n,
{
    lemma_occurrences_prefix(parent, cut, job);
    if n == 0 {
        lemma_occurrences_none(donor, job);
        assert(donated(parent, donor, cut, n) =~= Seq::<usize>::empty());
        donated(parent, donor, cut, n).to_multiset_ensures();
    } else {
        lemma_donated_occurrences(parent, donor, cut, n - 1, job);
        lemma_occurrences_step(donor, n - 1, job);
        to_multiset_build(donated(parent, donor, cut, n - 1), donor[n - 1]);
    }
}

/// A child holds every job as often as its parents do, whatever the cut
/// point: crossover of two reorderings of one template is another.
pub proof fn lemma_crossover_keeps_entries(parent: Seq<usize>, donor: Seq<usize>, cut: int)
    requires
        donor.to_multiset() == parent.to_multiset(),
        0 <= cut <= parent.len(),
    ensures
        crossover_seq(parent, donor, cut).to_multiset() == parent.to_multiset(),
{
    let head = parent.take(cut);
    let tail = donated(parent, donor, cut, donor.len() as int);
    lemma_multiset_commutative(head, tail);
    assert forall|job: usize|
        crossover_seq(parent, donor, cut).to_multiset().count(job) == parent.to_multiset().count(
            job,
        ) by {
        lemma_donated_occurrences(parent, donor, cut, donor.len() as int, job);
        lemma_occurrences_prefix(parent, cut, job);
        assert(donor.take(donor.len() as int) =~= donor);
    }
    assert(crossover_seq(parent, donor, cut).to_multiset() =~= parent.to_multiset());
}

proof fn lemma_donated_nothing(parent: Seq<usize>, donor: Seq<usize>, n: int)
    requires
        0 <= n <= donor.len(),
    ensures
        donated(parent, donor, parent.len() as int, n) == Seq::<usize>::empty(),
    decreases n,
{
    if n > 0 {
        lemma_donated_nothing(parent, donor, n - 1);
        assert(parent.take(parent.len() as int) =~= parent);
    }
}

proof fn lemma_donated_everything(parent: Seq<usize>, donor: Seq<usize>, n: int)
    requires
        donor.to_multiset() == parent.to_multiset(),
        0 <= n <= donor.len(),
    ensures
        donated(parent, donor, 0, n) == donor.take(n),
    decreases n,
{
    if n == 0 {
        assert(donor.take(0) =~= Seq::<usize>::empty());
    } else {
        lemma_donated_everything(parent, donor, n - 1);
        lemma_occurrences_none(parent, donor[n - 1]);
        lemma_occurrences_prefix(donor, n - 1, donor[n - 1]);
        assert(donor.take(n) =~= donor.take(n - 1).push(donor[n - 1]));
    }
}

/// With the cut behind the last entry the child is the first parent.
pub proof fn lemma_crossover_at_end(parent: Seq<usize>, donor: Seq<usize>)
    ensures
        crossover_seq(parent, donor, parent.len() as int) == parent,
{
    lemma_donated_nothing(parent, donor, donor.len() as int);
    assert(parent.take(parent.len() as int) + Seq::<usize>::empty() =~= parent);
}

/// With the cut before the first entry the child is the second parent, if
/// both parents reorder one template.
pub proof fn lemma_crossover_at_start(parent: Seq<usize>, donor: Seq<usize>)
    requires
        donor.to_multiset() == parent.to_multiset(),
    ensures
        crossover_seq(parent, donor, 0) == donor,
{
    lemma_donated_everything(parent, donor, donor.len() as int);
    assert(parent.take(0) + donor.take(donor.len() as int) =~= donor);
}

/// Exchanging two entries keeps every job as often as it was, also where
/// the two positions are one.
pub proof fn lemma_swap_keeps_entries(s: Seq<usize>, a: int, b: int)
    requires
        0 <= a < s.len(),
        0 <= b < s.len(),
    ensures
        swapped(s, a, b).to_multiset() == s.to_multiset(),
        swapped(s, a, b).len() == s.len(),
        a == b ==> swapped(s, a, b) == s,
{
    broadcast use group_multiset_axioms;

    let once = s.update(a, s[b]);
    to_multiset_update(s, a, s[b]);
    to_multiset_update(once, b, s[a]);
    s.to_multiset_ensures();
    assert(s.contains(s[a]));
    assert(s.contains(s[b]));
    assert(swapped(s, a, b).to_multiset() =~= s.to_multiset());
    if a == b {
        assert(swapped(s, a, b) =~= s);
    }
}

} // verus!
