//! Which individuals survive a generation: the best ones by makespan, and
//! among equal makespans those that are stored first.

use vstd::prelude::*;
use vstd::seq_lib::seq_to_set_is_finite;
use vstd::set_lib::lemma_subset_equality;

verus! {

/// Individual `i` is chosen before individual `j`: it has the smaller
/// makespan, or the same makespan and the earlier position.
pub open spec fn precedes(times: Seq<u64>, i: int, j: int) -> bool {
    times[i] < times[j] || (times[i] == times[j] && i < j)
}

/// `kept` lists, in rising order, the positions of the `size` individuals
/// that are chosen before all the others.
pub open spec fn selection(times: Seq<u64>, size: int, kept: Seq<int>) -> bool {
    &&& kept.len() == size
    &&& forall|k: int| 0 <= k < size ==> 0 <= #[trigger] kept[k] < times.len()
    &&& forall|k: int, l: int| 0 <= k < l < size ==> kept[k] < kept[l]
    &&& forall|k: int, i: int|
        0 <= k < size && 0 <= i < times.len() && !kept.contains(i) ==> #[trigger] precedes(
            times,
            kept[k],
            i,
        )
}

/// Two rising lists that hold the same positions are one list.
proof fn lemma_rising_lists_agree(a: Seq<int>, b: Seq<int>, k: int)
    requires
        a.len() == b.len(),
        forall|i: int, j: int| 0 <= i < j < a.len() ==> a[i] < a[j],
        forall|i: int, j: int| 0 <= i < j < b.len() ==> b[i] < b[j],
        forall|x: int| a.contains(x) <==> b.contains(x),
        0 <= k <= a.len(),
    ensures
        forall|i: int| 0 <= i < k ==> a[i] == b[i],
    decreases k,
{
    if k > 0 {
        lemma_rising_lists_agree(a, b, k - 1);
        let at = k - 1;
        assert(a.contains(a[at]));
        assert(b.contains(a[at]));
        let m = choose|m: int| 0 <= m < b.len() && b[m] == a[at];
        if m < at {
            assert(a[m] == b[m]);
            assert(a[m] < a[at]);
        }
        assert(b.contains(b[at]));
        assert(a.contains(b[at]));
        let n = choose|n: int| 0 <= n < a.len() && a[n] == b[at];
        if n < at {
            assert(a[n] == b[n]);
            assert(b[n] < b[at]);
        }
        if m > at {
            assert(b[at] < b[m]);
        }
        if n > at {
            assert(a[at] < a[n]);
        }
    }
}

/// There is one selection only: whoever is selected is settled by the
/// makespans and the size, and so is the order of the selected.
pub proof fn lemma_selection_unique(times: Seq<u64>, size: int, a: Seq<int>, b: Seq<int>)
    requires
        selection(times, size, a),
        selection(times, size, b),
    ensures
        a == b,
{
    assert(a.no_duplicates()) by {
        assert forall|i: int, j: int|
            0 <= i < a.len() && 0 <= j < a.len() && i != j implies a[i] != a[j] by {
            if i < j {
                assert(a[i] < a[j]);
            } else {
                assert(a[j] < a[i]);
            }
        }
    }
    assert(b.no_duplicates()) by {
        assert forall|i: int, j: int|
            0 <= i < b.len() && 0 <= j < b.len() && i != j implies b[i] != b[j] by {
            if i < j {
                assert(b[i] < b[j]);
            } else {
                assert(b[j] < b[i]);
            }
        }
    }
    a.unique_seq_to_set();
    b.unique_seq_to_set();
    seq_to_set_is_finite(a);
    seq_to_set_is_finite(b);
    // Whoever is in one selection and not in the other comes behind all of
    // the other, so each selection holds the whole of the other or nothing
    // that the other lacks.
    if exists|x: int| a.contains(x) && !b.contains(x) {
        let x = choose|x: int| a.contains(x) && !b.contains(x);
        let at = choose|at: int| 0 <= at < a.len() && a[at] == x;
        assert forall|y: int| b.to_set().contains(y) implies a.to_set().contains(y) by {
            assert(b.contains(y));
            let k = choose|k: int| 0 <= k < b.len() && b[k] == y;
            assert(precedes(times, b[k], x));
            if !a.contains(y) {
                assert(precedes(times, a[at], y));
            }
        }
        lemma_subset_equality(b.to_set(), a.to_set());
        assert(a.to_set().contains(x));
        assert(b.to_set().contains(x));
    }
    if exists|x: int| b.contains(x) && !a.contains(x) {
        let x = choose|x: int| b.contains(x) && !a.contains(x);
        let at = choose|at: int| 0 <= at < b.len() && b[at] == x;
        assert forall|y: int| a.to_set().contains(y) implies b.to_set().contains(y) by {
            assert(a.contains(y));
            let k = choose|k: int| 0 <= k < a.len() && a[k] == y;
            assert(precedes(times, a[k], x));
            if !b.contains(y) {
                assert(precedes(times, b[at], y));
            }
        }
        lemma_subset_equality(a.to_set(), b.to_set());
        assert(b.to_set().contains(x));
        assert(a.to_set().contains(x));
    }
    lemma_rising_lists_agree(a, b, size);
    assert(a =~= b);
}

/// The order of pairs: by the first part, and by the second where the first
/// parts are equal.
pub open spec fn pair_le(a: (u64, u64), b: (u64, u64)) -> bool {
    a.0 < b.0 || (a.0 == b.0 && a.1 <= b.1)
}

/// The pairs stand in rising order.
pub open spec fn sorted_pairs(pairs: Seq<(u64, u64)>) -> bool {
    forall|i: int, j: int| 0 <= i <= j < pairs.len() ==> pair_le(pairs[i], pairs[j])
}

/// Each makespan paired with its position.
pub open spec fn ranked_pairs(times: Seq<u64>) -> Seq<(u64, u64)> {
    Seq::new(times.len(), |i: int| (times[i], i as u64))
}

/// Each pair with its two parts exchanged.
pub open spec fn flipped_pairs(pairs: Seq<(u64, u64)>) -> Seq<(u64, u64)> {
    Seq::new(pairs.len(), |k: int| (pairs[k].1, pairs[k].0))
}

/// The first parts of the pairs.
pub open spec fn positions(pairs: Seq<(u64, u64)>) -> Seq<int> {
    Seq::new(pairs.len(), |k: int| pairs[k].0 as int)
}

/// Two sequences with the same entries, each as often, are equally long,
/// hold the same values, and have duplicates both or neither.
pub proof fn lemma_same_entries<T>(a: Seq<T>, b: Seq<T>)
    requires
        a.to_multiset() == b.to_multiset(),
    ensures
        a.len() == b.len(),
        forall|x: T| a.contains(x) <==> b.contains(x),
        a.no_duplicates() ==> b.no_duplicates(),
{
    a.to_multiset_ensures();
    b.to_multiset_ensures();
    assert forall|x: T| a.contains(x) <==> b.contains(x) by {
        assert(a.contains(x) <==> a.to_multiset().count(x) > 0);
        assert(b.contains(x) <==> b.to_multiset().count(x) > 0);
    }
    if a.no_duplicates() {
        a.lemma_multiset_has_no_duplicates();
        b.lemma_multiset_has_no_duplicates_conv();
    }
}

/// What two sortings establish: `ranked` is the pairs of makespan and
/// position in rising order, and `placed` is the first `size` of them,
/// flipped and brought into rising order again. Then the first parts of
/// `placed` are the selection of `size` individuals, each second part is the
/// makespan of its individual, and the first pair of `ranked` holds the
/// least makespan of all and the first position that has it, whose
/// individual is among the selected.
pub proof fn lemma_selection(
    times: Seq<u64>,
    ranked: Seq<(u64, u64)>,
    placed: Seq<(u64, u64)>,
    size: int,
)
    requires
        times.len() <= usize::MAX,
        0 < size <= times.len(),
        ranked.to_multiset() == ranked_pairs(times).to_multiset(),
        sorted_pairs(ranked),
        placed.to_multiset() == flipped_pairs(ranked.take(size)).to_multiset(),
        sorted_pairs(placed),
    ensures
        ranked.len() == times.len(),
        placed.len() == size,
        selection(times, size, positions(placed)),
        forall|k: int| 0 <= k < size ==> (#[trigger] placed[k]).1 == times[placed[k].0 as int],
        ranked[0].1 < times.len(),
        ranked[0].0 == times[ranked[0].1 as int],
        forall|i: int| 0 <= i < times.len() ==> ranked[0].0 <= #[trigger] times[i],
        forall|i: int| 0 <= i < ranked[0].1 ==> ranked[0].0 != #[trigger] times[i],
        exists|k: int| 0 <= k < size && #[trigger] placed[k].0 == ranked[0].1,
{
    let all = ranked_pairs(times);
    let chosen = ranked.take(size);
    let flipped = flipped_pairs(chosen);
    let kept = positions(placed);
    lemma_same_entries(all, ranked);
    lemma_same_entries(ranked, all);
    lemma_same_entries(flipped, placed);
    lemma_same_entries(placed, flipped);
    // Every ranked pair is the pair of some individual.
    assert forall|p: int| 0 <= p < ranked.len() implies (#[trigger] ranked[p]).1 < times.len()
        && ranked[p].0 == times[ranked[p].1 as int] by {
        assert(ranked.contains(ranked[p]));
        assert(all.contains(ranked[p]));
        let i = choose|i: int| 0 <= i < all.len() && all[i] == ranked[p];
        assert(all[i] == (times[i], i as u64));
    }
    // No pair occurs twice among the ranked ones.
    assert(all.no_duplicates()) by {
        assert forall|i: int, j: int|
            0 <= i < all.len() && 0 <= j < all.len() && i != j implies all[i] != all[j] by {
            assert(all[i].1 == i as u64);
            assert(all[j].1 == j as u64);
        }
    }
    assert(ranked.no_duplicates());
    // Nor among the flipped ones, and so not among the placed ones.
    assert(flipped.no_duplicates()) by {
        assert forall|i: int, j: int|
            0 <= i < flipped.len() && 0 <= j < flipped.len() && i != j implies flipped[i]
            != flipped[j] by {
            assert(chosen[i] == ranked[i]);
            assert(chosen[j] == ranked[j]);
            assert(ranked[i] != ranked[j]);
        }
    }
    assert(placed.no_duplicates());
    // Every placed pair is a chosen pair, flipped.
    assert forall|k: int| 0 <= k < size implies (#[trigger] placed[k]).1
        == times[placed[k].0 as int] && placed[k].0 < times.len() && exists|q: int|
        0 <= q < size && ranked[q] == (placed[k].1, placed[k].0) by {
        assert(placed.contains(placed[k]));
        assert(flipped.contains(placed[k]));
        let q = choose|q: int| 0 <= q < flipped.len() && flipped[q] == placed[k];
        assert(chosen[q] == ranked[q]);
        assert(ranked[q] == (placed[k].1, placed[k].0));
    }
    assert forall|k: int, l: int| 0 <= k < l < size implies kept[k] < kept[l] by {
        assert(pair_le(placed[k], placed[l]));
        assert(placed[k] != placed[l]);
        assert(placed[k].1 == times[placed[k].0 as int]);
        assert(placed[l].1 == times[placed[l].0 as int]);
    }
    assert forall|k: int, i: int|
        0 <= k < size && 0 <= i < times.len() && !kept.contains(i) implies #[trigger] precedes(
        times,
        kept[k],
        i,
    ) by {
        let mine = (times[i], i as u64);
        assert(all[i] == mine);
        assert(all.contains(mine));
        assert(ranked.contains(mine));
        let p = choose|p: int| 0 <= p < ranked.len() && ranked[p] == mine;
        if p < size {
            assert(chosen[p] == ranked[p]);
            assert(flipped[p] == (i as u64, times[i]));
            assert(flipped.contains((i as u64, times[i])));
            assert(placed.contains((i as u64, times[i])));
            let k2 = choose|k2: int| 0 <= k2 < placed.len() && placed[k2] == (i as u64, times[i]);
            assert(kept[k2] == i);
            assert(kept.contains(i));
        }
        assert(placed[k].1 == times[placed[k].0 as int]);
        let q = choose|q: int| 0 <= q < size && ranked[q] == (placed[k].1, placed[k].0);
        assert(pair_le(ranked[q], ranked[p]));
        if kept[k] == i {
            assert(kept.contains(i));
        }
    }
    assert(ranked[0].1 < times.len() && ranked[0].0 == times[ranked[0].1 as int]);
    assert forall|i: int| 0 <= i < times.len() implies ranked[0].0 <= #[trigger] times[i] && (i
        < ranked[0].1 ==> ranked[0].0 != times[i]) by {
        let mine = (times[i], i as u64);
        assert(all[i] == mine);
        assert(all.contains(mine));
        assert(ranked.contains(mine));
        let p = choose|p: int| 0 <= p < ranked.len() && ranked[p] == mine;
        assert(pair_le(ranked[0], ranked[p]));
    }
    assert(exists|k: int| 0 <= k < size && #[trigger] placed[k].0 == ranked[0].1) by {
        assert(chosen[0] == ranked[0]);
        assert(flipped[0] == (ranked[0].1, ranked[0].0));
        assert(flipped.contains((ranked[0].1, ranked[0].0)));
        assert(placed.contains((ranked[0].1, ranked[0].0)));
        let k = choose|k: int| 0 <= k < placed.len() && placed[k] == (ranked[0].1, ranked[0].0);
        assert(placed[k].0 == ranked[0].1);
    }
}

} // verus!
