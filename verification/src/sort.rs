//! Insertion sort and quicksort over a caller-owned vector, mutated in
//! place. Both entry points guarantee the same contract: the vector ends
//! up in non-decreasing order and holds the same multiset of elements it
//! started with.

use vstd::prelude::*;
use vstd::seq_lib::group_to_multiset_ensures;
use vstd::seq_lib::to_multiset_update;

verus! {

/// The elements of `s` at positions `lo <= k < hi` are in non-decreasing
/// order.
pub open spec fn sorted_between(s: Seq<i32>, lo: int, hi: int) -> bool {
    forall|a: int, b: int| lo <= a < b < hi ==> #[trigger] s[a] <= #[trigger] s[b]
}

/// The whole sequence is in non-decreasing order; in particular every
/// adjacent pair satisfies `left <= right`.
pub open spec fn is_sorted(s: Seq<i32>) -> bool {
    sorted_between(s, 0, s.len() as int)
}

/// `s` with the values at positions `i` and `j` exchanged.
spec fn swapped(s: Seq<i32>, i: int, j: int) -> Seq<i32> {
    s.update(i, s[j]).update(j, s[i])
}

/// Exchanging two positions of a sequence does not change its multiset of
/// elements.
proof fn lemma_swap_preserves_multiset(s: Seq<i32>, i: int, j: int)
    requires
        0 <= i < s.len(),
        0 <= j < s.len(),
    ensures
        swapped(s, i, j).to_multiset() == s.to_multiset(),
{
    broadcast use group_to_multiset_ensures;
    broadcast use to_multiset_update;
    broadcast use vstd::multiset::group_multiset_axioms;

    let s1 = s.update(i, s[j]);
    if i == j {
        assert(swapped(s, i, j) =~= s);
    } else {
        assert(s1[j] == s[j]);
        assert(s1.to_multiset() =~= s.to_multiset().insert(s[j]).remove(s[i]));
        assert(swapped(s, i, j).to_multiset() =~= s1.to_multiset().insert(s[i]).remove(s1[j]));
        assert(swapped(s, i, j).to_multiset() =~= s.to_multiset());
    }
}

/// Exchange the elements of `seq` at positions `i` and `j`.
fn swap_elems(seq: &mut Vec<i32>, i: usize, j: usize)
    requires
        i < old(seq)@.len(),
        j < old(seq)@.len(),
    ensures
        final(seq)@ == swapped(old(seq)@, i as int, j as int),
        final(seq)@.len() == old(seq)@.len(),
        final(seq)@[i as int] == old(seq)@[j as int],
        final(seq)@[j as int] == old(seq)@[i as int],
        forall|k: int|
            0 <= k < old(seq)@.len() && k != i && k != j ==> final(seq)@[k] == old(seq)@[k],
        final(seq)@.to_multiset() == old(seq)@.to_multiset(),
{
    proof {
        lemma_swap_preserves_multiset(old(seq)@, i as int, j as int);
    }
    let a: i32 = seq[i];
    let b: i32 = seq[j];
    seq.set(i, b);
    seq.set(j, a);
}

/// Exchanging two positions inside the window `[lo, hi)` of a sequence
/// does not change the multiset of elements held by that window.
proof fn lemma_swap_in_range_multiset(s: Seq<i32>, lo: int, hi: int, i: int, j: int)
    requires
        0 <= lo <= i < hi <= s.len(),
        lo <= j < hi,
    ensures
        swapped(s, i, j).subrange(lo, hi).to_multiset() == s.subrange(lo, hi).to_multiset(),
{
    assert(swapped(s, i, j).subrange(lo, hi) =~= swapped(s.subrange(lo, hi), i - lo, j - lo));
    lemma_swap_preserves_multiset(s.subrange(lo, hi), i - lo, j - lo);
}

/// A window of a sequence, split at `mid`, holds the combined multisets of
/// the two half-windows.
proof fn lemma_subrange_split_multiset(s: Seq<i32>, lo: int, mid: int, hi: int)
    requires
        0 <= lo <= mid <= hi <= s.len(),
    ensures
        s.subrange(lo, hi).to_multiset() == s.subrange(lo, mid).to_multiset().add(
            s.subrange(mid, hi).to_multiset(),
        ),
{
    assert(s.subrange(lo, hi) =~= s.subrange(lo, mid) + s.subrange(mid, hi));
    vstd::seq_lib::lemma_multiset_commutative(s.subrange(lo, mid), s.subrange(mid, hi));
}

/// Rearranging a sequence without changing its multiset of elements keeps
/// every element at or below any bound that held of all the old elements.
proof fn lemma_upper_bound_preserved(s_old: Seq<i32>, s_new: Seq<i32>, v: i32)
    requires
        s_old.to_multiset() == s_new.to_multiset(),
        forall|k: int| 0 <= k < s_old.len() ==> #[trigger] s_old[k] <= v,
    ensures
        forall|k: int| 0 <= k < s_new.len() ==> #[trigger] s_new[k] <= v,
{
    broadcast use group_to_multiset_ensures;

    assert forall|k: int| 0 <= k < s_new.len() implies s_new[k] <= v by {
        assert(s_new.contains(s_new[k]));
        assert(s_old.to_multiset().count(s_new[k]) > 0);
        assert(s_old.contains(s_new[k]));
        let m = choose|m: int| 0 <= m < s_old.len() && s_old[m] == s_new[k];
        assert(s_old[m] <= v);
    }
}

/// Rearranging a sequence without changing its multiset of elements keeps
/// every element at or above any bound that held of all the old elements.
proof fn lemma_lower_bound_preserved(s_old: Seq<i32>, s_new: Seq<i32>, v: i32)
    requires
        s_old.to_multiset() == s_new.to_multiset(),
        forall|k: int| 0 <= k < s_old.len() ==> #[trigger] s_old[k] >= v,
    ensures
        forall|k: int| 0 <= k < s_new.len() ==> #[trigger] s_new[k] >= v,
{
    broadcast use group_to_multiset_ensures;

    assert forall|k: int| 0 <= k < s_new.len() implies s_new[k] >= v by {
        assert(s_new.contains(s_new[k]));
        assert(s_old.to_multiset().count(s_new[k]) > 0);
        assert(s_old.contains(s_new[k]));
        let m = choose|m: int| 0 <= m < s_old.len() && s_old[m] == s_new[k];
        assert(s_old[m] >= v);
    }
}

/// Sort `seq` in place into non-decreasing order by repeatedly swapping
/// out-of-order adjacent elements: position `i` walks the boundary of the
/// sorted prefix, and each new element is swapped backward until its
/// predecessor no longer compares greater.
pub fn insertion_sort(seq: &mut Vec<i32>)
    ensures
        is_sorted(final(seq)@),
        final(seq)@.to_multiset() == old(seq)@.to_multiset(),
        final(seq)@.len() == old(seq)@.len(),
{
    let n = seq.len();
    if n < 2 {
        return ;
    }
    let mut i: usize = 1;
    while i < n
        invariant
            1 <= i <= n,
            seq@.len() == n,
            sorted_between(seq@, 0, i as int),
            seq@.to_multiset() == old(seq)@.to_multiset(),
        decreases n - i,
    {
        let mut k: usize = i;
        while k > 0 && seq[k - 1] > seq[k]
            invariant
                0 <= k <= i < n,
                seq@.len() == n,
                seq@.to_multiset() == old(seq)@.to_multiset(),
                forall|x: int, y: int|
                    0 <= x < y <= i && x != k && y != k ==> #[trigger] seq@[x] <= #[trigger] seq@[y],
                forall|y: int| k < y <= i ==> seq@[k as int] <= #[trigger] seq@[y],
            decreases k,
        {
            swap_elems(seq, k - 1, k);
            k -= 1;
        }
        proof {
            assert forall|x: int, y: int| 0 <= x < y <= i implies seq@[x] <= seq@[y] by {
                if y == k && x < k {
                    assert(seq@[(k - 1) as int] <= seq@[k as int]);
                    if x < k - 1 {
                        assert(seq@[x] <= seq@[(k - 1) as int]);
                    }
                }
            }
        }
        i += 1;
    }
}

/// Partition the window `[lo, hi)` of `seq` around a pivot value and
/// return the pivot's final resting index `p`.
///
/// This is a Hoare-style scheme: the pivot is the value found first in the
/// window, it stays parked at `lo` while two cursors converge inward from
/// the ends of the window, and a final swap places it at the split index.
/// An element equal to the pivot is consumed by advancing a cursor past
/// it, so runs of duplicate values can never stall the scan.
///
/// On return the window is split around `p`: everything left of `p` is at
/// most the pivot value, everything right of it (within the window) is at
/// least the pivot value, and nothing outside the window has moved.
pub fn hoare_partition(seq: &mut Vec<i32>, lo: usize, hi: usize) -> (p: usize)
    requires
        lo < hi,
        hi <= old(seq)@.len(),
    ensures
        lo <= p < hi,
        final(seq)@.len() == old(seq)@.len(),
        final(seq)@[p as int] == old(seq)@[lo as int],
        forall|k: int| lo <= k < p ==> #[trigger] final(seq)@[k] <= final(seq)@[p as int],
        forall|k: int| p < k < hi ==> #[trigger] final(seq)@[k] >= final(seq)@[p as int],
        final(seq)@.to_multiset() == old(seq)@.to_multiset(),
        final(seq)@.subrange(lo as int, hi as int).to_multiset() == old(seq)@.subrange(
            lo as int,
            hi as int,
        ).to_multiset(),
        forall|k: int|
            0 <= k < lo || hi <= k < old(seq)@.len() ==> final(seq)@[k] == old(seq)@[k],
{
    let ghost s0 = old(seq)@;
    let pv: i32 = seq[lo];
    let mut i: usize = lo + 1;
    let mut j: usize = hi - 1;
    while i <= j
        invariant
            lo < hi <= seq@.len(),
            seq@.len() == s0.len(),
            lo + 1 <= i,
            i <= j + 1,
            j < hi,
            seq@[lo as int] == pv,
            pv == s0[lo as int],
            forall|k: int| lo < k < i ==> #[trigger] seq@[k] <= pv,
            forall|k: int| j < k < hi ==> #[trigger] seq@[k] >= pv,
            seq@.to_multiset() == s0.to_multiset(),
            seq@.subrange(lo as int, hi as int).to_multiset() == s0.subrange(
                lo as int,
                hi as int,
            ).to_multiset(),
            forall|k: int| 0 <= k < lo || hi <= k < s0.len() ==> seq@[k] == s0[k],
        decreases j + 1 - i,
    {
        if seq[i] <= pv {
            i += 1;
        } else if seq[j] >= pv {
            j -= 1;
        } else {
            let ghost s_pre = seq@;
            swap_elems(seq, i, j);
            proof {
                lemma_swap_in_range_multiset(s_pre, lo as int, hi as int, i as int, j as int);
            }
            i += 1;
            j -= 1;
        }
    }
    let ghost s_pre = seq@;
    swap_elems(seq, lo, j);
    proof {
        lemma_swap_in_range_multiset(s_pre, lo as int, hi as int, lo as int, j as int);
    }
    j
}

/// Partition the window `[lo, hi)` of `seq` around a pivot value and
/// return the pivot's final resting index `p`.
///
/// This is the Lomuto scheme: the pivot is the value found last in the
/// window, a single forward cursor tracks the boundary of elements known
/// to compare less than the pivot, and a final swap places the pivot at
/// that boundary. It offers the same external contract as
/// [`hoare_partition`]; equal elements land on the other side of the
/// split, which either contract permits.
pub fn lomuto_partition(seq: &mut Vec<i32>, lo: usize, hi: usize) -> (p: usize)
    requires
        lo < hi,
        hi <= old(seq)@.len(),
    ensures
        lo <= p < hi,
        final(seq)@.len() == old(seq)@.len(),
        final(seq)@[p as int] == old(seq)@[(hi - 1) as int],
        forall|k: int| lo <= k < p ==> #[trigger] final(seq)@[k] <= final(seq)@[p as int],
        forall|k: int| p < k < hi ==> #[trigger] final(seq)@[k] >= final(seq)@[p as int],
        final(seq)@.to_multiset() == old(seq)@.to_multiset(),
        final(seq)@.subrange(lo as int, hi as int).to_multiset() == old(seq)@.subrange(
            lo as int,
            hi as int,
        ).to_multiset(),
        forall|k: int|
            0 <= k < lo || hi <= k < old(seq)@.len() ==> final(seq)@[k] == old(seq)@[k],
{
    let ghost s0 = old(seq)@;
    let pv: i32 = seq[hi - 1];
    let mut i: usize = lo;
    let mut k: usize = lo;
    while k < hi - 1
        invariant
            lo < hi <= seq@.len(),
            seq@.len() == s0.len(),
            lo <= i <= k <= hi - 1,
            seq@[(hi - 1) as int] == pv,
            pv == s0[(hi - 1) as int],
            forall|m: int| lo <= m < i ==> #[trigger] seq@[m] < pv,
            forall|m: int| i <= m < k ==> #[trigger] seq@[m] >= pv,
            seq@.to_multiset() == s0.to_multiset(),
            seq@.subrange(lo as int, hi as int).to_multiset() == s0.subrange(
                lo as int,
                hi as int,
            ).to_multiset(),
            forall|m: int| 0 <= m < lo || hi <= m < s0.len() ==> seq@[m] == s0[m],
        decreases hi - 1 - k,
    {
        if seq[k] < pv {
            let ghost s_pre = seq@;
            swap_elems(seq, i, k);
            proof {
                lemma_swap_in_range_multiset(s_pre, lo as int, hi as int, i as int, k as int);
            }
            i += 1;
        }
        k += 1;
    }
    let ghost s_pre = seq@;
    swap_elems(seq, i, hi - 1);
    proof {
        lemma_swap_in_range_multiset(s_pre, lo as int, hi as int, i as int, (hi - 1) as int);
    }
    i
}

/// Partition the window `[lo, hi)` of `seq` around the pivot value found
/// at a caller-chosen index, and return the pivot's final resting index.
///
/// This exposes pivot selection as a policy of the caller: a fixed
/// position keeps the sort deterministic, while a caller holding a random
/// source may pass a uniformly drawn index to avoid the quadratic worst
/// case on adversarial or already-sorted input. The chosen pivot is moved
/// to the front of the window and the scan of [`hoare_partition`] does
/// the rest.
pub fn hoare_partition_at(seq: &mut Vec<i32>, lo: usize, hi: usize, pivot: usize) -> (p: usize)
    requires
        lo < hi,
        hi <= old(seq)@.len(),
        lo <= pivot < hi,
    ensures
        lo <= p < hi,
        final(seq)@.len() == old(seq)@.len(),
        final(seq)@[p as int] == old(seq)@[pivot as int],
        forall|k: int| lo <= k < p ==> #[trigger] final(seq)@[k] <= final(seq)@[p as int],
        forall|k: int| p < k < hi ==> #[trigger] final(seq)@[k] >= final(seq)@[p as int],
        final(seq)@.to_multiset() == old(seq)@.to_multiset(),
        final(seq)@.subrange(lo as int, hi as int).to_multiset() == old(seq)@.subrange(
            lo as int,
            hi as int,
        ).to_multiset(),
        forall|k: int|
            0 <= k < lo || hi <= k < old(seq)@.len() ==> final(seq)@[k] == old(seq)@[k],
{
    let ghost s0 = seq@;
    swap_elems(seq, lo, pivot);
    proof {
        lemma_swap_in_range_multiset(s0, lo as int, hi as int, lo as int, pivot as int);
    }
    hoare_partition(seq, lo, hi)
}

/// Sort the window `[lo, hi)` of `seq` in place into non-decreasing
/// order. A window of fewer than two elements is already sorted;
/// otherwise the window is partitioned around a pivot that comes to rest
/// at index `p`, and the two strictly smaller windows on either side of
/// `p` are sorted recursively. Nothing outside the window moves.
pub fn quick_sort_range(seq: &mut Vec<i32>, lo: usize, hi: usize)
    requires
        lo <= hi,
        hi <= old(seq)@.len(),
    ensures
        final(seq)@.len() == old(seq)@.len(),
        sorted_between(final(seq)@, lo as int, hi as int),
        final(seq)@.to_multiset() == old(seq)@.to_multiset(),
        final(seq)@.subrange(lo as int, hi as int).to_multiset() == old(seq)@.subrange(
            lo as int,
            hi as int,
        ).to_multiset(),
        forall|k: int|
            0 <= k < lo || hi <= k < old(seq)@.len() ==> final(seq)@[k] == old(seq)@[k],
    decreases hi - lo,
{
    if hi - lo >= 2 {
        let ghost s0 = seq@;
        let p = hoare_partition(seq, lo, hi);
        let ghost s1 = seq@;
        quick_sort_range(seq, lo, p);
        let ghost s2 = seq@;
        proof {
            assert(s2[p as int] == s1[p as int]);
            assert(s2.subrange(p as int, hi as int) =~= s1.subrange(p as int, hi as int));
            assert(forall|k: int|
                lo <= k < p ==> #[trigger] s1.subrange(lo as int, p as int)[k - lo] == s1[k]);
            lemma_upper_bound_preserved(
                s1.subrange(lo as int, p as int),
                s2.subrange(lo as int, p as int),
                s1[p as int],
            );
            assert(forall|k: int|
                lo <= k < p ==> #[trigger] s2[k] == s2.subrange(lo as int, p as int)[k - lo]);
            lemma_subrange_split_multiset(s1, lo as int, p as int, hi as int);
            lemma_subrange_split_multiset(s2, lo as int, p as int, hi as int);
        }
        quick_sort_range(seq, p + 1, hi);
        let ghost s3 = seq@;
        proof {
            assert(s3.subrange(lo as int, p + 1) =~= s2.subrange(lo as int, p + 1));
            assert(forall|k: int| lo <= k <= p ==> #[trigger] s3[k] == s2[k]);
            assert(forall|k: int|
                p < k < hi ==> #[trigger] s2.subrange(p + 1, hi as int)[k - (p + 1)] == s2[k]);
            lemma_lower_bound_preserved(
                s2.subrange(p + 1, hi as int),
                s3.subrange(p + 1, hi as int),
                s2[p as int],
            );
            assert(forall|k: int|
                p < k < hi ==> #[trigger] s3[k] == s3.subrange(p + 1, hi as int)[k - (p + 1)]);
            lemma_subrange_split_multiset(s2, lo as int, p + 1, hi as int);
            lemma_subrange_split_multiset(s3, lo as int, p + 1, hi as int);
            assert forall|a: int, b: int| lo <= a < b < hi implies s3[a] <= s3[b] by {
                if a < p {
                    assert(s3[a] <= s3[p as int]);
                }
                if b > p {
                    assert(s3[b] >= s3[p as int]);
                }
            }
        }
    }
}

/// Sort `seq` in place into non-decreasing order with a recursive
/// quicksort driven by [`hoare_partition`].
pub fn rquick_sort(seq: &mut Vec<i32>)
    ensures
        is_sorted(final(seq)@),
        final(seq)@.to_multiset() == old(seq)@.to_multiset(),
        final(seq)@.len() == old(seq)@.len(),
{
    let n = seq.len();
    quick_sort_range(seq, 0, n);
}

/// A chain of adjacent comparisons orders any two positions of a
/// sequence: if every adjacent pair is in order, so is every pair.
proof fn lemma_le_chain(s: Seq<i32>, a: int, b: int)
    requires
        forall|i: int| 0 <= i && i + 1 < s.len() ==> #[trigger] s[i] <= s[i + 1],
        0 <= a <= b < s.len(),
    ensures
        s[a] <= s[b],
    decreases b - a,
{
    if a < b {
        lemma_le_chain(s, a, b - 1);
        assert(s[b - 1] <= s[b]);
    }
}

/// The order property can be read pairwise or over adjacent pairs alone:
/// a sequence is sorted exactly when every adjacent pair of its elements
/// satisfies `left <= right`.
pub proof fn lemma_sorted_iff_adjacent_pairs(s: Seq<i32>)
    ensures
        is_sorted(s) <==> (forall|i: int| 0 <= i && i + 1 < s.len() ==> #[trigger] s[i] <= s[i + 1]),
{
    if forall|i: int| 0 <= i && i + 1 < s.len() ==> #[trigger] s[i] <= s[i + 1] {
        assert forall|a: int, b: int| 0 <= a < b < s.len() implies s[a] <= s[b] by {
            lemma_le_chain(s, a, b);
        }
    }
}

/// There is exactly one sorted arrangement of any multiset of elements:
/// two sorted sequences holding the same multiset are equal. In
/// particular, a sequence that is already sorted is left unchanged by any
/// sort that returns a sorted permutation of its input.
pub proof fn lemma_sorted_permutation_unique(a: Seq<i32>, b: Seq<i32>)
    requires
        is_sorted(a),
        is_sorted(b),
        a.to_multiset() == b.to_multiset(),
    ensures
        a == b,
{
    let leq = |x: i32, y: i32| x <= y;
    assert(vstd::relations::total_ordering(leq)) by {
        assert(vstd::relations::reflexive(leq));
        assert(vstd::relations::antisymmetric(leq));
        assert(vstd::relations::transitive(leq));
        assert(vstd::relations::strongly_connected(leq));
    }
    assert(vstd::relations::sorted_by(a, leq));
    assert(vstd::relations::sorted_by(b, leq));
    vstd::seq_lib::lemma_sorted_unique(a, b, leq);
    assert(a == b);
}

/// A sequence of at most one element — empty or singleton — is already
/// sorted, so it is the only sorted permutation of itself and any sort
/// returns it unchanged.
pub proof fn lemma_short_input_unchanged(s: Seq<i32>, out: Seq<i32>)
    requires
        s.len() <= 1,
        is_sorted(out),
        out.to_multiset() == s.to_multiset(),
    ensures
        out == s,
{
    lemma_sorted_permutation_unique(s, out);
}

/// Sorting is idempotent: if `once` is a sorted permutation of `s`, and
/// `twice` is a sorted permutation of `once` — the result of sorting a
/// second time — then the second sort changed nothing.
pub proof fn lemma_sort_idempotent(s: Seq<i32>, once: Seq<i32>, twice: Seq<i32>)
    requires
        is_sorted(once),
        once.to_multiset() == s.to_multiset(),
        is_sorted(twice),
        twice.to_multiset() == once.to_multiset(),
    ensures
        twice == once,
{
    lemma_sorted_permutation_unique(once, twice);
}

} // verus!

