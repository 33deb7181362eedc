//! Sorting keys and recovering where each key went.

use vstd::prelude::*;
use crate::field::FieldElement;
use vstd::multiset::Multiset;

verus! {

broadcast use {vstd::seq_lib::group_to_multiset_ensures, vstd::multiset::group_multiset_axioms};

/// Values ascend (ties allowed) over the positions `[lo, hi)`.
pub open spec fn sorted_between(s: Seq<FieldElement>, lo: int, hi: int) -> bool {
    forall|i: int, j: int| lo <= i < j < hi ==> #[trigger] s[i].value() <= #[trigger] s[j].value()
}

/// Values ascend over the whole sequence.
pub open spec fn is_sorted(s: Seq<FieldElement>) -> bool {
    sorted_between(s, 0, s.len() as int)
}

/// The multiset of the elements at positions `[lo, hi)`.
pub open spec fn range_ms(s: Seq<FieldElement>, lo: int, hi: int) -> Multiset<FieldElement> {
    s.subrange(lo, hi).to_multiset()
}

/// `t` agrees with `s` at every position outside `[lo, hi)`.
pub open spec fn same_outside(s: Seq<FieldElement>, t: Seq<FieldElement>, lo: int, hi: int) -> bool {
    &&& s.len() == t.len()
    &&& forall|k: int| 0 <= k < s.len() && !(lo <= k < hi) ==> #[trigger] t[k] == s[k]
}

fn swap(arr: &mut Vec<FieldElement>, i: usize, j: usize)
    requires
        i < old(arr).len(),
        j < old(arr).len(),
    ensures
        final(arr)@ == old(arr)@.update(i as int, old(arr)@[j as int]).update(
            j as int,
            old(arr)@[i as int],
        ),
{
    let a = arr[i];
    let b = arr[j];
    arr.set(i, b);
    arr.set(j, a);
}

/// Exchanging two positions inside `[lo, hi)` keeps the multiset of that range.
proof fn lemma_swap_ms(s: Seq<FieldElement>, i: int, j: int, lo: int, hi: int)
    requires
        0 <= lo <= i < hi <= s.len(),
        lo <= j < hi,
    ensures
        range_ms(s.update(i, s[j]).update(j, s[i]), lo, hi) == range_ms(s, lo, hi),
{
    let t = s.subrange(lo, hi);
    let u = t.update(i - lo, t[j - lo]);
    assert(s.update(i, s[j]).update(j, s[i]).subrange(lo, hi) =~= u.update(j - lo, t[i - lo]));
    vstd::seq_lib::to_multiset_update(t, i - lo, t[j - lo]);
    vstd::seq_lib::to_multiset_update(u, j - lo, t[i - lo]);
    assert(u.update(j - lo, t[i - lo]).to_multiset() =~= t.to_multiset());
}

/// A change confined to `[a, b)` that keeps that range's multiset keeps the
/// multiset of every range around it.
proof fn lemma_ms_widen(s: Seq<FieldElement>, t: Seq<FieldElement>, lo: int, a: int, b: int, hi: int)
    requires
        0 <= lo <= a <= b <= hi <= s.len(),
        same_outside(s, t, a, b),
        range_ms(t, a, b) == range_ms(s, a, b),
    ensures
        range_ms(t, lo, hi) == range_ms(s, lo, hi),
{
    assert(s.subrange(lo, hi) =~= s.subrange(lo, a) + s.subrange(a, b) + s.subrange(b, hi));
    assert(t.subrange(lo, hi) =~= t.subrange(lo, a) + t.subrange(a, b) + t.subrange(b, hi));
    assert(t.subrange(lo, a) =~= s.subrange(lo, a));
    assert(t.subrange(b, hi) =~= s.subrange(b, hi));
    vstd::seq_lib::lemma_multiset_commutative(s.subrange(lo, a), s.subrange(a, b));
    vstd::seq_lib::lemma_multiset_commutative(t.subrange(lo, a), t.subrange(a, b));
    vstd::seq_lib::lemma_multiset_commutative(
        s.subrange(lo, a) + s.subrange(a, b),
        s.subrange(b, hi),
    );
    vstd::seq_lib::lemma_multiset_commutative(
        t.subrange(lo, a) + t.subrange(a, b),
        t.subrange(b, hi),
    );
}

/// Two ranges with one multiset share every bound on their values.
proof fn lemma_ms_bounds(s: Seq<FieldElement>, t: Seq<FieldElement>, lo: int, hi: int, b: int)
    requires
        0 <= lo <= hi <= s.len(),
        hi <= t.len(),
        range_ms(t, lo, hi) == range_ms(s, lo, hi),
    ensures
        (forall|k: int| lo <= k < hi ==> #[trigger] s[k].value() < b) ==> (forall|k: int|
            lo <= k < hi ==> #[trigger] t[k].value() < b),
        (forall|k: int| lo <= k < hi ==> b <= #[trigger] s[k].value()) ==> (forall|k: int|
            lo <= k < hi ==> b <= #[trigger] t[k].value()),
{
    assert forall|k: int| #![trigger t[k]] lo <= k < hi implies exists|k2: int| #![trigger s[k2]] lo <= k2 < hi && s[k2] == t[k] by {
        assert(t.subrange(lo, hi)[k - lo] == t[k]);
        assert(t.subrange(lo, hi).contains(t[k]));
        assert(t.subrange(lo, hi).to_multiset().count(t[k]) > 0);
        assert(s.subrange(lo, hi).to_multiset().count(t[k]) > 0);
        assert(s.subrange(lo, hi).contains(t[k]));
        let m = choose|m: int| 0 <= m < hi - lo && s.subrange(lo, hi)[m] == t[k];
        assert(s[lo + m] == t[k]);
        assert(lo <= lo + m < hi);
    }
}

/// The elements of `s` whose value is below that of `pivot`, in order.
pub open spec fn below(s: Seq<FieldElement>, pivot: FieldElement) -> Seq<FieldElement>
    decreases s.len(),
{
    if s.len() == 0 {
        s
    } else if s.last().value() < pivot.value() {
        below(s.drop_last(), pivot).push(s.last())
    } else {
        below(s.drop_last(), pivot)
    }
}

/// Lomuto partition of `arr[low..=high]` around the element at `high`;
/// returns where that element ends up. The elements below it come first, in
/// their old order.
pub fn partition(arr: &mut Vec<FieldElement>, low: usize, high: usize) -> (r: usize)
    requires
        low <= high < old(arr)@.len(),
    ensures
        low <= r <= high,
        same_outside(old(arr)@, final(arr)@, low as int, high + 1),
        range_ms(final(arr)@, low as int, high + 1) == range_ms(old(arr)@, low as int, high + 1),
        forall|k: int| low <= k < r ==> #[trigger] final(arr)@[k].value() < final(arr)@[r as int].value(),
        forall|k: int| r < k <= high ==> final(arr)@[r as int].value() <= #[trigger] final(arr)@[k].value(),
        final(arr)@[r as int] == old(arr)@[high as int],
        final(arr)@.subrange(low as int, r as int) == below(
            old(arr)@.subrange(low as int, high as int),
            old(arr)@[high as int],
        ),
{
    let ghost orig = arr@;
    let mut i: usize = low;
    let mut j: usize = low;
    while j < high
        invariant
            low <= i <= j <= high < arr@.len(),
            arr@[high as int] == orig[high as int],
            same_outside(orig, arr@, low as int, high + 1),
            range_ms(arr@, low as int, high + 1) == range_ms(orig, low as int, high + 1),
            forall|k: int| low <= k < i ==> #[trigger] arr@[k].value() < orig[high as int].value(),
            forall|k: int| i <= k < j ==> orig[high as int].value() <= #[trigger] arr@[k].value(),
            forall|k: int| j <= k <= high ==> #[trigger] arr@[k] == orig[k],
            arr@.subrange(low as int, i as int) == below(orig.subrange(low as int, j as int), orig[high as int]),
        decreases high - j,
    {
        proof {
            let t = orig.subrange(low as int, j + 1);
            assert(t.drop_last() =~= orig.subrange(low as int, j as int));
            assert(t.last() == orig[j as int]);
            let pv = orig[high as int];
            if orig[j as int].value() < pv.value() {
                assert(below(t, pv) == below(orig.subrange(low as int, j as int), pv).push(orig[j as int]));
            } else {
                assert(below(t, pv) == below(orig.subrange(low as int, j as int), pv));
            }
        }
        let ghost before = arr@;
        if arr[j].lt(&arr[high]) {
            proof {
                lemma_swap_ms(arr@, i as int, j as int, low as int, high + 1);
            }
            swap(arr, i, j);
            proof {
                assert(arr@.subrange(low as int, i + 1) =~= before.subrange(low as int, i as int).push(orig[j as int]));
            }
            i = i + 1;
        }
        j = j + 1;
    }
    let ghost before = arr@;
    proof {
        lemma_swap_ms(arr@, i as int, high as int, low as int, high + 1);
    }
    swap(arr, i, high);
    proof {
        assert(arr@.subrange(low as int, i as int) =~= before.subrange(low as int, i as int));
    }
    i
}

/// Sorts `arr[low..=high]` in place, leaving the rest as it was.
pub fn quicksort_recursive(arr: &mut Vec<FieldElement>, low: usize, high: usize)
    requires
        low < high ==> high < old(arr)@.len(),
    ensures
        low < high ==> same_outside(old(arr)@, final(arr)@, low as int, high + 1),
        low < high ==> range_ms(final(arr)@, low as int, high + 1) == range_ms(old(arr)@, low as int, high + 1),
        low < high ==> sorted_between(final(arr)@, low as int, high + 1),
        low >= high ==> final(arr)@ == old(arr)@,
    decreases high + 1 - low,
{
    if low < high {
        let ghost s0 = arr@;
        let pivot_index = partition(arr, low, high);
        let ghost s1 = arr@;
        let ghost pv = s1[pivot_index as int].value();
        if pivot_index > 0 {
            quicksort_recursive(arr, low, pivot_index - 1);
        }
        let ghost s2 = arr@;
        proof {
            if pivot_index > 0 && low < pivot_index - 1 {
                lemma_ms_bounds(s1, s2, low as int, pivot_index as int, pv as int);
                lemma_ms_widen(s1, s2, low as int, low as int, pivot_index as int, high + 1);
            } else {
                assert(s2 == s1);
            }
            assert(forall|k: int| low <= k < pivot_index ==> #[trigger] s2[k].value() < pv);
        }
        if pivot_index < high {
            quicksort_recursive(arr, pivot_index + 1, high);
        }
        let ghost s3 = arr@;
        proof {
            if pivot_index + 1 < high {
                lemma_ms_bounds(s2, s3, pivot_index + 1, high + 1, pv as int);
                lemma_ms_widen(s2, s3, low as int, pivot_index + 1, high + 1, high + 1);
            } else {
                assert(s3 == s2);
            }
            assert(forall|k: int| pivot_index < k <= high ==> pv <= #[trigger] s3[k].value());
            assert(forall|k: int| low <= k < pivot_index ==> #[trigger] s3[k].value() < pv);
            assert(s3[pivot_index as int].value() == pv);
            lemma_ms_widen(s0, s1, low as int, low as int, high + 1, high + 1);
        }
    }
}

/// Sorts the whole vector into ascending order.
pub fn quicksort(arr: &mut Vec<FieldElement>)
    ensures
        final(arr)@.to_multiset() == old(arr)@.to_multiset(),
        is_sorted(final(arr)@),
{
    if arr.len() > 1 {
        let n = arr.len();
        quicksort_recursive(arr, 0, n - 1);
        assert(arr@.subrange(0, n as int) =~= arr@);
        assert(old(arr)@.subrange(0, n as int) =~= old(arr)@);
    } else {
        assert(arr@.len() <= 1);
    }
}

/// Some position of `idx` holds `j`.
pub open spec fn taken(idx: Seq<usize>, j: int) -> bool {
    exists|i: int| 0 <= i < idx.len() && idx[i] == j
}

/// How many positions below `m` are marked in `mask` and hold `v` in `s`.
pub open spec fn claimed(s: Seq<FieldElement>, mask: Seq<bool>, v: FieldElement, m: int) -> nat
    decreases m,
{
    if m <= 0 {
        0
    } else {
        claimed(s, mask, v, m - 1) + if mask[m - 1] && s[m - 1] == v {
            1nat
        } else {
            0nat
        }
    }
}

/// Where every occurrence of `v` below `m` is marked, all of them are counted.
proof fn lemma_claimed_all(s: Seq<FieldElement>, mask: Seq<bool>, v: FieldElement, m: int)
    requires
        0 <= m <= s.len(),
        m <= mask.len(),
        forall|j: int| 0 <= j < m && s[j] == v ==> #[trigger] mask[j],
    ensures
        claimed(s, mask, v, m) == s.subrange(0, m).to_multiset().count(v),
    decreases m,
{
    if m > 0 {
        lemma_claimed_all(s, mask, v, m - 1);
        assert(s.subrange(0, m) =~= s.subrange(0, m - 1).push(s[m - 1]));
    } else {
        assert(s.subrange(0, m) =~= Seq::<FieldElement>::empty());
    }
}

/// Where all occurrences of `v` below `m` are counted, all of them are marked.
proof fn lemma_claimed_full(s: Seq<FieldElement>, mask: Seq<bool>, v: FieldElement, m: int)
    requires
        0 <= m <= s.len(),
        m <= mask.len(),
    ensures
        claimed(s, mask, v, m) <= s.subrange(0, m).to_multiset().count(v),
        claimed(s, mask, v, m) == s.subrange(0, m).to_multiset().count(v) ==> forall|j: int|
            0 <= j < m && s[j] == v ==> #[trigger] mask[j],
    decreases m,
{
    if m > 0 {
        lemma_claimed_full(s, mask, v, m - 1);
        assert(s.subrange(0, m) =~= s.subrange(0, m - 1).push(s[m - 1]));
    } else {
        assert(s.subrange(0, m) =~= Seq::<FieldElement>::empty());
    }
}

/// With nothing marked, nothing is counted.
proof fn lemma_claimed_none(s: Seq<FieldElement>, mask: Seq<bool>, v: FieldElement, m: int)
    requires
        m <= mask.len(),
        forall|j: int| 0 <= j < m ==> !#[trigger] mask[j],
    ensures
        claimed(s, mask, v, m) == 0,
    decreases m,
{
    if m > 0 {
        lemma_claimed_none(s, mask, v, m - 1);
    }
}

/// Marking one more position counts it once, for its own value only.
proof fn lemma_claimed_mark(
    s: Seq<FieldElement>,
    mask: Seq<bool>,
    j: int,
    w: FieldElement,
    m: int,
)
    requires
        0 <= m <= s.len(),
        s.len() == mask.len(),
        0 <= j < s.len(),
        !mask[j],
    ensures
        claimed(s, mask.update(j, true), w, m) == claimed(s, mask, w, m) + if j < m && s[j] == w {
            1nat
        } else {
            0nat
        },
    decreases m,
{
    if m > 0 {
        lemma_claimed_mark(s, mask, j, w, m - 1);
    }
}

/// For each position `i` of `lhs`, the position of `rhs` that takes its key:
/// the first position holding an equal key that no earlier position took.
pub fn get_shuffle_indices(lhs: &[FieldElement], rhs: &[FieldElement]) -> (r: Vec<usize>)
    requires
        lhs@.len() == rhs@.len(),
        lhs@.to_multiset() == rhs@.to_multiset(),
    ensures
        r@.len() == lhs@.len(),
        forall|i: int| 0 <= i < lhs@.len() ==> (#[trigger] r@[i] as int) < rhs@.len() && rhs@[r@[i] as int] == lhs@[i],
        forall|i1: int, i2: int|
            0 <= i1 < lhs@.len() && 0 <= i2 < lhs@.len() && i1 != i2 ==> #[trigger] r@[i1] != #[trigger] r@[i2],
        forall|i1: int, i2: int|
            0 <= i1 < i2 < lhs@.len() && lhs@[i1] == lhs@[i2] ==> #[trigger] r@[i1] < #[trigger] r@[i2],
        forall|j: int| 0 <= j < rhs@.len() ==> #[trigger] taken(r@, j),
{
    let n = lhs.len();
    let mut shuffle_indices: Vec<usize> = vec![0usize; n];
    let mut shuffle_mask: Vec<bool> = vec![false; n];
    let mut i: usize = 0;
    proof {
        assert forall|w: FieldElement| #[trigger] claimed(rhs@, shuffle_mask@, w, n as int) == lhs@.subrange(0, 0).to_multiset().count(w) by {
            lemma_claimed_none(rhs@, shuffle_mask@, w, n as int);
            assert(lhs@.subrange(0, 0) =~= Seq::<FieldElement>::empty());
        }
    }
    while i < n
        invariant
            n == lhs@.len(),
            n == rhs@.len(),
            lhs@.to_multiset() == rhs@.to_multiset(),
            i <= n,
            shuffle_indices@.len() == n,
            shuffle_mask@.len() == n,
            forall|w: FieldElement| #[trigger] claimed(rhs@, shuffle_mask@, w, n as int) == lhs@.subrange(0, i as int).to_multiset().count(w),
            forall|i1: int| 0 <= i1 < i ==> (#[trigger] shuffle_indices@[i1] as int) < n
                && shuffle_mask@[shuffle_indices@[i1] as int]
                && rhs@[shuffle_indices@[i1] as int] == lhs@[i1],
            forall|i1: int, i2: int|
                0 <= i1 < i && 0 <= i2 < i && i1 != i2 ==> #[trigger] shuffle_indices@[i1] != #[trigger] shuffle_indices@[i2],
            forall|i1: int, i2: int|
                0 <= i1 < i2 < i && lhs@[i1] == lhs@[i2] ==> #[trigger] shuffle_indices@[i1] < #[trigger] shuffle_indices@[i2],
            forall|j1: int, j2: int|
                0 <= j1 < j2 < n && rhs@[j1] == rhs@[j2] && #[trigger] shuffle_mask@[j2] ==> #[trigger] shuffle_mask@[j1],
            forall|j: int| 0 <= j < n && #[trigger] shuffle_mask@[j] ==> exists|i1: int| 0 <= i1 < i && shuffle_indices@[i1] == j,
        decreases n - i,
    {
        let ghost mask0 = shuffle_mask@;
        let ghost idx0 = shuffle_indices@;
        let ghost v = lhs@[i as int];
        let ghost mut chosen: int = 0;
        let mut found = false;
        let mut j: usize = 0;
        while j < n
            invariant
                n == lhs@.len(),
                n == rhs@.len(),
                i < n,
                j <= n,
                v == lhs@[i as int],
                mask0.len() == n,
                idx0.len() == n,
                !found ==> shuffle_mask@ == mask0 && shuffle_indices@ == idx0,
                !found ==> forall|j1: int| 0 <= j1 < j ==> #[trigger] mask0[j1] || rhs@[j1] != v,
                found ==> 0 <= chosen < j && !mask0[chosen] && rhs@[chosen] == v,
                found ==> shuffle_mask@ == mask0.update(chosen, true),
                found ==> shuffle_indices@ == idx0.update(i as int, chosen as usize),
                found ==> forall|j1: int| 0 <= j1 < chosen ==> #[trigger] mask0[j1] || rhs@[j1] != v,
            decreases n - j,
        {
            if !shuffle_mask[j] && !found && lhs[i] == rhs[j] {
                found = true;
                shuffle_indices.set(i, j);
                shuffle_mask.set(j, true);
                proof {
                    chosen = j as int;
                }
            }
            j = j + 1;
        }
        proof {
            let pre = lhs@.subrange(0, i as int);
            assert(lhs@.subrange(0, i + 1) =~= pre.push(v));
            if !found {
                lemma_claimed_all(rhs@, mask0, v, n as int);
                assert(rhs@.subrange(0, n as int) =~= rhs@);
                assert(lhs@ =~= lhs@.subrange(0, i + 1) + lhs@.subrange(i + 1, n as int));
                vstd::seq_lib::lemma_multiset_commutative(lhs@.subrange(0, i + 1), lhs@.subrange(i + 1, n as int));
                assert(false);
            }
            assert forall|w: FieldElement| #[trigger] claimed(rhs@, shuffle_mask@, w, n as int) == lhs@.subrange(0, i + 1).to_multiset().count(w) by {
                lemma_claimed_mark(rhs@, mask0, chosen, w, n as int);
            }
            assert forall|j2: int| 0 <= j2 < n && #[trigger] shuffle_mask@[j2] implies exists|i1: int| 0 <= i1 < i + 1 && shuffle_indices@[i1] == j2 by {
                if j2 == chosen {
                    assert(shuffle_indices@[i as int] == j2);
                } else {
                    assert(mask0[j2]);
                    let i1 = choose|i1: int| 0 <= i1 < i && idx0[i1] == j2;
                    assert(shuffle_indices@[i1] == j2);
                }
            }
            assert forall|i1: int, i2: int|
                0 <= i1 < i2 < i + 1 && lhs@[i1] == lhs@[i2] implies #[trigger] shuffle_indices@[i1] < #[trigger] shuffle_indices@[i2] by {
                if i2 == i {
                    assert(mask0[idx0[i1] as int]);
                    if chosen < idx0[i1] as int {
                        assert(rhs@[chosen] == rhs@[idx0[i1] as int]);
                    }
                }
            }
        }
        i = i + 1;
    }
    proof {
        assert(lhs@.subrange(0, n as int) =~= lhs@);
        assert(rhs@.subrange(0, n as int) =~= rhs@);
        assert forall|j: int| 0 <= j < n implies #[trigger] taken(shuffle_indices@, j) by {
            let w = rhs@[j];
            lemma_claimed_full(rhs@, shuffle_mask@, w, n as int);
            assert(claimed(rhs@, shuffle_mask@, w, n as int) == lhs@.subrange(0, n as int).to_multiset().count(w));
            assert(claimed(rhs@, shuffle_mask@, w, n as int) == rhs@.subrange(0, n as int).to_multiset().count(w));
            assert(shuffle_mask@[j]);
            let i1 = choose|i1: int| 0 <= i1 < n && shuffle_indices@[i1] == j;
            assert(shuffle_indices@[i1] == j);
        }
    }
    shuffle_indices
}

/// Keys in ascending order, and where each input position went.
pub struct SortResult {
    pub sorted: Vec<FieldElement>,
    pub sort_indices: Vec<usize>,
}

/// `idx` places each position of `input` at a position of `sorted` holding
/// the same key, one to one, and keeps equal keys in their input order.
pub open spec fn is_placement(input: Seq<FieldElement>, sorted: Seq<FieldElement>, idx: Seq<usize>) -> bool {
    &&& idx.len() == input.len()
    &&& sorted.len() == input.len()
    &&& forall|i: int| 0 <= i < input.len() ==> (#[trigger] idx[i] as int) < sorted.len() && sorted[idx[i] as int] == input[i]
    &&& forall|i1: int, i2: int|
        0 <= i1 < input.len() && 0 <= i2 < input.len() && i1 != i2 ==> #[trigger] idx[i1] != #[trigger] idx[i2]
    &&& forall|i1: int, i2: int|
        0 <= i1 < i2 < input.len() && input[i1] == input[i2] ==> #[trigger] idx[i1] < #[trigger] idx[i2]
    &&& forall|j: int| 0 <= j < sorted.len() ==> #[trigger] taken(idx, j)
}

/// Sorts the keys and records where each of them went.
pub fn sort_advanced(input: &[FieldElement]) -> (r: SortResult)
    ensures
        r.sorted@.to_multiset() == input@.to_multiset(),
        is_sorted(r.sorted@),
        is_placement(input@, r.sorted@, r.sort_indices@),
{
    let mut sorted = vstd::slice::slice_to_vec(input);
    quicksort(&mut sorted);
    proof {
        assert(sorted@.to_multiset().len() == sorted@.len());
        assert(input@.to_multiset().len() == input@.len());
    }
    let sort_indices = get_shuffle_indices(input, sorted.as_slice());
    SortResult { sorted, sort_indices }
}

} // verus!
