//! In-place comparison sorts over slices.
use crate::order::{le, lemma_total_order, lt, sorted, total_order};
use vstd::prelude::*;

verus! {

broadcast use vstd::seq_lib::group_to_multiset_ensures;

/// Relies on `<[T]>::swap`: the two elements trade places, and it panics
/// unless both indices are in bounds.
pub assume_specification<S>[ <[S]>::swap ](s: &mut [S], a: usize, b: usize)
    requires
        a < old(s)@.len(),
        b < old(s)@.len(),
    ensures
        final(s)@ == old(s)@.update(a as int, old(s)@[b as int]).update(b as int, old(s)@[a as int]),
;

/// Trading two elements keeps the multiset of the sequence.
pub proof fn lemma_swap_multiset<T>(s: Seq<T>, a: int, b: int)
    requires
        0 <= a < s.len(),
        0 <= b < s.len(),
    ensures
        s.update(a, s[b]).update(b, s[a]).to_multiset() == s.to_multiset(),
{
    let s1 = s.update(a, s[b]);
    if a == b {
        assert(s1 =~= s);
        assert(s1.update(b, s[a]) =~= s);
    } else {
        assert(s1[b] == s[b]);
        assert(s1.update(b, s[a]).to_multiset() =~= s.to_multiset());
    }
}

/// Sorts `data` in place by repeatedly swapping the least element of the
/// unsorted suffix to its front.
#[verifier::loop_isolation(false)]
pub fn selection_sort<T: Ord>(data: &mut [T])
    requires
        total_order::<T>(),
    ensures
        sorted(final(data)@),
        final(data)@.to_multiset() == old(data)@.to_multiset(),
{
    proof {
        lemma_total_order::<T>();
    }
    let n = data.len();
    let mut i: usize = 0;
    while i < n
        invariant
            n == data@.len(),
            i <= n,
            data@.to_multiset() == old(data)@.to_multiset(),
            forall|a: int, b: int| 0 <= a < b < i ==> le(#[trigger] data@[a], #[trigger] data@[b]),
            forall|a: int, b: int| 0 <= a < i <= b < n ==> le(#[trigger] data@[a], #[trigger] data@[b]),
        decreases n - i,
    {
        let mut j: usize = i;
        let mut min: usize = i;
        while j < n
            invariant
                n == data@.len(),
                i <= min < n,
                i <= j <= n,
                forall|k: int| i <= k < j ==> le(data@[min as int], #[trigger] data@[k]),
            decreases n - j,
        {
            if data[j] < data[min] {
                proof {
                    assert forall|k: int| i <= k < j implies le(data@[j as int], #[trigger] data@[k]) by {
                        if lt(data@[k], data@[j as int]) {
                            assert(lt(data@[k], data@[min as int]));
                        }
                    }
                }
                min = j;
            }
            j += 1;
        }
        proof {
            lemma_swap_multiset(data@, i as int, min as int);
        }
        data.swap(i, min);
        i += 1;
    }
}

/// Sorts `data` in place by moving each element left, through adjacent
/// swaps, past the larger elements before it.
#[verifier::loop_isolation(false)]
pub fn insertion_sort<T: Ord>(data: &mut [T])
    requires
        total_order::<T>(),
    ensures
        sorted(final(data)@),
        final(data)@.to_multiset() == old(data)@.to_multiset(),
{
    proof {
        lemma_total_order::<T>();
    }
    let n = data.len();
    if n == 0 {
        return;
    }
    let mut i: usize = 1;
    while i < n
        invariant
            n == data@.len(),
            1 <= i <= n,
            data@.to_multiset() == old(data)@.to_multiset(),
            forall|a: int, b: int| 0 <= a < b < i ==> le(#[trigger] data@[a], #[trigger] data@[b]),
        decreases n - i,
    {
        let mut j: usize = i;
        while j > 0 && data[j - 1] > data[j]
            invariant
                n == data@.len(),
                1 <= i < n,
                j <= i,
                data@.to_multiset() == old(data)@.to_multiset(),
                forall|a: int, b: int|
                    0 <= a < b <= i && a != j && b != j ==> le(#[trigger] data@[a], #[trigger] data@[b]),
                forall|k: int| j < k <= i ==> lt(data@[j as int], #[trigger] data@[k]),
            decreases j,
        {
            proof {
                lemma_swap_multiset(data@, j as int, (j - 1) as int);
            }
            data.swap(j, j - 1);
            j -= 1;
        }
        proof {
            assert forall|a: int, b: int| 0 <= a < b <= i implies le(#[trigger] data@[a], #[trigger] data@[b]) by {
                if b == j && a < j - 1 {
                    assert(le(data@[a], data@[j - 1]));
                }
            }
        }
        i += 1;
    }
}

/// Index of the parent of heap node `k`.
pub open spec fn parent_of(k: int) -> int {
    (k - 1) / 2
}

/// Every node of the heap window `[start, end]` whose parent also lies in the
/// window orders before or equals that parent.
pub open spec fn heap_ordered<T: Ord>(s: Seq<T>, start: int, end: int) -> bool {
    forall|k: int|
        start < k <= end && start <= parent_of(k) ==> le(#[trigger] s[k], s[parent_of(k)])
}

fn parent(index: usize) -> (r: usize)
    requires
        index >= 1,
    ensures
        r == parent_of(index as int),
{
    (index - 1) / 2
}

fn left_child(index: usize) -> (r: usize)
    requires
        2 * index + 1 <= usize::MAX,
    ensures
        r == 2 * index + 1,
{
    2 * index + 1
}

fn right_child(index: usize) -> (r: usize)
    requires
        2 * index + 2 <= usize::MAX,
    ensures
        r == 2 * index + 2,
{
    2 * index + 2
}

/// The root of a heap orders after or equals every node of it.
proof fn lemma_heap_root_max<T: Ord>(s: Seq<T>, end: int, k: int)
    requires
        total_order::<T>(),
        heap_ordered(s, 0, end),
        0 <= k <= end < s.len(),
    ensures
        le(s[k], s[0]),
    decreases k,
{
    lemma_total_order::<T>();
    if k > 0 {
        lemma_heap_root_max(s, end, parent_of(k));
    }
}

/// Moves `data[start]` down the heap window `[start, end]` until it orders
/// after or equals its children, restoring the heap order there.
#[verifier::loop_isolation(false)]
fn sift_down<T: Ord>(data: &mut [T], start: usize, end: usize)
    requires
        total_order::<T>(),
        start <= end < old(data)@.len(),
        heap_ordered(old(data)@, start + 1, end as int),
    ensures
        final(data)@.len() == old(data)@.len(),
        final(data)@.to_multiset() == old(data)@.to_multiset(),
        heap_ordered(final(data)@, start as int, end as int),
        forall|m: int|
            0 <= m < final(data)@.len() && !(start <= m <= end) ==> final(data)@[m] == old(data)@[m],
        (forall|k: int, m: int|
            start <= k <= end < m < old(data)@.len() ==> le(#[trigger] old(data)@[k], #[trigger] old(data)@[m]))
            ==> (forall|k: int, m: int|
            start <= k <= end < m < old(data)@.len() ==> le(#[trigger] final(data)@[k], #[trigger] final(data)@[m])),
{
    proof {
        lemma_total_order::<T>();
    }
    let ghost bounded = forall|k: int, m: int|
        start <= k <= end < m < old(data)@.len() ==> le(#[trigger] old(data)@[k], #[trigger] old(data)@[m]);
    let n = data.len();
    let mut root = start;
    while end > 0 && root <= (end - 1) / 2
        invariant
            start <= root <= end < n,
            n == data@.len(),
            data@.len() == old(data)@.len(),
            data@.to_multiset() == old(data)@.to_multiset(),
            forall|k: int|
                start < k <= end && start <= parent_of(k) && parent_of(k) != root
                    ==> le(#[trigger] data@[k], data@[parent_of(k)]),
            root > start ==> start <= parent_of(root as int),
            root > start ==> forall|k: int|
                start < k <= end && parent_of(k) == root
                    ==> le(#[trigger] data@[k], data@[parent_of(root as int)]),
            forall|m: int| 0 <= m < data@.len() && !(start <= m <= end) ==> data@[m] == old(data)@[m],
            bounded ==> forall|k: int, m: int|
                start <= k <= end < m < data@.len() ==> le(#[trigger] data@[k], #[trigger] data@[m]),
        decreases end - root,
    {
        let left_index = left_child(root);
        let right_index = right_child(root);
        let mut swap_candidate = root;

        if data[left_index] > data[swap_candidate] {
            swap_candidate = left_index;
        }

        if right_index <= end && data[right_index] > data[swap_candidate] {
            swap_candidate = right_index;
        }

        if swap_candidate == root {
            break;
        }

        proof {
            lemma_swap_multiset(data@, root as int, swap_candidate as int);
        }
        data.swap(root, swap_candidate);
        root = swap_candidate;
    }
}

/// Arranges `data` as a max-heap, sifting down from the last parent to the root.
#[verifier::loop_isolation(false)]
fn heapify<T: Ord>(data: &mut [T])
    requires
        total_order::<T>(),
        old(data)@.len() >= 2,
    ensures
        final(data)@.len() == old(data)@.len(),
        final(data)@.to_multiset() == old(data)@.to_multiset(),
        heap_ordered(final(data)@, 0, final(data)@.len() - 1),
{
    let data_len = data.len();
    let parents_len = parent(data_len - 1) + 1;
    let mut index = parents_len;
    while index > 0
        invariant
            data@.len() == data_len,
            index <= parents_len,
            parents_len == parent_of(data_len - 1) + 1,
            data@.to_multiset() == old(data)@.to_multiset(),
            heap_ordered(data@, index as int, data_len - 1),
        decreases index,
    {
        index -= 1;
        sift_down(data, index, data_len - 1);
    }
}

/// Sorts `data` in place: builds a max-heap, then repeatedly moves its root
/// to the end of the shrinking heap window.
#[verifier::loop_isolation(false)]
#[verifier::rlimit(40)]
pub fn heap_sort<T: Ord>(data: &mut [T])
    requires
        total_order::<T>(),
    ensures
        sorted(final(data)@),
        final(data)@.to_multiset() == old(data)@.to_multiset(),
{
    proof {
        lemma_total_order::<T>();
    }
    let n = data.len();
    if n <= 1 {
        return;
    }
    heapify(data);
    let mut index: usize = n - 1;
    while index > 0
        invariant
            data@.len() == n,
            index < n,
            data@.to_multiset() == old(data)@.to_multiset(),
            heap_ordered(data@, 0, index as int),
            forall|a: int, b: int| index < a < b < n ==> le(#[trigger] data@[a], #[trigger] data@[b]),
            forall|k: int, m: int| 0 <= k <= index < m < n ==> le(#[trigger] data@[k], #[trigger] data@[m]),
        decreases index,
    {
        let ghost d0 = data@;
        proof {
            assert forall|k: int| 0 <= k <= index implies le(#[trigger] d0[k], d0[0]) by {
                lemma_heap_root_max(d0, index as int, k);
            }
            lemma_swap_multiset(d0, index as int, 0);
        }
        data.swap(index, 0);
        let ghost d1 = data@;
        proof {
            assert(heap_ordered(d1, 1, index - 1));
            assert forall|k: int, m: int| 0 <= k <= index - 1 < m < n implies le(#[trigger] d1[k], #[trigger] d1[m]) by {
                if k == 0 {
                    assert(d1[k] == d0[index as int]);
                } else {
                    assert(d1[k] == d0[k]);
                }
                if m == index {
                    assert(d1[m] == d0[0]);
                } else {
                    assert(d1[m] == d0[m]);
                }
            }
        }
        sift_down(data, 0, index - 1);
        proof {
            assert forall|a: int, b: int| index - 1 < a < b < n implies le(#[trigger] data@[a], #[trigger] data@[b]) by {
                assert(data@[a] == d1[a]);
                assert(data@[b] == d1[b]);
            }
        }
        index -= 1;
    }
}

/// Sorts `data[low..=high]` in place, using `auxiliary[low..=high]` as scratch
/// space for each merge.
#[verifier::loop_isolation(false)]
#[verifier::rlimit(40)]
fn merge_sort_range<T: Ord + Copy>(auxiliary: &mut Vec<T>, data: &mut [T], low: usize, high: usize)
    requires
        total_order::<T>(),
        low <= high < old(data)@.len(),
        old(auxiliary)@.len() == old(data)@.len(),
    ensures
        final(data)@.len() == old(data)@.len(),
        final(auxiliary)@.len() == old(auxiliary)@.len(),
        final(data)@.subrange(low as int, high + 1).to_multiset()
            == old(data)@.subrange(low as int, high + 1).to_multiset(),
        forall|m: int|
            0 <= m < final(data)@.len() && !(low <= m <= high) ==> final(data)@[m] == old(data)@[m],
        forall|a: int, b: int| low <= a < b <= high ==> le(#[trigger] final(data)@[a], #[trigger] final(data)@[b]),
    decreases high - low,
{
    proof {
        lemma_total_order::<T>();
    }
    if low < high {
        let n = data.len();
        let size = high - low;
        let mid_point = low + size / 2;

        merge_sort_range(auxiliary, data, low, mid_point);
        let ghost d1 = data@;
        merge_sort_range(auxiliary, data, mid_point + 1, high);
        let ghost d2 = data@;
        proof {
            assert(d1.subrange(low as int, high + 1) =~= d1.subrange(low as int, mid_point + 1) + d1.subrange(mid_point + 1, high + 1));
            assert(d2.subrange(low as int, high + 1) =~= d2.subrange(low as int, mid_point + 1) + d2.subrange(mid_point + 1, high + 1));
            assert(old(data)@.subrange(low as int, high + 1) =~= old(data)@.subrange(low as int, mid_point + 1) + old(data)@.subrange(mid_point + 1, high + 1));
            assert(d2.subrange(low as int, mid_point + 1) =~= d1.subrange(low as int, mid_point + 1));
            assert(d1.subrange(mid_point + 1, high + 1) =~= old(data)@.subrange(mid_point + 1, high + 1));
            vstd::seq_lib::lemma_multiset_commutative(d1.subrange(low as int, mid_point + 1), d1.subrange(mid_point + 1, high + 1));
            vstd::seq_lib::lemma_multiset_commutative(d2.subrange(low as int, mid_point + 1), d2.subrange(mid_point + 1, high + 1));
            vstd::seq_lib::lemma_multiset_commutative(old(data)@.subrange(low as int, mid_point + 1), old(data)@.subrange(mid_point + 1, high + 1));
        }

        let mut copy_index = low;
        while copy_index <= high
            invariant
                low <= copy_index <= high + 1,
                high < n,
                data@ == d2,
                auxiliary@.len() == n,
                forall|k: int| low <= k < copy_index ==> auxiliary@[k] == d2[k],
            decreases high + 1 - copy_index,
        {
            auxiliary.set(copy_index, data[copy_index]);
            copy_index += 1;
        }
        let ghost a0 = auxiliary@;
        proof {
            assert(a0.subrange(low as int, high + 1) =~= d2.subrange(low as int, high + 1));
            assert(a0.subrange(low as int, high + 1) =~= a0.subrange(low as int, mid_point + 1) + a0.subrange(mid_point + 1, high + 1));
            vstd::seq_lib::lemma_multiset_commutative(a0.subrange(low as int, mid_point + 1), a0.subrange(mid_point + 1, high + 1));
            assert forall|a: int, b: int| low <= a < b <= mid_point implies le(#[trigger] a0[a], #[trigger] a0[b]) by {
                assert(a0[a] == d1[a] && a0[b] == d1[b]);
            }
            assert forall|a: int, b: int| mid_point < a < b <= high implies le(#[trigger] a0[a], #[trigger] a0[b]) by {
                assert(a0[a] == d2[a] && a0[b] == d2[b]);
            }
        }

        let mut sorted_index = low;
        let mut left_index = low;
        let mut right_index = mid_point + 1;

        while sorted_index <= high
            invariant
                low <= left_index <= mid_point + 1,
                mid_point + 1 <= right_index <= high + 1,
                mid_point < high < n,
                sorted_index == left_index + right_index - (mid_point + 1),
                data@.len() == n,
                auxiliary@ == a0,
                forall|m: int| 0 <= m < n && !(low <= m <= high) ==> data@[m] == d2[m],
                data@.subrange(low as int, sorted_index as int).to_multiset()
                    == a0.subrange(low as int, left_index as int).to_multiset().add(
                    a0.subrange(mid_point + 1, right_index as int).to_multiset()),
                forall|a: int, b: int| low <= a < b < sorted_index ==> le(#[trigger] data@[a], #[trigger] data@[b]),
                forall|a: int, b: int| low <= a < b <= mid_point ==> le(#[trigger] a0[a], #[trigger] a0[b]),
                forall|a: int, b: int| mid_point < a < b <= high ==> le(#[trigger] a0[a], #[trigger] a0[b]),
                sorted_index > low && left_index <= mid_point ==> le(data@[sorted_index - 1], a0[left_index as int]),
                sorted_index > low && right_index <= high ==> le(data@[sorted_index - 1], a0[right_index as int]),
            decreases high + 1 - sorted_index,
        {
            let ghost prev = data@;
            if left_index > mid_point || right_index <= high && auxiliary[right_index] < auxiliary[left_index] {
                data[sorted_index] = auxiliary[right_index];
                proof {
                    assert(a0.subrange(mid_point + 1, right_index + 1) =~= a0.subrange(mid_point + 1, right_index as int).push(a0[right_index as int]));
                }
                proof {
                    if right_index + 1 <= high {
                        assert(le(a0[right_index as int], a0[right_index + 1]));
                    }
                }
                right_index += 1;
            } else {
                data[sorted_index] = auxiliary[left_index];
                proof {
                    assert(a0.subrange(low as int, left_index + 1) =~= a0.subrange(low as int, left_index as int).push(a0[left_index as int]));
                }
                proof {
                    if left_index + 1 <= mid_point {
                        assert(le(a0[left_index as int], a0[left_index + 1]));
                    }
                }
                left_index += 1;
            }
            proof {
                assert(data@.subrange(low as int, sorted_index + 1) =~= prev.subrange(low as int, sorted_index as int).push(data@[sorted_index as int]));
                assert forall|a: int, b: int| low <= a < b < sorted_index + 1 implies le(#[trigger] data@[a], #[trigger] data@[b]) by {
                    if b == sorted_index && a < sorted_index - 1 {
                        assert(le(data@[a], data@[sorted_index - 1]));
                    }
                }
            }
            sorted_index += 1;
        }
        proof {
            assert(data@.subrange(low as int, high + 1) =~= data@.subrange(low as int, sorted_index as int));
        }
    }
}

/// Sorts `data` in place by recursive halving and stable merging through one
/// auxiliary buffer.
pub fn merge_sort<T: Ord + Copy>(data: &mut [T])
    requires
        total_order::<T>(),
    ensures
        sorted(final(data)@),
        final(data)@.to_multiset() == old(data)@.to_multiset(),
{
    if data.len() > 0 {
        let mut auxiliary_buffer = vec![data[0]; data.len()];
        let high_index = data.len() - 1;
        merge_sort_range(&mut auxiliary_buffer, data, 0, high_index);
        proof {
            assert(data@.subrange(0, high_index + 1) =~= data@);
            assert(old(data)@.subrange(0, high_index + 1) =~= old(data)@);
        }
    }
}

/// Sorting a sequence of at most one element leaves it as it was: the only
/// rearrangement with the same multiset is the sequence itself.
pub proof fn lemma_short_sort_is_identity<T>(before: Seq<T>, after: Seq<T>)
    requires
        before.len() <= 1,
        after.to_multiset() == before.to_multiset(),
    ensures
        after == before,
{
    assert(after.to_multiset().len() == after.len());
    assert(before.to_multiset().len() == before.len());
    if before.len() == 1 {
        assert(before.to_multiset().count(before[0]) > 0) by {
            assert(before.contains(before[0]));
        }
        assert(after.contains(before[0]));
        assert(after[0] == before[0]);
        assert(after =~= before);
    } else {
        assert(after =~= before);
    }
}

} // verus!
