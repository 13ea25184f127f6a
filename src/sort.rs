use vstd::prelude::*;
use vstd::multiset::{Multiset, group_multiset_axioms};
use vstd::seq_lib::{lemma_multiset_commutative, to_multiset_build};
use crate::heap::heap_sort_vec;
use crate::order::{
    Elements, SortKey, is_permutation, is_sorted, keeps_equal_order, same_outside, sorted_between,
    with_key,
};
use crate::perm::{
    lemma_key_order_within, lemma_permutation_keys_above, lemma_permutation_members, lemma_permutation_keys_at_most,
    lemma_permutes_within, lemma_swap_permutes, lemma_with_key_add, lemma_with_key_none,
    lemma_with_key_push, swapped,
};

verus! {

/// Exchanges the values at `i` and `j`.
fn swap_at<T: SortKey>(s: &mut [T], i: usize, j: usize)
    requires
        i < old(s)@.len(),
        j < old(s)@.len(),
    ensures
        final(s)@ == swapped(old(s)@, i as int, j as int),
{
    let a = s[i];
    let b = s[j];
    s[i] = b;
    s[j] = a;
}

/// Rearranges `[left, right]` around the value at its middle index: on return
/// that value stands at the returned index, with keys no greater to its left and
/// keys greater to its right.
fn partition<T: SortKey>(s: &mut [T], left: usize, right: usize) -> (p: usize)
    requires
        left < right < old(s)@.len(),
    ensures
        left <= p <= right,
        same_outside(old(s)@, final(s)@, left as int, right + 1),
        final(s)@.subrange(left as int, right + 1).to_multiset()
            == old(s)@.subrange(left as int, right + 1).to_multiset(),
        final(s)@[p as int] == old(s)@[left + (right - left) / 2],
        forall|i: int| left <= i < p ==> #[trigger] final(s)@[i].key() <= final(s)@[p as int].key(),
        forall|i: int| p < i <= right ==> #[trigger] final(s)@[i].key() > final(s)@[p as int].key(),
{
    let ghost s0 = s@;
    let mid = left + (right - left) / 2;
    let pivot = s[mid];
    let ghost pk = pivot.key();
    let mut pivot_index = mid;
    let mut left_now = left;
    let mut right_now = right;
    loop
        invariant_except_break
            left <= left_now <= right,
            left <= pivot_index <= right_now <= right,
            left_now <= right_now + 1,
            s@[pivot_index as int] == pivot,
            forall|i: int| left <= i < left_now ==> #[trigger] s@[i].key() <= pk,
            forall|i: int| right_now < i <= right ==> #[trigger] s@[i].key() > pk,
        invariant
            left < right < s@.len(),
            pivot == s0[left + (right - left) / 2],
            pk == pivot.key(),
            same_outside(s0, s@, left as int, right + 1),
            s@.subrange(left as int, right + 1).to_multiset() == s0.subrange(left as int, right + 1).to_multiset(),
        ensures
            left <= pivot_index <= right,
            s@[pivot_index as int] == pivot,
            forall|i: int| left <= i < pivot_index ==> #[trigger] s@[i].key() <= pk,
            forall|i: int| pivot_index < i <= right ==> #[trigger] s@[i].key() > pk,
        decreases right_now + 2 - left_now,
    {
        while left_now < right && s[left_now].key_le(&pivot)
            invariant
                left < right < s@.len(),
                left <= left_now <= right,
                left_now <= right_now + 1,
                right_now <= right,
                pk == pivot.key(),
                forall|i: int| left <= i < left_now ==> #[trigger] s@[i].key() <= pk,
                forall|i: int| right_now < i <= right ==> #[trigger] s@[i].key() > pk,
            decreases right - left_now,
        {
            left_now += 1;
        }
        if left_now == right && s[left_now].key_le(&pivot) {
            // every key of the range is at most the pivot's
            proof {
                lemma_swap_permutes(s@, left as int, right + 1, left_now as int, pivot_index as int);
            }
            swap_at(s, left_now, pivot_index);
            pivot_index = left_now;
            break;
        }
        while !s[right_now].key_le(&pivot)
            invariant
                left < right < s@.len(),
                left <= pivot_index <= right_now <= right,
                s@[pivot_index as int] == pivot,
                pk == pivot.key(),
                forall|i: int| right_now < i <= right ==> #[trigger] s@[i].key() > pk,
            decreases right_now,
        {
            right_now -= 1;
        }
        if left_now >= right_now {
            proof {
                lemma_swap_permutes(s@, left as int, right + 1, right_now as int, pivot_index as int);
            }
            swap_at(s, right_now, pivot_index);
            pivot_index = right_now;
            break;
        }
        if pivot_index == right_now {
            pivot_index = left_now;
        }
        proof {
            lemma_swap_permutes(s@, left as int, right + 1, left_now as int, right_now as int);
        }
        swap_at(s, left_now, right_now);
        left_now += 1;
        right_now -= 1;
    }
    pivot_index
}

/// Sorts the inclusive range `[left, right]` by quicksort; a range with
/// `right <= left` is left as it is.
fn quick_sort_range<T: SortKey>(s: &mut [T], left: usize, right: usize)
    requires
        left < right ==> right < old(s)@.len(),
    ensures
        right <= left ==> final(s)@ == old(s)@,
        left < right ==> same_outside(old(s)@, final(s)@, left as int, right + 1),
        left < right ==> sorted_between(final(s)@, left as int, right + 1),
        left < right ==> final(s)@.subrange(left as int, right + 1).to_multiset()
            == old(s)@.subrange(left as int, right + 1).to_multiset(),
    decreases right - left,
{
    if right <= left {
        return;
    }
    let ghost s0 = s@;
    let p = partition(s, left, right);
    let ghost s1 = s@;
    let ghost pk = s1[p as int].key();
    if left + 1 < p {
        quick_sort_range(s, left, p - 1);
    }
    let ghost s2 = s@;
    proof {
        if left + 1 < p {
            lemma_permutation_keys_at_most(
                s1.subrange(left as int, p as int),
                s2.subrange(left as int, p as int),
                pk,
            );
            lemma_permutes_within(s1, s2, left as int, left as int, p as int, right + 1);
            assert forall|i: int| left <= i < p implies #[trigger] s2[i].key() <= pk by {
                assert(s2[i] == s2.subrange(left as int, p as int)[i - left]);
            }
        } else {
            assert(s2.subrange(left as int, right + 1) == s1.subrange(left as int, right + 1));
        }
        assert forall|i: int| p <= i <= right implies #[trigger] s2[i] == s1[i] by {}
        assert(forall|i: int| p < i <= right ==> #[trigger] s2[i].key() > pk);
        assert(sorted_between(s2, left as int, p as int));
    }
    if right - p > 1 {
        quick_sort_range(s, p + 1, right);
    }
    let ghost s3 = s@;
    proof {
        if right - p > 1 {
            let lo = p + 1;
            assert forall|i: int| 0 <= i < s2.subrange(lo, right + 1).len() implies
                #[trigger] s2.subrange(lo, right + 1)[i].key() > pk by {
                assert(s2.subrange(lo, right + 1)[i] == s2[lo + i]);
            }
            lemma_permutation_keys_above(
                s2.subrange(lo, right + 1),
                s3.subrange(lo, right + 1),
                pk,
            );
            lemma_permutes_within(s2, s3, left as int, lo, right + 1, right + 1);
            assert forall|i: int| p < i <= right implies #[trigger] s3[i].key() > pk by {
                assert(s3[i] == s3.subrange(lo, right + 1)[i - lo]);
            }
        } else {
            assert(s3.subrange(left as int, right + 1) == s2.subrange(left as int, right + 1));
        }
        assert forall|i: int| left <= i <= p implies #[trigger] s3[i] == s2[i] by {}
        assert(forall|i: int| left <= i < p ==> #[trigger] s3[i].key() <= pk);
        assert(s3[p as int].key() == pk);
        assert(sorted_between(s3, left as int, p as int));
        assert(sorted_between(s3, p + 1, right + 1));
        assert(sorted_between(s3, left as int, right + 1));
    }
}

/// Merges the sorted runs `[left, mid]` and `[mid + 1, right]` into one sorted
/// run over `[left, right]`; of two values with equal keys the one from the
/// first run comes first.
fn merge_runs<T: SortKey>(s: &mut [T], left: usize, mid: usize, right: usize)
    requires
        left <= mid < right < old(s)@.len(),
        sorted_between(old(s)@, left as int, mid + 1),
        sorted_between(old(s)@, mid + 1, right + 1),
    ensures
        same_outside(old(s)@, final(s)@, left as int, right + 1),
        sorted_between(final(s)@, left as int, right + 1),
        final(s)@.subrange(left as int, right + 1).to_multiset()
            == old(s)@.subrange(left as int, right + 1).to_multiset(),
        keeps_equal_order(
            old(s)@.subrange(left as int, right + 1),
            final(s)@.subrange(left as int, right + 1),
        ),
        sorted_between(old(s)@, left as int, right + 1) ==> final(s)@ == old(s)@,
{
    let ghost s0 = s@;
    let last = right - left;
    let mut tmp: Vec<T> = Vec::new();
    let mut left_now = left;
    let mut right_now = mid + 1;
    let mut n: usize = 0;
    proof {
        broadcast use group_multiset_axioms;
        broadcast use vstd::seq_lib::to_multiset_len;

        assert(s0.subrange(left as int, left as int) =~= Seq::<T>::empty());
        assert(s0.subrange(mid + 1, mid + 1) =~= Seq::<T>::empty());
        assert(tmp@ =~= Seq::<T>::empty());
        assert forall|x: T| #[trigger] tmp@.to_multiset().count(x) == 0 by {
            vstd::seq_lib::to_multiset_contains(tmp@, x);
        }
        assert(tmp@.to_multiset() =~= Multiset::<T>::empty());
        assert forall|k: int| #[trigger] with_key(tmp@, k) == with_key(
            s0.subrange(left as int, left_now as int),
            k,
        ) + with_key(s0.subrange(mid + 1, right_now as int), k) by {
            lemma_with_key_none(tmp@, k);
            lemma_with_key_none(s0.subrange(mid + 1, right_now as int), k);
            assert(Seq::<T>::empty() + Seq::<T>::empty() =~= Seq::<T>::empty());
        }
    }
    while n <= last
        invariant
            s@ == s0,
            left <= mid < right < s@.len(),
            last == right - left,
            sorted_between(s0, left as int, mid + 1),
            sorted_between(s0, mid + 1, right + 1),
            left <= left_now <= mid + 1,
            mid + 1 <= right_now <= right + 1,
            n == (left_now - left) + (right_now - mid - 1),
            n <= last + 1,
            tmp@.len() == n,
            sorted_between(tmp@, 0, n as int),
            n > 0 && left_now <= mid ==> tmp@[n - 1].key() <= s0[left_now as int].key(),
            n > 0 && right_now <= right ==> tmp@[n - 1].key() <= s0[right_now as int].key(),
            right_now > mid + 1 && left_now <= mid ==> s0[left_now as int].key() > s0[right_now
                - 1].key(),
            tmp@.to_multiset() == s0.subrange(left as int, left_now as int).to_multiset().add(
                s0.subrange(mid + 1, right_now as int).to_multiset(),
            ),
            forall|k: int| #[trigger] with_key(tmp@, k) == with_key(
                s0.subrange(left as int, left_now as int),
                k,
            ) + with_key(s0.subrange(mid + 1, right_now as int), k),
            sorted_between(s0, left as int, right + 1) ==> tmp@ == s0.subrange(
                left as int,
                left + n,
            ) && (left_now <= mid ==> right_now == mid + 1),
        decreases last + 1 - n,
    {
        let ghost a = s0.subrange(left as int, left_now as int);
        let ghost b = s0.subrange(mid + 1, right_now as int);
        let ghost t0 = tmp@;
        let take_left = if left_now > mid {
            false
        } else if right_now > right {
            true
        } else {
            s[left_now].key_le(&s[right_now])
        };
        if take_left {
            let x = s[left_now];
            tmp.push(x);
            proof {
                if sorted_between(s0, left as int, right + 1) {
                    assert(tmp@ =~= s0.subrange(left as int, left + n + 1));
                }
                broadcast use group_multiset_axioms;

                assert(s0.subrange(left as int, left_now + 1) =~= a.push(x));
                to_multiset_build(a, x);
                to_multiset_build(t0, x);
                assert(tmp@.to_multiset() =~= a.push(x).to_multiset().add(b.to_multiset()));
                assert forall|k: int| #[trigger] with_key(tmp@, k) == with_key(a.push(x), k)
                    + with_key(b, k) by {
                    lemma_with_key_push(t0, x, k);
                    lemma_with_key_push(a, x, k);
                    if x.key() == k {
                        lemma_with_key_none(b, k);
                        assert(with_key(a, k).push(x) + Seq::<T>::empty() =~= (with_key(a, k)
                            + Seq::<T>::empty()).push(x));
                    }
                }
            }
            left_now += 1;
        } else {
            let x = s[right_now];
            tmp.push(x);
            proof {
                if sorted_between(s0, left as int, right + 1) {
                    assert(tmp@ =~= s0.subrange(left as int, left + n + 1));
                }
                broadcast use group_multiset_axioms;

                assert(s0.subrange(mid + 1, right_now + 1) =~= b.push(x));
                to_multiset_build(b, x);
                to_multiset_build(t0, x);
                assert(tmp@.to_multiset() =~= a.to_multiset().add(b.push(x).to_multiset()));
                assert forall|k: int| #[trigger] with_key(tmp@, k) == with_key(a, k) + with_key(
                    b.push(x),
                    k,
                ) by {
                    lemma_with_key_push(t0, x, k);
                    lemma_with_key_push(b, x, k);
                    if x.key() == k {
                        assert(with_key(a, k) + with_key(b, k).push(x) =~= (with_key(a, k)
                            + with_key(b, k)).push(x));
                    }
                }
            }
            right_now += 1;
        }
        n += 1;
    }
    let ghost merged = tmp@;
    proof {
        let a = s0.subrange(left as int, mid + 1);
        let b = s0.subrange(mid + 1, right + 1);
        assert(s0.subrange(left as int, right + 1) =~= a + b);
        lemma_multiset_commutative(a, b);
        assert forall|k: int| #[trigger] with_key(s0.subrange(left as int, right + 1), k)
            == with_key(merged, k) by {
            lemma_with_key_add(a, b, k);
        }
    }
    let mut i: usize = 0;
    while i <= last
        invariant
            tmp@ == merged,
            merged.len() == last + 1,
            last == right - left,
            right < s@.len(),
            s@.len() == s0.len(),
            i <= last + 1,
            forall|t: int| 0 <= t < i ==> #[trigger] s@[left + t] == merged[t],
            forall|t: int| 0 <= t < s@.len() && !(left <= t < left + i) ==> #[trigger] s@[t]
                == s0[t],
        decreases last + 1 - i,
    {
        s[left + i] = tmp[i];
        i += 1;
    }
    proof {
        assert forall|j: int| 0 <= j <= last implies #[trigger] s@.subrange(
            left as int,
            right + 1,
        )[j] == merged[j] by {
            assert(s@[left + j] == merged[j]);
        }
        assert(s@.subrange(left as int, right + 1) =~= merged);
        assert forall|t: int| left <= t <= right implies #[trigger] s@[t] == merged[t - left] by {
            assert(s@[left + (t - left)] == merged[t - left]);
        }
        assert(sorted_between(merged, 0, last + 1));
        if sorted_between(s0, left as int, right + 1) {
            assert(s@ =~= s0);
        }
    }
}

/// Sorts the inclusive range `[left, right]` by merge sort; a range with
/// `right <= left` is left as it is.
fn merge_sort_range<T: SortKey>(s: &mut [T], left: usize, right: usize)
    requires
        left < right ==> right < old(s)@.len(),
    ensures
        right <= left ==> final(s)@ == old(s)@,
        left < right ==> same_outside(old(s)@, final(s)@, left as int, right + 1),
        left < right ==> sorted_between(final(s)@, left as int, right + 1),
        left < right ==> final(s)@.subrange(left as int, right + 1).to_multiset()
            == old(s)@.subrange(left as int, right + 1).to_multiset(),
        left < right ==> keeps_equal_order(
            old(s)@.subrange(left as int, right + 1),
            final(s)@.subrange(left as int, right + 1),
        ),
        sorted_between(old(s)@, left as int, right + 1) ==> final(s)@ == old(s)@,
    decreases right - left,
{
    if left >= right {
        return;
    }
    let ghost s0 = s@;
    let mid = left + (right - left) / 2;
    merge_sort_range(s, left, mid);
    let ghost s1 = s@;
    proof {
        if mid <= left {
            assert(s1.subrange(left as int, mid + 1) =~= s0.subrange(left as int, mid + 1));
        }
        lemma_permutes_within(s0, s1, left as int, left as int, mid + 1, right + 1);
        lemma_key_order_within(s0, s1, left as int, left as int, mid + 1, right + 1);
    }
    merge_sort_range(s, mid + 1, right);
    let ghost s2 = s@;
    proof {
        if right <= mid + 1 {
            assert(s2.subrange(mid + 1, right + 1) =~= s1.subrange(mid + 1, right + 1));
        }
        lemma_permutes_within(s1, s2, left as int, mid + 1, right + 1, right + 1);
        lemma_key_order_within(s1, s2, left as int, mid + 1, right + 1, right + 1);
        assert forall|i: int| left <= i <= mid implies #[trigger] s2[i] == s1[i] by {}
        assert(sorted_between(s1, left as int, mid + 1));
        assert(sorted_between(s2, left as int, mid + 1));
    }
    merge_runs(s, left, mid, right);
}

/// One bubble pass over `s[0..n)`: every adjacent pair out of order is
/// exchanged. Reports whether any exchange happened.
fn bubble_pass<T: SortKey>(s: &mut [T], Ghost(settled): Ghost<int>) -> (swapped_flag: bool)
    requires
        old(s)@.len() >= 2,
        1 <= settled <= old(s)@.len(),
        sorted_between(old(s)@, settled, old(s)@.len() as int),
        forall|u: int, t: int|
            0 <= u < settled <= t < old(s)@.len() ==> #[trigger] old(s)@[u].key()
                <= #[trigger] old(s)@[t].key(),
    ensures
        final(s)@.len() == old(s)@.len(),
        is_permutation(old(s)@, final(s)@),
        sorted_between(final(s)@, settled - 1, final(s)@.len() as int),
        forall|u: int, t: int|
            0 <= u < settled - 1 <= t < final(s)@.len() ==> #[trigger] final(s)@[u].key()
                <= #[trigger] final(s)@[t].key(),
        !swapped_flag ==> is_sorted(final(s)@),
        !swapped_flag ==> final(s)@ == old(s)@,
        is_sorted(old(s)@) ==> !swapped_flag,
{
    let ghost s0 = s@;
    let n = s.len();
    let ghost b = settled;
    let mut swapped_flag = false;
    let mut i: usize = 0;
    while i < n - 1
        invariant
            n == s@.len(),
            n >= 2,
            1 <= b <= n,
            0 <= i <= n - 1,
            s@.len() == s0.len(),
            s@.to_multiset() == s0.to_multiset(),
            forall|t: int| 0 <= t <= i ==> #[trigger] s@[t].key() <= s@[i as int].key(),
            sorted_between(s@, b, n as int),
            forall|u: int, t: int|
                0 <= u < b <= t < n ==> #[trigger] s@[u].key() <= #[trigger] s@[t].key(),
            i >= b - 1 ==> forall|t: int| 0 <= t < b - 1 ==> #[trigger] s@[t].key() <= s@[b
                - 1].key(),
            !swapped_flag ==> s@ == s0,
            !swapped_flag ==> sorted_between(s@, 0, i + 1),
            is_sorted(s0) ==> !swapped_flag,
        decreases n - 1 - i,
    {
        if !s[i].key_le(&s[i + 1]) {
            proof {
                lemma_swap_permutes(s@, 0, n as int, i as int, i + 1);
                assert(s@.subrange(0, n as int) == s@);
                assert(swapped(s@, i as int, i + 1).subrange(0, n as int) == swapped(
                    s@,
                    i as int,
                    i + 1,
                ));
            }
            swap_at(s, i, i + 1);
            swapped_flag = true;
        }
        i += 1;
    }
    swapped_flag
}

/// Sorts by bubble sort: passes over the whole sequence until one of them
/// exchanges nothing.
fn bubble_sort_all<T: SortKey>(s: &mut [T])
    ensures
        is_sorted(final(s)@),
        is_permutation(old(s)@, final(s)@),
        is_sorted(old(s)@) ==> final(s)@ == old(s)@,
{
    let n = s.len();
    if n < 2 {
        return;
    }
    let ghost s0 = s@;
    let ghost mut passes: int = 0;
    let mut swapped_flag = true;
    while swapped_flag
        invariant
            s@.len() == n,
            n >= 2,
            0 <= passes <= n,
            is_permutation(s0, s@),
            sorted_between(s@, n - passes, n as int),
            forall|u: int, t: int|
                0 <= u < n - passes <= t < n ==> #[trigger] s@[u].key() <= #[trigger] s@[t].key(),
            swapped_flag ==> passes <= n - 1,
            !swapped_flag ==> is_sorted(s@),
            is_sorted(s0) ==> s@ == s0,
        decreases n - passes,
    {
        proof {
            if n - passes <= 1 {
                assert(is_sorted(s@));
            }
        }
        swapped_flag = bubble_pass(s, Ghost(n - passes));
        proof {
            passes = passes + 1;
        }
    }
}

/// The default sort of a sequence: quicksort.
pub trait Sort<T: SortKey>: Elements<T> {
    /// Sorts in place by quicksort.
    fn sort(&mut self)
        ensures
            is_sorted(final(self).elements()),
            is_permutation(old(self).elements(), final(self).elements()),
    ;
}

/// In-place quicksort around the middle value of each range.
pub trait QuickSort<T: SortKey>: Elements<T> {
    /// Sorts the inclusive range `[left, right]`, leaving the rest as it is;
    /// a range with `right <= left` is left as it is.
    fn _quick_sort(&mut self, left: usize, right: usize)
        requires
            left < right ==> right < old(self).elements().len(),
        ensures
            right <= left ==> final(self).elements() == old(self).elements(),
            left < right ==> same_outside(
                old(self).elements(),
                final(self).elements(),
                left as int,
                right + 1,
            ),
            left < right ==> sorted_between(final(self).elements(), left as int, right + 1),
            left < right ==> final(self).elements().subrange(left as int, right + 1).to_multiset()
                == old(self).elements().subrange(left as int, right + 1).to_multiset(),
    ;

    /// The number of values.
    fn _quick_sort_len(&self) -> (r: usize)
        ensures
            r == self.elements().len(),
    ;

    /// Sorts in place by quicksort. Where no two distinct values share a key,
    /// an already sorted sequence is left as it is.
    fn quick_sort(&mut self)
        ensures
            is_sorted(final(self).elements()),
            is_permutation(old(self).elements(), final(self).elements()),
            (forall|a: T, b: T| a.key() == b.key() ==> a == b) && is_sorted(old(self).elements())
                ==> final(self).elements() == old(self).elements(),
    ;
}

impl<T: SortKey> QuickSort<T> for [T] {
    fn _quick_sort(&mut self, left: usize, right: usize) {
        quick_sort_range(self, left, right);
    }

    fn _quick_sort_len(&self) -> (r: usize) {
        self.len()
    }

    fn quick_sort(&mut self) {
        let n = self._quick_sort_len();
        if n > 1 {
            self._quick_sort(0, n - 1);
            assert(self@.subrange(0, n as int) == self@);
            assert(old(self)@.subrange(0, n as int) == old(self)@);
        }
        proof {
            if (forall|a: T, b: T| a.key() == b.key() ==> a == b) && is_sorted(old(self)@) {
                lemma_sorted_permutations_equal(old(self)@, self@);
            }
        }
    }
}

impl<T: SortKey> Sort<T> for [T] {
    fn sort(&mut self) {
        self.quick_sort();
    }
}

/// In-place bubble sort with early exit.
pub trait BubbleSort<T: SortKey>: Elements<T> {
    /// Sorts in place by bubble sort; an already sorted sequence is left as it
    /// is after a single pass.
    fn bubble_sort(&mut self)
        ensures
            is_sorted(final(self).elements()),
            is_permutation(old(self).elements(), final(self).elements()),
            is_sorted(old(self).elements()) ==> final(self).elements() == old(self).elements(),
    ;
}

impl<T: SortKey> BubbleSort<T> for [T] {
    fn bubble_sort(&mut self) {
        bubble_sort_all(self);
    }
}

/// Stable top-down merge sort.
pub trait MergeSort<T: SortKey>: Elements<T> {
    /// Sorts in place by merge sort. The sort is stable: values of equal key
    /// keep their relative order.
    fn merge_sort(&mut self)
        ensures
            is_sorted(final(self).elements()),
            is_permutation(old(self).elements(), final(self).elements()),
            keeps_equal_order(old(self).elements(), final(self).elements()),
            is_sorted(old(self).elements()) ==> final(self).elements() == old(self).elements(),
    ;

    /// Sorts the inclusive range `[left, right]` stably, leaving the rest as it
    /// is; a range with `right <= left` is left as it is.
    fn _merge_sort(&mut self, left: usize, right: usize)
        requires
            left < right ==> right < old(self).elements().len(),
        ensures
            right <= left ==> final(self).elements() == old(self).elements(),
            left < right ==> same_outside(
                old(self).elements(),
                final(self).elements(),
                left as int,
                right + 1,
            ),
            left < right ==> sorted_between(final(self).elements(), left as int, right + 1),
            left < right ==> final(self).elements().subrange(left as int, right + 1).to_multiset()
                == old(self).elements().subrange(left as int, right + 1).to_multiset(),
            left < right ==> keeps_equal_order(
                old(self).elements().subrange(left as int, right + 1),
                final(self).elements().subrange(left as int, right + 1),
            ),
            sorted_between(old(self).elements(), left as int, right + 1) ==> final(self).elements()
                == old(self).elements(),
    ;

    /// The number of values.
    fn _merge_sort_len(&self) -> (r: usize)
        ensures
            r == self.elements().len(),
    ;
}

impl<T: SortKey> MergeSort<T> for [T] {
    fn merge_sort(&mut self) {
        let n = self._merge_sort_len();
        if n > 1 {
            self._merge_sort(0, n - 1);
            assert(self@.subrange(0, n as int) == self@);
            assert(old(self)@.subrange(0, n as int) == old(self)@);
        } else {
            proof {
                assert forall|k: int| #[trigger] with_key(self@, k) == with_key(old(self)@, k) by {}
            }
        }
    }

    fn _merge_sort(&mut self, left: usize, right: usize) {
        merge_sort_range(self, left, right);
    }

    fn _merge_sort_len(&self) -> (r: usize) {
        self.len()
    }
}

/// Heap sort through a max-heap copy of the values.
pub trait HeapSort<T: SortKey>: Elements<T> {
    /// Sorts in place by heap sort, through a max-heap that holds a copy of the
    /// values.
    /// Where no two distinct values share a key, an already sorted sequence is
    /// left as it is.
    fn heap_sort(&mut self)
        ensures
            is_sorted(final(self).elements()),
            is_permutation(old(self).elements(), final(self).elements()),
            (forall|a: T, b: T| a.key() == b.key() ==> a == b) && is_sorted(old(self).elements())
                ==> final(self).elements() == old(self).elements(),
    ;
}

impl<T: SortKey> HeapSort<T> for Vec<T> {
    fn heap_sort(&mut self) {
        heap_sort_vec(self);
        proof {
            if (forall|a: T, b: T| a.key() == b.key() ==> a == b) && is_sorted(old(self)@) {
                lemma_sorted_permutations_equal(old(self)@, self@);
            }
        }
    }
}

/// Sorting by an order that the caller supplies.
pub trait CustomSort {
    type Item;

    /// Sorts in place by the order that `cmp` gives.
    fn sort_by<F: Fn(&Self::Item, &Self::Item) -> bool>(&mut self, cmp: F);
}

/// Sorting an already sorted sequence gives it back unchanged when no two
/// distinct values share a key: two sorted permutations of one another are
/// then equal, whichever sort produced them.
pub proof fn lemma_sorted_permutations_equal<T: SortKey>(s: Seq<T>, t: Seq<T>)
    requires
        forall|a: T, b: T| a.key() == b.key() ==> a == b,
        is_sorted(s),
        is_sorted(t),
        is_permutation(s, t),
    ensures
        s == t,
    decreases s.len(),
{
    vstd::seq_lib::to_multiset_len(s);
    vstd::seq_lib::to_multiset_len(t);
    if s.len() == 0 {
        assert(s =~= t);
    } else {
        let m = s.len() - 1;
        lemma_permutation_members(s, t);
        lemma_permutation_members(t, s);
        assert(s.contains(t[m]));
        assert(t.contains(s[m]));
        let i = choose|i: int| 0 <= i < s.len() && s[i] == t[m];
        let j = choose|j: int| 0 <= j < t.len() && t[j] == s[m];
        assert(s[i].key() <= s[m].key());
        assert(t[j].key() <= t[m].key());
        assert(s[m] == t[m]);
        assert(s.remove(m) == s.drop_last());
        assert(t.remove(m) == t.drop_last());
        vstd::seq_lib::to_multiset_remove(s, m);
        vstd::seq_lib::to_multiset_remove(t, m);
        lemma_sorted_permutations_equal(s.drop_last(), t.drop_last());
        assert(s =~= s.drop_last().push(s[m]));
        assert(t =~= t.drop_last().push(t[m]));
    }
}

/// A sequence of at most one value is left unchanged by every sort: its only
/// permutation is itself.
pub proof fn lemma_short_sequence_unchanged<T: SortKey>(s: Seq<T>, t: Seq<T>)
    requires
        s.len() <= 1,
        is_permutation(s, t),
    ensures
        t == s,
{
    vstd::seq_lib::to_multiset_len(s);
    vstd::seq_lib::to_multiset_len(t);
    if s.len() == 1 {
        lemma_permutation_members(s, t);
        assert(s.contains(t[0]));
        assert(t =~= s);
    } else {
        assert(t =~= s);
    }
}

} // verus!
