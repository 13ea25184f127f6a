use vstd::prelude::*;
use vstd::multiset::group_multiset_axioms;
use vstd::seq_lib::{lemma_multiset_commutative, to_multiset_insert, to_multiset_remove};
use crate::order::{SortKey, has_key, with_key};

verus! {

/// `s` with the values at `i` and `j` exchanged.
pub open spec fn swapped<T>(s: Seq<T>, i: int, j: int) -> Seq<T> {
    s.update(i, s[j]).update(j, s[i])
}

/// Writing `x` at `i` trades one `s[i]` for one `x`.
pub proof fn lemma_update_multiset<T>(s: Seq<T>, i: int, x: T)
    requires
        0 <= i < s.len(),
    ensures
        s.update(i, x).to_multiset() == s.to_multiset().remove(s[i]).insert(x),
{
    assert(s.update(i, x) =~= s.remove(i).insert(i, x));
    to_multiset_remove(s, i);
    to_multiset_insert(s.remove(i), i, x);
}

/// Exchanging two values keeps the values of the range that holds both.
pub proof fn lemma_swap_permutes<T>(s: Seq<T>, lo: int, hi: int, i: int, j: int)
    requires
        0 <= lo <= i < hi <= s.len(),
        lo <= j < hi,
    ensures
        swapped(s, i, j).subrange(lo, hi).to_multiset() == s.subrange(lo, hi).to_multiset(),
{
    broadcast use group_multiset_axioms;

    let u = s.subrange(lo, hi);
    let a = i - lo;
    let b = j - lo;
    assert(swapped(s, i, j).subrange(lo, hi) =~= swapped(u, a, b));
    if a == b {
        assert(swapped(u, a, b) =~= u);
    } else {
        let u1 = u.update(a, u[b]);
        lemma_update_multiset(u, a, u[b]);
        lemma_update_multiset(u1, b, u[a]);
        assert(u.to_multiset().count(u[a]) > 0) by {
            vstd::seq_lib::to_multiset_contains(u, u[a]);
            assert(u.contains(u[a]));
        }
        assert(swapped(u, a, b).to_multiset() =~= u.to_multiset());
    }
}

/// Two sequences that agree in `[lo, hi)` outside `[a, b)`, and whose `[a, b)`
/// hold the same values, hold the same values in `[lo, hi)`.
pub proof fn lemma_permutes_within<T>(s1: Seq<T>, s2: Seq<T>, lo: int, a: int, b: int, hi: int)
    requires
        0 <= lo <= a <= b <= hi <= s1.len(),
        s1.len() == s2.len(),
        s1.subrange(a, b).to_multiset() == s2.subrange(a, b).to_multiset(),
        forall|k: int| lo <= k < a || b <= k < hi ==> s1[k] == s2[k],
    ensures
        s1.subrange(lo, hi).to_multiset() == s2.subrange(lo, hi).to_multiset(),
{
    assert(s1.subrange(lo, a) =~= s2.subrange(lo, a));
    assert(s1.subrange(b, hi) =~= s2.subrange(b, hi));
    assert(s1.subrange(lo, hi) =~= s1.subrange(lo, a) + s1.subrange(a, b) + s1.subrange(b, hi));
    assert(s2.subrange(lo, hi) =~= s2.subrange(lo, a) + s2.subrange(a, b) + s2.subrange(b, hi));
    lemma_multiset_commutative(s1.subrange(lo, a), s1.subrange(a, b));
    lemma_multiset_commutative(s1.subrange(lo, a) + s1.subrange(a, b), s1.subrange(b, hi));
    lemma_multiset_commutative(s2.subrange(lo, a), s2.subrange(a, b));
    lemma_multiset_commutative(s2.subrange(lo, a) + s2.subrange(a, b), s2.subrange(b, hi));
}

/// Every value of `t` occurs in `s` when both hold the same values.
pub proof fn lemma_permutation_members<T>(s: Seq<T>, t: Seq<T>)
    requires
        s.to_multiset() == t.to_multiset(),
    ensures
        forall|i: int| 0 <= i < t.len() ==> s.contains(#[trigger] t[i]),
{
    assert forall|i: int| 0 <= i < t.len() implies s.contains(#[trigger] t[i]) by {
        vstd::seq_lib::to_multiset_contains(t, t[i]);
        vstd::seq_lib::to_multiset_contains(s, t[i]);
        assert(t.contains(t[i]));
    }
}

/// An upper bound on the keys of `s` holds for every permutation of `s`.
pub proof fn lemma_permutation_keys_at_most<T: SortKey>(s: Seq<T>, t: Seq<T>, k: int)
    requires
        s.to_multiset() == t.to_multiset(),
        forall|i: int| 0 <= i < s.len() ==> #[trigger] s[i].key() <= k,
    ensures
        forall|i: int| 0 <= i < t.len() ==> #[trigger] t[i].key() <= k,
{
    lemma_permutation_members(s, t);
}

/// A strict lower bound on the keys of `s` holds for every permutation of `s`.
pub proof fn lemma_permutation_keys_above<T: SortKey>(s: Seq<T>, t: Seq<T>, k: int)
    requires
        s.to_multiset() == t.to_multiset(),
        forall|i: int| 0 <= i < s.len() ==> #[trigger] s[i].key() > k,
    ensures
        forall|i: int| 0 <= i < t.len() ==> #[trigger] t[i].key() > k,
{
    lemma_permutation_members(s, t);
}

/// Appending a value adds it to the values of its own key and to no others.
pub proof fn lemma_with_key_push<T: SortKey>(s: Seq<T>, x: T, k: int)
    ensures
        with_key(s.push(x), k) == if x.key() == k {
            with_key(s, k).push(x)
        } else {
            with_key(s, k)
        },
{
    s.lemma_filter_push(x, has_key::<T>(k));
}

/// The values of one key in a concatenation are those of the first part, then
/// those of the second.
pub proof fn lemma_with_key_add<T: SortKey>(a: Seq<T>, b: Seq<T>, k: int)
    ensures
        with_key(a + b, k) == with_key(a, k) + with_key(b, k),
{
    Seq::filter_distributes_over_add(a, b, has_key::<T>(k));
}

/// A sequence without a value of key `k` has none to offer.
pub proof fn lemma_with_key_none<T: SortKey>(s: Seq<T>, k: int)
    requires
        forall|i: int| 0 <= i < s.len() ==> #[trigger] s[i].key() != k,
    ensures
        with_key(s, k) == Seq::<T>::empty(),
    decreases s.len(),
{
    if s.len() == 0 {
        s.lemma_filter_len(has_key::<T>(k));
        assert(with_key(s, k) =~= Seq::<T>::empty());
    } else {
        let d = s.drop_last();
        lemma_with_key_none(d, k);
        assert(s =~= d.push(s.last()));
        lemma_with_key_push(d, s.last(), k);
    }
}

/// Two sequences that agree in `[lo, hi)` outside `[a, b)`, and whose `[a, b)`
/// hold the values of each key in the same order, do so in `[lo, hi)`.
pub proof fn lemma_key_order_within<T: SortKey>(
    s1: Seq<T>,
    s2: Seq<T>,
    lo: int,
    a: int,
    b: int,
    hi: int,
)
    requires
        0 <= lo <= a <= b <= hi <= s1.len(),
        s1.len() == s2.len(),
        forall|k: int| #[trigger] with_key(s1.subrange(a, b), k) == with_key(s2.subrange(a, b), k),
        forall|k: int| lo <= k < a || b <= k < hi ==> s1[k] == s2[k],
    ensures
        forall|k: int| #[trigger] with_key(s1.subrange(lo, hi), k) == with_key(s2.subrange(lo, hi), k),
{
    assert(s1.subrange(lo, a) =~= s2.subrange(lo, a));
    assert(s1.subrange(b, hi) =~= s2.subrange(b, hi));
    assert(s1.subrange(lo, hi) =~= s1.subrange(lo, a) + s1.subrange(a, b) + s1.subrange(b, hi));
    assert(s2.subrange(lo, hi) =~= s2.subrange(lo, a) + s2.subrange(a, b) + s2.subrange(b, hi));
    assert forall|k: int| #[trigger] with_key(s1.subrange(lo, hi), k) == with_key(s2.subrange(lo, hi), k) by {
        lemma_with_key_add(s1.subrange(lo, a), s1.subrange(a, b), k);
        lemma_with_key_add(s1.subrange(lo, a) + s1.subrange(a, b), s1.subrange(b, hi), k);
        lemma_with_key_add(s2.subrange(lo, a), s2.subrange(a, b), k);
        lemma_with_key_add(s2.subrange(lo, a) + s2.subrange(a, b), s2.subrange(b, hi), k);
    }
}

/// A sequence whose values all have key `k` is its own selection of them.
pub proof fn lemma_with_key_all<T: SortKey>(s: Seq<T>, k: int)
    requires
        forall|i: int| 0 <= i < s.len() ==> #[trigger] s[i].key() == k,
    ensures
        with_key(s, k) == s,
    decreases s.len(),
{
    if s.len() == 0 {
        lemma_with_key_none(s, k);
        assert(s =~= Seq::<T>::empty());
    } else {
        let d = s.drop_last();
        lemma_with_key_all(d, k);
        assert(s =~= d.push(s.last()));
        lemma_with_key_push(d, s.last(), k);
    }
}

} // verus!
