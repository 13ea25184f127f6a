use vstd::prelude::*;
use vstd::multiset::{Multiset, group_multiset_axioms};
use vstd::seq_lib::{lemma_multiset_commutative, to_multiset_build, to_multiset_remove};
use crate::order::{SortKey, is_permutation, is_sorted, sorted_between};
use crate::perm::{lemma_permutation_keys_at_most, lemma_swap_permutes, lemma_update_multiset, swapped};

verus! {

/// The index of the parent of the node at `j` in an array-laid binary tree.
pub open spec fn parent(j: int) -> int {
    (j - 1) / 2
}

#[verifier::opaque]
/// Every node of `h` whose parent stands at `from` or later has a key no
/// greater than its parent's.
pub open spec fn is_heap_from<T: SortKey>(h: Seq<T>, from: int) -> bool {
    forall|j: int|
        0 < j < h.len() && from <= parent(j) ==> h[parent(j)].key() >= #[trigger] h[j].key()
}

/// The root of a heap holds a greatest key.
pub proof fn lemma_root_is_max<T: SortKey>(h: Seq<T>, j: int)
    requires
        is_heap_from(h, 0),
        0 <= j < h.len(),
    ensures
        h[0].key() >= h[j].key(),
    decreases j,
{
    reveal(is_heap_from);
    if j > 0 {
        lemma_root_is_max(h, parent(j));
    }
}

/// Moving the last value of a heap to its root keeps the heap order everywhere
/// below the root.
pub proof fn lemma_without_root_heap<T: SortKey>(h: Seq<T>)
    requires
        is_heap_from(h, 0),
        h.len() >= 2,
    ensures
        is_heap_from(without_root(h), 1),
{
    reveal(is_heap_from);
    let w = without_root(h);
    assert forall|j: int| 0 < j < w.len() && 1 <= parent(j) implies w[parent(j)].key()
        >= #[trigger] w[j].key() by {
        assert(w[j] == h[j]);
        assert(w[parent(j)] == h[parent(j)]);
    }
}

/// The children of the node at `p` stand at `2p + 1` and `2p + 2`.
pub proof fn lemma_parent_of(j: int, p: int)
    requires
        0 < j,
        0 <= p,
    ensures
        parent(j) == p <==> (j == 2 * p + 1 || j == 2 * p + 2),
        parent(j) < j,
{
}

/// An empty sequence holds no values.
pub proof fn lemma_empty_multiset<T>(s: Seq<T>)
    requires
        s.len() == 0,
    ensures
        s.to_multiset() == Multiset::<T>::empty(),
{
    broadcast use group_multiset_axioms;

    assert forall|x: T| #[trigger] s.to_multiset().count(x) == 0 by {
        vstd::seq_lib::to_multiset_contains(s, x);
    }
    assert(s.to_multiset() =~= Multiset::<T>::empty());
}

/// What is left of a heap once its root is taken: the last value moved to the
/// root.
pub open spec fn without_root<T>(h: Seq<T>) -> Seq<T> {
    if h.len() <= 1 {
        Seq::empty()
    } else {
        h.drop_last().update(0, h.last())
    }
}

/// Taking the root out of a heap and putting it back gives the same values.
pub proof fn lemma_without_root<T>(h: Seq<T>)
    requires
        h.len() >= 1,
    ensures
        without_root(h).to_multiset().insert(h[0]) == h.to_multiset(),
{
    broadcast use group_multiset_axioms;

    let d = h.drop_last();
    assert(h.remove(h.len() - 1) == d);
    to_multiset_remove(h, h.len() - 1);
    vstd::seq_lib::to_multiset_contains(h, h[0]);
    assert(h.contains(h[0]));
    vstd::seq_lib::to_multiset_contains(h, h.last());
    assert(h.contains(h.last()));
    if h.len() <= 1 {
        lemma_empty_multiset(without_root(h));
        assert(h =~= seq![h[0]]);
        lemma_empty_multiset(d);
        assert(without_root(h).to_multiset().insert(h[0]) =~= h.to_multiset());
    } else {
        lemma_update_multiset(d, 0, h.last());
        vstd::seq_lib::to_multiset_contains(d, d[0]);
        assert(d.contains(d[0]));
        assert(without_root(h).to_multiset().insert(h[0]) =~= h.to_multiset());
    }
}

/// Putting a value in front of a sequence adds it to the values held.
pub proof fn lemma_prepend_multiset<T>(x: T, s: Seq<T>)
    ensures
        (seq![x] + s).to_multiset() == s.to_multiset().insert(x),
{
    broadcast use group_multiset_axioms;

    lemma_multiset_commutative(seq![x], s);
    assert(seq![x] =~= Seq::<T>::empty().push(x));
    to_multiset_build(Seq::<T>::empty(), x);
    lemma_empty_multiset(Seq::<T>::empty());
    assert((seq![x] + s).to_multiset() =~= s.to_multiset().insert(x));
}

/// Exchanging a node with its greater child, when that child is greater than
/// the node, moves the one place where the heap order may fail down to the child.
proof fn lemma_sift_step<T: SortKey>(g: Seq<T>, from: int, pos: int, child: int)
    requires
        0 <= from <= pos,
        parent(child) == pos,
        pos < child < g.len(),
        g[child].key() > g[pos].key(),
        forall|j: int| 0 < j < g.len() && parent(j) == pos ==> g[child].key() >= #[trigger] g[j].key(),
        forall|j: int|
            0 < j < g.len() && from <= parent(j) && parent(j) != pos ==> g[parent(j)].key()
                >= #[trigger] g[j].key(),
        pos > from ==> forall|j: int|
            0 < j < g.len() && parent(j) == pos ==> g[parent(pos)].key() >= #[trigger] g[j].key(),
    ensures
        forall|j: int|
            0 < j < g.len() && from <= parent(j) && parent(j) != child ==> swapped(
                g,
                pos,
                child,
            )[parent(j)].key() >= #[trigger] swapped(g, pos, child)[j].key(),
        forall|j: int|
            0 < j < g.len() && parent(j) == child ==> swapped(g, pos, child)[parent(child)].key()
                >= #[trigger] swapped(g, pos, child)[j].key(),
{
    let g2 = swapped(g, pos, child);
    assert forall|j: int|
        0 < j < g.len() && from <= parent(j) && parent(j) != child implies g2[parent(j)].key()
            >= #[trigger] g2[j].key() by {
        lemma_parent_of(j, pos);
        lemma_parent_of(j, child);
        if parent(j) == pos {
        } else if j == pos {
            assert(g[parent(pos)].key() >= g[child].key());
        } else {
        }
    }
    assert forall|j: int| 0 < j < g.len() && parent(j) == child implies g2[parent(child)].key()
        >= #[trigger] g2[j].key() by {
        lemma_parent_of(j, child);
        lemma_parent_of(j, pos);
    }
}

/// Moving the root of heap `h` in front of `vs` keeps the values of the heap
/// and `vs` together.
proof fn lemma_extract_multiset<T>(rest: Seq<T>, h: Seq<T>, vs: Seq<T>, all: Multiset<T>)
    requires
        h.len() >= 1,
        rest.to_multiset() == without_root(h).to_multiset(),
        h.to_multiset().add(vs.to_multiset()) == all,
    ensures
        rest.to_multiset().add((seq![h[0]] + vs).to_multiset()) == all,
{
    broadcast use group_multiset_axioms;

    lemma_without_root(h);
    lemma_prepend_multiset(h[0], vs);
    assert(rest.to_multiset().add((seq![h[0]] + vs).to_multiset()) =~= all);
}

/// Exchanges the values at `i` and `j` of a vector.
fn swap_in<T: SortKey>(h: &mut Vec<T>, i: usize, j: usize)
    requires
        i < old(h)@.len(),
        j < old(h)@.len(),
    ensures
        final(h)@ == swapped(old(h)@, i as int, j as int),
{
    let a = h[i];
    let b = h[j];
    h.set(i, b);
    h.set(j, a);
}

/// Moves the value at `from` down the tree until it is no smaller than its
/// children, given that the heap order holds below `from` already.
fn sift_down<T: SortKey>(h: &mut Vec<T>, from: usize)
    requires
        from < old(h)@.len(),
        is_heap_from(old(h)@, from + 1),
    ensures
        final(h)@.len() == old(h)@.len(),
        is_permutation(old(h)@, final(h)@),
        is_heap_from(final(h)@, from as int),
        forall|j: int| 0 <= j < from ==> #[trigger] final(h)@[j] == old(h)@[j],
{
    let ghost h0 = h@;
    let end = h.len();
    let mut pos = from;
    proof {
        reveal(is_heap_from);
    }
    loop
        invariant
            end == h@.len(),
            from <= pos < end,
            is_permutation(h0, h@),
            forall|j: int| 0 <= j < from ==> #[trigger] h@[j] == h0[j],
            forall|j: int|
                0 < j < end && from <= parent(j) && parent(j) != pos ==> h@[parent(j)].key()
                    >= #[trigger] h@[j].key(),
            pos > from ==> forall|j: int|
                0 < j < end && parent(j) == pos ==> h@[parent(pos as int)].key()
                    >= #[trigger] h@[j].key(),
        ensures
            end == h@.len(),
            is_permutation(h0, h@),
            forall|j: int| 0 <= j < from ==> #[trigger] h@[j] == h0[j],
            is_heap_from(h@, from as int),
        decreases end - pos,
    {
        proof {
            reveal(is_heap_from);
        }
        if end < 2 || pos > (end - 2) / 2 {
            assert forall|j: int| 0 < j < end && parent(j) == pos implies false by {
                lemma_parent_of(j, pos as int);
            }
            break;
        }
        let mut child = 2 * pos + 1;
        if child + 1 < end && !h[child + 1].key_le(&h[child]) {
            child = child + 1;
        }
        proof {
            assert forall|j: int| 0 < j < end && parent(j) == pos implies h@[child as int].key()
                >= #[trigger] h@[j].key() by {
                lemma_parent_of(j, pos as int);
            }
        }
        if h[child].key_le(&h[pos]) {
            assert forall|j: int| 0 < j < end && parent(j) == pos implies h@[parent(j)].key()
                >= #[trigger] h@[j].key() by {
                lemma_parent_of(j, pos as int);
            }
            break;
        }
        let ghost g = h@;
        proof {
            lemma_parent_of(child as int, pos as int);
            lemma_swap_permutes(h@, 0, end as int, pos as int, child as int);
            assert(h@.subrange(0, end as int) == h@);
            assert(swapped(h@, pos as int, child as int).subrange(0, end as int) == swapped(
                h@,
                pos as int,
                child as int,
            ));
        }
        swap_in(h, pos, child);
        proof {
            lemma_sift_step(g, from as int, pos as int, child as int);
        }
        pos = child;
    }
}

/// Sorts `v` by heap sort: a max-heap holds a copy of the values, and its
/// greatest value is taken out into each place from the last to the first.
pub fn heap_sort_vec<T: SortKey>(v: &mut Vec<T>)
    ensures
        is_sorted(final(v)@),
        is_permutation(old(v)@, final(v)@),
{
    let ghost v0 = v@;
    let n = v.len();
    let mut heap: Vec<T> = Vec::new();
    let mut k: usize = 0;
    while k < n
        invariant
            n == v@.len(),
            v@ == v0,
            k <= n,
            heap@ == v0.subrange(0, k as int),
        decreases n - k,
    {
        heap.push(v[k]);
        k += 1;
    }
    assert(heap@ == v0);
    let mut start = n / 2;
    proof {
        reveal(is_heap_from);
    }
    while start > 0
        invariant
            heap@.len() == n,
            start <= n / 2,
            is_permutation(v0, heap@),
            is_heap_from(heap@, start as int),
        decreases start,
    {
        start -= 1;
        sift_down(&mut heap, start);
    }
    let mut i = n;
    proof {
        broadcast use group_multiset_axioms;

        lemma_empty_multiset(v@.subrange(n as int, n as int));
        assert(heap@.to_multiset().add(v@.subrange(n as int, n as int).to_multiset())
            =~= v0.to_multiset());
    }
    while i > 0
        invariant
            n == v@.len(),
            i <= n,
            heap@.len() == i,
            is_heap_from(heap@, 0),
            sorted_between(v@, i as int, n as int),
            i < n ==> forall|j: int| 0 <= j < i ==> #[trigger] heap@[j].key() <= v@[i as int].key(),
            heap@.to_multiset().add(v@.subrange(i as int, n as int).to_multiset())
                == v0.to_multiset(),
        decreases i,
    {
        i -= 1;
        let ghost h = heap@;
        let top = heap[0];
        proof {
            assert forall|j: int| 0 <= j < h.len() implies #[trigger] h[j].key() <= top.key() by {
                lemma_root_is_max(h, j);
            }
            lemma_without_root(h);
        }
        let last = heap.pop().unwrap();
        if i > 0 {
            heap.set(0, last);
            proof {
                assert(heap@ =~= without_root(h));
                lemma_without_root_heap(h);
            }
            sift_down(&mut heap, 0);
            proof {
                lemma_permutation_keys_at_most(without_root(h), heap@, top.key());
            }
        } else {
            proof {
                assert(heap@ =~= without_root(h));
                reveal(is_heap_from);
            }
        }
        let ghost vs = v@.subrange(i + 1, n as int);
        let ghost v1 = v@;
        v.set(i, top);
        proof {
            assert(v@.subrange(i as int, n as int) =~= seq![top] + vs);
            lemma_extract_multiset(heap@, h, vs, v0.to_multiset());
            assert forall|t: int| i < t < n implies #[trigger] v@[t] == v1[t] by {}
            assert(sorted_between(v@, i as int, n as int));
        }
    }
    proof {
        broadcast use group_multiset_axioms;

        assert(v@.subrange(0, n as int) == v@);
        lemma_empty_multiset(heap@);
        assert(v@.to_multiset() =~= v0.to_multiset());
    }
}

} // verus!
