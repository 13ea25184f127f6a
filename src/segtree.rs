use vstd::prelude::*;
use std::marker::PhantomData;
use crate::monoid::Monoid;
use vstd::arithmetic::power2::{lemma_pow2_unfold, lemma2_to64, pow2};

verus! {

/// The storage of a segment tree over a monoid: `2 * n` nodes for `n` leaves,
/// `n` a power of two, each node holding the identity when built.
pub struct Segtree<T: Clone, M: Monoid<T>> {
    n: usize,
    size: usize,
    log: usize,
    dat: Vec<T>,
    phantom: PhantomData<M>,
}

impl<T: Clone, M: Monoid<T>> Segtree<T, M> {
    /// The number of leaves.
    pub closed spec fn leaves(&self) -> nat {
        self.n as nat
    }

    /// The number of nodes.
    pub closed spec fn nodes(&self) -> nat {
        self.size as nat
    }

    /// The depth of the tree: `leaves() == 2^depth()`.
    pub closed spec fn depth(&self) -> nat {
        self.log as nat
    }

    /// The values held by the nodes.
    pub closed spec fn data(&self) -> Seq<T> {
        self.dat@
    }

    /// A tree whose leaves are the least power of two not below `n`.
    pub fn new(n: usize) -> (r: Self)
        requires
            n <= usize::MAX / 4,
        ensures
            r.leaves() == pow2(r.depth()),
            r.leaves() >= n,
            r.depth() == 0 || r.leaves() / 2 < n,
            r.nodes() == 2 * r.leaves(),
            r.data().len() == r.nodes(),
            forall|i: int| 0 <= i < r.nodes() ==> #[trigger] r.data()[i] == M::identity(),
    {
        let mut p: usize = 1;
        let mut log: usize = 0;
        proof {
            lemma2_to64();
        }
        while p < n
            invariant
                p == pow2(log as nat),
                1 <= p,
                log < p,
                log == 0 || p / 2 < n,
                n <= usize::MAX / 4,
            decreases n - log,
        {
            proof {
                lemma_pow2_unfold((log + 1) as nat);
            }
            p = p * 2;
            log = log + 1;
        }
        let size = p * 2;
        let mut dat: Vec<T> = Vec::new();
        let mut i: usize = 0;
        while i < size
            invariant
                i <= size,
                dat@.len() == i,
                forall|j: int| 0 <= j < i ==> #[trigger] dat@[j] == M::identity(),
            decreases size - i,
        {
            dat.push(M::id());
            i += 1;
        }
        Segtree { n: p, size, log, dat, phantom: PhantomData }
    }
}

} // verus!
