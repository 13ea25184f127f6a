use vstd::prelude::*;

verus! {

/// Disjoint sets over `0..n`, kept as a forest of parent links with union by
/// rank and path compression.
pub struct UnionFind {
    par: Vec<usize>,
    rank: Vec<usize>,
    /// The root of the tree of each element.
    roots: Ghost<Seq<usize>>,
    /// A height that grows strictly from every element to its parent.
    level: Ghost<Seq<nat>>,
}

impl UnionFind {
    /// The number of elements.
    pub closed spec fn size(&self) -> nat {
        self.par@.len()
    }

    /// `a` and `b` belong to the same set.
    pub closed spec fn same_set(&self, a: int, b: int) -> bool {
        self.roots@[a] == self.roots@[b]
    }

    /// The links form a forest whose roots are the recorded representatives.
    pub closed spec fn wf(&self) -> bool {
        let n = self.par@.len();
        &&& self.rank@.len() == n
        &&& self.roots@.len() == n
        &&& self.level@.len() == n
        &&& forall|i: int| 0 <= i < n ==> #[trigger] self.par@[i] < n
        &&& forall|i: int| 0 <= i < n ==> #[trigger] self.roots@[i] < n
        &&& forall|i: int| 0 <= i < n ==> self.par@[#[trigger] self.roots@[i] as int] == self.roots@[i]
        &&& forall|i: int| 0 <= i < n && #[trigger] self.par@[i] == i ==> self.roots@[i] == i
        &&& forall|i: int| 0 <= i < n ==> self.roots@[#[trigger] self.par@[i] as int] == self.roots@[i]
        &&& forall|i: int|
            0 <= i < n && #[trigger] self.par@[i] != i ==> self.level@[self.par@[i] as int]
                > self.level@[i]
        &&& forall|i: int| 0 <= i < n ==> self.level@[#[trigger] self.roots@[i] as int] >= self.level@[i]
    }

    /// `n` elements, each in a set of its own.
    pub fn new(n: usize) -> (r: Self)
        ensures
            r.wf(),
            r.size() == n,
            forall|a: int, b: int| 0 <= a < n && 0 <= b < n ==> (r.same_set(a, b) <==> a == b),
    {
        let mut par: Vec<usize> = Vec::new();
        let mut rank: Vec<usize> = Vec::new();
        let mut i: usize = 0;
        while i < n
            invariant
                i <= n,
                par@.len() == i,
                rank@.len() == i,
                forall|j: int| 0 <= j < i ==> #[trigger] par@[j] == j,
            decreases n - i,
        {
            par.push(i);
            rank.push(0);
            i += 1;
        }
        UnionFind {
            par,
            rank,
            roots: Ghost(Seq::new(n as nat, |j: int| j as usize)),
            level: Ghost(Seq::new(n as nat, |j: int| 0nat)),
        }
    }

    /// The root of the tree of `x`; every element met on the way is linked
    /// straight to it.
    fn find_root(&mut self, x: usize) -> (r: usize)
        requires
            old(self).wf(),
            x < old(self).size(),
        ensures
            final(self).wf(),
            final(self).size() == old(self).size(),
            final(self).roots@ == old(self).roots@,
            final(self).level@ == old(self).level@,
            final(self).rank@ == old(self).rank@,
            r == old(self).roots@[x as int],
            final(self).par@[r as int] == r,
            final(self).par@[x as int] == r,
        decreases old(self).level@[old(self).roots@[x as int] as int] - old(self).level@[x as int],
    {
        let p = self.par[x];
        if p == x {
            x
        } else {
            proof {
                assert(self.roots@[p as int] == self.roots@[x as int]);
            }
            let r = self.find_root(p);
            self.par.set(x, r);
            proof {
                let n = self.par@.len();
                assert(self.par@[r as int] == r);
                assert forall|i: int| 0 <= i < n implies self.roots@[#[trigger] self.par@[i] as int]
                    == self.roots@[i] by {
                    if i == x {
                        assert(self.roots@[r as int] == r);
                    }
                }
                assert forall|i: int| 0 <= i < n && #[trigger] self.par@[i] == i implies self.roots@[i]
                    == i by {
                    if i == x {
                        assert(self.roots@[r as int] == r);
                    }
                }
            }
            r
        }
    }

    /// Joins the sets of `x` and `y`.
    pub fn merge_tree(&mut self, x: usize, y: usize)
        requires
            old(self).wf(),
            x < old(self).size(),
            y < old(self).size(),
        ensures
            final(self).wf(),
            final(self).size() == old(self).size(),
            forall|a: int, b: int|
                0 <= a < old(self).size() && 0 <= b < old(self).size() ==> (final(self).same_set(a, b)
                    <==> (old(self).same_set(a, b) || (old(self).same_set(a, x as int)
                    && old(self).same_set(b, y as int)) || (old(self).same_set(a, y as int)
                    && old(self).same_set(b, x as int)))),
    {
        let x = self.find_root(x);
        let y = self.find_root(y);
        if x == y {
            return;
        }
        if self.rank[x] < self.rank[y] {
            self.link(x, y);
        } else {
            self.link(y, x);
            if self.rank[x] == self.rank[y] && self.rank[x] < usize::MAX {
                let k = self.rank[x] + 1;
                self.rank.set(x, k);
            }
        }
    }

    /// Hangs the root `child` under the root `top`.
    fn link(&mut self, child: usize, top: usize)
        requires
            old(self).wf(),
            child < old(self).size(),
            top < old(self).size(),
            child != top,
            old(self).par@[child as int] == child,
            old(self).par@[top as int] == top,
        ensures
            final(self).wf(),
            final(self).size() == old(self).size(),
            final(self).rank@ == old(self).rank@,
            forall|i: int|
                0 <= i < old(self).size() ==> #[trigger] final(self).roots@[i] == if old(
                    self,
                ).roots@[i] == child {
                    top
                } else {
                    old(self).roots@[i]
                },
    {
        let ghost old_roots = self.roots@;
        let ghost old_level = self.level@;
        self.par.set(child, top);
        let ghost new_top: nat = if old_level[top as int] > old_level[child as int] {
            old_level[top as int]
        } else {
            old_level[child as int] + 1
        };
        self.roots = Ghost(
            Seq::new(
                old_roots.len(),
                |i: int| if old_roots[i] == child { top } else { old_roots[i] },
            ),
        );
        self.level = Ghost(old_level.update(top as int, new_top));
        proof {
            let n = self.par@.len();
            assert(old_roots[child as int] == child);
            assert(old_roots[top as int] == top);
            assert forall|i: int| 0 <= i < n implies self.par@[#[trigger] self.roots@[i] as int]
                == self.roots@[i] by {}
            assert forall|i: int| 0 <= i < n implies self.roots@[#[trigger] self.par@[i] as int]
                == self.roots@[i] by {}
            assert forall|i: int|
                0 <= i < n && #[trigger] self.par@[i] != i implies self.level@[self.par@[i] as int]
                    > self.level@[i] by {
                if i != child {
                    assert(old_roots[i] != i || self.par@[i] == i);
                }
            }
            assert forall|i: int| 0 <= i < n implies self.level@[#[trigger] self.roots@[i] as int]
                >= self.level@[i] by {}
        }
    }

    /// Tells whether `x` and `y` are in the same set.
    pub fn is_same(&mut self, x: usize, y: usize) -> (r: bool)
        requires
            old(self).wf(),
            x < old(self).size(),
            y < old(self).size(),
        ensures
            final(self).wf(),
            final(self).size() == old(self).size(),
            r == old(self).same_set(x as int, y as int),
            forall|a: int, b: int|
                0 <= a < old(self).size() && 0 <= b < old(self).size() ==> (final(self).same_set(a, b)
                    <==> old(self).same_set(a, b)),
    {
        self.find_root(x) == self.find_root(y)
    }

    /// Belonging to the same set is an equivalence relation on the elements.
    pub proof fn lemma_same_set_equivalence(&self, a: int, b: int, c: int)
        requires
            self.wf(),
            0 <= a < self.size(),
            0 <= b < self.size(),
            0 <= c < self.size(),
        ensures
            self.same_set(a, a),
            self.same_set(a, b) ==> self.same_set(b, a),
            self.same_set(a, b) && self.same_set(b, c) ==> self.same_set(a, c),
    {
    }
}

} // verus!
