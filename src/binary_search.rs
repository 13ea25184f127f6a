use vstd::prelude::*;
use crate::order::{Elements, SortKey, is_sorted, with_key};
use crate::perm::{lemma_with_key_add, lemma_with_key_all, lemma_with_key_none};

verus! {

/// Searches in a sequence sorted by key.
pub trait BinarySearch<T: SortKey>: Elements<T> {
    /// The first index at which `func` is false, for a `func` that is true on
    /// a prefix of the values and false on the rest.
    fn partition_point<F: Fn(&T) -> bool>(&self, func: F) -> (r: usize)
        requires
            forall|i: int| 0 <= i < self.elements().len() ==> func.requires((&self.elements()[i],)),
            forall|i: int, j: int|
                0 <= i <= j < self.elements().len() && func.ensures((&self.elements()[i],), false)
                    ==> !func.ensures((&self.elements()[j],), true),
        ensures
            r <= self.elements().len(),
            forall|i: int| 0 <= i < r ==> !func.ensures((&self.elements()[i],), false),
            forall|j: int| r <= j < self.elements().len() ==> !func.ensures((&self.elements()[j],), true),
    ;

    /// The first index whose key is not below the key of `target`.
    fn lower_bound(&self, target: &T) -> (r: usize)
        requires
            is_sorted(self.elements()),
        ensures
            r <= self.elements().len(),
            forall|i: int| 0 <= i < r ==> #[trigger] self.elements()[i].key() < target.key(),
            forall|j: int| r <= j < self.elements().len() ==> #[trigger] self.elements()[j].key() >= target.key(),
    ;

    /// The first index whose key is above the key of `target`.
    fn upper_bound(&self, target: &T) -> (r: usize)
        requires
            is_sorted(self.elements()),
        ensures
            r <= self.elements().len(),
            forall|i: int| 0 <= i < r ==> #[trigger] self.elements()[i].key() <= target.key(),
            forall|j: int| r <= j < self.elements().len() ==> #[trigger] self.elements()[j].key() > target.key(),
    ;

    /// The first index whose key equals the key of `target`, if there is one.
    fn binary_search2(&self, target: &T) -> (r: Option<usize>)
        requires
            is_sorted(self.elements()),
        ensures
            match r {
                Some(i) => {
                    &&& i < self.elements().len()
                    &&& self.elements()[i as int].key() == target.key()
                    &&& forall|j: int| 0 <= j < i ==> #[trigger] self.elements()[j].key() != target.key()
                },
                None => forall|j: int|
                    0 <= j < self.elements().len() ==> #[trigger] self.elements()[j].key() != target.key(),
            },
    ;

    /// The number of values whose key equals the key of `target`.
    fn count(&self, target: &T) -> (r: usize)
        requires
            is_sorted(self.elements()),
        ensures
            r == with_key(self.elements(), target.key()).len(),
    ;
}

/// The first index of the sorted `s` whose key is above the key of `target`
/// (`inclusive`), or not below it (not `inclusive`).
fn first_past<T: SortKey>(s: &[T], target: &T, inclusive: bool) -> (r: usize)
    requires
        is_sorted(s@),
    ensures
        r <= s@.len(),
        forall|i: int|
            0 <= i < r ==> if inclusive {
                #[trigger] s@[i].key() <= target.key()
            } else {
                s@[i].key() < target.key()
            },
        forall|j: int|
            r <= j < s@.len() ==> if inclusive {
                #[trigger] s@[j].key() > target.key()
            } else {
                s@[j].key() >= target.key()
            },
{
    let mut left: usize = 0;
    let mut right: usize = s.len();
    while left < right
        invariant
            left <= right <= s@.len(),
            is_sorted(s@),
            forall|i: int|
                0 <= i < left ==> if inclusive {
                    #[trigger] s@[i].key() <= target.key()
                } else {
                    s@[i].key() < target.key()
                },
            forall|j: int|
                right <= j < s@.len() ==> if inclusive {
                    #[trigger] s@[j].key() > target.key()
                } else {
                    s@[j].key() >= target.key()
                },
        decreases right - left,
    {
        let mid = left + (right - left) / 2;
        let before = if inclusive {
            s[mid].key_le(target)
        } else {
            !target.key_le(&s[mid])
        };
        if before {
            left = mid + 1;
        } else {
            right = mid;
        }
    }
    left
}

impl<T: SortKey> BinarySearch<T> for [T] {
    fn partition_point<F: Fn(&T) -> bool>(&self, func: F) -> (r: usize) {
        assert(self.elements() == self@);
        let mut left: usize = 0;
        let mut right: usize = self.len();
        let mut mid: usize = left + (right - left) / 2;
        while left < right
            invariant
                left <= right <= self@.len(),
                mid == left + (right - left) / 2,
                forall|i: int| 0 <= i < self@.len() ==> func.requires((&self@[i],)),
                forall|i: int, j: int|
                    0 <= i <= j < self@.len() && func.ensures((&self@[i],), false)
                        ==> !func.ensures((&self@[j],), true),
                forall|i: int| 0 <= i < left ==> !func.ensures((&self@[i],), false),
                forall|j: int| right <= j < self@.len() ==> !func.ensures((&self@[j],), true),
            decreases right - left,
        {
            // left is the first place where func may turn false
            if func(&self[mid]) {
                left = mid + 1;
            } else {
                right = mid;
            }
            mid = left + (right - left) / 2;
        }
        left
    }

    fn lower_bound(&self, target: &T) -> (r: usize) {
        first_past(self, target, false)
    }

    fn upper_bound(&self, target: &T) -> (r: usize) {
        first_past(self, target, true)
    }

    fn binary_search2(&self, target: &T) -> (r: Option<usize>) {
        let lower = self.lower_bound(target);
        let upper = self.upper_bound(target);
        proof {
            if upper < lower {
                assert(self@[upper as int].key() < target.key());
            }
            if lower < upper {
                assert(self@[lower as int].key() <= target.key());
            }
        }
        if lower == upper {
            None
        } else {
            Some(lower)
        }
    }

    fn count(&self, target: &T) -> (r: usize) {
        let lower = self.lower_bound(target);
        let upper = self.upper_bound(target);
        proof {
            if upper < lower {
                assert(self@[upper as int].key() < target.key());
            }
            let s = self@;
            let k = target.key();
            let a = s.subrange(0, lower as int);
            let b = s.subrange(lower as int, upper as int);
            let c = s.subrange(upper as int, s.len() as int);
            assert(s =~= a + b + c);
            lemma_with_key_add(a, b, k);
            lemma_with_key_add(a + b, c, k);
            lemma_with_key_none(a, k);
            lemma_with_key_all(b, k);
            lemma_with_key_none(c, k);
            assert(with_key(s, k) =~= b);
        }
        upper - lower
    }
}

} // verus!
