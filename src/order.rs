use vstd::prelude::*;

verus! {

/// An element type whose values are ordered through an integer key.
///
/// Two values with the same key are equal for ordering purposes; a stable sort
/// keeps such values in their original relative order.
pub trait SortKey: Copy + Sized {
    /// The position of this value in the order.
    spec fn key(self) -> int;

    /// Tells whether `self` comes no later than `other` in the order.
    fn key_le(&self, other: &Self) -> (r: bool)
        ensures
            r == (self.key() <= other.key()),
    ;
}

impl SortKey for i32 {
    open spec fn key(self) -> int {
        self as int
    }

    fn key_le(&self, other: &Self) -> (r: bool) {
        *self <= *other
    }
}

impl SortKey for i64 {
    open spec fn key(self) -> int {
        self as int
    }

    fn key_le(&self, other: &Self) -> (r: bool) {
        *self <= *other
    }
}

impl SortKey for u32 {
    open spec fn key(self) -> int {
        self as int
    }

    fn key_le(&self, other: &Self) -> (r: bool) {
        *self <= *other
    }
}

impl SortKey for u64 {
    open spec fn key(self) -> int {
        self as int
    }

    fn key_le(&self, other: &Self) -> (r: bool) {
        *self <= *other
    }
}

impl SortKey for usize {
    open spec fn key(self) -> int {
        self as int
    }

    fn key_le(&self, other: &Self) -> (r: bool) {
        *self <= *other
    }
}

impl SortKey for i8 {
    open spec fn key(self) -> int {
        self as int
    }

    fn key_le(&self, other: &Self) -> (r: bool) {
        *self <= *other
    }
}

impl SortKey for i16 {
    open spec fn key(self) -> int {
        self as int
    }

    fn key_le(&self, other: &Self) -> (r: bool) {
        *self <= *other
    }
}

impl SortKey for isize {
    open spec fn key(self) -> int {
        self as int
    }

    fn key_le(&self, other: &Self) -> (r: bool) {
        *self <= *other
    }
}

impl SortKey for i128 {
    open spec fn key(self) -> int {
        self as int
    }

    fn key_le(&self, other: &Self) -> (r: bool) {
        *self <= *other
    }
}

impl SortKey for u8 {
    open spec fn key(self) -> int {
        self as int
    }

    fn key_le(&self, other: &Self) -> (r: bool) {
        *self <= *other
    }
}

impl SortKey for u16 {
    open spec fn key(self) -> int {
        self as int
    }

    fn key_le(&self, other: &Self) -> (r: bool) {
        *self <= *other
    }
}

impl SortKey for u128 {
    open spec fn key(self) -> int {
        self as int
    }

    fn key_le(&self, other: &Self) -> (r: bool) {
        *self <= *other
    }
}

/// A value carried under an integer key; tagged values are ordered by key alone.
#[derive(Clone, Copy, Debug, PartialEq, Eq)]
pub struct Tagged {
    pub key: i64,
    pub tag: u64,
}

impl SortKey for Tagged {
    open spec fn key(self) -> int {
        self.key as int
    }

    fn key_le(&self, other: &Self) -> (r: bool) {
        self.key <= other.key
    }
}

/// The values of `s` in `[lo, hi)` are in non-decreasing key order.
pub open spec fn sorted_between<T: SortKey>(s: Seq<T>, lo: int, hi: int) -> bool {
    forall|i: int, j: int| lo <= i < j < hi ==> #[trigger] s[i].key() <= #[trigger] s[j].key()
}

/// The whole of `s` is in non-decreasing key order.
pub open spec fn is_sorted<T: SortKey>(s: Seq<T>) -> bool {
    sorted_between(s, 0, s.len() as int)
}

/// `t` holds the same values as `s`, each as many times.
pub open spec fn is_permutation<T>(s: Seq<T>, t: Seq<T>) -> bool {
    s.to_multiset() == t.to_multiset()
}

/// Holds of the values whose key is `k`.
pub open spec fn has_key<T: SortKey>(k: int) -> spec_fn(T) -> bool {
    |x: T| x.key() == k
}

/// The values of `s` whose key is `k`, in the order in which they stand in `s`.
pub open spec fn with_key<T: SortKey>(s: Seq<T>, k: int) -> Seq<T> {
    s.filter(has_key(k))
}

/// Values of equal key stand in `t` in the same relative order as in `s`.
pub open spec fn keeps_equal_order<T: SortKey>(s: Seq<T>, t: Seq<T>) -> bool {
    forall|k: int| #[trigger] with_key(t, k) == with_key(s, k)
}

/// `s` and `t` agree at every index of `[0, len)` outside `[lo, hi)`.
pub open spec fn same_outside<T>(s: Seq<T>, t: Seq<T>, lo: int, hi: int) -> bool {
    &&& s.len() == t.len()
    &&& forall|i: int| 0 <= i < s.len() && !(lo <= i < hi) ==> #[trigger] s[i] == t[i]
}

/// A container whose contents read as a sequence of keyed values.
pub trait Elements<T: SortKey> {
    spec fn elements(&self) -> Seq<T>;
}

impl<T: SortKey> Elements<T> for [T] {
    open spec fn elements(&self) -> Seq<T> {
        self@
    }
}

impl<T: SortKey> Elements<T> for Vec<T> {
    open spec fn elements(&self) -> Seq<T> {
        self@
    }
}

} // verus!
