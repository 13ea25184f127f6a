use vstd::prelude::*;

verus! {

/// An operation that combines two values of `T` into one.
pub trait Semigroup<T: Clone> {
    /// The value of the operation on `a` and `b`.
    spec fn op(a: T, b: T) -> T;

    /// The operation is defined on `a` and `b` (it stays within the type).
    spec fn defined(a: T, b: T) -> bool;

    /// Binary operation of the semigroup.
    fn bin_op(left: &T, right: &T) -> (r: T)
        requires
            Self::defined(*left, *right),
        ensures
            r == Self::op(*left, *right),
    ;
}

/// A semigroup with an identity element.
pub trait Monoid<T: Clone>: Semigroup<T> {
    /// The identity element.
    spec fn identity() -> T;

    /// Identity element of the monoid.
    fn id() -> (r: T)
        ensures
            r == Self::identity(),
    ;

    /// Combining with the identity, on either side, changes nothing.
    proof fn lemma_identity(a: T)
        ensures
            Self::defined(Self::identity(), a),
            Self::defined(a, Self::identity()),
            Self::op(Self::identity(), a) == a,
            Self::op(a, Self::identity()) == a,
    ;
}

} // verus!
