use vstd::prelude::*;
use crate::monoid::{Monoid, Semigroup};

verus! {

/// Addition, as a monoid over each integer type, with `0` as its identity.
///
/// The type names the operation; its one value is never needed.
pub enum Add {
    Plus,
}

impl Semigroup<usize> for Add {
    open spec fn op(a: usize, b: usize) -> usize {
        (a + b) as usize
    }

    open spec fn defined(a: usize, b: usize) -> bool {
        usize::MIN <= a + b <= usize::MAX
    }

    fn bin_op(left: &usize, right: &usize) -> (r: usize) {
        *left + *right
    }
}

impl Monoid<usize> for Add {
    open spec fn identity() -> usize {
        0
    }

    fn id() -> (r: usize) {
        0
    }

    proof fn lemma_identity(a: usize) {
    }
}

impl Semigroup<u8> for Add {
    open spec fn op(a: u8, b: u8) -> u8 {
        (a + b) as u8
    }

    open spec fn defined(a: u8, b: u8) -> bool {
        u8::MIN <= a + b <= u8::MAX
    }

    fn bin_op(left: &u8, right: &u8) -> (r: u8) {
        *left + *right
    }
}

impl Monoid<u8> for Add {
    open spec fn identity() -> u8 {
        0
    }

    fn id() -> (r: u8) {
        0
    }

    proof fn lemma_identity(a: u8) {
    }
}

impl Semigroup<u16> for Add {
    open spec fn op(a: u16, b: u16) -> u16 {
        (a + b) as u16
    }

    open spec fn defined(a: u16, b: u16) -> bool {
        u16::MIN <= a + b <= u16::MAX
    }

    fn bin_op(left: &u16, right: &u16) -> (r: u16) {
        *left + *right
    }
}

impl Monoid<u16> for Add {
    open spec fn identity() -> u16 {
        0
    }

    fn id() -> (r: u16) {
        0
    }

    proof fn lemma_identity(a: u16) {
    }
}

impl Semigroup<u32> for Add {
    open spec fn op(a: u32, b: u32) -> u32 {
        (a + b) as u32
    }

    open spec fn defined(a: u32, b: u32) -> bool {
        u32::MIN <= a + b <= u32::MAX
    }

    fn bin_op(left: &u32, right: &u32) -> (r: u32) {
        *left + *right
    }
}

impl Monoid<u32> for Add {
    open spec fn identity() -> u32 {
        0
    }

    fn id() -> (r: u32) {
        0
    }

    proof fn lemma_identity(a: u32) {
    }
}

impl Semigroup<u64> for Add {
    open spec fn op(a: u64, b: u64) -> u64 {
        (a + b) as u64
    }

    open spec fn defined(a: u64, b: u64) -> bool {
        u64::MIN <= a + b <= u64::MAX
    }

    fn bin_op(left: &u64, right: &u64) -> (r: u64) {
        *left + *right
    }
}

impl Monoid<u64> for Add {
    open spec fn identity() -> u64 {
        0
    }

    fn id() -> (r: u64) {
        0
    }

    proof fn lemma_identity(a: u64) {
    }
}

impl Semigroup<u128> for Add {
    open spec fn op(a: u128, b: u128) -> u128 {
        (a + b) as u128
    }

    open spec fn defined(a: u128, b: u128) -> bool {
        u128::MIN <= a + b <= u128::MAX
    }

    fn bin_op(left: &u128, right: &u128) -> (r: u128) {
        *left + *right
    }
}

impl Monoid<u128> for Add {
    open spec fn identity() -> u128 {
        0
    }

    fn id() -> (r: u128) {
        0
    }

    proof fn lemma_identity(a: u128) {
    }
}

impl Semigroup<isize> for Add {
    open spec fn op(a: isize, b: isize) -> isize {
        (a + b) as isize
    }

    open spec fn defined(a: isize, b: isize) -> bool {
        isize::MIN <= a + b <= isize::MAX
    }

    fn bin_op(left: &isize, right: &isize) -> (r: isize) {
        *left + *right
    }
}

impl Monoid<isize> for Add {
    open spec fn identity() -> isize {
        0
    }

    fn id() -> (r: isize) {
        0
    }

    proof fn lemma_identity(a: isize) {
    }
}

impl Semigroup<i8> for Add {
    open spec fn op(a: i8, b: i8) -> i8 {
        (a + b) as i8
    }

    open spec fn defined(a: i8, b: i8) -> bool {
        i8::MIN <= a + b <= i8::MAX
    }

    fn bin_op(left: &i8, right: &i8) -> (r: i8) {
        *left + *right
    }
}

impl Monoid<i8> for Add {
    open spec fn identity() -> i8 {
        0
    }

    fn id() -> (r: i8) {
        0
    }

    proof fn lemma_identity(a: i8) {
    }
}

impl Semigroup<i16> for Add {
    open spec fn op(a: i16, b: i16) -> i16 {
        (a + b) as i16
    }

    open spec fn defined(a: i16, b: i16) -> bool {
        i16::MIN <= a + b <= i16::MAX
    }

    fn bin_op(left: &i16, right: &i16) -> (r: i16) {
        *left + *right
    }
}

impl Monoid<i16> for Add {
    open spec fn identity() -> i16 {
        0
    }

    fn id() -> (r: i16) {
        0
    }

    proof fn lemma_identity(a: i16) {
    }
}

impl Semigroup<i32> for Add {
    open spec fn op(a: i32, b: i32) -> i32 {
        (a + b) as i32
    }

    open spec fn defined(a: i32, b: i32) -> bool {
        i32::MIN <= a + b <= i32::MAX
    }

    fn bin_op(left: &i32, right: &i32) -> (r: i32) {
        *left + *right
    }
}

impl Monoid<i32> for Add {
    open spec fn identity() -> i32 {
        0
    }

    fn id() -> (r: i32) {
        0
    }

    proof fn lemma_identity(a: i32) {
    }
}

impl Semigroup<i64> for Add {
    open spec fn op(a: i64, b: i64) -> i64 {
        (a + b) as i64
    }

    open spec fn defined(a: i64, b: i64) -> bool {
        i64::MIN <= a + b <= i64::MAX
    }

    fn bin_op(left: &i64, right: &i64) -> (r: i64) {
        *left + *right
    }
}

impl Monoid<i64> for Add {
    open spec fn identity() -> i64 {
        0
    }

    fn id() -> (r: i64) {
        0
    }

    proof fn lemma_identity(a: i64) {
    }
}

impl Semigroup<i128> for Add {
    open spec fn op(a: i128, b: i128) -> i128 {
        (a + b) as i128
    }

    open spec fn defined(a: i128, b: i128) -> bool {
        i128::MIN <= a + b <= i128::MAX
    }

    fn bin_op(left: &i128, right: &i128) -> (r: i128) {
        *left + *right
    }
}

impl Monoid<i128> for Add {
    open spec fn identity() -> i128 {
        0
    }

    fn id() -> (r: i128) {
        0
    }

    proof fn lemma_identity(a: i128) {
    }
}

} // verus!
