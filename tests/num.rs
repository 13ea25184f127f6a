use algorithms::math::{gcd, lcm};
use algorithms::modulo::mod_pow;
use algorithms::monoid::{Monoid, Semigroup};
use algorithms::num::Add;
use algorithms::segtree::Segtree;

#[test]
fn test_integer_bop() {
    let result = Add::bin_op(&2, &2);
    assert_eq!(result, 4);
    let result = Add::bin_op(&2, &0);
    assert_eq!(result, 2);
}

#[test]
fn test_integer_id() {
    let result: u8 = Add::id();
    assert_eq!(result, 0);
}

#[test]
fn add_on_other_widths() {
    let a: i8 = Add::bin_op(&-100, &27);
    assert_eq!(a, -73);
    let b: u128 = Add::bin_op(&(u64::MAX as u128), &1);
    assert_eq!(b, 1u128 << 64);
    let z: i64 = Add::id();
    assert_eq!(Add::bin_op(&z, &-5i64), -5);
}

#[test]
fn gcd_values() {
    assert_eq!(gcd(12, 18), 6);
    assert_eq!(gcd(18, 12), 6);
    assert_eq!(gcd(7, 0), 7);
    assert_eq!(gcd(0, 7), 7);
    assert_eq!(gcd(0, 0), 0);
    assert_eq!(gcd(17, 5), 1);
}

#[test]
fn lcm_values() {
    assert_eq!(lcm(4, 6), 12);
    assert_eq!(lcm(7, 5), 35);
    assert_eq!(lcm(0, 9), 0);
    assert_eq!(lcm(12, 12), 12);
}

#[test]
fn mod_pow_values() {
    assert_eq!(mod_pow(2, 10, 1000), 24);
    assert_eq!(mod_pow(3, 0, 7), 1);
    assert_eq!(mod_pow(3, 5, 7), 5);
    assert_eq!(mod_pow(10, 9, 1_000_000_007), 1_000_000_000);
    assert_eq!(mod_pow(2, 62, 1_000_000_007), 145_586_002);
    assert_eq!(mod_pow(5, 3, 1), 0);
}

#[test]
fn segtree_builds() {
    let _t: Segtree<i32, Add> = Segtree::new(5);
    let _u: Segtree<u64, Add> = Segtree::new(0);
    let _w: Segtree<u64, Add> = Segtree::new(8);
}

#[test]
fn mod_pow_empty_power_and_wide_modulus() {
    assert_eq!(mod_pow(u64::MAX, 0, 0), 1);
    assert_eq!(mod_pow(7, 0, 1), 1);
    let m: u64 = 1 << 32;
    assert_eq!(mod_pow(m - 1, 5, m), m - 1);
    assert_eq!(mod_pow(3, 40, m), 3u64.pow(40) % m);
}
