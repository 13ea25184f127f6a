use vstd::prelude::*;
use vstd::arithmetic::power::{
    lemma_pow_mod_noop, lemma_pow_multiplies, lemma_square_is_pow2, pow,
};
use vstd::arithmetic::div_mod::lemma_mul_mod_noop_right;

verus! {

/// `x` to the power `n`, modulo `m`; the empty power is `1` whatever `m` is.
pub open spec fn mod_pow_spec(x: nat, n: nat, m: nat) -> int {
    if n == 0 {
        1
    } else {
        pow(x as int, n) % (m as int)
    }
}

/// mod_pow(x, n, m) returns x^n mod m.
pub fn mod_pow(x: u64, n: u64, m: u64) -> (r: u64)
    requires
        n > 0 ==> m > 0,
        n > 0 ==> x * x <= u64::MAX,
        n > 0 ==> (m - 1) * (m - 1) <= u64::MAX,
    ensures
        r == mod_pow_spec(x as nat, n as nat, m as nat),
        n > 0 ==> r < m,
    decreases n,
{
    if n == 0 {
        1
    } else if n & 1 == 0 {
        let y = (x * x) % m;
        proof {
            assert(y * y <= (m - 1) * (m - 1)) by (nonlinear_arith)
                requires
                    y < m,
            ;
            assert(n & 1 == 0 ==> n % 2 == 0) by (bit_vector);
            assert(n >> 1 == n / 2) by (bit_vector);
        }
        let r = mod_pow(y, n >> 1, m);
        proof {
            let h = (n / 2) as nat;
            assert(h * 2 == n);
            lemma_pow_mod_noop(x * x, h, m as int);
            lemma_square_is_pow2(x as int);
            lemma_pow_multiplies(x as int, 2, h);
        }
        r
    } else {
        let r = mod_pow(x, n - 1, m);
        proof {
            if n - 1 > 0 {
                assert(r < m);
                assert(x * r <= u64::MAX) by (nonlinear_arith)
                    requires
                        r < m,
                        x * x <= u64::MAX,
                        (m - 1) * (m - 1) <= u64::MAX,
                ;
                lemma_mul_mod_noop_right(x as int, pow(x as int, (n - 1) as nat), m as int);
            }
            reveal(pow);
            assert(pow(x as int, n as nat) == x * pow(x as int, (n - 1) as nat));
            if n - 1 == 0 {
                assert(pow(x as int, 0) == 1);
            }
        }
        x * r % m
    }
}

} // verus!
