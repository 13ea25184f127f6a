use vstd::prelude::*;

verus! {

/// The greatest common divisor, by Euclid's recursion: `gcd(a, 0) == a`.
pub open spec fn gcd_spec(a: nat, b: nat) -> nat
    decreases b,
{
    if b == 0 {
        a
    } else {
        gcd_spec(b, a % b)
    }
}

/// gcd: greatest common divisor
pub fn gcd(a: u64, b: u64) -> (r: u64)
    ensures
        r == gcd_spec(a as nat, b as nat),
    decreases b,
{
    if b == 0 {
        a
    } else {
        gcd(b, a % b)
    }
}

/// lcm: least common multiple
pub fn lcm(a: u64, b: u64) -> (r: u64)
    requires
        a > 0 || b > 0,
        a * b <= u64::MAX,
    ensures
        r == (a * b) as nat / gcd_spec(a as nat, b as nat),
{
    let g = gcd(a, b);
    proof {
        lemma_gcd_positive(a as nat, b as nat);
    }
    a * b / g
}

/// The greatest common divisor of two numbers that are not both zero is
/// positive.
pub proof fn lemma_gcd_positive(a: nat, b: nat)
    requires
        a > 0 || b > 0,
    ensures
        gcd_spec(a, b) > 0,
    decreases b,
{
    if b > 0 {
        assert(a % b < b);
        lemma_gcd_positive(b, a % b);
    }
}

/// `d` divides `x`.
pub open spec fn divides(d: nat, x: nat) -> bool {
    exists|k: nat| x == #[trigger] (d * k)
}

/// `gcd_spec(a, b)` divides both `a` and `b`, and every common divisor of `a`
/// and `b` divides it.
pub proof fn lemma_gcd_divides(a: nat, b: nat)
    ensures
        divides(gcd_spec(a, b), a),
        divides(gcd_spec(a, b), b),
        forall|d: nat| divides(d, a) && divides(d, b) ==> divides(d, gcd_spec(a, b)),
    decreases b,
{
    if b == 0 {
        assert(a == a * 1);
        assert(0 == a * 0);
    } else {
        let q = a / b;
        let r = a % b;
        assert(a == b * q + r) by (nonlinear_arith)
            requires
                b > 0,
                q == a / b,
                r == a % b,
        ;
        assert(r < b);
        lemma_gcd_divides(b, r);
        let g = gcd_spec(b, r);
        assert(gcd_spec(a, b) == g);
        let kb = choose|k: nat| b == #[trigger] (g * k);
        let kr = choose|k: nat| r == #[trigger] (g * k);
        let ka: nat = kb * q + kr;
        assert(a == g * ka) by (nonlinear_arith)
            requires
                a == b * q + r,
                b == g * kb,
                r == g * kr,
                ka == kb * q + kr,
        ;
        assert forall|d: nat| divides(d, a) && divides(d, b) implies divides(d, g) by {
            let da = choose|k: nat| a == #[trigger] (d * k);
            let db = choose|k: nat| b == #[trigger] (d * k);
            assert(d > 0) by (nonlinear_arith)
                requires
                    b == d * db,
                    b > 0,
            ;
            assert(r == d * (da - db * q)) by (nonlinear_arith)
                requires
                    a == b * q + r,
                    a == d * da,
                    b == d * db,
            ;
            assert(da - db * q >= 0) by (nonlinear_arith)
                requires
                    r == d * (da - db * q),
                    d > 0,
                    r >= 0,
            ;
            let dr: nat = (da - db * q) as nat;
            assert(r == d * dr);
        }
    }
}

} // verus!
