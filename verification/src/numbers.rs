//! Greatest common divisors and least common multiples: what they are, what
//! holds of them, and the outside functions that compute them.
use vstd::prelude::*;
use vstd::arithmetic::div_mod::{
    lemma_div_multiples_vanish, lemma_fundamental_div_mod, lemma_mod_multiples_basic,
    lemma_truncate_middle,
};

verus! {

/// The magnitude of an integer.
pub open spec fn abs(x: int) -> nat {
    if x < 0 {
        (-x) as nat
    } else {
        x as nat
    }
}

/// Greatest common divisor of two naturals, by Euclid's rule; `gcd(0, 0) == 0`.
pub open spec fn gcd(a: nat, b: nat) -> nat
    decreases b,
{
    if b == 0 {
        a
    } else {
        gcd(b, a % b)
    }
}

/// Least common multiple of two naturals; zero when either is zero.
pub open spec fn lcm(a: nat, b: nat) -> nat {
    if a == 0 || b == 0 {
        0
    } else {
        a * (b / gcd(a, b))
    }
}

/// `x` is a multiple of `c`.
pub open spec fn is_multiple(x: nat, c: nat) -> bool {
    c > 0 && x % c == 0
}

proof fn lemma_multiple_sum(c: nat, x: nat, y: nat, k: nat)
    requires
        is_multiple(x, c),
        is_multiple(y, c),
    ensures
        is_multiple(x * k + y, c),
{
    let x1 = x / c;
    let y1 = y / c;
    lemma_fundamental_div_mod(x as int, c as int);
    lemma_fundamental_div_mod(y as int, c as int);
    assert(x * k + y == (x1 * k + y1) * c) by (nonlinear_arith)
        requires
            x == c * x1,
            y == c * y1,
    ;
    lemma_mod_multiples_basic((x1 * k + y1) as int, c as int);
}

proof fn lemma_multiple_rem(c: nat, a: nat, b: nat)
    requires
        is_multiple(a, c),
        is_multiple(b, c),
        b > 0,
    ensures
        is_multiple(a % b, c),
{
    let a1 = a / c;
    let b1 = b / c;
    let q = a / b;
    lemma_fundamental_div_mod(a as int, c as int);
    lemma_fundamental_div_mod(b as int, c as int);
    lemma_fundamental_div_mod(a as int, b as int);
    let r = a % b;
    assert(r == (a1 - b1 * q) * c) by (nonlinear_arith)
        requires
            a == c * a1,
            b == c * b1,
            a == b * q + r,
    ;
    lemma_mod_multiples_basic(a1 - b1 * q, c as int);
}

/// The greatest common divisor is positive unless both arguments are zero, and
/// it divides both of them.
pub proof fn lemma_gcd_divides(a: nat, b: nat)
    requires
        a > 0 || b > 0,
    ensures
        gcd(a, b) > 0,
        a % gcd(a, b) == 0,
        b % gcd(a, b) == 0,
    decreases b,
{
    if b == 0 {
        lemma_mod_multiples_basic(1, a as int);
    } else {
        let r = a % b;
        let g = gcd(b, r);
        lemma_gcd_divides(b, r);
        lemma_fundamental_div_mod(a as int, b as int);
        lemma_multiple_sum(g, b, r, a / b);
        assert(b * (a / b) + r == a);
    }
}

/// Every common divisor of two naturals divides their greatest common divisor.
pub proof fn lemma_gcd_greatest(a: nat, b: nat, c: nat)
    requires
        is_multiple(a, c),
        is_multiple(b, c),
    ensures
        is_multiple(gcd(a, b), c),
    decreases b,
{
    if b != 0 {
        lemma_multiple_rem(c, a, b);
        lemma_gcd_greatest(b, a % b, c);
    }
}

/// Dividing two naturals by their greatest common divisor leaves them coprime.
pub proof fn lemma_gcd_reduced(a: nat, b: nat)
    requires
        a > 0 || b > 0,
    ensures
        gcd(a / gcd(a, b), b / gcd(a, b)) == 1,
{
    let g = gcd(a, b);
    lemma_gcd_divides(a, b);
    let a1 = a / g;
    let b1 = b / g;
    lemma_fundamental_div_mod(a as int, g as int);
    lemma_fundamental_div_mod(b as int, g as int);
    assert(a1 > 0 || b1 > 0) by (nonlinear_arith)
        requires
            a == g * a1,
            b == g * b1,
            a > 0 || b > 0,
    ;
    let h = gcd(a1, b1);
    lemma_gcd_divides(a1, b1);
    lemma_fundamental_div_mod(a1 as int, h as int);
    lemma_fundamental_div_mod(b1 as int, h as int);
    let a2 = a1 / h;
    let b2 = b1 / h;
    assert(a == a2 * (g * h) && b == b2 * (g * h) && g * h > 0) by (nonlinear_arith)
        requires
            a == g * a1,
            b == g * b1,
            a1 == h * a2,
            b1 == h * b2,
            g > 0,
            h > 0,
    ;
    lemma_mod_multiples_basic(a2 as int, (g * h) as int);
    lemma_mod_multiples_basic(b2 as int, (g * h) as int);
    lemma_gcd_greatest(a, b, g * h);
    lemma_fundamental_div_mod(g as int, (g * h) as int);
    let k = g / (g * h);
    assert(h == 1) by (nonlinear_arith)
        requires
            g == (g * h) * k,
            g > 0,
            h > 0,
            k >= 0,
    ;
}

/// The greatest common divisor does not depend on the order of the two.
pub proof fn lemma_gcd_symmetric(a: nat, b: nat)
    ensures
        gcd(a, b) == gcd(b, a),
{
    if a == 0 && b == 0 {
    } else {
        lemma_gcd_divides(a, b);
        lemma_gcd_divides(b, a);
        let g = gcd(a, b);
        let h = gcd(b, a);
        lemma_gcd_greatest(b, a, g);
        lemma_gcd_greatest(a, b, h);
        lemma_fundamental_div_mod(h as int, g as int);
        lemma_fundamental_div_mod(g as int, h as int);
        let p = h / g;
        let q = g / h;
        assert(g == h) by (nonlinear_arith)
            requires
                h == g * p,
                g == h * q,
                g > 0,
                h > 0,
                p >= 0,
                q >= 0,
        ;
    }
}

/// Multiplying both by `c` multiplies the greatest common divisor by `c`.
pub proof fn lemma_gcd_scaled(a: nat, b: nat, c: nat)
    requires
        c > 0,
    ensures
        gcd(a * c, b * c) == gcd(a, b) * c,
    decreases b,
{
    if b == 0 {
        assert(b * c == 0) by (nonlinear_arith)
            requires
                b == 0,
        ;
    } else {
        assert(b * c > 0) by (nonlinear_arith)
            requires
                b > 0,
                c > 0,
        ;
        lemma_truncate_middle(a as int, c as int, b as int);
        assert((a * c) == (c * a) && (b * c) == (c * b) && (a % b) * c == c * (a % b))
            by (nonlinear_arith);
        lemma_gcd_scaled(b, a % b, c);
    }
}

/// A number that divides a product and has no divisor in common with one
/// factor divides the other.
pub proof fn lemma_coprime_divides(a: nat, b: nat, c: nat)
    requires
        a > 0,
        gcd(a, b) == 1,
        (b * c) % a == 0,
    ensures
        c % a == 0,
{
    if c == 0 {
    } else {
        lemma_gcd_scaled(a, b, c);
        assert(gcd(a * c, b * c) == c) by (nonlinear_arith)
            requires
                gcd(a * c, b * c) == 1 * c,
        ;
        assert(a * c == c * a) by (nonlinear_arith);
        lemma_mod_multiples_basic(c as int, a as int);
        lemma_gcd_greatest(a * c, b * c, a);
    }
}

/// The least common multiple of two positive naturals is positive, and dividing
/// it by either of them leaves the other one's cofactor.
pub proof fn lemma_lcm_cofactors(a: nat, b: nat)
    requires
        a > 0,
        b > 0,
    ensures
        lcm(a, b) > 0,
        lcm(a, b) == a * (b / gcd(a, b)),
        lcm(a, b) == b * (a / gcd(a, b)),
        lcm(a, b) / a == b / gcd(a, b),
        lcm(a, b) / b == a / gcd(a, b),
        0 < b / gcd(a, b) <= b,
        0 < a / gcd(a, b) <= a,
{
    let g = gcd(a, b);
    lemma_gcd_divides(a, b);
    let a1 = a / g;
    let b1 = b / g;
    lemma_fundamental_div_mod(a as int, g as int);
    lemma_fundamental_div_mod(b as int, g as int);
    assert(a1 > 0 && b1 > 0 && a1 <= a && b1 <= b && a * b1 == b * a1 && a * b1 > 0)
        by (nonlinear_arith)
        requires
            a == g * a1,
            b == g * b1,
            a > 0,
            b > 0,
            g > 0,
            a1 >= 0,
            b1 >= 0,
    ;
    lemma_div_multiples_vanish(b1 as int, a as int);
    lemma_div_multiples_vanish(a1 as int, b as int);
    assert(a * b1 == b1 * a) by (nonlinear_arith);
    assert(b * a1 == a1 * b) by (nonlinear_arith);
}

/// `num::integer::gcd` at 128 bits: the greatest common divisor of the two
/// magnitudes, never negative. `i128::MIN` is kept out: with it the divisor can
/// be 2^127, which the function cannot return.
#[verifier::external_body]
pub(crate) fn gcd_wide(a: i128, b: i128) -> (g: i128)
    requires
        a > i128::MIN,
        b > i128::MIN,
    ensures
        g == gcd(abs(a as int), abs(b as int)),
{
    num::integer::gcd(a, b)
}

/// `num::integer::lcm` at 128 bits: the least common multiple of the two
/// magnitudes, zero when either is zero. Both arguments stay within 64 bits so
/// that the product it forms cannot overflow.
#[verifier::external_body]
pub(crate) fn lcm_wide(a: i128, b: i128) -> (m: i128)
    requires
        -0x8000_0000_0000_0000 <= a <= 0x8000_0000_0000_0000,
        -0x8000_0000_0000_0000 <= b <= 0x8000_0000_0000_0000,
    ensures
        m == lcm(abs(a as int), abs(b as int)),
{
    num::integer::lcm(a, b)
}

} // verus!
