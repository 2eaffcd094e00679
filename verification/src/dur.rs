//! Exact rational durations, always handed out in lowest terms.
use vstd::prelude::*;
use vstd::arithmetic::div_mod::{
    lemma_div_pos_is_pos, lemma_fundamental_div_mod, lemma_mod_multiples_basic,
};
use crate::numbers::{
    abs, gcd, gcd_wide, lcm, lcm_wide, lemma_coprime_divides, lemma_gcd_divides,
    lemma_gcd_reduced, lemma_gcd_symmetric, lemma_lcm_cofactors,
};
use vstd::std_specs::ops::{AddSpecImpl, DivSpecImpl, MulSpecImpl, SubSpecImpl};
use std::ops::{Add, Div, Mul, Sub};
use crate::parse::ParseError;

verus! {

/// A bar: the whole of a one-bar pattern.
pub fn bar() -> (r: Dur)
    ensures
        r == (Dur { num: 1, den: 1 }),
{
    Dur { num: 1, den: 1 }
}

/// Half a bar; also the sounded fraction that every parsed note starts with.
pub fn half() -> (r: Dur)
    ensures
        r == (Dur { num: 1, den: 2 }),
{
    Dur { num: 1, den: 2 }
}

/// Another name for `Dur`.
pub type FractionalDuration = Dur;

/// A rational number of bars, `num / den`.
#[derive(Clone, Copy, Debug, PartialEq, Eq, Structural)]
pub struct Dur {
    pub num: i64,
    pub den: i64,
}

impl Dur {
    /// The denominator is not zero and neither field is `i64::MIN`, so that both
    /// magnitudes fit in 63 bits.
    pub open spec fn valid(self) -> bool {
        self.den != 0 && self.num > i64::MIN && self.den > i64::MIN
    }

    /// In lowest terms with a positive denominator: the one form in which every
    /// operation hands a duration out.
    pub open spec fn is_reduced(self) -> bool {
        self.den > 0 && self.num > i64::MIN && gcd(abs(self.num as int), abs(self.den as int)) == 1
    }

    /// Numerator of `n / d` in lowest terms, carrying the sign of the fraction.
    pub open spec fn canon_num(n: int, d: int) -> int {
        let q = (abs(n) / gcd(abs(n), abs(d))) as int;
        if (n < 0) != (d < 0) {
            -q
        } else {
            q
        }
    }

    /// Denominator of `n / d` in lowest terms, always positive.
    pub open spec fn canon_den(n: int, d: int) -> int {
        (abs(d) / gcd(abs(n), abs(d))) as int
    }

    /// `n / d` is a fraction whose lowest terms fit in a `Dur`.
    pub open spec fn representable(n: int, d: int) -> bool {
        d != 0 && abs(Self::canon_num(n, d)) <= i64::MAX && Self::canon_den(n, d) <= i64::MAX
    }

    /// The duration `n / d` in lowest terms.
    pub open spec fn spec_new(n: int, d: int) -> Dur {
        Dur { num: Self::canon_num(n, d) as i64, den: Self::canon_den(n, d) as i64 }
    }

    /// The numerator with the denominator's sign folded into it.
    pub open spec fn signed_num(self) -> int {
        if self.den < 0 {
            -(self.num as int)
        } else {
            self.num as int
        }
    }

    /// Numerator of the sum or difference over the least common multiple of the
    /// two denominators; `sign` is 1 to add and -1 to subtract.
    pub open spec fn combined_num(self, other: Dur, sign: int) -> int {
        let m = lcm(abs(self.den as int), abs(other.den as int)) as int;
        self.signed_num() * (m / abs(self.den as int) as int) + sign * (other.signed_num() * (m / abs(
            other.den as int,
        ) as int))
    }

    /// The least common multiple of the two denominators.
    pub open spec fn combined_den(self, other: Dur) -> int {
        lcm(abs(self.den as int), abs(other.den as int)) as int
    }

    /// The sum, in lowest terms.
    pub open spec fn spec_add(self, other: Dur) -> Dur {
        Self::spec_new(self.combined_num(other, 1), self.combined_den(other))
    }

    /// The difference, in lowest terms.
    pub open spec fn spec_sub(self, other: Dur) -> Dur {
        Self::spec_new(self.combined_num(other, -1), self.combined_den(other))
    }

    /// The product, in lowest terms.
    pub open spec fn spec_mul(self, other: Dur) -> Dur {
        Self::spec_new(self.num * other.num, self.den * other.den)
    }

    /// The quotient, in lowest terms: the product with the reciprocal.
    pub open spec fn spec_div(self, other: Dur) -> Dur {
        Self::spec_new(self.num * other.den, self.den * other.num)
    }

    /// `k` times this duration, in lowest terms.
    pub open spec fn spec_mul_int(self, k: int) -> Dur {
        Self::spec_new(self.num * k, self.den as int)
    }

    /// The `k`th part of this duration, in lowest terms.
    pub open spec fn spec_div_int(self, k: int) -> Dur {
        Self::spec_new(self.num as int, self.den * k)
    }

    /// Brings `n / d` to lowest terms, or reports that they do not fit.
    pub(crate) fn reduce_wide(n: i128, d: i128) -> (r: Option<Dur>)
        requires
            d != 0,
            n > i128::MIN,
            d > i128::MIN,
        ensures
            r == (if Self::representable(n as int, d as int) {
                Some(Self::spec_new(n as int, d as int))
            } else {
                None
            }),
            r is Some ==> r->0.is_reduced(),
    {
        let g = gcd_wide(n, d);
        let an: i128 = if n < 0 { -n } else { n };
        let ad: i128 = if d < 0 { -d } else { d };
        proof {
            lemma_gcd_divides(an as nat, ad as nat);
            lemma_gcd_reduced(an as nat, ad as nat);
            lemma_div_pos_is_pos(an as int, g as int);
            lemma_fundamental_div_mod(ad as int, g as int);
            assert(ad / g > 0) by (nonlinear_arith)
                requires
                    ad == g * (ad / g),
                    ad > 0,
                    g > 0,
            ;
        }
        let qn: i128 = an / g;
        let qd: i128 = ad / g;
        if qn > 0x7fff_ffff_ffff_ffff || qd > 0x7fff_ffff_ffff_ffff {
            return None;
        }
        let negative = (n < 0) != (d < 0);
        let num: i128 = if negative { -qn } else { qn };
        let r = Dur { num: num as i64, den: qd as i64 };
        assert(abs(r.num as int) == qn);
        Some(r)
    }

    /// The duration `num / den` in lowest terms.
    pub fn new(num: i64, den: i64) -> (r: Dur)
        requires
            Self::representable(num as int, den as int),
        ensures
            r == Self::spec_new(num as int, den as int),
            r.is_reduced(),
    {
        Self::reduce_wide(num as i128, den as i128).unwrap()
    }

    /// The duration `num / den` in lowest terms, or `InvalidDuration` where `den`
    /// is zero or the lowest terms do not fit.
    pub fn try_new(num: i64, den: i64) -> (r: Result<Dur, ParseError>)
        ensures
            r == (if Self::representable(num as int, den as int) {
                Ok::<Dur, ParseError>(Self::spec_new(num as int, den as int))
            } else {
                Err::<Dur, ParseError>(ParseError::InvalidDuration)
            }),
            r is Ok ==> r->Ok_0.is_reduced(),
    {
        if den == 0 {
            return Err(ParseError::InvalidDuration);
        }
        match Self::reduce_wide(num as i128, den as i128) {
            Some(d) => Ok(d),
            None => Err(ParseError::InvalidDuration),
        }
    }

    /// The same duration in lowest terms.
    pub fn reduce(self) -> (r: Dur)
        requires
            Self::representable(self.num as int, self.den as int),
        ensures
            r == Self::spec_new(self.num as int, self.den as int),
            r.is_reduced(),
    {
        Self::reduce_wide(self.num as i128, self.den as i128).unwrap()
    }

    /// The reciprocal, `den / num`, in lowest terms.
    pub fn recip(self) -> (r: Dur)
        requires
            Self::representable(self.den as int, self.num as int),
        ensures
            r == Self::spec_new(self.den as int, self.num as int),
            r.is_reduced(),
    {
        Self::reduce_wide(self.den as i128, self.num as i128).unwrap()
    }

    /// This duration split into `divisor` equal parts: `num / (den * divisor)`.
    pub fn div_int(self, divisor: i64) -> (r: Dur)
        requires
            Self::representable(self.num as int, self.den * divisor),
        ensures
            r == self.spec_div_int(divisor as int),
            r.is_reduced(),
    {
        self.checked_div_int(divisor).unwrap()
    }

    /// This duration split into `parts` equal parts, or `None` where the result
    /// has no representation.
    pub fn checked_div_count(self, parts: usize) -> (r: Option<Dur>)
        ensures
            r == (if Self::representable(self.num as int, self.den * parts) {
                Some(self.spec_div_int(parts as int))
            } else {
                None
            }),
            r is Some ==> r->0.is_reduced(),
    {
        if self.den == 0 || parts == 0 {
            assert(self.den * parts == 0) by (nonlinear_arith)
                requires
                    self.den == 0 || parts == 0,
            ;
            return None;
        }
        assert(self.den * parts != 0 && -0x7fff_ffff_ffff_ffff_ffff_ffff_ffff_ffff <= self.den * parts
            <= 0x7fff_ffff_ffff_ffff_ffff_ffff_ffff_ffff) by (nonlinear_arith)
            requires
                self.den != 0,
                parts != 0,
                -0x8000_0000_0000_0000 <= self.den <= 0x7fff_ffff_ffff_ffff,
                0 <= parts <= 0xffff_ffff_ffff_ffff,
        ;
        Self::reduce_wide(self.num as i128, (self.den as i128) * (parts as i128))
    }

    /// `div_int`, with `None` where the result has no representation.
    pub fn checked_div_int(self, divisor: i64) -> (r: Option<Dur>)
        ensures
            r == (if Self::representable(self.num as int, self.den * divisor) {
                Some(self.spec_div_int(divisor as int))
            } else {
                None
            }),
            r is Some ==> r->0.is_reduced(),
    {
        if self.den == 0 || divisor == 0 {
            assert(self.den * divisor == 0) by (nonlinear_arith)
                requires
                    self.den == 0 || divisor == 0,
            ;
            return None;
        }
        assert(self.den * divisor != 0 && -0x4000_0000_0000_0000_0000_0000_0000_0000 <= self.den
            * divisor <= 0x4000_0000_0000_0000_0000_0000_0000_0000) by (nonlinear_arith)
            requires
                self.den != 0,
                divisor != 0,
                -0x8000_0000_0000_0000 <= self.den <= 0x8000_0000_0000_0000,
                -0x8000_0000_0000_0000 <= divisor <= 0x8000_0000_0000_0000,
        ;
        Self::reduce_wide(self.num as i128, (self.den as i128) * (divisor as i128))
    }

    /// Sum or difference over the least common multiple of the denominators.
    fn combine(self, other: Dur, subtract: bool) -> (r: Option<Dur>)
        requires
            self.valid(),
            other.valid(),
        ensures
            r == (if Self::representable(
                self.combined_num(other, if subtract { -1 } else { 1 }),
                self.combined_den(other),
            ) {
                Some(
                    Self::spec_new(
                        self.combined_num(other, if subtract { -1 } else { 1 }),
                        self.combined_den(other),
                    ),
                )
            } else {
                None
            }),
            r is Some ==> r->0.is_reduced(),
    {
        let d1: i128 = if self.den < 0 { -(self.den as i128) } else { self.den as i128 };
        let d2: i128 = if other.den < 0 { -(other.den as i128) } else { other.den as i128 };
        let n1: i128 = if self.den < 0 { -(self.num as i128) } else { self.num as i128 };
        let n2: i128 = if other.den < 0 { -(other.num as i128) } else { other.num as i128 };
        let m = lcm_wide(self.den as i128, other.den as i128);
        proof {
            lemma_lcm_cofactors(d1 as nat, d2 as nat);
        }
        let f1: i128 = m / d1;
        let f2: i128 = m / d2;
        assert(-0x4000_0000_0000_0000_0000_0000_0000_0000 < n1 * f1
            < 0x4000_0000_0000_0000_0000_0000_0000_0000) by (nonlinear_arith)
            requires
                -0x8000_0000_0000_0000 < n1 < 0x8000_0000_0000_0000,
                0 < f1 < 0x8000_0000_0000_0000,
        ;
        assert(-0x4000_0000_0000_0000_0000_0000_0000_0000 < n2 * f2
            < 0x4000_0000_0000_0000_0000_0000_0000_0000) by (nonlinear_arith)
            requires
                -0x8000_0000_0000_0000 < n2 < 0x8000_0000_0000_0000,
                0 < f2 < 0x8000_0000_0000_0000,
        ;
        let t1: i128 = n1 * f1;
        let t2: i128 = n2 * f2;
        let n: i128 = if subtract { t1 - t2 } else { t1 + t2 };
        assert(n == self.combined_num(other, if subtract { -1 } else { 1 })) by (nonlinear_arith)
            requires
                n == (if subtract { t1 - t2 } else { t1 + t2 }),
                t1 == n1 * f1,
                t2 == n2 * f2,
                self.combined_num(other, if subtract { -1 } else { 1 }) == n1 * f1 + (if subtract {
                    -1
                } else {
                    1int
                }) * (n2 * f2),
        ;
        Self::reduce_wide(n, m)
    }

    /// The sum in lowest terms, or `None` where it has no representation.
    pub fn checked_add(self, other: Dur) -> (r: Option<Dur>)
        requires
            self.valid(),
            other.valid(),
        ensures
            r == (if Self::representable(self.combined_num(other, 1), self.combined_den(other)) {
                Some(self.spec_add(other))
            } else {
                None
            }),
            r is Some ==> r->0.is_reduced(),
    {
        self.combine(other, false)
    }

    /// The difference in lowest terms, or `None` where it has no representation.
    pub fn checked_sub(self, other: Dur) -> (r: Option<Dur>)
        requires
            self.valid(),
            other.valid(),
        ensures
            r == (if Self::representable(self.combined_num(other, -1), self.combined_den(other)) {
                Some(self.spec_sub(other))
            } else {
                None
            }),
            r is Some ==> r->0.is_reduced(),
    {
        self.combine(other, true)
    }

    /// The product in lowest terms, or `None` where it has no representation.
    pub fn checked_mul(self, other: Dur) -> (r: Option<Dur>)
        ensures
            r == (if Self::representable(self.num * other.num, self.den * other.den) {
                Some(self.spec_mul(other))
            } else {
                None
            }),
            r is Some ==> r->0.is_reduced(),
    {
        Self::reduce_product(self.num, other.num, self.den, other.den)
    }

    /// The quotient in lowest terms, or `None` where it has no representation.
    pub fn checked_div(self, other: Dur) -> (r: Option<Dur>)
        ensures
            r == (if Self::representable(self.num * other.den, self.den * other.num) {
                Some(self.spec_div(other))
            } else {
                None
            }),
            r is Some ==> r->0.is_reduced(),
    {
        Self::reduce_product(self.num, other.den, self.den, other.num)
    }

    /// `(num * k) / den` in lowest terms, or `None` where it has no representation.
    pub fn checked_mul_int(self, k: i32) -> (r: Option<Dur>)
        ensures
            r == (if Self::representable(self.num * k, self.den as int) {
                Some(self.spec_mul_int(k as int))
            } else {
                None
            }),
            r is Some ==> r->0.is_reduced(),
    {
        assert(self.den * 1 == self.den) by (nonlinear_arith);
        Self::reduce_product(self.num, k as i64, self.den, 1)
    }

    /// `(a * b) / (c * d)` in lowest terms.
    fn reduce_product(a: i64, b: i64, c: i64, d: i64) -> (r: Option<Dur>)
        ensures
            r == (if Self::representable(a * b, c * d) {
                Some(Self::spec_new(a * b, c * d))
            } else {
                None
            }),
            r is Some ==> r->0.is_reduced(),
    {
        if c == 0 || d == 0 {
            assert(c * d == 0) by (nonlinear_arith)
                requires
                    c == 0 || d == 0,
            ;
            return None;
        }
        assert(c * d != 0 && -0x4000_0000_0000_0000_0000_0000_0000_0000 <= c * d
            <= 0x4000_0000_0000_0000_0000_0000_0000_0000) by (nonlinear_arith)
            requires
                c != 0,
                d != 0,
                -0x8000_0000_0000_0000 <= c <= 0x8000_0000_0000_0000,
                -0x8000_0000_0000_0000 <= d <= 0x8000_0000_0000_0000,
        ;
        assert(-0x4000_0000_0000_0000_0000_0000_0000_0000 <= a * b
            <= 0x4000_0000_0000_0000_0000_0000_0000_0000) by (nonlinear_arith)
            requires
                -0x8000_0000_0000_0000 <= a <= 0x8000_0000_0000_0000,
                -0x8000_0000_0000_0000 <= b <= 0x8000_0000_0000_0000,
        ;
        Self::reduce_wide((a as i128) * (b as i128), (c as i128) * (d as i128))
    }
}

/// A fraction of integers as it is written, reduced or not.
pub struct Ratio {
    pub num: int,
    pub den: int,
}

/// The sum of two fractions over the product of their denominators.
pub open spec fn ratio_add(a: Ratio, b: Ratio) -> Ratio {
    Ratio { num: a.num * b.den + b.num * a.den, den: a.den * b.den }
}

/// The two fractions stand for the same number.
pub open spec fn same_value(a: Ratio, b: Ratio) -> bool {
    a.num * b.den == b.num * a.den
}

/// Standing for the same number carries over a fraction in the middle.
pub proof fn lemma_same_value_trans(a: Ratio, b: Ratio, c: Ratio)
    requires
        same_value(a, b),
        same_value(b, c),
        b.den != 0,
    ensures
        same_value(a, c),
{
    assert(b.den * (a.num * c.den - c.num * a.den) == 0) by (nonlinear_arith)
        requires
            a.num * b.den == b.num * a.den,
            b.num * c.den == c.num * b.den,
    ;
    assert(a.num * c.den - c.num * a.den == 0) by (nonlinear_arith)
        requires
            b.den * (a.num * c.den - c.num * a.den) == 0,
            b.den != 0,
    ;
}

/// Adding the same fraction to two that stand for one number gives two that
/// stand for one number.
pub proof fn lemma_ratio_add_left(a: Ratio, b: Ratio, c: Ratio)
    requires
        same_value(a, b),
    ensures
        same_value(ratio_add(a, c), ratio_add(b, c)),
{
    let u = a.num * b.den;
    let v = b.num * a.den;
    assert((a.num * c.den) * (b.den * c.den) == u * (c.den * c.den)) by (nonlinear_arith)
        requires
            u == a.num * b.den,
    ;
    assert((b.num * c.den) * (a.den * c.den) == v * (c.den * c.den)) by (nonlinear_arith)
        requires
            v == b.num * a.den,
    ;
    assert((c.num * a.den) * (b.den * c.den) == (c.num * b.den) * (a.den * c.den))
        by (nonlinear_arith);
    assert((a.num * c.den + c.num * a.den) * (b.den * c.den) == (a.num * c.den) * (b.den * c.den)
        + (c.num * a.den) * (b.den * c.den)) by (nonlinear_arith);
    assert((b.num * c.den + c.num * b.den) * (a.den * c.den) == (b.num * c.den) * (a.den * c.den)
        + (c.num * b.den) * (a.den * c.den)) by (nonlinear_arith);
}

/// Adding two fractions that stand for one number to the same fraction gives
/// two that stand for one number.
pub proof fn lemma_ratio_add_right(c: Ratio, a: Ratio, b: Ratio)
    requires
        same_value(a, b),
    ensures
        same_value(ratio_add(c, a), ratio_add(c, b)),
{
    let u = a.num * b.den;
    let v = b.num * a.den;
    assert((a.num * c.den) * (c.den * b.den) == u * (c.den * c.den)) by (nonlinear_arith)
        requires
            u == a.num * b.den,
    ;
    assert((b.num * c.den) * (c.den * a.den) == v * (c.den * c.den)) by (nonlinear_arith)
        requires
            v == b.num * a.den,
    ;
    assert((c.num * a.den) * (c.den * b.den) == (c.num * b.den) * (c.den * a.den))
        by (nonlinear_arith);
    assert((c.num * a.den + a.num * c.den) * (c.den * b.den) == (c.num * a.den) * (c.den * b.den)
        + (a.num * c.den) * (c.den * b.den)) by (nonlinear_arith);
    assert((c.num * b.den + b.num * c.den) * (c.den * a.den) == (c.num * b.den) * (c.den * a.den)
        + (b.num * c.den) * (c.den * a.den)) by (nonlinear_arith);
}

/// Sums of three fractions do not depend on where the brackets stand.
pub proof fn lemma_ratio_add_assoc(a: Ratio, b: Ratio, c: Ratio)
    ensures
        ratio_add(ratio_add(a, b), c) == ratio_add(a, ratio_add(b, c)),
{
    let x = a.num * b.den;
    let y = b.num * a.den;
    let p = b.num * c.den;
    let q = c.num * b.den;
    assert((x + y) * c.den == x * c.den + y * c.den) by (nonlinear_arith);
    assert(x * c.den == a.num * (b.den * c.den)) by (nonlinear_arith)
        requires
            x == a.num * b.den,
    ;
    assert(y * c.den == p * a.den) by (nonlinear_arith)
        requires
            y == b.num * a.den,
            p == b.num * c.den,
    ;
    assert(c.num * (a.den * b.den) == q * a.den) by (nonlinear_arith)
        requires
            q == c.num * b.den,
    ;
    assert((p + q) * a.den == p * a.den + q * a.den) by (nonlinear_arith);
    assert((a.den * b.den) * c.den == a.den * (b.den * c.den)) by (nonlinear_arith);
}

impl Dur {
    /// The duration as the fraction that its fields write.
    pub open spec fn ratio(self) -> Ratio {
        Ratio { num: self.num as int, den: self.den as int }
    }

    /// Lowest terms stand for the number that the fraction stood for, and are
    /// in lowest terms.
    pub proof fn lemma_new_value(n: int, d: int)
        requires
            Self::representable(n, d),
        ensures
            same_value(Self::spec_new(n, d).ratio(), Ratio { num: n, den: d }),
            Self::spec_new(n, d).is_reduced(),
    {
        let an = abs(n);
        let ad = abs(d);
        let g = gcd(an, ad);
        lemma_gcd_divides(an, ad);
        lemma_gcd_reduced(an, ad);
        let qn = an / g;
        let qd = ad / g;
        lemma_fundamental_div_mod(an as int, g as int);
        lemma_fundamental_div_mod(ad as int, g as int);
        assert(qd > 0) by (nonlinear_arith)
            requires
                ad == g * qd,
                ad > 0,
                g > 0,
        ;
        let cn = Self::canon_num(n, d);
        let cd = Self::canon_den(n, d);
        assert(cd == qd);
        assert(abs(cn) == qn);
        assert(cn * d == n * cd) by (nonlinear_arith)
            requires
                an == g * qn,
                ad == g * qd,
                an == (if n < 0 {
                    -n
                } else {
                    n
                }),
                ad == (if d < 0 {
                    -d
                } else {
                    d
                }),
                cd == qd,
                cn == (if (n < 0) != (d < 0) {
                    -(qn as int)
                } else {
                    qn as int
                }),
        ;
    }

    /// Two durations in lowest terms that stand for the same number are the
    /// same duration.
    pub proof fn lemma_reduced_unique(self, other: Dur)
        requires
            self.is_reduced(),
            other.is_reduced(),
            same_value(self.ratio(), other.ratio()),
        ensures
            self == other,
    {
        let a = self.den as nat;
        let b = other.den as nat;
        let m = abs(self.num as int);
        let n = abs(other.num as int);
        // the magnitudes stand in the same proportion
        assert(m * b == n * a) by (nonlinear_arith)
            requires
                self.num * other.den == other.num * self.den,
                a == self.den,
                b == other.den,
                a > 0,
                b > 0,
                m == (if self.num < 0 {
                    -self.num
                } else {
                    self.num as int
                }),
                n == (if other.num < 0 {
                    -other.num
                } else {
                    other.num as int
                }),
        ;
        lemma_gcd_symmetric(m, a);
        lemma_gcd_symmetric(n, b);
        lemma_mod_multiples_basic(n as int, a as int);
        lemma_mod_multiples_basic(m as int, b as int);
        lemma_coprime_divides(a, m, b);
        assert(n * b == b * n && m * a == a * m) by (nonlinear_arith);
        lemma_coprime_divides(b, n, a);
        lemma_fundamental_div_mod(b as int, a as int);
        lemma_fundamental_div_mod(a as int, b as int);
        let p = b / a;
        let q = a / b;
        assert(a == b) by (nonlinear_arith)
            requires
                b == a * p,
                a == b * q,
                a > 0,
                b > 0,
                p >= 0,
                q >= 0,
        ;
        assert(self.num == other.num) by (nonlinear_arith)
            requires
                self.num * other.den == other.num * self.den,
                self.den == other.den,
                self.den > 0,
        ;
    }

    /// The sum that `spec_add` gives stands for the sum of the two.
    pub proof fn lemma_add_value(self, other: Dur)
        requires
            self.den > 0,
            other.den > 0,
            Self::representable(self.combined_num(other, 1), self.combined_den(other)),
        ensures
            same_value(self.spec_add(other).ratio(), ratio_add(self.ratio(), other.ratio())),
            self.spec_add(other).is_reduced(),
    {
        let d1 = self.den as nat;
        let d2 = other.den as nat;
        lemma_lcm_cofactors(d1, d2);
        let m = lcm(d1, d2) as int;
        let f1 = m / (d1 as int);
        let f2 = m / (d2 as int);
        let n = self.combined_num(other, 1);
        assert(n == self.num * f1 + other.num * f2);
        Self::lemma_new_value(n, m);
        let written = Ratio { num: n, den: m };
        let sum = ratio_add(self.ratio(), other.ratio());
        let a = self.num as int;
        let b = other.num as int;
        let c = self.den as int;
        let e = other.den as int;
        assert((a * f1) * (c * e) == (a * e) * (c * f1)) by (nonlinear_arith);
        assert((b * f2) * (c * e) == (b * c) * (e * f2)) by (nonlinear_arith);
        assert((a * f1 + b * f2) * (c * e) == (a * f1) * (c * e) + (b * f2) * (c * e))
            by (nonlinear_arith);
        assert((a * e + b * c) * m == (a * e) * m + (b * c) * m) by (nonlinear_arith);
        assert(same_value(written, sum));
        lemma_same_value_trans(self.spec_add(other).ratio(), written, sum);
    }

    /// The difference that `spec_sub` gives stands for the difference of the two.
    pub proof fn lemma_sub_value(self, other: Dur)
        requires
            self.den > 0,
            other.den > 0,
            Self::representable(self.combined_num(other, -1), self.combined_den(other)),
        ensures
            same_value(
                self.spec_sub(other).ratio(),
                ratio_add(self.ratio(), Ratio { num: -other.num, den: other.den as int }),
            ),
            self.spec_sub(other).is_reduced(),
    {
        let d1 = self.den as nat;
        let d2 = other.den as nat;
        lemma_lcm_cofactors(d1, d2);
        let m = lcm(d1, d2) as int;
        let f1 = m / (d1 as int);
        let f2 = m / (d2 as int);
        let n = self.combined_num(other, -1);
        assert(n == self.num * f1 - other.num * f2) by (nonlinear_arith)
            requires
                n == self.num * f1 + (-1) * (other.num * f2),
        ;
        Self::lemma_new_value(n, m);
        let written = Ratio { num: n, den: m };
        let sum = ratio_add(self.ratio(), Ratio { num: -other.num, den: other.den as int });
        let a = self.num as int;
        let b = other.num as int;
        let c = self.den as int;
        let e = other.den as int;
        assert((a * f1) * (c * e) == (a * e) * (c * f1)) by (nonlinear_arith);
        assert((b * f2) * (c * e) == (b * c) * (e * f2)) by (nonlinear_arith);
        assert((a * f1 - b * f2) * (c * e) == (a * f1) * (c * e) - (b * f2) * (c * e))
            by (nonlinear_arith);
        assert((a * e + (-b) * c) * m == (a * e) * m - (b * c) * m) by (nonlinear_arith);
        assert(same_value(written, sum));
        lemma_same_value_trans(self.spec_sub(other).ratio(), written, sum);
    }

    /// What `spec_div_int` gives stands for the `k`th part.
    pub proof fn lemma_div_int_value(self, k: int)
        requires
            Self::representable(self.num as int, self.den * k),
        ensures
            same_value(
                self.spec_div_int(k).ratio(),
                Ratio { num: self.num as int, den: self.den * k },
            ),
            self.spec_div_int(k).is_reduced(),
    {
        Self::lemma_new_value(self.num as int, self.den * k);
    }
}

impl AddSpecImpl for Dur {
    open spec fn obeys_add_spec() -> bool {
        true
    }

    open spec fn add_req(self, rhs: Dur) -> bool {
        self.valid() && rhs.valid() && Dur::representable(
            self.combined_num(rhs, 1),
            self.combined_den(rhs),
        )
    }

    open spec fn add_spec(self, rhs: Dur) -> Dur {
        self.spec_add(rhs)
    }
}

impl Add for Dur {
    type Output = Dur;

    fn add(self, rhs: Dur) -> (r: Dur)
        ensures
            r.is_reduced(),
    {
        self.checked_add(rhs).unwrap()
    }
}

impl SubSpecImpl for Dur {
    open spec fn obeys_sub_spec() -> bool {
        true
    }

    open spec fn sub_req(self, rhs: Dur) -> bool {
        self.valid() && rhs.valid() && Dur::representable(
            self.combined_num(rhs, -1),
            self.combined_den(rhs),
        )
    }

    open spec fn sub_spec(self, rhs: Dur) -> Dur {
        self.spec_sub(rhs)
    }
}

impl Sub for Dur {
    type Output = Dur;

    fn sub(self, rhs: Dur) -> (r: Dur)
        ensures
            r.is_reduced(),
    {
        self.checked_sub(rhs).unwrap()
    }
}

impl MulSpecImpl for Dur {
    open spec fn obeys_mul_spec() -> bool {
        true
    }

    open spec fn mul_req(self, rhs: Dur) -> bool {
        Dur::representable(self.num * rhs.num, self.den * rhs.den)
    }

    open spec fn mul_spec(self, rhs: Dur) -> Dur {
        self.spec_mul(rhs)
    }
}

impl Mul for Dur {
    type Output = Dur;

    fn mul(self, rhs: Dur) -> (r: Dur)
        ensures
            r.is_reduced(),
    {
        self.checked_mul(rhs).unwrap()
    }
}

impl MulSpecImpl<i32> for Dur {
    open spec fn obeys_mul_spec() -> bool {
        true
    }

    open spec fn mul_req(self, rhs: i32) -> bool {
        Dur::representable(self.num * rhs, self.den as int)
    }

    open spec fn mul_spec(self, rhs: i32) -> Dur {
        self.spec_mul_int(rhs as int)
    }
}

impl Mul<i32> for Dur {
    type Output = Dur;

    fn mul(self, rhs: i32) -> (r: Dur)
        ensures
            r.is_reduced(),
    {
        self.checked_mul_int(rhs).unwrap()
    }
}

impl DivSpecImpl for Dur {
    open spec fn obeys_div_spec() -> bool {
        true
    }

    open spec fn div_req(self, rhs: Dur) -> bool {
        Dur::representable(self.num * rhs.den, self.den * rhs.num)
    }

    open spec fn div_spec(self, rhs: Dur) -> Dur {
        self.spec_div(rhs)
    }
}

impl Div for Dur {
    type Output = Dur;

    fn div(self, rhs: Dur) -> (r: Dur)
        ensures
            r.is_reduced(),
    {
        self.checked_div(rhs).unwrap()
    }
}

} // verus!
