//! Abstract numeric field for the rating computations.
//!
//! Every quantity the rating kernel manipulates (precisions, precision
//! weighted means, drift factors, leaderboard scores) is a value of a type
//! implementing [`Scalar`].  The trait pairs each executable operation with
//! a specification function, so that everything computed from scalars has an
//! exact, deterministic description at the specification level, while the
//! choice of number representation stays open.  The crate ships [`Milli`], a
//! saturating fixed-point representation with three decimal digits of
//! fraction; embedders can supply a floating-point implementation instead.

use vstd::prelude::*;

verus! {

/// Numeric operations the rating kernel needs.
///
/// Each executable method is pinned to the implementation's own
/// specification function, so a result computed through this trait is a
/// deterministic function of its operands for every implementation.
/// No algebraic laws are assumed: the kernel's contracts promise exactly
/// "the value this expression computes", never simplifications of it.
pub trait Scalar: Sized + Copy {
    /// Meaning of `add`.
    open spec fn add_s(self, o: Self) -> Self {
        vstd::pervasive::arbitrary()
    }

    /// Meaning of `sub`.
    open spec fn sub_s(self, o: Self) -> Self {
        vstd::pervasive::arbitrary()
    }

    /// Meaning of `mul`.
    open spec fn mul_s(self, o: Self) -> Self {
        vstd::pervasive::arbitrary()
    }

    /// Meaning of `div`.
    open spec fn div_s(self, o: Self) -> Self {
        vstd::pervasive::arbitrary()
    }

    /// Meaning of `neg`.
    open spec fn neg_s(self) -> Self {
        vstd::pervasive::arbitrary()
    }

    /// Meaning of `sqrt`.
    open spec fn sqrt_s(self) -> Self {
        vstd::pervasive::arbitrary()
    }

    /// Meaning of `exp`.
    open spec fn exp_s(self) -> Self {
        vstd::pervasive::arbitrary()
    }

    /// Meaning of `erf`.
    open spec fn erf_s(self) -> Self {
        vstd::pervasive::arbitrary()
    }

    /// Meaning of `le`.
    open spec fn le_s(self, o: Self) -> bool {
        vstd::pervasive::arbitrary()
    }

    /// Meaning of `ratio`.
    open spec fn ratio_s(n: i64, d: i64) -> Self {
        vstd::pervasive::arbitrary()
    }

    /// Meaning of `pi`.
    open spec fn pi_s() -> Self {
        vstd::pervasive::arbitrary()
    }

    fn add(self, o: Self) -> (r: Self)
        ensures
            r == self.add_s(o),
    ;

    fn sub(self, o: Self) -> (r: Self)
        ensures
            r == self.sub_s(o),
    ;

    fn mul(self, o: Self) -> (r: Self)
        ensures
            r == self.mul_s(o),
    ;

    /// Total: implementations pick a value for division by zero.
    fn div(self, o: Self) -> (r: Self)
        ensures
            r == self.div_s(o),
    ;

    fn neg(self) -> (r: Self)
        ensures
            r == self.neg_s(),
    ;

    fn sqrt(self) -> (r: Self)
        ensures
            r == self.sqrt_s(),
    ;

    fn exp(self) -> (r: Self)
        ensures
            r == self.exp_s(),
    ;

    fn erf(self) -> (r: Self)
        ensures
            r == self.erf_s(),
    ;

    /// Total order test used by the leaderboard sort.
    fn le(self, o: Self) -> (r: bool)
        ensures
            r == self.le_s(o),
    ;

    /// The value nearest to `n / d`; implementations pick a value for `d == 0`.
    fn ratio(n: i64, d: i64) -> (r: Self)
        ensures
            r == Self::ratio_s(n, d),
    ;

    /// The circle constant.
    fn pi() -> (r: Self)
        ensures
            r == Self::pi_s(),
    ;
}

/// Saturating fixed-point number: the wrapped integer counts thousandths.
#[derive(Clone, Copy, PartialEq, Eq, Structural, Debug)]
pub struct Milli(pub i64);

/// Clamps a mathematical integer into the `i64` range.
pub open spec fn sat64(x: int) -> i64 {
    if x > i64::MAX {
        i64::MAX
    } else if x < i64::MIN {
        i64::MIN
    } else {
        x as i64
    }
}

/// `r` is the integer square root of `x`.
pub open spec fn is_isqrt(x: int, r: int) -> bool {
    r >= 0 && r * r <= x && x < (r + 1) * (r + 1)
}

/// Largest nonnegative integer whose square does not exceed `x`.
pub open spec fn isqrt_spec(x: int) -> int {
    if x < 0 {
        0
    } else {
        choose|r: int| is_isqrt(x, r)
    }
}

proof fn lemma_isqrt_exists(x: int)
    requires
        x >= 0,
    ensures
        exists|r: int| is_isqrt(x, r),
    decreases x,
{
    if x == 0 {
        assert(is_isqrt(x, 0));
    } else {
        lemma_isqrt_exists(x - 1);
        let y = x - 1;
        let r = choose|r: int| is_isqrt(y, r);
        if x < (r + 1) * (r + 1) {
            assert(is_isqrt(x, r));
        } else {
            let q = r + 1;
            assert(q >= 0 && q * q <= x && x < (q + 1) * (q + 1)) by (nonlinear_arith)
                requires
                    x - 1 < (r + 1) * (r + 1),
                    x >= (r + 1) * (r + 1),
                    r >= 0,
                    q == r + 1,
            ;
            assert(is_isqrt(x, q));
        }
    }
}

proof fn lemma_isqrt_unique(x: int, a: int, b: int)
    requires
        is_isqrt(x, a),
        is_isqrt(x, b),
    ensures
        a == b,
{
    assert(a == b) by (nonlinear_arith)
        requires
            a >= 0 && a * a <= x && x < (a + 1) * (a + 1),
            b >= 0 && b * b <= x && x < (b + 1) * (b + 1),
    ;
}

/// Invariant of the square-root search: `r` is a lower witness and
/// `r + step` (or `r + 1` once the step is exhausted) an upper one.
spec fn isqrt_inv(x: u128, r: u128, step: u128) -> bool {
    let s: int = if step == 0 {
        1
    } else {
        step as int
    };
    r * r <= x && x < (r + s) * (r + s)
}

/// Binary-search integer square root over the range this module needs.
fn isqrt_u128(x: u128) -> (r: u128)
    requires
        x < 0x1000000000000000000000000,  // 2^96
    ensures
        r * r <= x < (r + 1) * (r + 1),
{
    let mut r: u128 = 0;
    let mut step: u128 = 0x1000000000000;  // 2^48
    let ghost mut e: nat = 48;
    proof {
        vstd::arithmetic::power2::lemma2_to64();
        vstd::arithmetic::power2::lemma2_to64_rest();
        assert(x < (0 + 0x1000000000000) * (0 + 0x1000000000000)) by (nonlinear_arith)
            requires
                x < 0x1000000000000000000000000u128,
        ;
    }
    while step > 0
        invariant
            isqrt_inv(x, r, step),
            r + step <= 0x2000000000000,
            step > 0 ==> step == vstd::arithmetic::power2::pow2(e),
        decreases step,
    {
        let half: u128 = step / 2;
        let cand: u128 = r + half;
        proof {
            if step > 1 {
                if e == 0 {
                    assert(vstd::arithmetic::power2::pow2(0) == 1) by {
                        vstd::arithmetic::power2::lemma2_to64();
                    }
                }
                vstd::arithmetic::power2::lemma_pow2_unfold(e);
                assert(step == half * 2);
                e = (e - 1) as nat;
            }
            assert(cand * cand <= 0x4000000000000000000000000) by (nonlinear_arith)
                requires
                    0 <= cand <= 0x2000000000000u128,
            ;
        }
        if half > 0 && cand * cand <= x {
            proof {
                assert(x < (cand + half) * (cand + half)) by (nonlinear_arith)
                    requires
                        x < (r + step) * (r + step),
                        cand == r + half,
                        step == half * 2,
                        half > 0,
                ;
            }
            r = cand;
        } else {
            proof {
                if half == 0 {
                    assert(step == 1);
                }
            }
        }
        step = half;
    }
    r
}

/// Floor division expressed over magnitudes; agrees with `/` on
/// nonnegative operands.
pub open spec fn fdiv(n: int, d: int) -> int
    recommends
        d != 0,
{
    let na = vstd::math::abs(n);
    let da = vstd::math::abs(d);
    let q0: int = (na / da) as int;
    if (n < 0) == (d < 0) {
        q0
    } else if na % da == 0 {
        -q0
    } else {
        -q0 - 1
    }
}

impl Milli {
    /// Raw integer computed by `mul`: the product rescaled to thousandths.
    pub open spec fn mul_raw(a: i64, b: i64) -> int {
        fdiv(a * b, 1000)
    }

    /// Raw integer computed by `div` and `ratio`.
    pub open spec fn div_raw(n: int, d: int) -> int {
        if d == 0 {
            0
        } else {
            fdiv(n * 1000, d)
        }
    }
}

impl Scalar for Milli {
    open spec fn add_s(self, o: Self) -> Self {
        Milli(sat64(self.0 + o.0))
    }

    open spec fn sub_s(self, o: Self) -> Self {
        Milli(sat64(self.0 - o.0))
    }

    open spec fn mul_s(self, o: Self) -> Self {
        Milli(sat64(Milli::mul_raw(self.0, o.0)))
    }

    open spec fn div_s(self, o: Self) -> Self {
        Milli(sat64(Milli::div_raw(self.0 as int, o.0 as int)))
    }

    open spec fn neg_s(self) -> Self {
        Milli(sat64(-(self.0 as int)))
    }

    open spec fn sqrt_s(self) -> Self {
        if self.0 <= 0 {
            Milli(0)
        } else {
            Milli(sat64(isqrt_spec(self.0 * 1000)))
        }
    }

    /// Four Taylor terms of `exp(x / 16)`, squared four times.
    open spec fn exp_s(self) -> Self {
        let x = Milli(sat64(fdiv(self.0 as int, 16)));
        let x2 = x.mul_s(x);
        let x3 = x2.mul_s(x);
        let t = Milli(1000).add_s(x).add_s(x2.div_s(Milli(2000))).add_s(x3.div_s(Milli(6000)));
        let s1 = t.mul_s(t);
        let s2 = s1.mul_s(s1);
        let s3 = s2.mul_s(s2);
        s3.mul_s(s3)
    }

    /// Odd extension of a rational approximation with an `exp` factor.
    open spec fn erf_s(self) -> Self {
        if self.0 < 0 {
            Milli(sat64(-(self.neg_s().erf_abs_s().0 as int)))
        } else {
            self.erf_abs_s()
        }
    }

    open spec fn le_s(self, o: Self) -> bool {
        self.0 <= o.0
    }

    open spec fn ratio_s(n: i64, d: i64) -> Self {
        Milli(sat64(Milli::div_raw(n as int, d as int)))
    }

    open spec fn pi_s() -> Self {
        Milli(3142)
    }

    fn add(self, o: Self) -> (r: Self) {
        match self.0.checked_add(o.0) {
            Some(v) => Milli(v),
            None => {
                if self.0 >= 0 {
                    Milli(i64::MAX)
                } else {
                    Milli(i64::MIN)
                }
            },
        }
    }

    fn sub(self, o: Self) -> (r: Self) {
        match self.0.checked_sub(o.0) {
            Some(v) => Milli(v),
            None => {
                if self.0 >= 0 {
                    Milli(i64::MAX)
                } else {
                    Milli(i64::MIN)
                }
            },
        }
    }

    fn mul(self, o: Self) -> (r: Self) {
        proof {
            assert(i128::MIN < self.0 as int * o.0 as int <= i128::MAX) by (nonlinear_arith)
                requires
                    i64::MIN <= self.0 <= i64::MAX,
                    i64::MIN <= o.0 <= i64::MAX,
            ;
        }
        let p: i128 = self.0 as i128 * o.0 as i128;
        let q: i128 = div_euclid_128(p, 1000);
        Milli(clamp128(q))
    }

    fn div(self, o: Self) -> (r: Self) {
        if o.0 == 0 {
            Milli(0)
        } else {
            let p: i128 = self.0 as i128 * 1000;
            let q: i128 = div_euclid_128(p, o.0 as i128);
            Milli(clamp128(q))
        }
    }

    fn neg(self) -> (r: Self) {
        if self.0 == i64::MIN {
            Milli(i64::MAX)
        } else {
            Milli(-self.0)
        }
    }

    fn sqrt(self) -> (r: Self) {
        if self.0 <= 0 {
            Milli(0)
        } else {
            let scaled: u128 = (self.0 as u128) * 1000;
            let root: u128 = isqrt_u128(scaled);
            proof {
                lemma_isqrt_exists(self.0 * 1000);
                lemma_isqrt_unique(self.0 * 1000, root as int, isqrt_spec(self.0 * 1000));
                assert(root < 0x1000000000000) by (nonlinear_arith)
                    requires
                        root * root <= scaled,
                        scaled < 0x1000000000000000000000000u128,
                ;
            }
            Milli(root as i64)
        }
    }

    fn exp(self) -> (r: Self) {
        let xq: i128 = div_euclid_128(self.0 as i128, 16);
        let x = Milli(clamp128(xq));
        let x2 = x.mul(x);
        let x3 = x2.mul(x);
        let t = Milli(1000).add(x).add(x2.div(Milli(2000))).add(x3.div(Milli(6000)));
        let s1 = t.mul(t);
        let s2 = s1.mul(s1);
        let s3 = s2.mul(s2);
        s3.mul(s3)
    }

    fn erf(self) -> (r: Self) {
        if self.0 < 0 {
            let a = self.neg().erf_abs();
            if a.0 == i64::MIN {
                Milli(i64::MAX)
            } else {
                Milli(-a.0)
            }
        } else {
            self.erf_abs()
        }
    }

    fn le(self, o: Self) -> (r: bool) {
        self.0 <= o.0
    }

    fn ratio(n: i64, d: i64) -> (r: Self) {
        if d == 0 {
            Milli(0)
        } else {
            let p: i128 = n as i128 * 1000;
            let q: i128 = div_euclid_128(p, d as i128);
            Milli(clamp128(q))
        }
    }

    fn pi() -> (r: Self) {
        Milli(3142)
    }
}

impl Milli {
    /// Rational approximation of `erf` on nonnegative arguments.
    pub open spec fn erf_abs_s(self) -> Milli {
        let t = Milli(1000).div_s(Milli(1000).add_s(self.mul_s(Milli(327))));
        let poly = t.mul_s(Milli(348).add_s(t.mul_s(Milli(-96i64).add_s(t.mul_s(Milli(748))))));
        let gauss = self.mul_s(self).neg_s().exp_s();
        Milli(1000).sub_s(poly.mul_s(gauss))
    }

    fn erf_abs(self) -> (r: Milli)
        ensures
            r == self.erf_abs_s(),
    {
        let t = Milli(1000).div(Milli(1000).add(self.mul(Milli(327))));
        let poly = t.mul(Milli(348).add(t.mul(Milli(-96).add(t.mul(Milli(748))))));
        let gauss = self.mul(self).neg().exp();
        Milli(1000).sub(poly.mul(gauss))
    }
}

/// Floor division on `i128` computed over unsigned magnitudes.
pub(crate) fn div_euclid_128(n: i128, d: i128) -> (q: i128)
    requires
        d != 0,
        n > i128::MIN,
        d > i128::MIN,
    ensures
        q == fdiv(n as int, d as int),
{
    let na: u128 = if n < 0 {
        (-n) as u128
    } else {
        n as u128
    };
    let da: u128 = if d < 0 {
        (-d) as u128
    } else {
        d as u128
    };
    let q0: u128 = na / da;
    let rem: u128 = na % da;
    proof {
        vstd::arithmetic::div_mod::lemma_div_nonincreasing(na as int, da as int);
    }
    if (n < 0) == (d < 0) {
        q0 as i128
    } else if rem == 0 {
        -(q0 as i128)
    } else {
        -(q0 as i128) - 1
    }
}

/// Clamps an `i128` intermediate into the `i64` range.
fn clamp128(q: i128) -> (r: i64)
    ensures
        r == sat64(q as int),
{
    if q > i64::MAX as i128 {
        i64::MAX
    } else if q < i64::MIN as i128 {
        i64::MIN
    } else {
        q as i64
    }
}

} // verus!
