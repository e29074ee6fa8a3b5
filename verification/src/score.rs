//! Exact rational match scores.
//!
//! Every score this library produces is a non-negative rational number.
//! A score of `0` is a perfect match and `1` a perfect mismatch; scores are
//! compared exactly by cross-multiplication, so ranking never depends on
//! floating-point rounding.

use vstd::prelude::*;

verus! {

/// Denominator used when a rational has to be rounded to keep later
/// arithmetic inside `u64`. Rounding error is below `2^-31` per operation.
pub const ROUND_DEN: u64 = 0x8000_0000;

/// A non-negative rational number `num / den`.
///
/// Scores of match results lie in `[0, 1]`: `0` is a perfect match and `1`
/// a perfect mismatch.
#[derive(Clone, Copy, Debug, PartialEq, Eq)]
pub struct Score {
    /// Numerator.
    pub num: u64,
    /// Denominator; always at least 1.
    pub den: u64,
}

impl Score {
    /// Well-formed: the denominator is positive.
    pub open spec fn wf(self) -> bool {
        self.den >= 1
    }

    /// The value `self` is at most the value of `o` (cross-multiplied).
    pub open spec fn spec_le(self, o: Score) -> bool {
        self.num * o.den <= o.num * self.den
    }

    /// The value `self` is strictly below the value of `o`.
    pub open spec fn spec_lt(self, o: Score) -> bool {
        self.num * o.den < o.num * self.den
    }

    /// Exact `<=` on rational values.
    pub fn le(&self, o: &Score) -> (r: bool)
        requires
            self.wf(),
            o.wf(),
        ensures
            r == self.spec_le(*o),
    {
        proof {
            lemma_u64_mul_fits_u128(self.num, o.den);
            lemma_u64_mul_fits_u128(o.num, self.den);
        }
        (self.num as u128) * (o.den as u128) <= (o.num as u128) * (self.den as u128)
    }

    /// Exact `<` on rational values.
    pub fn lt(&self, o: &Score) -> (r: bool)
        requires
            self.wf(),
            o.wf(),
        ensures
            r == self.spec_lt(*o),
    {
        proof {
            lemma_u64_mul_fits_u128(self.num, o.den);
            lemma_u64_mul_fits_u128(o.num, self.den);
        }
        (self.num as u128) * (o.den as u128) < (o.num as u128) * (self.den as u128)
    }

    /// The smaller of the two rational values; `self` when they are equal.
    pub fn min_with(&self, o: &Score) -> (r: Score)
        requires
            self.wf(),
            o.wf(),
        ensures
            r == self.spec_min(*o),
            r.wf(),
    {
        if o.lt(self) {
            *o
        } else {
            *self
        }
    }

    /// The operand with the smaller value; `self` on ties.
    pub open spec fn spec_min(self, o: Score) -> Score {
        if o.spec_lt(self) {
            o
        } else {
            self
        }
    }
}

/// `s` unchanged while its denominator is at most `ROUND_DEN`; otherwise
/// `s` rounded down to the nearest multiple of `1 / ROUND_DEN`.
pub open spec fn spec_norm(s: Score) -> Score {
    if s.den <= ROUND_DEN {
        s
    } else {
        let q = (s.num * ROUND_DEN) / (s.den as int);
        Score {
            num: (if q > u64::MAX {
                u64::MAX as int
            } else {
                q
            }) as u64,
            den: ROUND_DEN,
        }
    }
}

/// The sum of two scores, each first rounded per `spec_norm`. Exact
/// whenever both denominators are at most `ROUND_DEN` and the exact
/// numerator fits, which `lemma_add_exact` states.
pub open spec fn spec_add(a: Score, b: Score) -> Score {
    let x = spec_norm(a);
    let y = spec_norm(b);
    let n = x.num * y.den + y.num * x.den;
    Score {
        num: (if n > u64::MAX {
            u64::MAX as int
        } else {
            n
        }) as u64,
        den: (x.den * y.den) as u64,
    }
}

/// The product of two scores, each first rounded per `spec_norm`.
pub open spec fn spec_mul(a: Score, b: Score) -> Score {
    let x = spec_norm(a);
    let y = spec_norm(b);
    let n = x.num * y.num;
    Score {
        num: (if n > u64::MAX {
            u64::MAX as int
        } else {
            n
        }) as u64,
        den: (x.den * y.den) as u64,
    }
}

/// `a / n` for a positive count `n`, `a` first rounded per `spec_norm`;
/// a denominator beyond `u64` saturates.
pub open spec fn spec_div_count(a: Score, n: int) -> Score {
    let x = spec_norm(a);
    let d = x.den * n;
    Score {
        num: x.num,
        den: (if d > u64::MAX {
            u64::MAX as int
        } else {
            d
        }) as u64,
    }
}

/// On denominators at most `ROUND_DEN` with a fitting numerator, the sum
/// is the textbook exact rational sum.
pub proof fn lemma_add_exact(a: Score, b: Score)
    requires
        a.wf(),
        b.wf(),
        a.den <= ROUND_DEN,
        b.den <= ROUND_DEN,
        a.num * b.den + b.num * a.den <= u64::MAX,
    ensures
        spec_add(a, b).num == a.num * b.den + b.num * a.den,
        spec_add(a, b).den == a.den * b.den,
{
    assert(a.num * b.den >= 0 && b.num * a.den >= 0 && a.den * b.den >= 1 && a.den * b.den
        <= 0x8000_0000 * 0x8000_0000) by (nonlinear_arith)
        requires
            a.num >= 0,
            b.num >= 0,
            1 <= a.den <= 0x8000_0000,
            1 <= b.den <= 0x8000_0000,
    ;
}

/// On denominators at most `ROUND_DEN` with a fitting numerator, the
/// product is the textbook exact rational product.
pub proof fn lemma_mul_exact(a: Score, b: Score)
    requires
        a.wf(),
        b.wf(),
        a.den <= ROUND_DEN,
        b.den <= ROUND_DEN,
        a.num * b.num <= u64::MAX,
    ensures
        spec_mul(a, b).num == a.num * b.num,
        spec_mul(a, b).den == a.den * b.den,
{
    assert(a.num * b.num >= 0 && a.den * b.den >= 1 && a.den * b.den <= 0x8000_0000
        * 0x8000_0000) by (nonlinear_arith)
        requires
            a.num >= 0,
            b.num >= 0,
            1 <= a.den <= 0x8000_0000,
            1 <= b.den <= 0x8000_0000,
    ;
}

impl Score {
    /// Rounds `self` so that its denominator is at most `ROUND_DEN`.
    pub fn norm(&self) -> (r: Score)
        requires
            self.wf(),
        ensures
            r == spec_norm(*self),
            r.wf(),
    {
        if self.den <= ROUND_DEN {
            *self
        } else {
            proof {
                lemma_u64_mul_fits_u128(self.num, ROUND_DEN);
            }
            let q128 = (self.num as u128) * (ROUND_DEN as u128) / (self.den as u128);
            let q: u64 = if q128 > u64::MAX as u128 {
                u64::MAX
            } else {
                q128 as u64
            };
            Score { num: q, den: ROUND_DEN }
        }
    }

    /// Adds two scores, rounding per `spec_norm` where the exact result
    /// would overflow.
    pub fn add_score(&self, o: &Score) -> (r: Score)
        requires
            self.wf(),
            o.wf(),
        ensures
            r == spec_add(*self, *o),
            r.wf(),
    {
        let x = self.norm();
        let y = o.norm();
        proof {
            lemma_u64_mul_fits_u128(x.num, y.den);
            lemma_u64_mul_fits_u128(y.num, x.den);
            assert((x.num as u128) * (y.den as u128) <= 0xFFFF_FFFF_FFFF_FFFFu128
                * 0x8000_0000u128) by (nonlinear_arith)
                requires
                    x.num <= 0xFFFF_FFFF_FFFF_FFFFu128,
                    y.den <= 0x8000_0000u128,
            ;
            assert((y.num as u128) * (x.den as u128) <= 0xFFFF_FFFF_FFFF_FFFFu128
                * 0x8000_0000u128) by (nonlinear_arith)
                requires
                    y.num <= 0xFFFF_FFFF_FFFF_FFFFu128,
                    x.den <= 0x8000_0000u128,
            ;
            assert((x.den as u128) * (y.den as u128) <= 0x8000_0000u128 * 0x8000_0000u128)
                by (nonlinear_arith)
                requires
                    x.den <= 0x8000_0000u128,
                    y.den <= 0x8000_0000u128,
            ;
            assert((x.den as u128) * (y.den as u128) >= 1) by (nonlinear_arith)
                requires
                    x.den >= 1,
                    y.den >= 1,
            ;
        }
        let n128 = (x.num as u128) * (y.den as u128) + (y.num as u128) * (x.den as u128);
        let n: u64 = if n128 > u64::MAX as u128 {
            u64::MAX
        } else {
            n128 as u64
        };
        Score { num: n, den: x.den * y.den }
    }

    /// Multiplies two scores, rounding per `spec_norm` where the exact
    /// result would overflow.
    pub fn mul_score(&self, o: &Score) -> (r: Score)
        requires
            self.wf(),
            o.wf(),
        ensures
            r == spec_mul(*self, *o),
            r.wf(),
    {
        let x = self.norm();
        let y = o.norm();
        proof {
            lemma_u64_mul_fits_u128(x.num, y.num);
            assert((x.den as u128) * (y.den as u128) <= 0x8000_0000u128 * 0x8000_0000u128)
                by (nonlinear_arith)
                requires
                    x.den <= 0x8000_0000u128,
                    y.den <= 0x8000_0000u128,
            ;
            assert((x.den as u128) * (y.den as u128) >= 1) by (nonlinear_arith)
                requires
                    x.den >= 1,
                    y.den >= 1,
            ;
        }
        let n128 = (x.num as u128) * (y.num as u128);
        let n: u64 = if n128 > u64::MAX as u128 {
            u64::MAX
        } else {
            n128 as u64
        };
        Score { num: n, den: x.den * y.den }
    }

    /// Divides a score by a positive count, rounding per `spec_norm`
    /// where the exact result would overflow.
    pub fn div_count(&self, n: usize) -> (r: Score)
        requires
            self.wf(),
            n >= 1,
        ensures
            r == spec_div_count(*self, n as int),
            r.wf(),
    {
        let x = self.norm();
        proof {
            assert((x.den as u128) * (n as u128) >= 1) by (nonlinear_arith)
                requires
                    x.den >= 1,
                    n >= 1,
            ;
            assert((x.den as u128) * (n as u128) <= 0x8000_0000u128
                * 0xFFFF_FFFF_FFFF_FFFFu128) by (nonlinear_arith)
                requires
                    x.den <= 0x8000_0000u128,
                    n <= 0xFFFF_FFFF_FFFF_FFFFu128,
            ;
        }
        let d128 = (x.den as u128) * (n as u128);
        let d: u64 = if d128 > u64::MAX as u128 {
            u64::MAX
        } else {
            d128 as u64
        };
        Score { num: x.num, den: d }
    }
}

/// Holding the error count fixed, a larger positional deviation never
/// yields a smaller score, and holding the deviation fixed, more errors
/// never yield a smaller score.
pub proof fn lemma_score_monotonic(len: int, e1: int, e2: int, x1: int, x2: int, loc: int, d: int)
    requires
        1 <= len <= 64,
        1 <= d <= 0x8000_0000,
        0 <= e1 <= e2 <= 64,
        vstd::math::abs(x1 - loc) <= vstd::math::abs(x2 - loc),
        vstd::math::abs(x2 - loc) <= 0x1_0000_0000,
    ensures
        crate::utils::spec_score(len, e1, x1, loc, d).spec_le(
            crate::utils::spec_score(len, e2, x2, loc, d),
        ),
{
    let p1 = if x1 >= loc {
        x1 - loc
    } else {
        loc - x1
    };
    let p2 = if x2 >= loc {
        x2 - loc
    } else {
        loc - x2
    };
    assert(0 <= p1 <= p2);
    assert((e1 * d + p1 * len) * (len * d) <= (e2 * d + p2 * len) * (len * d)) by (nonlinear_arith)
        requires
            1 <= len,
            1 <= d,
            0 <= e1 <= e2,
            0 <= p1 <= p2,
    ;
    assert(0 <= e1 * d + p1 * len <= e2 * d + p2 * len < 0x1_0000_0000_0000_0000 && 1 <= len * d
        < 0x1_0000_0000_0000_0000) by (nonlinear_arith)
        requires
            1 <= len <= 64,
            1 <= d <= 0x8000_0000,
            0 <= e1 <= e2 <= 64,
            0 <= p1 <= p2 <= 0x1_0000_0000,
    ;
    assert(crate::utils::spec_score(len, e1, x1, loc, d).num == e1 * d + p1 * len);
    assert(crate::utils::spec_score(len, e2, x2, loc, d).num == e2 * d + p2 * len);
}

/// The product of two `u64` values always fits in `u128`.
pub proof fn lemma_u64_mul_fits_u128(a: u64, b: u64)
    ensures
        a * b <= u64::MAX * u64::MAX,
        a * b < 0x1_0000_0000_0000_0000_0000_0000_0000_0000,
{
    assert(a * b <= u64::MAX * u64::MAX) by (nonlinear_arith)
        requires
            a <= u64::MAX,
            b <= u64::MAX,
    ;
}

/// `spec_le` is total: of any two well-formed scores, one is `<=` the other.
pub proof fn lemma_score_le_total(a: Score, b: Score)
    requires
        a.wf(),
        b.wf(),
    ensures
        a.spec_le(b) || b.spec_le(a),
        a.spec_le(b) <==> !b.spec_lt(a),
{
}

/// `spec_le` is transitive over well-formed scores.
pub proof fn lemma_score_le_trans(a: Score, b: Score, c: Score)
    requires
        a.wf(),
        b.wf(),
        c.wf(),
        a.spec_le(b),
        b.spec_le(c),
    ensures
        a.spec_le(c),
{
    assert(a.num * c.den <= c.num * a.den) by (nonlinear_arith)
        requires
            a.den >= 1,
            b.den >= 1,
            c.den >= 1,
            a.num * b.den <= b.num * a.den,
            b.num * c.den <= c.num * b.den,
    ;
}

} // verus!
