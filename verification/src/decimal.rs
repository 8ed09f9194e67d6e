//! Fixed-point decimal arithmetic with eighteen fractional digits.
//!
//! A `Decimal` stores a non-negative value as an integer count of atomic
//! units, where `FRACTIONAL` atomic units make one whole unit.  All
//! operations are exact: multiplication of an integer amount by a decimal
//! rounds the true rational result down, and every operation reports
//! overflow instead of wrapping or panicking.

use vstd::prelude::*;
use vstd::arithmetic::div_mod::{
    lemma_fundamental_div_mod, lemma_fundamental_div_mod_converse, lemma_mod_bound,
};
use vstd::arithmetic::power2::{lemma2_to64, lemma2_to64_rest, lemma_pow2_pos, lemma_pow2_unfold, pow2};

verus! {

/// Atomic units per whole unit: ten to the eighteenth power.
pub const FRACTIONAL: u128 = 1_000_000_000_000_000_000;

/// A non-negative fixed-point decimal with eighteen fractional digits,
/// stored as `atomics / FRACTIONAL`.
#[derive(Clone, Copy, Debug, PartialEq, Eq, Structural)]
pub struct Decimal {
    pub atomics: u128,
}

/// `(x * y) / d == (x / d) * y + ((x % d) * y) / d` for non-negative
/// operands: dividing a product decomposes along the div/mod split of one
/// factor.
pub proof fn lemma_mul_div_decompose(x: int, y: int, d: int)
    requires
        0 <= x,
        0 <= y,
        0 < d,
    ensures
        (x * y) / d == (x / d) * y + ((x % d) * y) / d,
{
    let q = x / d;
    let r = x % d;
    lemma_fundamental_div_mod(x, d);
    lemma_mod_bound(x, d);
    assert(r * y >= 0) by (nonlinear_arith)
        requires
            0 <= r,
            0 <= y,
    ;
    let qq = (r * y) / d;
    let rr = (r * y) % d;
    lemma_fundamental_div_mod(r * y, d);
    lemma_mod_bound(r * y, d);
    assert(x * y == d * (q * y + qq) + rr) by (nonlinear_arith)
        requires
            x == d * q + r,
            r * y == d * qq + rr,
    ;
    lemma_fundamental_div_mod_converse(x * y, d, q * y + qq, rr);
}

/// `(r0 * FRACTIONAL) / d` computed exactly by binary long division,
/// for a remainder `r0 < d`; the result is below `FRACTIONAL` and
/// therefore always fits.
fn mul_frac_div(r0: u128, d: u128) -> (q: u128)
    requires
        0 < d,
        r0 < d,
    ensures
        q == (r0 as int * FRACTIONAL as int) / d as int,
        q < FRACTIONAL,
{
    let mut q: u128 = 0;
    let mut rem: u128 = 0;
    let mut pow: u128 = 0x800_0000_0000_0000;
    let ghost mut k: nat = 59;
    proof {
        lemma2_to64();
        lemma2_to64_rest();
        assert(FRACTIONAL as int / (2 * 0x800_0000_0000_0000int) == 0);
    }
    while pow > 0
        invariant
            0 < d,
            r0 < d,
            rem < d,
            q < FRACTIONAL,
            pow <= 0x800_0000_0000_0000,
            pow > 0 ==> pow == pow2(k) && k <= 59,
            pow > 0 ==> q as int * d as int + rem as int == r0 as int * (FRACTIONAL as int / (
            2 * pow as int)),
            pow == 0 ==> q as int * d as int + rem as int == r0 as int * FRACTIONAL as int,
        decreases pow,
    {
        let ghost q0 = q as int;
        let ghost rem0 = rem as int;
        let ghost f: int = FRACTIONAL as int;
        let ghost p: int = pow as int;
        let ghost po: int = f / (2 * p);
        let ghost pn: int = f / p;
        let bit: u128 = (FRACTIONAL / pow) % 2;
        proof {
            vstd::arithmetic::div_mod::lemma_div_denominator(f, p, 2);
            lemma_fundamental_div_mod(f / p, 2);
            lemma_mod_bound(f / p, 2);
            assert(pn == 2 * po + bit);
        }
        // double the partial remainder, carrying into the quotient
        if rem >= d - rem {
            q = q * 2 + 1;
            rem = rem - (d - rem);
            proof {
                assert(q as int * d as int + rem as int == 2 * (q0 * d as int + rem0))
                    by (nonlinear_arith)
                    requires
                        q as int == 2 * q0 + 1,
                        rem as int == 2 * rem0 - d as int,
                ;
            }
        } else {
            q = q * 2;
            rem = rem + rem;
            proof {
                assert(q as int * d as int + rem as int == 2 * (q0 * d as int + rem0))
                    by (nonlinear_arith)
                    requires
                        q as int == 2 * q0,
                        rem as int == 2 * rem0,
                ;
            }
        }
        let ghost q1g = q as int;
        let ghost rem1g = rem as int;
        // fold in the next bit of FRACTIONAL
        if bit == 1 {
            if rem >= d - r0 {
                q = q + 1;
                rem = rem - (d - r0);
                proof {
                    assert(q as int * d as int + rem as int == q1g * d as int + rem1g
                        + r0 as int) by (nonlinear_arith)
                        requires
                            q as int == q1g + 1,
                            rem as int == rem1g + r0 as int - d as int,
                    ;
                }
            } else {
                rem = rem + r0;
            }
        }
        proof {
            assert(q as int * d as int + rem as int == 2 * (q0 * d as int + rem0) + bit as int
                * r0 as int);
            // connect the new accumulator to the new prefix of FRACTIONAL
            assert(r0 as int * pn == 2 * (r0 as int * po) + bit as int * r0 as int)
                by (nonlinear_arith)
                requires
                    pn == 2 * po + bit as int,
            ;
            assert(q as int * d as int + rem as int == r0 as int * pn);
            // the quotient stays below FRACTIONAL
            assert(0 <= pn <= f);
            assert(q < FRACTIONAL) by (nonlinear_arith)
                requires
                    q as int * d as int + rem as int == r0 as int * pn,
                    0 <= pn,
                    pn <= FRACTIONAL as int,
                    0 <= r0 as int,
                    (r0 as int) < d as int,
                    0 <= rem as int,
                    0 <= q as int,
            ;
        }
        pow = pow / 2;
        proof {
            lemma2_to64();
            if pow > 0 {
                assert(k > 0);
                lemma_pow2_unfold(k);
                lemma_pow2_pos((k - 1) as nat);
                vstd::arithmetic::div_mod::lemma_div_multiples_vanish(
                    pow2((k - 1) as nat) as int,
                    2,
                );
                k = (k - 1) as nat;
                assert(pow == pow2(k));
                assert(2 * pow as int == p);
                assert(f / (2 * pow as int) == pn);
            } else {
                lemma_pow2_pos(k);
                if p >= 2 {
                    vstd::arithmetic::div_mod::lemma_div_non_zero(p, 2);
                }
                assert(p == 1);
                vstd::arithmetic::div_mod::lemma_div_basics(f);
                assert(pn == f);
            }
        }
    }
    proof {
        lemma_fundamental_div_mod_converse(
            r0 as int * FRACTIONAL as int,
            d as int,
            q as int,
            rem as int,
        );
    }
    q
}

impl Decimal {
    /// The decimal value zero.
    pub fn zero() -> (r: Self)
        ensures
            r.atomics == 0,
    {
        Decimal { atomics: 0 }
    }

    /// The decimal value one.
    pub fn one() -> (r: Self)
        ensures
            r.atomics == FRACTIONAL,
    {
        Decimal { atomics: FRACTIONAL }
    }

    /// Whether this decimal is zero.
    pub fn is_zero(&self) -> (r: bool)
        ensures
            r == (self.atomics == 0),
    {
        self.atomics == 0
    }

    /// Sum of two decimals, or `None` on overflow.
    pub fn checked_add(self, other: Self) -> (r: Option<Self>)
        ensures
            self.atomics + other.atomics <= u128::MAX ==> r == Some(
                Decimal { atomics: (self.atomics + other.atomics) as u128 },
            ),
            self.atomics + other.atomics > u128::MAX ==> r is None,
    {
        match self.atomics.checked_add(other.atomics) {
            Some(a) => Some(Decimal { atomics: a }),
            None => None,
        }
    }

    /// Difference of two decimals, or `None` when the subtrahend is larger.
    pub fn checked_sub(self, other: Self) -> (r: Option<Self>)
        ensures
            other.atomics <= self.atomics ==> r == Some(
                Decimal { atomics: (self.atomics - other.atomics) as u128 },
            ),
            other.atomics > self.atomics ==> r is None,
    {
        if other.atomics <= self.atomics {
            Some(Decimal { atomics: self.atomics - other.atomics })
        } else {
            None
        }
    }

    /// The ratio `numerator / denominator` as a decimal, rounded down to
    /// the nearest atomic unit; `None` exactly when the true result does
    /// not fit.
    pub fn checked_from_ratio(numerator: u128, denominator: u128) -> (r: Option<Self>)
        requires
            denominator > 0,
        ensures
            ({
                let exact = (numerator as int * FRACTIONAL as int) / denominator as int;
                if exact <= u128::MAX {
                    r == Some(Decimal { atomics: exact as u128 })
                } else {
                    r is None
                }
            }),
    {
        let ghost exact = (numerator as int * FRACTIONAL as int) / denominator as int;
        let q: u128 = numerator / denominator;
        let rem: u128 = numerator % denominator;
        let frac: u128 = mul_frac_div(rem, denominator);
        proof {
            lemma_mul_div_decompose(numerator as int, FRACTIONAL as int, denominator as int);
            assert(exact == q as int * FRACTIONAL as int + frac as int);
        }
        match q.checked_mul(FRACTIONAL) {
            Some(hi) => match hi.checked_add(frac) {
                Some(v) => Some(Decimal { atomics: v }),
                None => None,
            },
            None => {
                proof {
                    assert(q as int * FRACTIONAL as int > u128::MAX as int);
                }
                None
            },
        }
    }

    /// `amount * self`, rounded down to an integer; `None` exactly when
    /// the true result does not fit.
    pub fn checked_mul_uint_floor(self, amount: u128) -> (r: Option<u128>)
        ensures
            ({
                let exact = (amount as int * self.atomics as int) / FRACTIONAL as int;
                if exact <= u128::MAX {
                    r == Some(exact as u128)
                } else {
                    r is None
                }
            }),
    {
        let ghost exact = (amount as int * self.atomics as int) / FRACTIONAL as int;
        let a: u128 = self.atomics;
        let q1: u128 = amount / FRACTIONAL;
        let r1: u128 = amount % FRACTIONAL;
        let q2: u128 = a / FRACTIONAL;
        let r2: u128 = a % FRACTIONAL;
        proof {
            lemma_mul_div_decompose(amount as int, a as int, FRACTIONAL as int);
            lemma_mul_div_decompose(a as int, r1 as int, FRACTIONAL as int);
            assert(r1 as int * a as int == a as int * r1 as int) by (nonlinear_arith);
            assert(q2 as int * r1 as int == r1 as int * q2 as int) by (nonlinear_arith);
            assert(r2 as int * r1 as int == r1 as int * r2 as int) by (nonlinear_arith);
            assert(exact == q1 as int * a as int + r1 as int * q2 as int + (r1 as int
                * r2 as int) / FRACTIONAL as int);
            assert(r1 as int * (r2 as int) < FRACTIONAL as int * FRACTIONAL as int)
                by (nonlinear_arith)
                requires
                    0 <= r1 as int,
                    (r1 as int) < FRACTIONAL as int,
                    0 <= r2 as int,
                    (r2 as int) < FRACTIONAL as int,
            ;
            assert(r1 as int * q2 as int >= 0) by (nonlinear_arith)
                requires
                    r1 as int >= 0,
                    q2 as int >= 0,
            ;
            assert(r1 as int * r2 as int >= 0) by (nonlinear_arith)
                requires
                    r1 as int >= 0,
                    r2 as int >= 0,
            ;
            lemma_mod_bound(r1 as int * r2 as int, FRACTIONAL as int);
        }
        let t3: u128 = (r1 * r2) / FRACTIONAL;
        let t2: u128 = match r1.checked_mul(q2) {
            Some(v) => v,
            None => {
                proof {
                    assert(false) by (nonlinear_arith)
                        requires
                            r1 as int * q2 as int > u128::MAX as int,
                            (r1 as int) < FRACTIONAL as int,
                            FRACTIONAL as int * q2 as int <= a as int,
                            a as int <= u128::MAX as int,
                            q2 as int >= 0,
                            FRACTIONAL as int == 1_000_000_000_000_000_000,
                    ;
                }
                0
            },
        };
        match q1.checked_mul(a) {
            Some(t1) => match t1.checked_add(t2) {
                Some(s) => match s.checked_add(t3) {
                    Some(v) => Some(v),
                    None => None,
                },
                None => None,
            },
            None => {
                proof {
                    assert(q1 as int * a as int > u128::MAX as int);
                }
                None
            },
        }
    }
}

} // verus!
