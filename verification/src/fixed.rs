//! `FixedU128`: an unsigned fixed-point number with 18 decimal places, held
//! as its raw value, the number times 10^18.

use crate::integer::FixedInt;
use crate::wide::{
    lemma_u128_product_fits,
    u256_from_u128,
    u256_checked_mul,
    u256_checked_div,
    u256_saturating_mul,
    u256_div,
    u256_max,
    u256_one,
    u256_try_into_u128,
};
use vstd::prelude::*;

verus! {

/// The raw value that stands for one: 10^18.
pub open spec fn unit() -> int {
    1_000_000_000_000_000_000
}

/// `x` (not negative), or the largest `u128` where `x` does not fit.
pub open spec fn saturate(x: int) -> int {
    if x <= u128::MAX {
        x
    } else {
        u128::MAX as int
    }
}

/// `Some(x)` where `x` fits in a `u128` (or in the bound given), else `None`.
pub open spec fn fits(x: int, max: int) -> Option<int> {
    if x <= max {
        Some(x)
    } else {
        None
    }
}

/// The raw value of the sum.
pub open spec fn add_raw(a: u128, b: u128) -> Option<int> {
    fits(a + b, u128::MAX as int)
}

/// The raw value of the difference, where it is not negative.
pub open spec fn sub_raw(a: u128, b: u128) -> Option<int> {
    if b <= a {
        Some(a - b)
    } else {
        None
    }
}

/// The raw value of the product, rounded down.
pub open spec fn mul_raw(a: u128, b: u128) -> Option<int> {
    fits(a * b / unit(), u128::MAX as int)
}

/// The raw value of the quotient, rounded down, where the divisor is not zero.
pub open spec fn div_raw(a: u128, b: u128) -> Option<int> {
    if b == 0 {
        None
    } else {
        fits(a * unit() / (b as int), u128::MAX as int)
    }
}

/// The integer part of the number with raw value `a` times `n`, where `n` is
/// not negative and the result is at most `max`.
pub open spec fn mul_int_raw(a: u128, n: int, max: int) -> Option<int> {
    if n < 0 {
        None
    } else {
        fits(a * n / unit(), max)
    }
}

/// The integer part of the number with raw value `a` divided by `n`, where
/// `n` is positive and the result is at most `max`.
pub open spec fn div_int_raw(a: u128, n: int, max: int) -> Option<int> {
    if n <= 0 {
        None
    } else {
        fits((a as int) / n / unit(), max)
    }
}

/// The raw value of `a` to the power `e` by repeated saturating
/// multiplication, starting from one.
pub open spec fn pow_raw(a: u128, e: nat) -> int
    decreases e,
{
    if e == 0 {
        unit()
    } else {
        saturate(pow_raw(a, (e - 1) as nat) * a / unit())
    }
}

/// Once a step of `pow_raw` leaves the value unchanged, so do all later steps.
pub proof fn lemma_pow_raw_fixed_point(a: u128, i: nat, j: nat)
    requires
        i <= j,
        saturate(pow_raw(a, i) * a / unit()) == pow_raw(a, i),
    ensures
        pow_raw(a, j) == pow_raw(a, i),
    decreases j - i,
{
    if i < j {
        lemma_pow_raw_fixed_point(a, i, (j - 1) as nat);
    }
}

/// What `UniqueSaturatedInto<u128>` makes of an integer: the same value
/// where it fits in a `u128`, else the largest `u128`.
pub open spec fn saturated_u128(x: int) -> int {
    if 0 <= x <= u128::MAX {
        x
    } else {
        u128::MAX as int
    }
}

/// The raw value of `n / d`, rounded down and saturated, where a zero `d`
/// counts as one.
pub open spec fn rational_raw(n: int, d: int) -> int {
    saturate(n * unit() / (if d >= 1 { d } else { 1 }))
}

/// The raw value inside an optional result.
pub open spec fn raw_of(r: Option<FixedU128>) -> Option<int> {
    match r {
        Some(v) => Some(v@ as int),
        None => None,
    }
}

/// The integer inside an optional result.
pub open spec fn int_of<N: FixedInt>(r: Option<N>) -> Option<int> {
    match r {
        Some(v) => Some(v.as_int()),
        None => None,
    }
}

const DIV: u128 = 1_000_000_000_000_000_000;

/// An unsigned fixed point number. Can hold any value in the range
/// [0, 340_282_366_920_938_463_463.374607431768211455] (raw values 0 to
/// `u128::MAX`) with fixed point accuracy of 10 ** 18.
#[derive(Clone, Copy, Debug, Default, PartialEq, Eq, Structural, PartialOrd, Ord)]
pub struct FixedU128(u128);

impl View for FixedU128 {
    type V = u128;

    /// The raw value: the number times 10^18.
    closed spec fn view(&self) -> u128 {
        self.0
    }
}

impl FixedU128 {
    /// The raw value determines the number.
    pub proof fn lemma_view(self, other: Self)
        ensures
            self@ == other@ ==> self == other,
    {
    }

    /// Create self from a natural number.
    ///
    /// Note that this might be lossy.
    pub fn from_natural(n: u128) -> (r: Self)
        ensures
            r@ == saturate(n * unit()),
    {
        match n.checked_mul(DIV) {
            Some(v) => FixedU128(v),
            None => FixedU128(u128::MAX),
        }
    }

    /// Accuracy of `FixedU128`.
    pub fn accuracy() -> (r: u128)
        ensures
            r == unit(),
    {
        DIV
    }

    /// Raw constructor. Equal to `parts / DIV`.
    pub fn from_parts(parts: u128) -> (r: Self)
        ensures
            r@ == parts,
    {
        FixedU128(parts)
    }

    /// Creates self from a rational number. Equal to `n/d`.
    ///
    /// Note that this might be lossy.
    pub fn from_rational<N: FixedInt>(n: N, d: N) -> (r: Self)
        ensures
            r@ == rational_raw(saturated_u128(n.as_int()), saturated_u128(d.as_int())),
    {
        let n = match n.try_into_u128() {
            Some(v) => v,
            None => u128::MAX,
        };
        let n = u256_from_u128(n);
        let d = match d.try_into_u128() {
            Some(v) => v,
            None => u128::MAX,
        };
        let d = u256_from_u128(d);
        proof {
            lemma_u128_product_fits(n.value() as u128, DIV);
        }
        let scaled = u256_saturating_mul(n, u256_from_u128(DIV));
        let divisor = u256_max(d, u256_one());
        let q = u256_div(scaled, divisor);
        match u256_try_into_u128(q) {
            Ok(v) => FixedU128(v),
            Err(_) => FixedU128(u128::MAX),
        }
    }

    /// Consume self and return the inner raw `u128` value.
    ///
    /// Note this is a low level function, as the returned value is represented with accuracy.
    pub fn deconstruct(self) -> (r: u128)
        ensures
            r == self@,
    {
        self.0
    }

    /// Takes the reciprocal(inverse) of FixedU128, 1/x
    pub fn recip(&self) -> (r: Option<Self>)
        ensures
            raw_of(r) == div_raw(unit() as u128, self@),
    {
        Self::from_natural(1u128).checked_div(self)
    }

    /// Checked add. Same semantic to `num_traits::CheckedAdd`.
    pub fn checked_add(&self, rhs: &Self) -> (r: Option<Self>)
        ensures
            raw_of(r) == add_raw(self@, rhs@),
    {
        match self.0.checked_add(rhs.0) {
            Some(v) => Some(FixedU128(v)),
            None => None,
        }
    }

    /// Checked sub. Same semantic to `num_traits::CheckedSub`.
    pub fn checked_sub(&self, rhs: &Self) -> (r: Option<Self>)
        ensures
            raw_of(r) == sub_raw(self@, rhs@),
    {
        match self.0.checked_sub(rhs.0) {
            Some(v) => Some(FixedU128(v)),
            None => None,
        }
    }

    /// Checked mul. Same semantic to `num_traits::CheckedMul`.
    pub fn checked_mul(&self, rhs: &Self) -> (r: Option<Self>)
        ensures
            raw_of(r) == mul_raw(self@, rhs@),
    {
        let a = u256_from_u128(self.0);
        let b = u256_from_u128(rhs.0);
        proof {
            lemma_u128_product_fits(self.0, rhs.0);
        }
        match u256_checked_mul(a, b) {
            Some(p) => match u256_checked_div(p, u256_from_u128(DIV)) {
                Some(q) => match u256_try_into_u128(q) {
                    Ok(v) => Some(FixedU128(v)),
                    Err(_) => None,
                },
                None => None,
            },
            None => None,
        }
    }

    /// Checked div. Same semantic to `num_traits::CheckedDiv`.
    pub fn checked_div(&self, rhs: &Self) -> (r: Option<Self>)
        ensures
            raw_of(r) == div_raw(self@, rhs@),
    {
        let a = u256_from_u128(self.0);
        let d = u256_from_u128(DIV);
        proof {
            lemma_u128_product_fits(self.0, DIV);
        }
        match u256_checked_mul(a, d) {
            Some(p) => match u256_checked_div(p, u256_from_u128(rhs.0)) {
                Some(q) => match u256_try_into_u128(q) {
                    Ok(v) => Some(FixedU128(v)),
                    Err(_) => None,
                },
                None => None,
            },
            None => None,
        }
    }

    /// Checked mul for int type `N`.
    pub fn checked_mul_int<N: FixedInt>(&self, other: &N) -> (r: Option<N>)
        ensures
            int_of(r) == mul_int_raw(self@, other.as_int(), N::max_int()),
    {
        proof {
            N::lemma_max_int_fits();
        }
        match other.try_into_u128() {
            Some(n) => {
                let a = u256_from_u128(self.0);
                let b = u256_from_u128(n);
                proof {
                    lemma_u128_product_fits(self.0, n);
                }
                match u256_checked_mul(a, b) {
                    Some(p) => match u256_checked_div(p, u256_from_u128(DIV)) {
                        Some(q) => match u256_try_into_u128(q) {
                            Ok(v) => N::try_from_u128(v),
                            Err(_) => None,
                        },
                        None => None,
                    },
                    None => None,
                }
            },
            None => None,
        }
    }

    /// Checked mul for int type `N`, saturating at the largest value of `N`.
    pub fn saturating_mul_int<N: FixedInt>(&self, other: &N) -> (r: N)
        ensures
            r.as_int() == match mul_int_raw(self@, other.as_int(), N::max_int()) {
                Some(v) => v,
                None => N::max_int(),
            },
    {
        match self.checked_mul_int(other) {
            Some(v) => v,
            None => N::bounded_max(),
        }
    }

    /// Checked div for int type `N`.
    pub fn checked_div_int<N: FixedInt>(&self, other: &N) -> (r: Option<N>)
        ensures
            int_of(r) == div_int_raw(self@, other.as_int(), N::max_int()),
    {
        match other.try_into_u128() {
            Some(n) => match self.0.checked_div(n) {
                Some(q) => match q.checked_div(DIV) {
                    Some(q) => N::try_from_u128(q),
                    None => None,
                },
                None => None,
            },
            None => None,
        }
    }

    /// The value zero.
    pub fn zero() -> (r: Self)
        ensures
            r@ == 0,
    {
        FixedU128(0)
    }

    /// Whether the value is zero.
    pub fn is_zero(&self) -> (r: bool)
        ensures
            r == (self@ == 0),
    {
        self.0 == 0
    }

    /// Saturating add: the sum, or the largest value where it does not fit.
    pub fn saturating_add(self, rhs: Self) -> (r: Self)
        ensures
            r@ == saturate(self@ + rhs@),
    {
        match self.0.checked_add(rhs.0) {
            Some(v) => FixedU128(v),
            None => FixedU128(u128::MAX),
        }
    }

    /// Saturating mul: the product, or the largest value where it does not fit.
    pub fn saturating_mul(self, rhs: Self) -> (r: Self)
        ensures
            r@ == saturate(self@ * rhs@ / unit()),
    {
        let a = u256_from_u128(self.0);
        let b = u256_from_u128(rhs.0);
        proof {
            lemma_u128_product_fits(self.0, rhs.0);
        }
        let p = u256_saturating_mul(a, b);
        let q = u256_div(p, u256_from_u128(DIV));
        match u256_try_into_u128(q) {
            Ok(v) => FixedU128(v),
            Err(_) => FixedU128(u128::MAX),
        }
    }

    /// Saturating power: `exp` saturating multiplications of one by `self`.
    pub fn saturating_pow(self, exp: usize) -> (r: Self)
        ensures
            r@ == pow_raw(self@, exp as nat),
    {
        let mut acc = FixedU128(DIV);
        let mut i: usize = 0;
        while i < exp
            invariant
                i <= exp,
                acc@ == pow_raw(self@, i as nat),
            decreases exp - i,
        {
            let next = acc.saturating_mul(self);
            if next.0 == acc.0 {
                proof {
                    lemma_pow_raw_fixed_point(self@, i as nat, exp as nat);
                }
                return acc;
            }
            acc = next;
            i = i + 1;
        }
        acc
    }

    /// Saturating sub: the difference, or zero where `rhs` is the larger.
    pub fn saturating_sub(self, rhs: Self) -> (r: Self)
        ensures
            r@ == (if rhs@ <= self@ { self@ - rhs@ } else { 0 }),
    {
        match self.0.checked_sub(rhs.0) {
            Some(v) => FixedU128(v),
            None => FixedU128(0),
        }
    }

    /// The largest value.
    pub fn max_value() -> (r: Self)
        ensures
            r@ == u128::MAX,
    {
        FixedU128(u128::MAX)
    }

    /// The smallest value, zero.
    pub fn min_value() -> (r: Self)
        ensures
            r@ == 0,
    {
        FixedU128(0u128)
    }
}

} // verus!
