//! 256-bit intermediate values for the fixed-point arithmetic.
//!
//! The arithmetic itself is done by `primitive_types::U256`; this module holds
//! its little-endian words as plain values and states, for each operation that
//! the library uses, what it computes on the numbers those words stand for.

use primitive_types::U256;
use vstd::prelude::*;

verus! {

/// 2^64, the weight of one word.
pub open spec fn word_base() -> nat {
    0x1_0000_0000_0000_0000
}

/// 2^256, one more than the largest 256-bit value.
pub open spec fn wide_bound() -> nat {
    word_base() * word_base() * word_base() * word_base()
}

/// The words of a 256-bit unsigned integer, least significant first, as
/// `primitive_types::U256` keeps them.
#[derive(Clone, Copy)]
pub struct U256Words {
    pub words: [u64; 4],
}

impl U256Words {
    /// The number the words stand for.
    pub open spec fn value(self) -> nat {
        self.words[0] as nat + word_base() * (self.words[1] as nat + word_base() * (
        self.words[2] as nat + word_base() * (self.words[3] as nat)))
    }
}

/// The product of two 128-bit values always fits in 256 bits.
pub proof fn lemma_u128_product_fits(x: u128, y: u128)
    ensures
        (x as nat) * (y as nat) < wide_bound(),
{
    let b = word_base();
    assert(x < b * b && y < b * b);
    assert((x as nat) * (y as nat) < b * b * b * b) by (nonlinear_arith)
        requires
            x < b * b,
            y < b * b,
    ;
}

/// `U256::from(u128)`: the 256-bit integer with the same value.
#[verifier::external_body]
pub(crate) fn u256_from_u128(x: u128) -> (r: U256Words)
    ensures
        r.value() == x as nat,
{
    U256Words { words: U256::from(x).0 }
}


/// `U256::checked_mul`: the product, or `None` where it does not fit in 256 bits.
#[verifier::external_body]
pub(crate) fn u256_checked_mul(a: U256Words, b: U256Words) -> (r: Option<U256Words>)
    ensures
        match r {
            Some(p) => a.value() * b.value() < wide_bound() && p.value() == a.value() * b.value(),
            None => a.value() * b.value() >= wide_bound(),
        },
{
    match U256(a.words).checked_mul(U256(b.words)) {
        Some(p) => Some(U256Words { words: p.0 }),
        None => None,
    }
}

/// `U256::saturating_mul`: the product, or the largest 256-bit value where the
/// product does not fit.
#[verifier::external_body]
pub(crate) fn u256_saturating_mul(a: U256Words, b: U256Words) -> (r: U256Words)
    ensures
        r.value() == (if a.value() * b.value() < wide_bound() {
            a.value() * b.value()
        } else {
            (wide_bound() - 1) as nat
        }),
{
    U256Words { words: U256(a.words).saturating_mul(U256(b.words)).0 }
}

/// `U256::checked_div`: the quotient rounded down, or `None` for a zero divisor.
#[verifier::external_body]
pub(crate) fn u256_checked_div(a: U256Words, b: U256Words) -> (r: Option<U256Words>)
    ensures
        match r {
            Some(q) => b.value() != 0 && q.value() == a.value() / b.value(),
            None => b.value() == 0,
        },
{
    match U256(a.words).checked_div(U256(b.words)) {
        Some(q) => Some(U256Words { words: q.0 }),
        None => None,
    }
}

/// `U256 / U256`: the quotient rounded down. It panics on a zero divisor, which
/// `requires` leaves out.
#[verifier::external_body]
pub(crate) fn u256_div(a: U256Words, b: U256Words) -> (r: U256Words)
    requires
        b.value() != 0,
    ensures
        r.value() == a.value() / b.value(),
{
    U256Words { words: (U256(a.words) / U256(b.words)).0 }
}

/// `Ord::max` on `U256`, which orders by value: the larger of the two values.
#[verifier::external_body]
pub(crate) fn u256_max(a: U256Words, b: U256Words) -> (r: U256Words)
    ensures
        r.value() == (if a.value() >= b.value() { a.value() } else { b.value() }),
{
    U256Words { words: U256(a.words).max(U256(b.words)).0 }
}

/// `U256::one()`: the value 1.
#[verifier::external_body]
pub(crate) fn u256_one() -> (r: U256Words)
    ensures
        r.value() == 1,
{
    U256Words { words: U256::one().0 }
}

/// `u128::try_from(U256)`: the same value where it fits in 128 bits, else the
/// error string of `primitive_types`.
#[verifier::external_body]
pub(crate) fn u256_try_into_u128(a: U256Words) -> (r: Result<u128, &'static str>)
    ensures
        match r {
            Ok(v) => a.value() <= u128::MAX && v as nat == a.value(),
            Err(_) => a.value() > u128::MAX,
        },
{
    u128::try_from(U256(a.words))
}

} // verus!
