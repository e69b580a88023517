//! Laws that relate the operations of `FixedU128` to one another, stated over
//! the spec functions that the operations' contracts use.

use crate::fixed::{
    add_raw,
    div_int_raw,
    div_raw,
    fits,
    int_of,
    mul_int_raw,
    mul_raw,
    pow_raw,
    rational_raw,
    saturate,
    saturated_u128,
    sub_raw,
    unit,
};
use crate::integer::FixedInt;
use vstd::arithmetic::div_mod::{
    lemma_fundamental_div_mod,
    lemma_mod_pos_bound,
    lemma_div_by_multiple,
    lemma_div_denominator,
    lemma_div_is_ordered_by_denominator,
    lemma_div_multiples_vanish,
};
use vstd::arithmetic::mul::{
    lemma_mul_inequality,
    lemma_mul_is_associative,
    lemma_mul_is_commutative,
};
use vstd::prelude::*;

verus! {

/// Subtracting what was added gives back the first operand: where
/// `a.checked_add(b)` is `Some(c)`, `c.checked_sub(b)` is `Some(a)`.
pub proof fn law_add_then_sub(a: u128, b: u128)
    requires
        add_raw(a, b) is Some,
    ensures
        sub_raw((a + b) as u128, b) == Some(a as int),
{
}

/// Adding back what was subtracted gives back the first operand: where
/// `a.checked_sub(b)` is `Some(c)`, `c.checked_add(b)` is `Some(a)`.
pub proof fn law_sub_then_add(a: u128, b: u128)
    requires
        sub_raw(a, b) is Some,
    ensures
        add_raw((a - b) as u128, b) == Some(a as int),
{
}

/// `checked_add` and `checked_mul` do not depend on the order of their operands.
pub proof fn law_commutative(a: u128, b: u128)
    ensures
        add_raw(a, b) == add_raw(b, a),
        mul_raw(a, b) == mul_raw(b, a),
{
    lemma_mul_is_commutative(a as int, b as int);
}

/// Zero is neutral for `checked_add` and `checked_sub`, one (raw value 10^18)
/// is neutral for `checked_mul` and `checked_div`, and a number minus itself
/// is zero.
pub proof fn law_neutral_elements(a: u128)
    ensures
        add_raw(a, 0) == Some(a as int),
        sub_raw(a, 0) == Some(a as int),
        sub_raw(a, a) == Some(0int),
        mul_raw(a, unit() as u128) == Some(a as int),
        div_raw(a, unit() as u128) == Some(a as int),
{
    lemma_div_multiples_vanish(a as int, unit());
    lemma_mul_is_commutative(a as int, unit());
}

/// Each saturating operation gives what the checked one gives, or the bound
/// where the checked one fails: `u128::MAX` for addition and multiplication,
/// zero for subtraction.
pub proof fn law_saturating_is_checked_or_bound(a: u128, b: u128)
    ensures
        saturate(a + b) == match add_raw(a, b) {
            Some(v) => v,
            None => u128::MAX as int,
        },
        saturate(a * b / unit()) == match mul_raw(a, b) {
            Some(v) => v,
            None => u128::MAX as int,
        },
        (if b <= a { a - b } else { 0 }) == match sub_raw(a, b) {
            Some(v) => v,
            None => 0,
        },
{
}

/// `from_rational(n, 0)` equals `from_rational(n, 1)`, and `from_rational(n, 1)`
/// equals `from_natural(n)`.
pub proof fn law_rational_by_zero_and_one(n: u128)
    ensures
        rational_raw(n as int, 0) == rational_raw(n as int, 1),
        rational_raw(n as int, 1) == saturate(n * unit()),
{
}

/// `from_rational` does not change when numerator and denominator are
/// multiplied by the same positive factor, as long as they stay within `u128`
/// (beyond it they saturate).
pub proof fn law_rational_scaling(n: nat, d: nat, k: nat)
    requires
        d >= 1,
        k >= 1,
        n * k <= u128::MAX,
        d * k <= u128::MAX,
    ensures
        rational_raw(saturated_u128((n * k) as int), saturated_u128((d * k) as int))
            == rational_raw(saturated_u128(n as int), saturated_u128(d as int)),
{
    assert(n <= n * k && d <= d * k) by (nonlinear_arith)
        requires
            k >= 1,
    ;
    let x = n * unit();
    assert(n * k * unit() == x * k) by {
        lemma_mul_is_associative(n as int, k as int, unit());
        lemma_mul_is_commutative(k as int, unit());
        lemma_mul_is_associative(n as int, unit(), k as int);
    }
    assert(d * k >= 1) by (nonlinear_arith)
        requires
            d >= 1,
            k >= 1,
    ;
    // (x * k) / (d * k) == ((x * k) / k) / d == x / d
    lemma_mul_is_commutative(d as int, k as int);
    lemma_div_denominator(x * k, k as int, d as int);
    lemma_div_by_multiple(x as int, k as int);
}

/// `checked_div_int` divides by `n` and by 10^18 in turn, which is the same as
/// dividing the raw value by `n * 10^18` once.
pub proof fn law_div_int_single_division(a: u128, n: int, max: int)
    requires
        n > 0,
    ensures
        div_int_raw(a, n, max) == fits((a as int) / (n * unit()), max),
{
    lemma_div_denominator(a as int, n, unit());
}

/// `recip` fails exactly on zero: the reciprocal of a non-zero number never
/// overflows, since it is at most 10^18.
pub proof fn law_recip_of_nonzero(a: u128)
    requires
        a != 0,
    ensures
        div_raw(unit() as u128, a) == Some(unit() * unit() / (a as int)),
        unit() * unit() / (a as int) <= unit() * unit(),
{
    lemma_div_is_ordered_by_denominator(unit() * unit(), 1, a as int);
}

/// Multiplying a whole number `m` by an integer `n` gives their product,
/// where `m` is small enough to be held exactly.
pub proof fn law_mul_int_of_natural(m: u128, n: int, max: int)
    requires
        m * unit() <= u128::MAX,
        n >= 0,
    ensures
        mul_int_raw((m * unit()) as u128, n, max) == fits(m * n, max),
{
    assert(m * unit() * n == (m * n) * unit()) by {
        lemma_mul_is_associative(m as int, unit(), n);
        lemma_mul_is_commutative(unit(), n);
        lemma_mul_is_associative(m as int, n, unit());
    }
    lemma_div_multiples_vanish(m * n, unit());
    lemma_mul_is_commutative(m * n, unit());
}

/// One times an integer is that integer: `from_natural(1).checked_mul_int(&n)`
/// is `Some(n)` for every non-negative `n` of every integer type.
pub proof fn law_one_times_int<N: FixedInt>(n: N, r: Option<N>)
    requires
        n.as_int() >= 0,
    ensures
        mul_int_raw(unit() as u128, n.as_int(), N::max_int()) == Some(n.as_int()),
        int_of(r) == mul_int_raw(unit() as u128, n.as_int(), N::max_int()) ==> r == Some(n),
{
    n.lemma_as_int_in_range(n);
    lemma_div_multiples_vanish(n.as_int(), unit());
    if int_of(r) == mul_int_raw(unit() as u128, n.as_int(), N::max_int()) {
        let v = r.unwrap();
        v.lemma_as_int_in_range(n);
    }
}

/// Rounding down: the quotient times the divisor lies at most the dividend and
/// less than one divisor below it.
pub proof fn lemma_floor_div(x: int, y: int)
    requires
        x >= 0,
        y > 0,
    ensures
        (x / y) * y <= x < (x / y) * y + y,
        x / y >= 0,
{
    lemma_fundamental_div_mod(x, y);
    lemma_mod_pos_bound(x, y);
    lemma_mul_is_commutative(x / y, y);
}

/// Where a rounded-down quotient exceeds `max`, the dividend is at least
/// `(max + 1)` divisors.
proof fn lemma_floor_div_exceeds(x: int, y: int, max: int)
    requires
        x >= 0,
        y > 0,
        max >= 0,
        x / y > max,
    ensures
        x >= (max + 1) * y,
{
    lemma_floor_div(x, y);
    lemma_mul_inequality(max + 1, x / y, y);
}

/// `checked_mul` gives the product of the two numbers rounded down to a raw
/// unit, `v` with `v * 10^18 <= a * b < (v + 1) * 10^18`, and gives `None`
/// exactly where that product reaches past the largest value, that is where
/// `a * b >= (u128::MAX + 1) * 10^18`.
pub proof fn law_checked_mul_rounds_down(a: u128, b: u128)
    ensures
        match mul_raw(a, b) {
            Some(v) => 0 <= v <= u128::MAX && v * unit() <= a * b && a * b < v * unit() + unit(),
            None => a * b >= (u128::MAX + 1) * unit(),
        },
{
    assert(a * b >= 0) by (nonlinear_arith);
    lemma_floor_div(a * b, unit());
    if a * b / unit() > u128::MAX {
        lemma_floor_div_exceeds(a * b, unit(), u128::MAX as int);
    }
}

/// `saturating_mul` gives the product rounded down to a raw unit, or the
/// largest value where that product does not fit.
pub proof fn law_saturating_mul_rounds_down(a: u128, b: u128)
    ensures
        ({
            let r = saturate(a * b / unit());
            &&& 0 <= r <= u128::MAX
            &&& r * unit() <= a * b
            &&& r == u128::MAX || a * b < r * unit() + unit()
        }),
{
    assert(a * b >= 0) by (nonlinear_arith);
    lemma_floor_div(a * b, unit());
    if a * b / unit() > u128::MAX {
        lemma_mul_inequality(u128::MAX as int, a * b / unit(), unit());
    }
}

/// `checked_div` (and so `recip`, which divides one) gives the quotient
/// rounded down to a raw unit, `v` with `v * b <= a * 10^18 < (v + 1) * b`;
/// it gives `None` exactly for a zero divisor or where that quotient reaches
/// past the largest value, `a * 10^18 >= (u128::MAX + 1) * b`.
pub proof fn law_checked_div_rounds_down(a: u128, b: u128)
    ensures
        match div_raw(a, b) {
            Some(v) => b != 0 && 0 <= v <= u128::MAX && v * b <= a * unit() && a * unit() < v * b
                + b,
            None => b == 0 || a * unit() >= (u128::MAX + 1) * b,
        },
{
    if b != 0 {
        lemma_floor_div(a * unit(), b as int);
        if a * unit() / (b as int) > u128::MAX {
            lemma_floor_div_exceeds(a * unit(), b as int, u128::MAX as int);
        }
    }
}

/// `checked_mul_int` gives the integer part of the number times `n`, `v` with
/// `v * 10^18 <= a * n < (v + 1) * 10^18`; it gives `None` exactly for a
/// negative `n` or where that integer part is past the target type's largest
/// value `max`.
pub proof fn law_checked_mul_int_rounds_down(a: u128, n: int, max: int)
    requires
        max >= 0,
    ensures
        match mul_int_raw(a, n, max) {
            Some(v) => n >= 0 && 0 <= v <= max && v * unit() <= a * n && a * n < v * unit() + unit(),
            None => n < 0 || a * n >= (max + 1) * unit(),
        },
{
    if n >= 0 {
        assert(a * n >= 0) by (nonlinear_arith)
            requires
                n >= 0,
        ;
        lemma_floor_div(a * n, unit());
        if a * n / unit() > max {
            lemma_floor_div_exceeds(a * n, unit(), max);
        }
    }
}

/// `checked_div_int` gives the integer part of the number divided by `n`,
/// `v` with `v * n * 10^18 <= a < (v + 1) * n * 10^18`; it gives `None`
/// exactly for an `n` that is not positive or where that integer part is past
/// the target type's largest value `max`.
pub proof fn law_checked_div_int_rounds_down(a: u128, n: int, max: int)
    requires
        max >= 0,
    ensures
        match div_int_raw(a, n, max) {
            Some(v) => n > 0 && 0 <= v <= max && v * (n * unit()) <= a && a < v * (n * unit()) + n
                * unit(),
            None => n <= 0 || a >= (max + 1) * (n * unit()),
        },
{
    if n > 0 {
        lemma_div_denominator(a as int, n, unit());
        assert(n * unit() > 0) by (nonlinear_arith)
            requires
                n > 0,
        ;
        lemma_floor_div(a as int, n * unit());
        if (a as int) / (n * unit()) > max {
            lemma_floor_div_exceeds(a as int, n * unit(), max);
        }
    }
}

/// `from_rational(n, d)`, for `n` and `d >= 1` within `u128`, gives `n / d`
/// rounded down to a raw unit, `r` with `r * d <= n * 10^18 < (r + 1) * d`,
/// or the largest value where that quotient does not fit.
pub proof fn law_from_rational_rounds_down(n: int, d: int)
    requires
        0 <= n <= u128::MAX,
        1 <= d <= u128::MAX,
    ensures
        ({
            let r = rational_raw(saturated_u128(n), saturated_u128(d));
            &&& 0 <= r <= u128::MAX
            &&& r * d <= n * unit()
            &&& r == u128::MAX || n * unit() < r * d + d
        }),
{
    lemma_floor_div(n * unit(), d);
    if n * unit() / d > u128::MAX {
        lemma_mul_inequality(u128::MAX as int, n * unit() / d, d);
    }
}

/// `checked_add` gives the sum, and `None` exactly where the sum passes the
/// largest value; `checked_sub` gives the difference, and `None` exactly where
/// it would be negative.
pub proof fn law_add_sub_exact(a: u128, b: u128)
    ensures
        match add_raw(a, b) {
            Some(v) => v == a + b && v <= u128::MAX,
            None => a + b > u128::MAX,
        },
        match sub_raw(a, b) {
            Some(v) => v == a - b && v >= 0,
            None => a < b,
        },
{
}

/// `saturating_pow` starts from one and takes each further power as the
/// previous one times the number, rounded down to a raw unit, or the largest
/// value where that does not fit.
pub proof fn law_saturating_pow_steps(a: u128, e: nat)
    ensures
        pow_raw(a, 0) == unit(),
        ({
            let p = pow_raw(a, e);
            let q = pow_raw(a, e + 1);
            &&& 0 <= p <= u128::MAX
            &&& 0 <= q <= u128::MAX
            &&& q * unit() <= p * a
            &&& q == u128::MAX || p * a < q * unit() + unit()
        }),
    decreases e,
{
    if e > 0 {
        law_saturating_pow_steps(a, (e - 1) as nat);
    }
    let p = pow_raw(a, e);
    assert(p * a >= 0) by (nonlinear_arith)
        requires
            p >= 0,
    ;
    lemma_floor_div(p * a, unit());
    if p * a / unit() > u128::MAX {
        lemma_mul_inequality(u128::MAX as int, p * a / unit(), unit());
    }
}

} // verus!
