use fixed_u128::fixed::FixedU128;
use sp_arithmetic::{PerThing, Perbill, Percent, Permill, Perquintill};

const DIV: u128 = 1_000_000_000_000_000_000;

#[test]
fn add_then_sub_gives_back_the_operand() {
    let a = FixedU128::from_rational(7, 3);
    let b = FixedU128::from_rational(5, 4);
    let c = a.checked_add(&b).unwrap();
    assert_eq!(c.checked_sub(&b), Some(a));
    let d = a.checked_sub(&b).unwrap();
    assert_eq!(d.checked_add(&b), Some(a));
}

#[test]
fn add_and_mul_are_commutative() {
    let a = FixedU128::from_rational(7, 3);
    let b = FixedU128::from_rational(5, 4);
    assert_eq!(a.checked_add(&b), b.checked_add(&a));
    assert_eq!(a.checked_mul(&b), b.checked_mul(&a));
    assert_eq!(a.checked_mul(&b).unwrap().deconstruct(), 2_916_666_666_666_666_666);
}

#[test]
fn neutral_elements() {
    let a = FixedU128::from_rational(7, 3);
    let one = FixedU128::from_natural(1);
    assert_eq!(a.checked_add(&FixedU128::zero()), Some(a));
    assert_eq!(a.checked_sub(&FixedU128::zero()), Some(a));
    assert_eq!(a.checked_sub(&a), Some(FixedU128::zero()));
    assert_eq!(a.checked_mul(&one), Some(a));
    assert_eq!(a.checked_div(&one), Some(a));
}

#[test]
fn saturating_is_checked_or_bound() {
    let a = FixedU128::from_parts(u128::MAX - 5);
    let b = FixedU128::from_parts(10);
    assert_eq!(a.checked_add(&b), None);
    assert_eq!(a.saturating_add(b), FixedU128::max_value());
    assert_eq!(b.checked_sub(&a), None);
    assert_eq!(b.saturating_sub(a), FixedU128::zero());
    let c = FixedU128::from_natural(2);
    assert_eq!(c.saturating_mul(c), c.checked_mul(&c).unwrap());
}

#[test]
fn rational_by_zero_and_one() {
    assert_eq!(FixedU128::from_rational(9u64, 0u64), FixedU128::from_rational(9u64, 1u64));
    assert_eq!(FixedU128::from_rational(9u64, 1u64), FixedU128::from_natural(9));
}

#[test]
fn rational_scaling() {
    assert_eq!(FixedU128::from_rational(2u32, 3u32), FixedU128::from_rational(2000u32, 3000u32));
    assert_eq!(FixedU128::from_rational(2u32, 3u32).deconstruct(), 666_666_666_666_666_666);
}

#[test]
fn div_int_is_a_single_division() {
    let a = FixedU128::from_parts(7 * DIV - 1);
    // (7 * 10^18 - 1) / (2 * 10^18) rounds down to 3.
    assert_eq!(a.checked_div_int(&2u32), Some(3u32));
}

#[test]
fn recip_of_nonzero_never_overflows() {
    assert_eq!(FixedU128::from_parts(1).recip(), Some(FixedU128::from_parts(DIV * DIV)));
    assert_eq!(FixedU128::max_value().recip(), Some(FixedU128::zero()));
    assert_eq!(FixedU128::zero().recip(), None);
}

#[test]
fn mul_int_of_natural() {
    assert_eq!(FixedU128::from_natural(6).checked_mul_int(&7u32), Some(42u32));
}

#[test]
fn text_round_trip() {
    for x in [
        FixedU128::from_rational(5, 2),
        FixedU128::from_natural(12),
        FixedU128::from_parts(123_456_789_012_345_678_901),
        FixedU128::from_parts(100_000_000_000_000_000),
    ] {
        assert_eq!(FixedU128::from_str_with_precision(&x.str_with_precision()), Ok(x));
    }
}

#[test]
fn perthing_parts_into_fixed_u128() {
    let p = Percent::from_percent(10);
    let ten_percent_percent = FixedU128::from_rational(p.deconstruct(), <Percent as PerThing>::ACCURACY);
    assert_eq!(ten_percent_percent.deconstruct(), DIV / 10);

    let p = Permill::from_percent(10);
    let ten_percent_permill = FixedU128::from_rational(p.deconstruct(), <Permill as PerThing>::ACCURACY);
    assert_eq!(ten_percent_permill.deconstruct(), DIV / 10);

    let p = Perbill::from_percent(10);
    let ten_percent_perbill = FixedU128::from_rational(p.deconstruct(), <Perbill as PerThing>::ACCURACY);
    assert_eq!(ten_percent_perbill.deconstruct(), DIV / 10);

    let p = Perquintill::from_percent(10);
    let ten_percent_perquintill =
        FixedU128::from_rational(p.deconstruct(), <Perquintill as PerThing>::ACCURACY);
    assert_eq!(ten_percent_perquintill.deconstruct(), DIV / 10);
}

#[test]
fn saturating_pow_is_repeated_saturating_mul() {
    let a = FixedU128::from_rational(3, 2);
    assert_eq!(a.saturating_pow(0), FixedU128::from_natural(1));
    assert_eq!(a.saturating_pow(2), FixedU128::from_rational(9, 4));
    assert_eq!(a.saturating_pow(3), a.saturating_mul(a).saturating_mul(a));
    assert_eq!(FixedU128::from_natural(10).saturating_pow(100), FixedU128::max_value());
    assert_eq!(FixedU128::from_natural(1).saturating_pow(usize::MAX), FixedU128::from_natural(1));
    assert_eq!(FixedU128::zero().saturating_pow(usize::MAX), FixedU128::zero());
}

#[test]
fn one_times_int_is_that_int() {
    let one = FixedU128::from_natural(1);
    assert_eq!(one.checked_mul_int(&u128::MAX), Some(u128::MAX));
    assert_eq!(one.checked_mul_int(&i128::MAX), Some(i128::MAX));
    assert_eq!(one.checked_mul_int(&u8::MAX), Some(u8::MAX));
    assert_eq!(one.checked_mul_int(&0i16), Some(0i16));
    assert_eq!(one.checked_mul_int(&-1i16), None);
}
