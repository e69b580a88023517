use fixed_u128::fixed::FixedU128;

const DIV: u128 = 1_000_000_000_000_000_000;

fn max() -> FixedU128 {
    FixedU128::from_parts(u128::max_value())
}

#[test]
fn fixed128_semantics() {
    assert_eq!(FixedU128::from_rational(5, 2).deconstruct(), 5 * 1_000_000_000_000_000_000 / 2);
    assert_eq!(FixedU128::from_rational(5, 2), FixedU128::from_rational(10, 4));
    assert_eq!(FixedU128::from_rational(5, 0), FixedU128::from_rational(5, 1));

    // biggest value that can be created.
    assert_ne!(max(), FixedU128::from_natural(340_282_366_920_938_463_463));
    assert_eq!(max(), FixedU128::from_natural(340_282_366_920_938_463_464));
}

#[test]
fn fixed128_operation() {
    let a = FixedU128::from_natural(2);
    let b = FixedU128::from_natural(1);
    assert_eq!(a.checked_add(&b), Some(FixedU128::from_natural(1 + 2)));
    assert_eq!(a.checked_sub(&b), Some(FixedU128::from_natural(2 - 1)));
    assert_eq!(a.checked_mul(&b), Some(FixedU128::from_natural(1 * 2)));
    assert_eq!(a.checked_div(&b), Some(FixedU128::from_rational(2, 1)));

    let a = FixedU128::from_rational(5, 2);
    let b = FixedU128::from_rational(3, 2);
    assert_eq!(a.checked_add(&b), Some(FixedU128::from_rational(8, 2)));
    assert_eq!(a.checked_sub(&b), Some(FixedU128::from_rational(2, 2)));
    assert_eq!(a.checked_mul(&b), Some(FixedU128::from_rational(15, 4)));
    assert_eq!(a.checked_div(&b), Some(FixedU128::from_rational(10, 6)));

    let a = FixedU128::from_natural(120);
    let b = 2i32;
    assert_eq!(a.checked_div_int::<i32>(&b), Some(60));

    let a = FixedU128::from_rational(20, 1);
    let b = 2i32;
    assert_eq!(a.checked_div_int::<i32>(&b), Some(10));

    let a = FixedU128::from_natural(120);
    let b = 2i32;
    assert_eq!(a.checked_mul_int::<i32>(&b), Some(240));

    let a = FixedU128::from_rational(1, 2);
    let b = 20i32;
    assert_eq!(a.checked_mul_int::<i32>(&b), Some(10));
}

#[test]
fn saturating_mul_int_works() {
    let a = FixedU128::from_rational(10, 1);
    let b = u32::max_value() / 5;
    assert_eq!(a.saturating_mul_int(&b), u32::max_value());

    let a = FixedU128::from_rational(3, 1);
    let b = 100u8;
    assert_eq!(a.saturating_mul_int(&b), 255u8);

    let a = FixedU128::from_rational(10, 1);
    let b = 123;
    assert_eq!(a.saturating_mul_int(&b), 1230);
}

#[test]
fn zero_works() {
    assert_eq!(FixedU128::zero(), FixedU128::from_natural(0));
}

#[test]
fn is_zero_works() {
    assert!(FixedU128::zero().is_zero());
    assert!(!FixedU128::from_natural(1).is_zero());
}

#[test]
fn checked_div_with_zero_should_be_none() {
    let a = FixedU128::from_natural(1);
    let b = FixedU128::from_natural(0);
    assert_eq!(a.checked_div(&b), None);
}

#[test]
fn checked_div_int_with_zero_should_be_none() {
    let a = FixedU128::from_natural(1);
    let b = 0i32;
    assert_eq!(a.checked_div_int(&b), None);
}

#[test]
fn under_flow_should_be_none() {
    let a = FixedU128::from_natural(2);
    let b = FixedU128::from_natural(3);
    assert_eq!(a.checked_sub(&b), None);
}

#[test]
fn over_flow_should_be_none() {
    let a = FixedU128::from_parts(u128::max_value() - 1);
    let b = FixedU128::from_parts(2);
    assert_eq!(a.checked_add(&b), None);

    let a = FixedU128::max_value();
    let b = FixedU128::from_rational(2, 1);
    assert_eq!(a.checked_mul(&b), None);

    let a = FixedU128::from_natural(255);
    let b = 2u8;
    assert_eq!(a.checked_mul_int(&b), None);

    let a = FixedU128::from_natural(256);
    let b = 1u8;
    assert_eq!(a.checked_div_int(&b), None);
}

#[test]
fn recip_should_work() {
    let a = FixedU128::from_natural(2);
    assert_eq!(a.recip(), Some(FixedU128::from_rational(1, 2)));

    let a = FixedU128::from_natural(2);
    assert_eq!(a.recip().unwrap().checked_mul_int(&4i32), Some(2i32));

    let a = FixedU128::from_rational(100, 121);
    assert_eq!(a.recip(), Some(FixedU128::from_rational(121, 100)));

    let a = FixedU128::from_rational(1, 2);
    assert_eq!(a.recip().unwrap().checked_mul(&a), Some(FixedU128::from_natural(1)));

    let a = FixedU128::from_natural(0);
    assert_eq!(a.recip(), None);
}

#[test]
fn from_str_with_precision_should_work() {
    assert_eq!(
        FixedU128::from_str_with_precision("1").unwrap(),
        FixedU128::from_natural(1)
    );
    assert_eq!(
        FixedU128::from_str_with_precision("1.0").unwrap(),
        FixedU128::from_natural(1)
    );
    assert_eq!(
        FixedU128::from_str_with_precision("0.1").unwrap(),
        FixedU128::from_rational(1, 10)
    );
    assert_eq!(
        FixedU128::from_str_with_precision("2.5").unwrap(),
        FixedU128::from_rational(5, 2)
    );
    assert_eq!(
        FixedU128::from_str_with_precision("0.1000000000000000111").unwrap(),
        FixedU128::from_rational(100000000000000011u128, 1000000000000000000u128)
    );

    assert!(FixedU128::from_str_with_precision(".").is_err());
    assert!(FixedU128::from_str_with_precision("").is_err());
    assert!(FixedU128::from_str_with_precision("1.1.1").is_err());
    assert!(FixedU128::from_str_with_precision("a.1").is_err());
    assert!(FixedU128::from_str_with_precision("1.a").is_err());
    // 340282366920938463464 == u128::max_value() / DIV + 1; overflows
    assert!(FixedU128::from_str_with_precision("340282366920938463464").is_err());
}

#[test]
fn text_form_of_two_and_a_half() {
    let two_point_five = FixedU128::from_rational(5, 2);
    let text = two_point_five.str_with_precision();
    assert_eq!(text, "2.500000000000000000");
    assert_eq!(FixedU128::from_str_with_precision(&text), Ok(two_point_five));
}

#[test]
fn text_form_of_whole_numbers_and_extremes() {
    assert_eq!(FixedU128::from_natural(7).str_with_precision(), "7.0");
    assert_eq!(FixedU128::zero().str_with_precision(), "0.0");
    assert_eq!(
        FixedU128::max_value().str_with_precision(),
        "340282366920938463463.374607431768211455"
    );
    assert_eq!(
        FixedU128::from_str_with_precision("340282366920938463463.374607431768211455"),
        Ok(FixedU128::max_value())
    );
    assert!(FixedU128::from_str_with_precision("340282366920938463463.374607431768211456").is_err());
}

#[test]
fn text_form_of_short_fraction_is_read_with_padding() {
    // one hundredth is written with its raw fractional units, seventeen digits,
    // which are read back padded to eighteen.
    let hundredth = FixedU128::from_rational(1, 100);
    assert_eq!(hundredth.str_with_precision(), "0.10000000000000000");
    assert_eq!(
        FixedU128::from_str_with_precision("0.10000000000000000"),
        Ok(FixedU128::from_rational(1, 10))
    );
}

#[test]
fn from_str_accepts_what_u128_parsing_accepts() {
    assert_eq!(FixedU128::from_str_with_precision("1."), Ok(FixedU128::from_natural(1)));
    // the sign takes one of the eighteen fractional places.
    assert_eq!(FixedU128::from_str_with_precision("+3.+5"), Ok(FixedU128::from_parts(3_050_000_000_000_000_000)));
    assert_eq!(FixedU128::from_str_with_precision("0.5000000000000000009xyz"), Ok(FixedU128::from_rational(1, 2)));
    assert_eq!(FixedU128::from_str_with_precision("+"), Err("invalid string input"));
    assert_eq!(FixedU128::from_str_with_precision("-1"), Err("invalid string input"));
    assert_eq!(FixedU128::from_str_with_precision(".5"), Err("invalid string input"));
    assert_eq!(FixedU128::from_str_with_precision("1.-5"), Err("invalid string input"));
    assert_eq!(FixedU128::from_str_with_precision("١.5"), Err("invalid string input"));
    assert_eq!(
        FixedU128::from_str_with_precision("340282366920938463463"),
        Ok(FixedU128::from_natural(340282366920938463463))
    );
}

#[test]
fn debug_string_shows_integer_part_and_thousandths() {
    let a = FixedU128::from_rational(5, 2);
    assert_eq!(a.debug_string(), "FixedU128(2,500000000000000)");
    assert_eq!(FixedU128::from_parts(1999).debug_string(), "FixedU128(0,1)");
    assert_eq!(FixedU128::zero().debug_string(), "FixedU128(0,0)");
}

#[test]
fn accuracy_is_ten_to_the_eighteen() {
    assert_eq!(FixedU128::accuracy(), DIV);
    assert_eq!(FixedU128::from_natural(3).deconstruct(), 3 * DIV);
}

#[test]
fn saturating_operations() {
    let a = FixedU128::from_natural(5);
    let b = FixedU128::from_natural(3);
    assert_eq!(a.saturating_add(b), FixedU128::from_natural(8));
    assert_eq!(a.saturating_sub(b), FixedU128::from_natural(2));
    assert_eq!(b.saturating_sub(a), FixedU128::zero());
    assert_eq!(a.saturating_mul(b), FixedU128::from_natural(15));
    assert_eq!(FixedU128::max_value().saturating_add(a), FixedU128::max_value());
    assert_eq!(FixedU128::max_value().saturating_mul(a), FixedU128::max_value());
    assert_eq!(FixedU128::from_rational(1, 2).saturating_mul(FixedU128::from_rational(1, 2)), FixedU128::from_rational(1, 4));
    assert_eq!(FixedU128::min_value(), FixedU128::zero());
}

#[test]
fn from_rational_rounds_down_and_saturates() {
    assert_eq!(FixedU128::from_rational(1u8, 3u8).deconstruct(), 333_333_333_333_333_333);
    assert_eq!(FixedU128::from_rational(u128::MAX, 1u128), FixedU128::max_value());
    assert_eq!(FixedU128::from_rational(u128::MAX, u128::MAX), FixedU128::from_natural(1));
    // a negative numerator saturates to u128::MAX before the division.
    assert_eq!(FixedU128::from_rational(-1i32, 1i32), FixedU128::max_value());
    // a negative denominator saturates too, to u128::MAX.
    assert_eq!(FixedU128::from_rational(1i32, -1i32), FixedU128::zero());
    assert_eq!(FixedU128::from_rational(u128::MAX, u128::MAX - 1).deconstruct(), DIV);
}

#[test]
fn checked_mul_and_div_by_large_values() {
    let big = FixedU128::from_natural(1_000_000_000_000_000_000);
    assert_eq!(big.checked_mul(&big), None);
    assert_eq!(big.checked_div(&FixedU128::from_parts(1)), None);
    assert_eq!(FixedU128::from_parts(1).checked_div(&big), Some(FixedU128::zero()));
    assert_eq!(FixedU128::from_parts(1).recip(), Some(FixedU128::from_parts(1_000_000_000_000_000_000 * DIV)));
}

#[test]
fn int_operations_on_many_types() {
    let a = FixedU128::from_rational(3, 2);
    assert_eq!(a.checked_mul_int(&10u16), Some(15u16));
    assert_eq!(a.checked_mul_int(&10u64), Some(15u64));
    assert_eq!(a.checked_mul_int(&10u128), Some(15u128));
    assert_eq!(a.checked_mul_int(&10usize), Some(15usize));
    assert_eq!(a.checked_mul_int(&10i8), Some(15i8));
    assert_eq!(a.checked_mul_int(&10i16), Some(15i16));
    assert_eq!(a.checked_mul_int(&10i64), Some(15i64));
    assert_eq!(a.checked_mul_int(&10i128), Some(15i128));
    assert_eq!(a.checked_mul_int(&10isize), Some(15isize));
    assert_eq!(a.checked_mul_int(&-10i32), None);
    assert_eq!(a.saturating_mul_int(&-10i32), i32::MAX);
    assert_eq!(a.checked_mul_int(&100i8), None);
    assert_eq!(a.saturating_mul_int(&100i8), i8::MAX);
    assert_eq!(FixedU128::from_natural(300).checked_div_int(&-2i32), None);
    assert_eq!(FixedU128::from_natural(300).checked_div_int(&2u8), Some(150u8));
    assert_eq!(FixedU128::from_natural(7).checked_div_int(&2u32), Some(3u32));
    assert_eq!(FixedU128::max_value().checked_mul_int(&u128::MAX), None);
    assert_eq!(FixedU128::max_value().saturating_mul_int(&u128::MAX), u128::MAX);
}
