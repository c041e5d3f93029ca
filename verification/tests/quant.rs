use ledr::util::decimal::next_digit;
use ledr::util::quant::{Quant, MAX_PLACES};
use std::cmp::Ordering;

#[test]
fn test_positive_number_with_precision() {
    let quant = Quant::new(123, 2);
    assert_eq!(quant.numerator, 123);
    assert_eq!(quant.denominator, 100);
    assert_eq!(quant.render_precision, 2);
}

#[test]
fn test_zero_number() {
    let quant = Quant::new(0, 5);
    assert_eq!(quant.numerator, 0);
    assert_eq!(quant.denominator, 1);
    assert_eq!(quant.render_precision, 5);
    assert!(!quant.is_negative);
}

#[test]
fn test_negative_number_with_precision() {
    let quant = Quant::new(-456, 3);
    assert_eq!(quant.numerator, 57);
    assert_eq!(quant.denominator, 125);
    assert_eq!(quant.render_precision, 3);
    assert!(quant.is_negative);
}

#[test]
fn test_high_precision() {
    let quant = Quant::new(789, 10);
    assert_eq!(quant.numerator, 789);
    assert_eq!(quant.denominator, 10u128.pow(10));
    assert_eq!(quant.render_precision, 10);
    assert!(!quant.is_negative);
}

#[test]
fn test_no_precision() {
    let quant = Quant::new(42, 0);
    assert_eq!(quant.numerator, 42);
    assert_eq!(quant.denominator, 1);
    assert_eq!(quant.render_precision, 0);
    assert!(!quant.is_negative);
}

#[test]
fn test_large_number_and_precision() {
    let quant = Quant::new(987654321, 15);
    assert_eq!(quant.numerator, 987654321);
    assert_eq!(quant.denominator, 10u128.pow(15));
    assert_eq!(quant.render_precision, 15);
    assert!(!quant.is_negative);
}

#[test]
fn test_number_reduction() {
    let quant = Quant::new(200, 2);
    assert_eq!(quant.numerator, 2);
    assert_eq!(quant.denominator, 1);
    assert_eq!(quant.render_precision, 2);
    assert!(!quant.is_negative);
}

#[test]
fn test_negative_number_reduction() {
    let quant = Quant::new(-200, 2);
    assert_eq!(quant.numerator, 2);
    assert_eq!(quant.denominator, 1);
    assert_eq!(quant.render_precision, 2);
    assert!(quant.is_negative);
}

#[test]
fn test_zero_precision_with_large_number() {
    let quant = Quant::new(999999999999999999, 0);
    assert_eq!(quant.numerator, 999999999999999999);
    assert_eq!(quant.denominator, 1);
    assert_eq!(quant.render_precision, 0);
    assert!(!quant.is_negative);
}

#[test]
fn test_large_negative_number_with_high_precision() {
    let quant = Quant::new(-123456789, 18);
    assert_eq!(quant.numerator, 123456789);
    assert_eq!(quant.denominator, 10u128.pow(18));
    assert_eq!(quant.render_precision, 18);
    assert!(quant.is_negative);
}

#[test]
fn test_positive_fraction() {
    let quant = Quant::from_frac(6, 8);
    assert_eq!(quant.numerator, 3);
    assert_eq!(quant.denominator, 4);
    assert_eq!(quant.render_precision, 0);
    assert!(!quant.is_negative);
}

#[test]
fn test_negative_fraction_numerator() {
    let quant = Quant::from_frac(-6, 8);
    assert_eq!(quant.numerator, 3);
    assert_eq!(quant.denominator, 4);
    assert_eq!(quant.render_precision, 0);
    assert!(quant.is_negative);
}

#[test]
fn test_negative_fraction_denominator() {
    let quant = Quant::from_frac(6, -8);
    assert_eq!(quant.numerator, 3);
    assert_eq!(quant.denominator, 4);
    assert_eq!(quant.render_precision, 0);
    assert!(quant.is_negative);
}

#[test]
fn test_negative_fraction_both() {
    let quant = Quant::from_frac(-6, -8);
    assert_eq!(quant.numerator, 3);
    assert_eq!(quant.denominator, 4);
    assert_eq!(quant.render_precision, 0);
    assert!(!quant.is_negative);
}

#[test]
fn test_reduction_to_lowest_terms() {
    let quant = Quant::from_frac(100, 400);
    assert_eq!(quant.numerator, 1);
    assert_eq!(quant.denominator, 4);
    assert_eq!(quant.render_precision, 0);
    assert!(!quant.is_negative);
}

#[test]
fn test_large_numbers() {
    let quant =
        Quant::from_frac(12345678901234567890, 9876543210987654321);
    assert_eq!(quant.numerator, 137174210);
    assert_eq!(quant.denominator, 109739369);
    assert_eq!(quant.render_precision, 0);
    assert!(!quant.is_negative);
}

#[test]
fn test_one_as_denominator() {
    let quant = Quant::from_frac(7, 1);
    assert_eq!(quant.numerator, 7);
    assert_eq!(quant.denominator, 1);
    assert_eq!(quant.render_precision, 0);
    assert!(!quant.is_negative);
}

#[test]
fn test_zero_as_numerator() {
    let quant = Quant::from_frac(0, 5);
    assert_eq!(quant.numerator, 0);
    assert_eq!(quant.denominator, 1);
    assert_eq!(quant.render_precision, 0);
    assert!(!quant.is_negative);
}

#[test]
fn test_already_reduced_fraction() {
    let quant = Quant::from_frac(3, 4);
    assert_eq!(quant.numerator, 3);
    assert_eq!(quant.denominator, 4);
    assert_eq!(quant.render_precision, 0);
    assert!(!quant.is_negative);
}

#[test]
fn test_negative_one_as_denominator() {
    let quant = Quant::from_frac(7, -1);
    assert_eq!(quant.numerator, 7);
    assert_eq!(quant.denominator, 1);
    assert_eq!(quant.render_precision, 0);
    assert!(quant.is_negative);
}

#[test]
fn test_negative_one_as_numerator() {
    let quant = Quant::from_frac(-1, 3);
    assert_eq!(quant.numerator, 1);
    assert_eq!(quant.denominator, 3);
    assert_eq!(quant.render_precision, 0);
    assert!(quant.is_negative);
}

#[test]
fn test_minimal_fraction() {
    let quant = Quant::from_frac(1, 2);
    assert_eq!(quant.numerator, 1);
    assert_eq!(quant.denominator, 2);
    assert_eq!(quant.render_precision, 0);
    assert!(!quant.is_negative);
}

#[test]
fn test_from_str_positive_integer() {
    let quant = Quant::from_str("123").unwrap();
    assert_eq!(quant.numerator, 123);
    assert_eq!(quant.denominator, 1);
    assert_eq!(quant.render_precision, 0);
    assert!(!quant.is_negative);
}

#[test]
fn test_from_str_negative_integer() {
    let quant = Quant::from_str("-123").unwrap();
    assert_eq!(quant.numerator, 123);
    assert_eq!(quant.denominator, 1);
    assert_eq!(quant.render_precision, 0);
    assert!(quant.is_negative);
}

#[test]
fn test_from_str_positive_decimal() {
    let quant = Quant::from_str("123.456").unwrap();
    assert_eq!(quant.numerator, 15432);
    assert_eq!(quant.denominator, 125);
    assert_eq!(quant.render_precision, 3);
    assert!(!quant.is_negative);
}

#[test]
fn test_from_str_negative_decimal() {
    let quant = Quant::from_str("-123.456").unwrap();
    assert_eq!(quant.numerator, 15432);
    assert_eq!(quant.denominator, 125);
    assert_eq!(quant.render_precision, 3);
    assert!(quant.is_negative);
}

#[test]
fn test_from_str_invalid_format() {
    let result = Quant::from_str("123.45.67");
    assert!(
        result.is_err(),
        "Expected error for invalid decimal format"
    );
}

#[test]
fn test_from_str_invalid_characters() {
    let result = Quant::from_str("abc123");
    assert!(
        result.is_err(),
        "Expected error for invalid characters"
    );
}

#[test]
fn test_from_str_empty_string() {
    let result = Quant::from_str("");
    assert!(result.is_err(), "Expected error for empty string");
}

#[test]
fn test_from_str_zero() {
    let quant = Quant::from_str("0").unwrap();
    assert_eq!(quant.numerator, 0);
    assert_eq!(quant.denominator, 1);
    assert_eq!(quant.render_precision, 0);
    assert!(!quant.is_negative);
}

#[test]
fn test_from_str_negative_zero() {
    let quant = Quant::from_str("-0").unwrap();
    assert_eq!(quant.numerator, 0);
    assert_eq!(quant.denominator, 1);
    assert_eq!(quant.render_precision, 0);
    assert!(!quant.is_negative);
}

#[test]
fn test_from_str_zero_decimal() {
    let quant = Quant::from_str("0.00").unwrap();
    assert_eq!(quant.numerator, 0);
    assert_eq!(quant.denominator, 1);
    assert_eq!(quant.render_precision, 2);
    assert!(!quant.is_negative);
}

#[test]
fn test_from_str_negative_zero_decimal() {
    let quant = Quant::from_str("-0.00").unwrap();
    assert_eq!(quant.numerator, 0);
    assert_eq!(quant.denominator, 1);
    assert_eq!(quant.render_precision, 2);
    assert!(!quant.is_negative);
}

#[test]
fn test_from_str_near_zero_decimal() {
    let quant = Quant::from_str("0.05").unwrap();
    assert_eq!(quant.numerator, 1);
    assert_eq!(quant.denominator, 20);
    assert_eq!(quant.render_precision, 2);
    assert!(!quant.is_negative);
}

#[test]
fn test_from_str_negative_near_zero_decimal() {
    let quant = Quant::from_str("-0.05").unwrap();
    assert_eq!(quant.numerator, 1);
    assert_eq!(quant.denominator, 20);
    assert_eq!(quant.render_precision, 2);
    assert!(quant.is_negative);
}

#[test]
fn test_from_i128_positive() {
    let quant = Quant::from_i128(42);
    assert_eq!(quant.numerator, 42);
    assert_eq!(quant.denominator, 1);
    assert_eq!(quant.render_precision, 0);
    assert!(!quant.is_negative);
}

#[test]
fn test_from_i128_negative() {
    let quant = Quant::from_i128(-42);
    assert_eq!(quant.numerator, 42);
    assert_eq!(quant.denominator, 1);
    assert_eq!(quant.render_precision, 0);
    assert!(quant.is_negative);
}

#[test]
fn test_add() {
    let a = Quant::from_frac(1, 2);
    let b = Quant::from_frac(1, 3);
    assert_eq!(a + b, Quant::from_frac(5, 6));
}

#[test]
fn test_add_with_integer() {
    let a = Quant::from_frac(1, 2);
    let b = Quant::from_i128(2);
    assert_eq!(a + b, Quant::from_frac(5, 2));
}

#[test]
fn test_add_large_numbers() {
    let a = Quant::from_frac(123456789, 987654321);
    let b = Quant::from_frac(987654321, 123456789);
    assert_eq!(
        a + b,
        Quant::from_frac(990702636540161562, 121932631112635269)
    );
}

#[test]
fn test_add_negative_numbers() {
    let a = Quant::from_frac(-1, 3);
    let b = Quant::from_frac(-2, 5);
    assert_eq!(a + b, Quant::from_frac(-11, 15));
}

#[test]
fn test_add_mixed_signs() {
    let a = Quant::from_frac(5, 6);
    let b = Quant::from_frac(-1, 3);
    assert_eq!(a + b, Quant::from_frac(1, 2));
}

#[test]
fn test_add_small_numbers() {
    let a = Quant::from_frac(1, 1000000);
    let b = Quant::from_frac(1, 1000000);
    assert_eq!(a + b, Quant::from_frac(1, 500000));
}

#[test]
fn test_add_assign() {
    let mut a = Quant::from_frac(1, 2);
    let b = Quant::from_frac(1, 3);
    a += b;
    assert_eq!(a, Quant::from_frac(5, 6));
}

#[test]
fn test_add_assign_large_numbers() {
    let mut a = Quant::from_frac(123456789, 987654321);
    let b = Quant::from_frac(987654321, 123456789);
    a += b;
    assert_eq!(
        a,
        Quant::from_frac(990702636540161562, 121932631112635269)
    );
}

#[test]
fn test_add_assign_negative_numbers() {
    let mut a = Quant::from_frac(-1, 3);
    let b = Quant::from_frac(-2, 5);
    a += b;
    assert_eq!(a, Quant::from_frac(-11, 15));
}

#[test]
fn test_add_assign_mixed_signs() {
    let mut a = Quant::from_frac(-1, 3);
    let b = Quant::from_frac(2, 5);
    a += b;
    assert_eq!(a, Quant::from_frac(1, 15));
}

#[test]
fn test_sub() {
    let a = Quant::from_frac(3, 4);
    let b = Quant::from_frac(1, 4);
    assert_eq!(a - b, Quant::from_frac(2, 4));
}

#[test]
fn test_sub_with_integer() {
    let a = Quant::from_i128(5);
    let b = Quant::from_frac(1, 2);
    assert_eq!(a - b, Quant::from_frac(9, 2));
}

#[test]
fn test_sub_negative_numbers() {
    let a = Quant::from_frac(-1, 2);
    let b = Quant::from_frac(-1, 3);
    assert_eq!(a - b, Quant::from_frac(-1, 6));
}

#[test]
fn test_sub_mixed_signs() {
    let a = Quant::from_frac(5, 6);
    let b = Quant::from_frac(-1, 3);
    assert_eq!(a - b, Quant::from_frac(7, 6));

    let a = Quant::from_frac(-5, 6);
    let b = Quant::from_frac(1, 3);
    assert_eq!(a - b, Quant::from_frac(-7, 6));
}

#[test]
fn test_sub_small_numbers() {
    let a = Quant::from_frac(1, 1000000);
    let b = Quant::from_frac(1, 1000000);
    assert_eq!(a - b, Quant::from_frac(0, 1));
}

#[test]
fn test_sub_assign() {
    let mut a = Quant::from_frac(3, 4);
    let b = Quant::from_frac(1, 4);
    a -= b;
    assert_eq!(a, Quant::from_frac(2, 4));
}

#[test]
fn test_sub_assign_negative_numbers() {
    let mut a = Quant::from_frac(-1, 2);
    let b = Quant::from_frac(-1, 3);
    a -= b;
    assert_eq!(a, Quant::from_frac(-1, 6));
}

#[test]
fn test_sub_assign_mixed_signs() {
    let mut a = Quant::from_frac(5, 6);
    let b = Quant::from_frac(-1, 3);
    a -= b;
    assert_eq!(a, Quant::from_frac(7, 6));
}

#[test]
fn test_mul() {
    let a = Quant::from_frac(2, 3);
    let b = Quant::from_frac(3, 4);
    assert_eq!(a * b, Quant::from_frac(6, 12));
}

#[test]
fn test_mul_with_integer() {
    let a = Quant::from_frac(3, 5);
    let b = 2;
    assert_eq!(a * b, Quant::from_frac(6, 5));
}

#[test]
fn test_mul_negative_numbers() {
    let a = Quant::from_frac(-2, 3);
    let b = Quant::from_frac(-3, 4);
    assert_eq!(a * b, Quant::from_frac(6, 12));
}

#[test]
fn test_mul_negative_signs() {
    let a = Quant::from_frac(-2, 3);
    let b = Quant::from_frac(3, 4);
    assert_eq!(a * b, Quant::from_frac(-6, 12));

    let c = Quant::from_frac(2, 3);
    let d = Quant::from_frac(-3, 4);
    assert_eq!(c * d, Quant::from_frac(-6, 12));
}

#[test]
fn test_mul_assign() {
    let mut a = Quant::from_frac(3, 4);
    let b = Quant::from_frac(2, 3);
    a *= b;
    assert_eq!(a, Quant::from_frac(6, 12));
}

#[test]
fn test_mul_assign_negative_numbers() {
    let mut a = Quant::from_frac(3, 4);
    let b = Quant::from_frac(2, 3);
    a *= b;
    assert_eq!(a, Quant::from_frac(6, 12));
}

#[test]
fn test_mul_assign_mixed_signs() {
    let mut a = Quant::from_frac(-3, 4);
    let b = Quant::from_frac(2, 3);
    a *= b;
    assert_eq!(a, Quant::from_frac(-6, 12));

    let mut c = Quant::from_frac(-3, 4);
    let d = Quant::from_frac(2, 3);
    c *= d;
    assert_eq!(c, Quant::from_frac(-6, 12));
}

#[test]
fn test_div_large_positive_numbers() {
    let a = Quant::from_frac(98765432109876543210, 1);
    let b = Quant::from_frac(123456789, 1);
    assert_eq!(
        a / b,
        Quant::from_frac(98765432109876543210, 123456789)
    );
}

#[test]
fn test_div_large_negative_numbers() {
    let a = Quant::from_frac(-98765432109876543210, 1);
    let b = Quant::from_frac(-123456789, 1);
    assert_eq!(
        a / b,
        Quant::from_frac(98765432109876543210, 123456789)
    );
}

#[test]
fn test_div_small_positive_numbers() {
    let a = Quant::from_frac(1, 1000000);
    let b = Quant::from_frac(1, 1000);
    assert_eq!(a / b, Quant::from_frac(1, 1000));
}

#[test]
fn test_div_small_negative_numbers() {
    let a = Quant::from_frac(-1, 1000000);
    let b = Quant::from_frac(1, 1000);
    assert_eq!(a / b, Quant::from_frac(-1, 1000));
}

#[test]
fn test_div_large_and_small_numbers() {
    let a = Quant::from_frac(1000000000000000000, 1);
    let b = Quant::from_frac(1, 1000000000);
    assert_eq!(
        a / b,
        Quant::from_frac(1000000000000000000000000000, 1)
    );
}

#[test]
fn test_div_precision_boundary() {
    let a =
        Quant::from_frac(123456789012345678, 1000000000000000000);
    let b = Quant::from_frac(1, 1000000000);
    assert_eq!(
        a / b,
        Quant::from_frac(123456789012345678, 1000000000)
    );
}

#[test]
fn test_div_zero_dividend() {
    let a = Quant::from_frac(0, 1);
    let b = Quant::from_frac(123456789, 1);
    assert_eq!(a / b, Quant::from_frac(0, 1));
}

#[test]
fn test_div_exact_result() {
    let a = Quant::from_frac(6, 1);
    let b = Quant::from_frac(2, 1);
    assert_eq!(a / b, Quant::from_frac(3, 1));
}

#[test]
fn test_div_inexact_result() {
    let a = Quant::from_frac(7, 1);
    let b = Quant::from_frac(3, 1);
    assert_eq!(a / b, Quant::from_frac(7, 3));
}

#[test]
fn test_div_rounding_result() {
    let a = Quant::from_frac(123456789, 1);
    let b = Quant::from_frac(1000000, 1);
    assert_eq!(a / b, Quant::from_frac(123456789, 1000000));
}

#[test]
fn test_div_negative_mixed_signs() {
    let a = Quant::from_frac(-5, 2);
    let b = Quant::from_frac(3, 4);
    assert_eq!(a / b, Quant::from_frac(-20, 6));
}

#[test]
fn test_div_negative_and_positive() {
    let a = Quant::from_frac(-5, 4);
    let b = Quant::from_frac(-3, 8);
    assert_eq!(a / b, Quant::from_frac(40, 12));
}

#[test]
fn test_div_near_zero_positive() {
    let a = Quant::from_frac(1, 1000000000);
    let b = Quant::from_frac(1, 1000000000000000);
    assert_eq!(a / b, Quant::from_frac(1000000, 1));
}

#[test]
fn test_div_near_zero_negative() {
    let a = Quant::from_frac(-1, 1000000000);
    let b = Quant::from_frac(1, 1000000000000000);
    assert_eq!(a / b, Quant::from_frac(-1000000, 1));
}

#[test]
fn test_div_assign_large_positive_numbers() {
    let mut a = Quant::from_frac(98765432109876543210, 1);
    let b = Quant::from_frac(123456789, 1);
    a /= b;
    assert_eq!(
        a,
        Quant::from_frac(98765432109876543210, 123456789)
    );
}

#[test]
fn test_div_assign_large_negative_numbers() {
    let mut a = Quant::from_frac(-98765432109876543210, 1);
    let b = Quant::from_frac(-123456789, 1);
    a /= b;
    assert_eq!(
        a,
        Quant::from_frac(98765432109876543210, 123456789)
    );
}

#[test]
fn test_div_assign_small_positive_numbers() {
    let mut a = Quant::from_frac(1, 1000000);
    let b = Quant::from_frac(1, 1000);
    a /= b;
    assert_eq!(a, Quant::from_frac(1, 1000));
}

#[test]
fn test_div_assign_small_negative_numbers() {
    let mut a = Quant::from_frac(-1, 1000000);
    let b = Quant::from_frac(1, 1000);
    a /= b;
    assert_eq!(a, Quant::from_frac(-1, 1000));
}

#[test]
fn test_div_assign_large_and_small_numbers() {
    let mut a = Quant::from_frac(1000000000000000000, 1);
    let b = Quant::from_frac(1, 1000000000);
    a /= b;
    assert_eq!(
        a,
        Quant::from_frac(1000000000000000000000000000, 1)
    );
}

#[test]
fn test_div_assign_precision_boundary() {
    let mut a =
        Quant::from_frac(123456789012345678, 1000000000000000000);
    let b = Quant::from_frac(1, 1000000000);
    a /= b;
    assert_eq!(a, Quant::from_frac(123456789012345678, 1000000000));
}

#[test]
fn test_div_assign_zero_dividend() {
    let mut a = Quant::from_frac(0, 1);
    let b = Quant::from_frac(123456789, 1);
    a /= b;
    assert_eq!(a, Quant::from_frac(0, 1));
}

#[test]
fn test_div_assign_exact_result() {
    let mut a = Quant::from_frac(6, 1);
    let b = Quant::from_frac(2, 1);
    a /= b;
    assert_eq!(a, Quant::from_frac(3, 1));
}

#[test]
fn test_div_assign_inexact_result() {
    let mut a = Quant::from_frac(7, 1);
    let b = Quant::from_frac(3, 1);
    a /= b;
    assert_eq!(a, Quant::from_frac(7, 3));
}

#[test]
fn test_div_assign_rounding_result() {
    let mut a = Quant::from_frac(123456789, 1);
    let b = Quant::from_frac(1000000, 1);
    a /= b;
    assert_eq!(a, Quant::from_frac(123456789, 1000000));
}

#[test]
fn test_div_assign_negative_mixed_signs() {
    let mut a = Quant::from_frac(-5, 2);
    let b = Quant::from_frac(3, 4);
    a /= b;
    assert_eq!(a, Quant::from_frac(-20, 6));
}

#[test]
fn test_div_assign_negative_and_positive() {
    let mut a = Quant::from_frac(-5, 4);
    let b = Quant::from_frac(-3, 8);
    a /= b;
    assert_eq!(a, Quant::from_frac(40, 12));
}

#[test]
fn test_div_assign_near_zero_positive() {
    let mut a = Quant::from_frac(1, 1000000000);
    let b = Quant::from_frac(1, 1000000000000000);
    a /= b;
    assert_eq!(a, Quant::from_frac(1000000, 1));
}

#[test]
fn test_div_assign_near_zero_negative() {
    let mut a = Quant::from_frac(-1, 1000000000);
    let b = Quant::from_frac(1, 1000000000000000);
    a /= b;
    assert_eq!(a, Quant::from_frac(-1000000, 1));
}

#[test]
fn test_negation() {
    let a = Quant::from_frac(3, 4);
    assert_eq!(-a, Quant::from_frac(-3, 4));

    let a = Quant::from_frac(-3, 4);
    assert_eq!(-a, Quant::from_frac(3, 4));

    let a = Quant::from_frac(-3, -4);
    assert_eq!(-a, Quant::from_frac(-3, 4));
}

#[test]
fn test_associative_property_with_multiplication_and_division() {
    let a = Quant::from_frac(123456789, 987654321);
    let b = Quant::from_frac(987654321, 123456789);
    let c = Quant::from_frac(246813578, 864197532);
    let d = Quant::from_frac(1000000, 1000001);

    let result_1 = (a * b) / (c * d);
    let result_2 = (a / c) * (b / d);

    assert_eq!(
        result_1, result_2,
        "Order of operations affected the result"
    );
}

#[test]
fn test_chained_multiplications_consistency() {
    let a = Quant::from_frac(99999999, 11111111);
    let b = Quant::from_frac(123456789, 987654321);
    let c = Quant::from_frac(1, 2);
    let d = Quant::from_frac(3, 4);
    let e = Quant::from_frac(5, 6);

    let mut result_1 = e * d * c * b * a;
    let mut result_2 = a * b * c * d * e;

    result_1.normalize();
    result_2.normalize();

    assert_eq!(
        result_1, result_2,
        "Order of chained multiplications affected the result"
    );
}

#[test]
fn test_large_numbers_multiplication_division_order() {
    let a = Quant::from_frac(10i128.pow(18), 1);
    let b = Quant::from_frac(10i128.pow(9), 1);
    let c = Quant::from_frac(1, 10i128.pow(9));
    let d = Quant::from_frac(1, 10i128.pow(18));

    let result_1 = ((a / b) * c) / d;
    let result_2 = a * (c / (b * d));

    assert_eq!(
        result_1, result_2,
        "Order of operations with large numbers affected the result"
    );
}

#[test]
fn test_small_numbers_multiplication_division_order() {
    let a = Quant::from_frac(1, 10i128.pow(12));
    let b = Quant::from_frac(10i128.pow(6), 1);
    let c = Quant::from_frac(1, 10i128.pow(6));
    let d = Quant::from_frac(10i128.pow(3), 10i128.pow(9));

    let result_1 = (a * b / c) * d;
    let result_2 = ((a * d) / c) * b;

    assert_eq!(
        result_1, result_2,
        "Order of operations with small numbers affected the result"
    );
}

#[test]
fn test_mixed_large_and_small_numbers_order() {
    let a = Quant::from_frac(10i128.pow(18), 1);
    let b = Quant::from_frac(1, 10i128.pow(12));
    let c = Quant::from_frac(123456, 987654321);
    let d = Quant::from_frac(987654321, 123456);
    let e = Quant::from_frac(10i128.pow(6), 10i128.pow(9));

    let result_1 = (a * b / c) * (d / e);
    let result_2 = ((a / c) * d / e) * b;

    assert_eq!(
        result_1, result_2,
        "Order of operations with mixed large and small numbers affected the result"
    );
}

#[test]
fn test_quant_greater_equal() {
    let a = Quant::from_frac(5, 2);
    let b = Quant::from_frac(10, 4);
    let c = Quant::from_frac(6, 2);
    let d = Quant::from_frac(4, 2);

    assert!(a >= b, "Expected a >= b (both equal to 2.5)");
    assert!(c >= a, "Expected c >= a (3.0 >= 2.5)");
    assert!(d < a, "Expected d < a (2.0 < 2.5)");
}

#[test]
fn test_quant_less_equal() {
    let a = Quant::from_frac(5, 2);
    let b = Quant::from_frac(10, 4);
    let c = Quant::from_frac(6, 2);
    let d = Quant::from_frac(4, 2);

    assert!(a <= b, "Expected a <= b (both equal to 2.5)");
    assert!(a <= c, "Expected a <= c (2.5 <= 3.0)");
    assert!(a > d, "Expected a > d (2.5 > 2.0)");
}

#[test]
fn test_quant_equal_i128() {
    let quant = Quant::from_frac(10, 2);
    let int_value: i128 = 5;

    assert!(quant == int_value, "Expected quant == int_value");
}

#[test]
fn test_i128_equal_quant() {
    let quant = Quant::from_frac(10, 2);
    let int_value: i128 = 5;

    assert_eq!(int_value, quant, "Expected int_value == quant");
}

#[test]
fn test_quant_partial_ord_i128() {
    let quant = Quant::from_frac(15, 2);
    let int_value: i128 = 8;

    assert!(quant < int_value, "Expected quant < int_value");
    assert!(int_value > quant, "Expected int_value > quant");
}

#[test]
fn test_quant_partial_ord() {
    let a = Quant::from_frac(7, 2);
    let b = Quant::from_frac(9, 2);
    let c = Quant::from_frac(14, 4);

    assert!(a < b, "Expected a < b (3.5 < 4.5)");
    assert!(b > a, "Expected b > a (4.5 > 3.5)");
    assert_eq!(a, c, "Expected a == c (3.5 == 3.5)");
}

#[test]
fn test_quant_negative_ordering() {
    let a = Quant::from_frac(-5, 2);
    let b = Quant::from_frac(-10, 4);
    let c = Quant::from_frac(-6, 2);
    let d = Quant::from_frac(-4, 2);

    assert!(a >= b, "Expected a >= b (both equal to -2.5)");
    assert!(a > c, "Expected a > c (-2.5 > -3.0)");
    assert!(a <= d, "Expected a <= d (-2.5 <= -2.0)");
}

#[test]
fn test_quant_abs_ordering() {
    let a = Quant::from_frac(-5, 2);
    let b = Quant::from_frac(5, 2);
    let c = Quant::from_frac(-6, 2);
    let d = Quant::from_frac(6, 2);

    assert_eq!(a.abs(), b.abs(), "Expected |a| == |b|");
    assert_eq!(c.abs(), d.abs(), "Expected |c| == |d|");
    assert!(
        c.abs() < d.abs() + Quant::from_i128(1),
        "Expected |c| < |d| + 1"
    );
}

#[test]
fn test_round_basic() {
    let mut quant = Quant {
        numerator: 15,
        denominator: 10,
        is_negative: false,
        render_precision: 0,
    };
    quant.round(0);
    assert_eq!(quant.numerator, 2);
    assert_eq!(quant.denominator, 1);
}

#[test]
fn test_round_half_to_even() {
    let mut quant = Quant {
        numerator: 155,
        denominator: 100,
        is_negative: false,
        render_precision: 0,
    };
    quant.round(1);
    assert_eq!(quant.numerator, 8);
    assert_eq!(quant.denominator, 5);
}

#[test]
fn test_round_half_to_odd() {
    let mut quant = Quant {
        numerator: 254,
        denominator: 100,
        is_negative: false,
        render_precision: 0,
    };
    quant.round(1);
    assert_eq!(quant.numerator, 5);
    assert_eq!(quant.denominator, 2);
}

#[test]
fn test_round_precision_0() {
    let mut quant = Quant {
        numerator: 7,
        denominator: 3,
        is_negative: false,
        render_precision: 0,
    };
    quant.round(0);
    assert_eq!(quant.numerator, 2);
    assert_eq!(quant.denominator, 1);
}

#[test]
fn test_round_negative() {
    let mut quant = Quant {
        numerator: 7,
        denominator: 3,
        is_negative: true,
        render_precision: 0,
    };
    quant.round(0);
    assert_eq!(quant.numerator, 2);
    assert!(quant.is_negative);
}

#[test]
fn test_reduce_after_round() {
    let mut quant = Quant {
        numerator: 200,
        denominator: 100,
        is_negative: false,
        render_precision: 0,
    };
    quant.round(0);
    assert_eq!(quant.numerator, 2);
    assert_eq!(quant.denominator, 1);
}

#[test]
fn test_round_to_integer_no_string() {
    let mut quant = Quant::from_frac(123456, 1000);
    quant.round(0);
    assert_eq!(
        quant.numerator, 123,
        "Numerator should be 123 after rounding to 0 decimals"
    );
    assert_eq!(
        quant.denominator, 1,
        "Denominator should be 1 after rounding to 0 decimals"
    );
    assert!(!quant.is_negative, "quant should not be negative");
}

#[test]
fn test_round_to_two_decimals_no_string() {
    let mut quant = Quant::from_frac(123456, 1000);
    quant.round(2);
    assert_eq!(
        quant.numerator, 6173,
        "Numerator should be 6173 after rounding to 2 decimals"
    );
    assert_eq!(
        quant.denominator, 50,
        "Denominator should be 50 after rounding to 2 decimals"
    );
    assert!(!quant.is_negative, "quant should not be negative");
}

#[test]
fn test_bankers_rounding_down_no_string() {
    let mut quant = Quant::from_frac(123445, 1000);
    quant.round(2);
    assert_eq!(
        quant.numerator, 3086,
        "Numerator should be 3086 due to Banker's rounding"
    );
    assert_eq!(
        quant.denominator, 25,
        "Denominator should remain scaled correctly"
    );
    assert!(!quant.is_negative, "quant should not be negative");
}

#[test]
fn test_bankers_rounding_up_no_string() {
    let mut quant = Quant::from_frac(123455, 1000);
    quant.round(2);
    assert_eq!(
        quant.numerator, 6173,
        "Numerator should be 6173 due to Banker's rounding"
    );
    assert_eq!(
        quant.denominator, 50,
        "Denominator should remain scaled correctly"
    );
    assert!(!quant.is_negative, "quant should not be negative");
}

#[test]
fn test_round_negative_to_integer_no_string() {
    let mut quant = Quant::from_frac(-123456, 1000);
    quant.round(0);
    assert_eq!(
        quant.numerator, 123,
        "Numerator should be 123 after rounding"
    );
    assert_eq!(
        quant.denominator, 1,
        "Denominator should be 1 after rounding"
    );
    assert!(quant.is_negative, "quant should be negative");
}

#[test]
fn test_round_negative_to_one_decimal_no_string() {
    let mut quant = Quant::from_frac(-123456, 1000);
    quant.round(1);
    assert_eq!(
        quant.numerator, 247,
        "Numerator should be 247 after rounding"
    );
    assert_eq!(
        quant.denominator, 2,
        "Denominator should be 2 after rounding to 1 decimal"
    );
    assert!(quant.is_negative, "quant should be negative");
}

#[test]
fn test_round_large_number_no_string() {
    let mut quant = Quant::from_frac(123456789987654321, 1000000000);
    quant.round(6);
    assert_eq!(
        quant.numerator, 61728394993827,
        "Numerator should match rounded value"
    );
    assert_eq!(
        quant.denominator, 500000,
        "Denominator should match scaled precision"
    );
    assert!(!quant.is_negative, "quant should not be negative");
}

#[test]
fn test_round_small_number_up_no_string() {
    let mut quant = Quant::from_frac(-5, 10000);
    quant.round(3);
    assert_eq!(
        quant.numerator, 0,
        "Numerator should be 0 after rounding down"
    );
    assert_eq!(
        quant.denominator, 1,
        "Denominator should be set to one when numerator is zero"
    );
    assert!(!quant.is_negative, "quant should not be negative");
}

#[test]
fn test_round_small_number_down_no_string() {
    let mut quant = Quant::from_frac(49, 100000);
    quant.round(3);
    assert_eq!(
        quant.numerator, 0,
        "Numerator should be 0 after rounding down"
    );
    assert_eq!(
        quant.denominator, 1,
        "Denominator should simplify to 1 for zero value"
    );
    assert!(!quant.is_negative, "quant should not be negative");
}

#[test]
fn test_round_to_integer() {
    let mut quant = Quant::from_str("123.456").unwrap();
    quant.round(0);
    assert_eq!(
        quant.to_string(),
        "123",
        "Expected 123 after rounding to 0 decimals"
    );
}

#[test]
fn test_round_to_two_decimals() {
    let mut quant = Quant::from_str("123.456").unwrap();
    quant.round(2);
    assert_eq!(
        quant.to_string(),
        "123.46",
        "Expected 123.46 after rounding to 2 decimals"
    );
}

#[test]
fn test_bankers_rounding_down() {
    let mut quant = Quant::from_str("123.445").unwrap();
    quant.round(2);
    assert_eq!(
        quant.to_string(),
        "123.44",
        "Expected 123.44 due to Banker's rounding (tie to even)"
    );
}

#[test]
fn test_bankers_rounding_up() {
    let mut quant = Quant::from_str("123.455").unwrap();
    quant.round(2);
    assert_eq!(
        quant.to_string(),
        "123.46",
        "Expected 123.46 due to Banker's rounding (tie to even)"
    );
}

#[test]
fn test_round_negative_to_integer() {
    let mut quant = Quant::from_str("-123.456").unwrap();
    quant.round(0);
    assert_eq!(
        quant.to_string(),
        "-123",
        "Expected -123 after rounding to 0 decimals"
    );
}

#[test]
fn test_round_negative_to_one_decimal() {
    let mut quant = Quant::from_str("-123.456").unwrap();
    quant.round(1);
    assert_eq!(
        quant.to_string(),
        "-123.5",
        "Expected -123.5 after rounding to 1 decimal"
    );
}

#[test]
fn test_round_large_number() {
    let mut quant = Quant::from_str("123456789.987654321").unwrap();
    quant.round(6);
    assert_eq!(
        quant.to_string(),
        "123,456,789.987654",
        "Expected 123,456,789.987654 after rounding to 6 decimals"
    );
}

#[test]
fn test_round_zero() {
    let mut quant = Quant::from_str("0.0005").unwrap();
    quant.round(3);
    assert_eq!(
        quant.to_string(),
        "0.000",
        "Expected bankers rounding to bring us back to zero"
    );
}

#[test]
fn test_round_small_number_down() {
    let mut quant = Quant::from_str("0.00049").unwrap();
    quant.round(3);
    assert_eq!(
        quant.to_string(),
        "0.000",
        "Expected 0.000 after rounding down small value"
    );
}

#[test]
fn test_rounding_error_for_one_third() {
    let mut fraction = Quant {
        numerator: 1,
        denominator: 3,
        is_negative: false,
        render_precision: 0,
    };

    let original = fraction;
    fraction.round(2);
    let rounding_error = fraction - original;

    let expected_rounded = Quant {
        numerator: 33,
        denominator: 100,
        is_negative: false,
        render_precision: 2,
    };

    let expected_error = Quant {
        numerator: 1,
        denominator: 300,
        is_negative: true,
        render_precision: 0,
    };

    assert_eq!(
        fraction, expected_rounded,
        "The fraction was not rounded correctly."
    );

    assert_eq!(
        rounding_error, expected_error,
        "The rounding error is incorrect."
    );
}

#[test]
fn test_bankers_rounding_high_prec() {
    let mut a = Quant::from_str("1074.96875").unwrap();
    a.round(2);
    assert_eq!(a.to_string(), "1,074.97")
}

#[test]
fn quant_test_large_numbers() {
    let quant = Quant::from_frac(i128::MAX, 1);
    assert_eq!(
        quant.numerator, 170141183460469231731687303715884105727,
        "Reduction should not occur with 1 denominator"
    );
    assert_eq!(quant.denominator, 1, "Denominator should remain 1");
    assert!(!quant.is_negative, "Quant should not be negative");
}

#[test]
fn test_large_fraction() {
    let quant = Quant::from_frac(i128::MAX, i128::MAX / 10);
    assert_eq!(
        quant.numerator, 170141183460469231731687303715884105727,
        "Numerator should have been reduced once"
    );
    assert_eq!(
        quant.denominator, 17014118346046923173168730371588410572,
        "Denominator should be one order of magnitude lesser"
    );
    assert!(!quant.is_negative, "Quant should not be negative");
}

#[test]
fn test_bizarre_fractions() {
    let quant = Quant::from_frac(17190837190231, 1837619237101091);
    assert_eq!(quant.numerator, 904780904749);
    assert_eq!(quant.denominator, 96716801952689);
    assert!(!quant.is_negative, "Quant should not be negative");
}

#[test]
fn test_large_number_with_high_precision() {
    let quant = Quant::new(i128::MAX, 20);
    assert_eq!(
        quant.numerator,
        i128::MAX as u128,
        "Numerator should match the maximum i128 value"
    );
    assert_eq!(
        quant.denominator,
        10u128.pow(20),
        "Denominator should match the specified precision"
    );
    assert_eq!(
        quant.render_precision, 20,
        "Render precision should be 20"
    );
    assert!(!quant.is_negative, "Quant should not be negative");
}

#[test]
fn test_large_number_reduction() {
    let quant = Quant::from_frac(i128::MAX, i128::MAX);
    assert_eq!(quant.numerator, 1, "Numerator should reduce to 1");
    assert_eq!(quant.denominator, 1, "Denominator should reduce to 1");
}

#[test]
fn test_large_negative_number() {
    let quant = Quant::from_frac(-i128::MAX, 10);
    assert_eq!(
        quant.numerator,
        i128::MAX as u128,
        "Numerator should be the absolute value of i128::MAX"
    );
    assert_eq!(
        quant.denominator, 10,
        "Denominator should remain as specified"
    );
    assert!(quant.is_negative, "Quant should be negative");
}

#[test]
fn test_small_fraction_high_precision() {
    let quant = Quant::from_frac(1, 10i128.pow(30));
    assert_eq!(
        quant.numerator, 1,
        "Numerator should remain 1 for smallest fraction"
    );
    assert_eq!(
        quant.denominator,
        10u128.pow(30),
        "Denominator should match the specified precision"
    );
    assert!(!quant.is_negative, "Quant should not be negative");
}

#[test]
fn test_small_fraction_operations() {
    let a = Quant::from_frac(100, 10i128.pow(11));
    let b = Quant::from_frac(1100, 10i128.pow(12) + 13);
    let result = a * b;
    assert_eq!(result.numerator, 11);
    assert_eq!(result.denominator, 10000000000130000000);
}

#[test]
fn test_large_and_small_mixed_operations() {
    let a = Quant::from_frac(i128::MAX, 1);
    let b = Quant::from_frac(2, 3);
    let result = a * b;
    assert_eq!(
        result.numerator, 340282366920938463463374607431768211454,
        "Reduction should occur prior to multiplication and not overflow"
    );
    assert_eq!(
        result.denominator, 3,
        "Resulting denominator should scale with the smaller fraction"
    );
}

#[test]
fn test_reduce_very_large_fraction() {
    let mut quant = Quant::from_frac(i128::MAX - 113, i128::MAX - 1);
    quant.normalize();
    assert_eq!(quant.numerator, 12152941675747802266549093122563150401);
    assert_eq!(
        quant.denominator,
        12152941675747802266549093122563150409
    );
}

#[test]
fn test_compare_values_too_large_to_cross_multiply() {
    let a = Quant::from_frac(i128::MAX, 3);
    let b = Quant::from_frac(i128::MAX - 2, 3);
    assert!(a > b);
    assert!(-a < -b);
    assert_eq!(a.cmp(&a), Ordering::Equal);
}

fn rounded(q: Quant, places: u32) -> String {
    let mut q = q;
    q.round(places);
    q.to_string()
}

#[test]
fn test_odd_denominator_midpoint_rounds_up() {
    // 2.6 used to round to 2, and 200/3 to 66.66
    assert_eq!(rounded(Quant::from_str("2.6").unwrap(), 0), "3");
    assert_eq!(rounded(Quant::from_str("0.6").unwrap(), 0), "1");
    assert_eq!(rounded(Quant::from_frac(8, 3), 0), "3");
    assert_eq!(rounded(Quant::from_frac(200, 3), 2), "66.67");
    assert_eq!(rounded(Quant::from_frac(-200, 3), 2), "-66.67");
}

#[test]
fn test_display_rounds_rather_than_truncates() {
    let mut two_thirds = Quant::from_frac(2, 3);
    two_thirds.set_render_precision(2, true);
    assert_eq!(two_thirds.to_string(), "0.67");
}

#[test]
fn test_no_negative_zero() {
    assert_eq!(-Quant::zero(), Quant::zero());
    assert_eq!((Quant::zero() - Quant::zero()).to_string(), "0");
    let mut tiny = Quant::from_str("-0.001").unwrap();
    tiny.set_render_precision(2, true);
    assert_eq!(tiny.to_string(), "0.00");
}

#[test]
fn test_integer_divided_by_quant() {
    assert_eq!(10 / Quant::from_i128(4), Quant::from_frac(5, 2));
}

#[test]
fn test_unrepresentable_input_is_an_error_not_a_panic() {
    let tiny = format!("0.{}1", "0".repeat(40));
    assert!(Quant::from_str(&tiny).is_err());
    assert!(Quant::from_str(&"9".repeat(50)).is_err());
}

#[test]
fn test_number_syntax() {
    assert_eq!(Quant::from_str(".5").unwrap(), Quant::from_frac(1, 2));
    assert_eq!(Quant::from_str("5.").unwrap(), Quant::from_i128(5));
    assert_eq!(Quant::from_str("+5").unwrap(), Quant::from_i128(5));
    for bad in ["", "-", ".", "--5", "1e5", "1.2.3", "5-", "1 000"] {
        assert!(Quant::from_str(bad).is_err(), "{bad} should fail");
    }
}

#[test]
fn test_huge_denominators_still_print_and_round_correctly() {
    // A denominator above u128::MAX / 10, as long chains of exchange
    // rates can produce; this once printed 1.653 as 2. 2^127 - 1 is
    // prime, so these fractions cannot be reduced.
    let d: i128 = i128::MAX;
    let q = Quant::from_frac(d / 1000 * 660, d);
    assert!(q.denominator > u128::MAX / 10, "exercises the wide path");
    let mut shown = q;
    shown.set_render_precision(3, true);
    assert_eq!(shown.to_string(), "0.660");
    let mut rounded = q;
    rounded.round(2);
    assert_eq!(rounded, Quant::from_frac(66, 100));
    let mut negative = -Quant::from_frac(d - 5, d);
    negative.set_render_precision(3, true);
    assert_eq!(negative.to_string(), "-1.000");
}

#[test]
fn test_next_digit_matches_arithmetic() {
    for (r, d) in [(0u128, 7u128), (3, 7), (6, 7), (1, 2), (99, 100)] {
        assert_eq!(
            next_digit(r, d),
            (((r * 10) / d) as u8, (r * 10) % d)
        );
    }
    let d = u128::MAX - 1;
    let (digit, rest) = next_digit(d - 1, d);
    assert_eq!(digit, 9);
    assert!(rest < d);
}

#[test]
fn test_huge_precision_is_clamped() {
    let mut q = Quant::from_frac(1, 3);
    q.round(u32::MAX);
    assert_eq!(q.render_precision(), MAX_PLACES);
}

#[test]
fn test_display() {
    let money = Quant::from_str("12345.6789").unwrap();
    assert_eq!(money.to_string(), "12,345.6789");

    let negative_money = Quant::from_str("-1000000.50").unwrap();
    assert_eq!(negative_money.to_string(), "-1,000,000.50");

    let zero_money = Quant::from_str("0.00").unwrap();
    assert_eq!(zero_money.to_string(), "0.00")
}

/// A fixed stream of numbers standing in for random ones, so that each run
/// checks the same values.
struct Stream(u64);

impl Stream {
    fn next(&mut self) -> u64 {
        self.0 = self.0.wrapping_mul(6364136223846793005).wrapping_add(1442695040888963407);
        self.0 >> 33
    }

    fn range(&mut self, low: i128, high: i128) -> i128 {
        low + (self.next() as i128) % (high - low)
    }
}

fn gcd(a: i128, b: i128) -> i128 {
    if b == 0 { a.abs() } else { gcd(b, a % b) }
}

/// A value as a reduced fraction with a positive denominator.
fn fraction(n: i128, d: i128) -> (i128, i128) {
    let (n, d) = if d < 0 { (-n, -d) } else { (n, d) };
    let g = gcd(n, d).max(1);
    (n / g, d / g)
}

fn value(q: &Quant) -> (i128, i128) {
    let n = q.numerator as i128;
    (if q.is_negative { -n } else { n }, q.denominator as i128)
}

fn sample(stream: &mut Stream) -> Quant {
    let numerator = stream.range(-1_000_000_000, 1_000_000_000);
    if stream.next() % 2 == 0 {
        Quant::new(numerator, stream.range(0, 6) as u32)
    } else {
        Quant::from_frac(numerator, stream.range(1, 1000))
    }
}

/// Round half to even, the slow and obvious way.
fn round_reference(x: (i128, i128), places: u32) -> (i128, i128) {
    let scale = 10i128.pow(places);
    let scaled_n = x.0 * scale;
    let floor = scaled_n.div_euclid(x.1);
    let rest = scaled_n.rem_euclid(x.1);
    let up = 2 * rest > x.1 || (2 * rest == x.1 && floor % 2 != 0);
    fraction(if up { floor + 1 } else { floor }, scale)
}

#[test]
fn test_arithmetic_matches_reference() {
    let mut stream = Stream(7);
    for _ in 0..4_000 {
        let a = sample(&mut stream);
        let b = sample(&mut stream);
        let (an, ad) = value(&a);
        let (bn, bd) = value(&b);
        assert_eq!(value(&(a + b)), fraction(an * bd + bn * ad, ad * bd), "{a:?} + {b:?}");
        assert_eq!(value(&(a - b)), fraction(an * bd - bn * ad, ad * bd), "{a:?} - {b:?}");
        assert_eq!(value(&(a * b)), fraction(an * bn, ad * bd), "{a:?} * {b:?}");
        if !b.is_zero() {
            assert_eq!(value(&(a / b)), fraction(an * bd, ad * bn), "{a:?} / {b:?}");
        }
        assert_eq!(a.cmp(&b), (an * bd).cmp(&(bn * ad)), "{a:?} <=> {b:?}");
        assert_eq!(a == b, an * bd == bn * ad, "{a:?} == {b:?}");
    }
}

#[test]
fn test_rounding_matches_reference() {
    let mut stream = Stream(11);
    for _ in 0..4_000 {
        let original = sample(&mut stream);
        let places = stream.range(0, 7) as u32;
        let mut rounded = original;
        rounded.round(places);
        let error = rounded - original;
        assert_eq!(value(&rounded), round_reference(value(&original), places), "{original:?} rounded to {places}");
        let (rn, rd) = value(&rounded);
        let (on, od) = value(&original);
        assert_eq!(value(&error), fraction(rn * od - on * rd, rd * od));
    }
}

#[test]
fn test_display_matches_rounding() {
    let mut stream = Stream(13);
    for _ in 0..2_000 {
        let original = sample(&mut stream);
        let places = stream.range(0, 7) as u32;
        let mut shown = original;
        shown.set_render_precision(places, true);
        let mut rounded = original;
        rounded.round(places);
        assert_eq!(shown.to_string(), rounded.to_string());
    }
}
