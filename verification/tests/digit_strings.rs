use sway_workspace_extras::format_number;
use sway_workspace_extras::format_signed;
use sway_workspace_extras::split_leading_number;

#[test]
fn renders_zero_as_a_single_digit() {
    assert_eq!(format_number(0), "0");
}

#[test]
fn renders_multi_digit_numbers() {
    assert_eq!(format_number(7), "7");
    assert_eq!(format_number(10), "10");
    assert_eq!(format_number(12345), "12345");
    assert_eq!(format_number(18446744073709551615), "18446744073709551615");
}

#[test]
fn renders_negative_numbers_with_a_sign() {
    assert_eq!(format_signed(-5), "-5");
    assert_eq!(format_signed(0), "0");
    assert_eq!(format_signed(-9223372036854775808), "-9223372036854775808");
}

#[test]
fn reads_the_leading_digits() {
    assert_eq!(split_leading_number("12abc"), Some((12, 2)));
    assert_eq!(split_leading_number("2: editor"), Some((2, 1)));
    assert_eq!(split_leading_number("007"), Some((7, 3)));
    assert_eq!(split_leading_number("2147483647x"), Some((2147483647, 10)));
}

#[test]
fn rejects_missing_or_oversized_numbers() {
    assert_eq!(split_leading_number(""), None);
    assert_eq!(split_leading_number("abc"), None);
    assert_eq!(split_leading_number("-2"), None);
    assert_eq!(split_leading_number("2147483648"), None);
    assert_eq!(split_leading_number("99999999999999999999x"), None);
}
