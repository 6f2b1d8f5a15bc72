use po_aggregator::number::{number_cell, parse_decimal, Reading, NUMBER_BOUND};
use po_aggregator::rules::{missing_sku, units_per_case};

fn val(x: i128) -> Reading {
    Reading::Value(x)
}

const ONE: i128 = 100_000_000;

#[test]
fn parses_decimal_text() {
    assert_eq!(parse_decimal("12.5"), val(1_250_000_000));
    assert_eq!(parse_decimal("-3"), val(-3 * ONE));
    assert_eq!(parse_decimal("abc"), Reading::NotANumber);
}

#[test]
fn decimal_forms() {
    assert_eq!(parse_decimal("5."), val(5 * ONE));
    assert_eq!(parse_decimal(".5"), val(ONE / 2));
    assert_eq!(parse_decimal("+7"), val(7 * ONE));
    assert_eq!(parse_decimal("0"), val(0));
    assert_eq!(parse_decimal("007.0100"), val(701_000_000));
    assert_eq!(parse_decimal("1.23456"), val(123_456_000));
    assert_eq!(parse_decimal("1.0833333333333333"), val(108_333_333));
    assert_eq!(parse_decimal(""), Reading::NotANumber);
    assert_eq!(parse_decimal("."), Reading::NotANumber);
    assert_eq!(parse_decimal("-"), Reading::NotANumber);
    assert_eq!(parse_decimal("--1"), Reading::NotANumber);
    assert_eq!(parse_decimal("1.2.3"), Reading::NotANumber);
    assert_eq!(parse_decimal(" 1"), Reading::NotANumber);
    assert_eq!(parse_decimal("inf"), Reading::NotANumber);
}

#[test]
fn exponent_forms() {
    assert_eq!(parse_decimal("1e3"), val(1000 * ONE));
    assert_eq!(parse_decimal("1E2"), val(100 * ONE));
    assert_eq!(parse_decimal("1.5E-2"), val(1_500_000));
    assert_eq!(parse_decimal("-2.5e1"), val(-25 * ONE));
    assert_eq!(parse_decimal(".5e1"), val(5 * ONE));
    assert_eq!(parse_decimal("5.e+0"), val(5 * ONE));
    assert_eq!(parse_decimal("1e-8"), val(1));
    assert_eq!(parse_decimal("1e-9"), val(0));
    assert_eq!(parse_decimal("1e400"), Reading::TooLarge);
    assert_eq!(parse_decimal("0e999999999999999999999999"), val(0));
    assert_eq!(parse_decimal("1e-99999999999999999999999"), val(0));
    assert_eq!(parse_decimal("1e"), Reading::NotANumber);
    assert_eq!(parse_decimal("1e+"), Reading::NotANumber);
    assert_eq!(parse_decimal("e5"), Reading::NotANumber);
    assert_eq!(parse_decimal(".e5"), Reading::NotANumber);
    assert_eq!(parse_decimal("1e5x"), Reading::NotANumber);
    assert_eq!(parse_decimal("1.2e3.4"), Reading::NotANumber);
}

#[test]
fn decimal_range() {
    assert_eq!(parse_decimal("200001"), val(200_001 * ONE));
    assert_eq!(parse_decimal("300000"), val(300_000 * ONE));
    assert_eq!(parse_decimal("99999999999999999999999"), val(99_999_999_999_999_999_999_999 * ONE));
    assert_eq!(parse_decimal("425352958651173079329218259289.71026432"), val(NUMBER_BOUND));
    assert_eq!(parse_decimal("425352958651173079329218259289.71026433"), Reading::TooLarge);
    assert_eq!(parse_decimal("-1e40"), Reading::TooLarge);
}

#[test]
fn number_cells_default_to_zero() {
    assert_eq!(number_cell("2.5"), Some(250_000_000));
    assert_eq!(number_cell("n/a"), Some(0));
    assert_eq!(number_cell(""), Some(0));
    assert_eq!(number_cell("1e40"), None);
}

#[test]
fn premier_skus_have_six_units() {
    assert_eq!(units_per_case("TOT91451"), 6);
    assert_eq!(units_per_case("TOT91441"), 6);
    assert_eq!(units_per_case("TOT91421"), 6);
    assert_eq!(units_per_case("TOT00001"), 12);
    assert_eq!(units_per_case("tot91451"), 12);
}

#[test]
fn missing_skus() {
    assert!(missing_sku(""));
    assert!(missing_sku("nan"));
    assert!(!missing_sku("NaN"));
    assert!(!missing_sku("TOT1"));
}
