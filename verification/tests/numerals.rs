use protein_viewer::numeral::parse_decimal;
use protein_viewer::numeral::parse_i32;
use protein_viewer::numeral::power_of_ten;
use protein_viewer::numeral::read_digits;
use protein_viewer::numeral::char_is_digit;
use protein_viewer::numeral::LIMIT;
use protein_viewer::numeral::ONE;

fn numeral_chars(s: &str) -> Vec<char> {
    s.chars().collect()
}

fn decimal(s: &str) -> Option<i64> {
    parse_decimal(&numeral_chars(s))
}

fn integer(s: &str) -> Option<i32> {
    parse_i32(&numeral_chars(s))
}

#[test]
fn decimal_reads_whole_and_fraction() {
    assert_eq!(decimal("1.5"), Some(15_000_000));
    assert_eq!(decimal("11.104"), Some(111_040_000));
    assert_eq!(decimal("0"), Some(0));
    assert_eq!(decimal("12"), Some(120_000_000));
    assert_eq!(decimal("0.0000001"), Some(1));
    assert_eq!(decimal("1.00"), Some(ONE));
}

#[test]
fn decimal_reads_signs() {
    assert_eq!(decimal("-0.001"), Some(-10_000));
    assert_eq!(decimal("+3.25"), Some(32_500_000));
    assert_eq!(decimal("-12.345"), Some(-123_450_000));
    assert_eq!(decimal("-0"), Some(0));
}

#[test]
fn decimal_reads_point_at_either_end() {
    assert_eq!(decimal("5."), Some(50_000_000));
    assert_eq!(decimal(".5"), Some(5_000_000));
    assert_eq!(decimal("-.25"), Some(-2_500_000));
}

#[test]
fn decimal_refuses_what_is_no_numeral() {
    for s in ["", ".", "+", "-", "+.", "abc", "1.2.3", "1,5", " 1.5", "1.5 ", "1 5", "--1", "1-", "0x10", "١٢"] {
        assert_eq!(decimal(s), None, "{:?}", s);
    }
}

#[test]
fn decimal_reads_exponents() {
    assert_eq!(decimal("1e2"), Some(100 * ONE));
    assert_eq!(decimal("1E2"), Some(100 * ONE));
    assert_eq!(decimal("1e+2"), Some(100 * ONE));
    assert_eq!(decimal("1.5E-2"), Some(150_000));
    assert_eq!(decimal("5e-1"), Some(5_000_000));
    assert_eq!(decimal("-2.5e1"), Some(-250_000_000));
    assert_eq!(decimal("+.5e1"), Some(50_000_000));
    assert_eq!(decimal("1.e2"), Some(100 * ONE));
    assert_eq!(decimal("1e0"), Some(ONE));
    assert_eq!(decimal("1e-0"), Some(ONE));
    assert_eq!(decimal("12e006"), Some(120_000_000_000_000));
    assert_eq!(decimal("12e007"), None);
    assert_eq!(decimal("100000000e-1"), Some(100_000_000_000_000));
    assert_eq!(decimal("9.9999999e7"), Some(999_999_990_000_000));
}

#[test]
fn decimal_cuts_off_what_lies_below_a_unit() {
    assert_eq!(decimal("1e-7"), Some(1));
    assert_eq!(decimal("1e-8"), Some(0));
    assert_eq!(decimal("-1e-8"), Some(0));
    assert_eq!(decimal("1e-9"), Some(0));
    assert_eq!(decimal("19e-8"), Some(1));
    assert_eq!(decimal("-19e-8"), Some(-1));
    assert_eq!(decimal("0.12345678"), Some(1_234_567));
    assert_eq!(decimal("0.99999999"), Some(9_999_999));
    assert_eq!(decimal("-0.00000009"), Some(0));
    assert_eq!(decimal("1.00000000"), Some(ONE));
    assert_eq!(decimal("123456789e-9"), Some(1_234_567));
    assert_eq!(decimal("123456789e-16"), Some(0));
    assert_eq!(decimal("123456789e-17"), Some(0));
    assert_eq!(decimal("1e-99999999999999999999999999999999999999999999"), Some(0));
    assert_eq!(decimal("0.0000000000000000000000000000000000000000001"), Some(0));
}

#[test]
fn decimal_refuses_magnitudes_from_the_limit_on() {
    assert_eq!(decimal("1e8"), None);
    assert_eq!(decimal("-1e8"), None);
    assert_eq!(decimal("1e20"), None);
    assert_eq!(decimal("1e39"), None);
    assert_eq!(decimal("0.001e11"), None);
    assert_eq!(decimal("99999999.99999999"), Some(999_999_999_999_999));
    assert_eq!(decimal("1e99999999999999999999999999999999999999999999"), None);
    assert_eq!(decimal("0.0000000000000000000000000000001e40"), None);
    assert_eq!(decimal("0.0000000000000000000000000000001e38"), Some(ONE * ONE));
    assert_eq!(decimal("0.0000000000000000000000000000001e31"), Some(ONE));
    assert_eq!(decimal("100000000000000000000000000000000e-25"), Some(ONE * ONE));
    assert_eq!(decimal("1000000000000000000000000000000000e-25"), None);
}

#[test]
fn decimal_zero_stays_zero_under_any_exponent() {
    assert_eq!(decimal("0e0"), Some(0));
    assert_eq!(decimal("0e99"), Some(0));
    assert_eq!(decimal("0.000e99999999999999999999999999999999999999"), Some(0));
    assert_eq!(decimal("-0e-99999999999999999999999999999999999999"), Some(0));
    assert_eq!(decimal("000000000000000000000000000000e16"), Some(0));
}

#[test]
fn decimal_refuses_malformed_exponents_and_special_values() {
    for s in [
        "1e", "1e+", "1e-", "e5", ".e5", "-e5", "1e5.0", "1e 5", "1ee5", "1e5e5", "1e++5", "1x5",
        "1.5f", "inf", "-inf", "NaN", "nan", "infinity", "+infinity",
    ] {
        assert_eq!(decimal(s), None, "{:?}", s);
    }
}

#[test]
fn decimal_holds_every_eight_column_numeral() {
    assert_eq!(decimal("99999999"), Some(999_999_990_000_000));
    assert_eq!(decimal("-9999999"), Some(-99_999_990_000_000));
    assert_eq!(decimal(".9999999"), Some(9_999_999));
    assert_eq!(decimal("9999.999"), Some(99_999_990_000));
    assert_eq!(decimal("-999.999"), Some(-9_999_990_000));
}

#[test]
fn decimal_refuses_whole_parts_from_the_limit_on() {
    assert_eq!(decimal("100000000"), None);
    assert_eq!(decimal("123456789012345678901234567890"), None);
    assert_eq!(decimal("0099999999.5"), Some(999_999_995_000_000));
}

#[test]
fn decimal_stays_below_the_limit() {
    for s in ["99999999", "-99999999", "99999999.9999999", "-99999999.9999999"] {
        let v = decimal(s).unwrap();
        assert!(-LIMIT < v && v < LIMIT);
    }
    assert_eq!(decimal("99999999.9999999"), Some(LIMIT - 1));
}

#[test]
fn decimal_agrees_with_the_floating_point_reading() {
    let samples = [
        "0.5", "1", "27.340", "-3.1415926", "100.25", "  ", "7.", ".125", "+42", "-0.0000001",
        "12345.67", "x", "-", "1e2", "2.5E-3", "-7.25e+1", "1e", "e1", "1.e1", ".e1", "+.5E1",
        "12e-1", "1e-5", "0e0", "1.5e", "1e1.5",
    ];
    for s in samples {
        let ours = decimal(s);
        let theirs = s.parse::<f64>().ok();
        assert_eq!(ours.is_some(), theirs.is_some(), "{:?}", s);
        if let (Some(a), Some(b)) = (ours, theirs) {
            assert!((a as f64 / ONE as f64 - b).abs() < 1e-7, "{:?}", s);
        }
    }
}

#[test]
fn integer_reads_digits_and_signs() {
    assert_eq!(integer("42"), Some(42));
    assert_eq!(integer("-17"), Some(-17));
    assert_eq!(integer("+8"), Some(8));
    assert_eq!(integer("00012"), Some(12));
    assert_eq!(integer("-0"), Some(0));
}

#[test]
fn integer_refuses_what_is_no_integer() {
    for s in ["", "+", "-", "12a", "a12", "1.0", " 1", "1 ", "+-1", "1_000"] {
        assert_eq!(integer(s), None, "{:?}", s);
    }
}

#[test]
fn integer_keeps_to_thirty_two_bits() {
    assert_eq!(integer("2147483647"), Some(i32::MAX));
    assert_eq!(integer("-2147483648"), Some(i32::MIN));
    assert_eq!(integer("2147483648"), None);
    assert_eq!(integer("-2147483649"), None);
    assert_eq!(integer("99999999999999999999999999"), None);
}

#[test]
fn integer_agrees_with_the_standard_reading() {
    let samples = [
        "0", "7", "-7", "+7", "123456", "-2147483648", "2147483647", "2147483648", "", "-", "+",
        "12 ", "1e2", "0000000000000000000001", "-00",
    ];
    for s in samples {
        assert_eq!(integer(s), s.parse::<i32>().ok(), "{:?}", s);
    }
}

#[test]
fn digits_are_the_ten_ascii_digits() {
    for c in '0'..='9' {
        assert!(char_is_digit(c));
    }
    for c in ['/', ':', 'a', ' ', '-', '.', '٣'] {
        assert!(!char_is_digit(c));
    }
}

#[test]
fn read_digits_stops_at_the_first_other_character() {
    let s = numeral_chars("123.45");
    assert_eq!(read_digits(&s, 0, 1000), (3, Some(123)));
    assert_eq!(read_digits(&s, 4, 1000), (6, Some(45)));
    assert_eq!(read_digits(&s, 3, 1000), (3, Some(0)));
    assert_eq!(read_digits(&s, 6, 1000), (6, Some(0)));
}

#[test]
fn read_digits_tells_when_the_limit_is_reached() {
    let s = numeral_chars("1000x");
    assert_eq!(read_digits(&s, 0, 1000), (4, None));
    assert_eq!(read_digits(&s, 0, 1001), (4, Some(1000)));
    assert_eq!(read_digits(&s, 1, 1), (4, Some(0)));
}

#[test]
fn powers_of_ten() {
    assert_eq!(power_of_ten(0), 1);
    assert_eq!(power_of_ten(1), 10);
    assert_eq!(power_of_ten(7), 10_000_000);
    assert_eq!(power_of_ten(8), 100_000_000);
    assert_eq!(power_of_ten(15), 1_000_000_000_000_000);
    assert_eq!(power_of_ten(19), 10_000_000_000_000_000_000);
}
