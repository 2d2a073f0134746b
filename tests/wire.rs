use rustatsd::wire::{
    chars_of, decimal_u64, parse_decimal, parse_i64, parse_sample_rate, split_nonempty,
};

fn cs(s: &str) -> Vec<char> {
    s.chars().collect()
}

#[test]
fn split_drops_empty_pieces() {
    let parts = split_nonempty(&cs("::a|bc::d|"), ':', '|');
    assert_eq!(parts, vec![cs("a"), cs("bc"), cs("d")]);
    assert!(split_nonempty(&cs(""), ':', '|').is_empty());
    assert!(split_nonempty(&cs("|:|"), ':', '|').is_empty());
}

#[test]
fn split_lines() {
    let parts = split_nonempty(&cs("x\n\ny\n"), '\n', '\n');
    assert_eq!(parts, vec![cs("x"), cs("y")]);
}

#[test]
fn chars_in_order() {
    assert_eq!(chars_of("aé:1"), vec!['a', 'é', ':', '1']);
    assert!(chars_of("").is_empty());
}

#[test]
fn decimal_digits() {
    let t = cs("x123y");
    assert_eq!(decimal_u64(&t, 1, 4), Some(123));
    assert_eq!(decimal_u64(&t, 1, 1), Some(0));
    assert_eq!(decimal_u64(&t, 0, 4), None);
    assert_eq!(decimal_u64(&cs("18446744073709551615"), 0, 20), Some(u64::MAX));
    assert_eq!(decimal_u64(&cs("18446744073709551616"), 0, 20), None);
}

#[test]
fn signed_integers() {
    assert_eq!(parse_i64(&cs("42")), Some(42));
    assert_eq!(parse_i64(&cs("+42")), Some(42));
    assert_eq!(parse_i64(&cs("-42")), Some(-42));
    assert_eq!(parse_i64(&cs("-")), None);
    assert_eq!(parse_i64(&cs("")), None);
    assert_eq!(parse_i64(&cs("4 2")), None);
    assert_eq!(parse_i64(&cs("--1")), None);
}

#[test]
fn decimals_as_exact_pairs() {
    assert_eq!(parse_decimal(&cs("0.5")), Some((5, 1, 0)));
    assert_eq!(parse_decimal(&cs("0.500")), Some((5, 1, 0)));
    assert_eq!(parse_decimal(&cs("12.0")), Some((12, 0, 0)));
    assert_eq!(parse_decimal(&cs("0.05")), Some((5, 2, 0)));
    assert_eq!(parse_decimal(&cs("3")), Some((3, 0, 0)));
    assert_eq!(parse_decimal(&cs("")), None);
    assert_eq!(parse_decimal(&cs(".")), None);
    assert_eq!(parse_decimal(&cs("1.2.3")), None);
    assert_eq!(parse_decimal(&cs("-0.5")), None);
    assert_eq!(parse_decimal(&cs("99999999999999999999")), Some((9999999999999999999, 0, 1)));
    assert_eq!(
        parse_decimal(&cs("0.99999999999999999999")),
        Some((9999999999999999999, 20, 1))
    );
}

#[test]
fn sample_rates_with_exponents() {
    assert_eq!(parse_sample_rate(&cs("0.5"), 0), Some((5, 1)));
    assert_eq!(parse_sample_rate(&cs("@0.5"), 1), Some((5, 1)));
    assert_eq!(parse_sample_rate(&cs("+0.5"), 0), Some((5, 1)));
    assert_eq!(parse_sample_rate(&cs("5e-1"), 0), Some((5, 1)));
    assert_eq!(parse_sample_rate(&cs("50E-2"), 0), Some((5, 1)));
    assert_eq!(parse_sample_rate(&cs("10e-1"), 0), Some((1, 0)));
    assert_eq!(parse_sample_rate(&cs("2e3"), 0), Some((2000, 0)));
    assert_eq!(parse_sample_rate(&cs("1.5e1"), 0), Some((15, 0)));
    assert_eq!(parse_sample_rate(&cs("0e-9223372036854775808"), 0), Some((0, 0)));
    assert_eq!(parse_sample_rate(&cs("1e30"), 0), None);
    assert_eq!(
        parse_sample_rate(&cs("0.99999999999999999999"), 0),
        Some((9999999999999999999, 19))
    );
    assert_eq!(
        parse_sample_rate(&cs("0.000000000000000000000000012345678901234567890"), 0),
        Some((1234567890123456789, 44))
    );
    assert_eq!(parse_sample_rate(&cs("123456789012345678901e-21"), 0), Some((1234567890123456789, 19)));
    assert_eq!(parse_sample_rate(&cs("1e99999999999999999999"), 0), None);
    assert_eq!(parse_sample_rate(&cs("1e+"), 0), None);
    assert_eq!(parse_sample_rate(&cs("++1"), 0), None);
    assert_eq!(parse_sample_rate(&cs(""), 0), None);
}
