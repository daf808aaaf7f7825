use convex_hull::decimal::{
    is_digits, parse_number, read_digits, Decimal, NumberError, MAX_DIGITS, MAX_EXPONENT,
};

fn number(negative: bool, digits: u64, exponent: i64) -> Result<Decimal, NumberError> {
    Ok(Decimal { negative, digits, exponent })
}

#[test]
fn number_is_held_by_its_value() {
    assert_eq!(parse_number(b"0"), number(false, 0, 0));
    assert_eq!(parse_number(b"7"), number(false, 7, 0));
    assert_eq!(parse_number(b"5.4"), number(false, 54, -1));
    assert_eq!(parse_number(b"5.04"), number(false, 504, -2));
    assert_eq!(parse_number(b"0.1234"), number(false, 1234, -4));
    assert_eq!(parse_number(b"0012.30"), number(false, 123, -1));
    assert_eq!(parse_number(b"100"), number(false, 1, 2));
    assert_eq!(parse_number(b"1050.0"), number(false, 105, 1));
    assert_eq!(parse_number(b"3."), number(false, 3, 0));
    assert_eq!(parse_number(b".5"), number(false, 5, -1));
    assert_eq!(parse_number(b"+2.5"), number(false, 25, -1));
    assert_eq!(parse_number(b"-2.5"), number(true, 25, -1));
    assert_eq!(parse_number(b"-0.0"), number(true, 0, 0));
    assert_eq!(parse_number(b"0.000"), number(false, 0, 0));
    assert_eq!(parse_number(b"1.0000"), number(false, 1, 0));
    assert_eq!(parse_number(b"1.0000000000000000000000000"), number(false, 1, 0));
    assert_eq!(parse_number(b"1000000000000000000000000000000"), number(false, 1, 30));
    assert_eq!(parse_number(b"0.0005"), number(false, 5, -4));
}

#[test]
fn power_of_ten_moves_the_exponent() {
    assert_eq!(parse_number(b"1e5"), number(false, 1, 5));
    assert_eq!(parse_number(b"1E5"), number(false, 1, 5));
    assert_eq!(parse_number(b"1e+5"), number(false, 1, 5));
    assert_eq!(parse_number(b"1e-7"), number(false, 1, -7));
    assert_eq!(parse_number(b"1.5e-3"), number(false, 15, -4));
    assert_eq!(parse_number(b"+.5E+2"), number(false, 5, 1));
    assert_eq!(parse_number(b"-3.4028235e38"), number(true, 34028235, 31));
    assert_eq!(parse_number(b"2.e3"), number(false, 2, 3));
    assert_eq!(parse_number(b"1e007"), number(false, 1, 7));
    assert_eq!(parse_number(b"0e0"), number(false, 0, 0));
    assert_eq!(parse_number(b"10e2"), number(false, 1, 3));
    assert_eq!(parse_number(b"0.10e-2"), number(false, 1, -3));
    assert_eq!(parse_number(b"0e99999999999999999999999999"), number(false, 0, 0));
    assert_eq!(parse_number(b"-0.000e-99999999999999999999999"), number(true, 0, 0));
}

#[test]
fn what_is_no_decimal_number_is_malformed() {
    for text in [
        "", ".", "-", "+", "-.", "abc", "1.2.3", "--1", "+-1", "1-", " 1", "1 ", "1/2", "1:2",
        "e5", ".e5", "1e", "1e+", "1e-", "1e5.0", "1e2e3", "1E2e3", "1e 5", "0x10", "inf", "nan",
        "infinity", "-inf", "1,5", "1_000", "1e5-", "1.5f",
    ] {
        assert_eq!(parse_number(text.as_bytes()), Err(NumberError::Malformed), "{:?}", text);
    }
}

#[test]
fn number_beyond_what_is_held_is_too_large() {
    assert_eq!(MAX_DIGITS, 1 << 63);
    assert_eq!(MAX_EXPONENT, i64::MAX);
    assert_eq!(parse_number(b"9223372036854775807"), number(false, 9223372036854775807, 0));
    assert_eq!(parse_number(b"9223372036854775808"), number(false, 9223372036854775808, 0));
    assert_eq!(parse_number(b"-9223372036854775808"), number(true, 9223372036854775808, 0));
    assert_eq!(parse_number(b"9223372036854775809"), Err(NumberError::TooLarge));
    assert_eq!(parse_number(b"-9223372036854775809"), Err(NumberError::TooLarge));
    assert_eq!(parse_number(b"922337203685477580.8"), number(false, 9223372036854775808, -1));
    assert_eq!(parse_number(b"922337203685477580.9"), Err(NumberError::TooLarge));
    assert_eq!(parse_number(b"99999999999999999999999999"), Err(NumberError::TooLarge));
    assert_eq!(parse_number(b"00000000000000000000000001"), number(false, 1, 0));
    assert_eq!(parse_number(b"0.00000000000000000000000000001"), number(false, 1, -29));
    assert_eq!(parse_number(b"1e9223372036854775807"), number(false, 1, MAX_EXPONENT));
    assert_eq!(parse_number(b"1e9223372036854775808"), Err(NumberError::TooLarge));
    assert_eq!(parse_number(b"1e-9223372036854775807"), number(false, 1, -MAX_EXPONENT));
    assert_eq!(parse_number(b"1e-9223372036854775808"), Err(NumberError::TooLarge));
    assert_eq!(parse_number(b"1.0e-9223372036854775807"), number(false, 1, -MAX_EXPONENT));
    assert_eq!(parse_number(b"0.1e-9223372036854775807"), Err(NumberError::TooLarge));
    assert_eq!(parse_number(b"10e-9223372036854775808"), number(false, 1, -MAX_EXPONENT));
    assert_eq!(parse_number(b"1.0e9223372036854775808"), Err(NumberError::TooLarge));
    assert_eq!(parse_number(b"0.1e9223372036854775808"), number(false, 1, MAX_EXPONENT));
    assert_eq!(parse_number(b"1e99999999999999999999999999"), Err(NumberError::TooLarge));
    assert_eq!(parse_number(b"1e-99999999999999999999999999"), Err(NumberError::TooLarge));
}

#[test]
fn malformed_comes_before_too_large() {
    assert_eq!(parse_number(b"99999999999999999999e"), Err(NumberError::Malformed));
    assert_eq!(parse_number(b"1x e99999999999999999999999999"), Err(NumberError::Malformed));
    assert_eq!(parse_number(b"99999999999999999999.5x"), Err(NumberError::Malformed));
}

#[test]
fn number_is_put_on_a_grid_by_powers_of_ten() {
    let n = Decimal { negative: false, digits: 54, exponent: -1 };
    assert_eq!(n.places(), 1);
    assert_eq!(n.to_grid(1), Some(54));
    assert_eq!(n.to_grid(3), Some(5400));
    assert_eq!(n.to_grid(18), Some(5_400_000_000_000_000_000));
    assert_eq!(n.to_grid(19), None);
    let n = Decimal { negative: true, digits: 25, exponent: 2 };
    assert_eq!(n.places(), 0);
    assert_eq!(n.to_grid(0), Some(-2500));
    assert_eq!(n.to_grid(4), Some(-25_000_000));
    let n = Decimal { negative: false, digits: 1, exponent: -7 };
    assert_eq!(n.places(), 7);
    assert_eq!(n.to_grid(7), Some(1));
}

#[test]
fn grid_ends_at_the_largest_coordinate() {
    let n = Decimal { negative: false, digits: 9223372036854775807, exponent: 0 };
    assert_eq!(n.to_grid(0), Some(i64::MAX));
    assert_eq!(n.to_grid(1), None);
    let n = Decimal { negative: true, digits: 9223372036854775807, exponent: 0 };
    assert_eq!(n.to_grid(0), Some(-i64::MAX));
    let n = Decimal { negative: true, digits: 9223372036854775808, exponent: 0 };
    assert_eq!(n.to_grid(0), Some(i64::MIN));
    assert_eq!(n.to_grid(1), None);
    let n = Decimal { negative: false, digits: 9223372036854775808, exponent: 0 };
    assert_eq!(n.to_grid(0), None);
    let n = Decimal { negative: true, digits: 4611686018427387904, exponent: 0 };
    assert_eq!(n.to_grid(0), Some(i64::MIN / 2));
    let n = Decimal { negative: false, digits: 922337203685477580, exponent: 1 };
    assert_eq!(n.to_grid(0), Some(9223372036854775800));
    let n = Decimal { negative: false, digits: 922337203685477581, exponent: 1 };
    assert_eq!(n.to_grid(0), None);
    let n = Decimal { negative: false, digits: 1, exponent: 18 };
    assert_eq!(n.to_grid(0), Some(1_000_000_000_000_000_000));
    assert_eq!(n.to_grid(1), None);
    let n = Decimal { negative: false, digits: 1, exponent: MAX_EXPONENT };
    assert_eq!(n.to_grid(MAX_EXPONENT as u64), None);
}

#[test]
fn zero_is_on_every_grid() {
    let n = Decimal { negative: true, digits: 0, exponent: -1 };
    assert_eq!(n.to_grid(1), Some(0));
    assert_eq!(n.to_grid(MAX_EXPONENT as u64), Some(0));
    let n = Decimal { negative: false, digits: 0, exponent: MAX_EXPONENT };
    assert_eq!(n.to_grid(MAX_EXPONENT as u64), Some(0));
}

#[test]
fn digits_are_read_up_to_the_cap() {
    assert_eq!(read_digits(0, b"", 10), Some(0));
    assert_eq!(read_digits(7, b"", 10), Some(7));
    assert_eq!(read_digits(0, b"10", 10), Some(10));
    assert_eq!(read_digits(0, b"11", 10), None);
    assert_eq!(read_digits(0, b"0009", 10), Some(9));
    assert_eq!(read_digits(12, b"345", 100000), Some(12345));
    assert_eq!(read_digits(12, b"345", 12344), None);
    assert_eq!(read_digits(0, b"4294967296", 1 << 120), Some(4294967296));
    assert!(is_digits(b"0123456789"));
    assert!(is_digits(b""));
    assert!(!is_digits(b"12a"));
    assert!(!is_digits(b"-1"));
    assert!(!is_digits(b"/"));
    assert!(!is_digits(b":"));
}
