use transit_import::decimal::{parse_coord, parse_count, MalformedCoordinate, COORD_LIMIT};
use transit_import::ident::{bytes_equal, bytes_less, id_less, same_text};

#[test]
fn identifiers_are_ordered_by_their_bytes() {
    assert!(id_less("S1", "S2"));
    assert!(!id_less("S2", "S1"));
    assert!(!id_less("S1", "S1"));
    assert!(id_less("S1", "S10"));
    assert!(id_less("S10", "S2"));
    assert!(id_less("", "a"));
    assert!(!id_less("a", ""));
    assert!(id_less("A", "a"));
    assert!(id_less("z", "é"));
}

#[test]
fn identifier_order_agrees_with_str_order() {
    let ids = ["", "a", "ab", "b", "B", "10", "9", "stop-1", "stop_1", "ü", "zz"];
    for a in ids.iter() {
        for b in ids.iter() {
            assert_eq!(id_less(a, b), a < b);
            assert_eq!(same_text(a, b), a == b);
        }
    }
}

#[test]
fn byte_strings_compare() {
    assert!(bytes_less(&[1, 2], &[1, 3]));
    assert!(bytes_less(&[1, 2], &[1, 2, 0]));
    assert!(!bytes_less(&[1, 2, 0], &[1, 2]));
    assert!(!bytes_less(&[], &[]));
    assert!(bytes_equal(&[], &[]));
    assert!(bytes_equal(&[7, 8], &[7, 8]));
    assert!(!bytes_equal(&[7, 8], &[7, 9]));
    assert!(!bytes_equal(&[7], &[7, 8]));
}

#[test]
fn counts_are_decimal_digits() {
    assert_eq!(parse_count("0"), Some(0));
    assert_eq!(parse_count("3"), Some(3));
    assert_eq!(parse_count("007"), Some(7));
    assert_eq!(parse_count("1700"), Some(1700));
    assert_eq!(parse_count("18446744073709551615"), Some(u64::MAX));
}

#[test]
fn counts_that_are_no_numbers_are_refused() {
    assert_eq!(parse_count(""), None);
    assert_eq!(parse_count(" 3"), None);
    assert_eq!(parse_count("3 "), None);
    assert_eq!(parse_count("+3"), None);
    assert_eq!(parse_count("-3"), None);
    assert_eq!(parse_count("3.0"), None);
    assert_eq!(parse_count("0x10"), None);
    assert_eq!(parse_count("three"), None);
    assert_eq!(parse_count("18446744073709551616"), None);
    assert_eq!(parse_count("99999999999999999999999"), None);
}

#[test]
fn coordinates_count_units_of_a_ten_millionth_degree() {
    assert_eq!(parse_coord("47.6062"), Ok(476_062_000));
    assert_eq!(parse_coord("-122.3321"), Ok(-1_223_321_000));
    assert_eq!(parse_coord("0"), Ok(0));
    assert_eq!(parse_coord("-0"), Ok(0));
    assert_eq!(parse_coord("+5"), Ok(50_000_000));
    assert_eq!(parse_coord("5."), Ok(50_000_000));
    assert_eq!(parse_coord(".5"), Ok(5_000_000));
    assert_eq!(parse_coord("-.25"), Ok(-2_500_000));
    assert_eq!(parse_coord("0.0000001"), Ok(1));
    assert_eq!(parse_coord("180.0000000"), Ok(1_800_000_000));
    assert_eq!(parse_coord("007.5"), Ok(75_000_000));
}

#[test]
fn coordinate_digits_beyond_the_seventh_place_are_cut_off() {
    assert_eq!(parse_coord("12.3456789123"), Ok(123_456_789));
    assert_eq!(parse_coord("0.00000009"), Ok(0));
    assert_eq!(parse_coord("-0.99999999"), Ok(-9_999_999));
}

#[test]
fn coordinates_beyond_the_limit_are_pinned() {
    assert_eq!(COORD_LIMIT, 1_000_000_000_000_000_000);
    assert_eq!(parse_coord("99999999999"), Ok(999_999_999_990_000_000));
    assert_eq!(parse_coord("99999999999.9999999"), Ok(999_999_999_999_999_999));
    assert_eq!(parse_coord("100000000000"), Ok(COORD_LIMIT));
    assert_eq!(parse_coord("123456789012345678901234567890.5"), Ok(COORD_LIMIT));
    assert_eq!(parse_coord("-123456789012345678901234567890"), Ok(-COORD_LIMIT));
}

#[test]
fn coordinates_that_are_no_decimals_name_their_text() {
    for text in ["", "-", "+", ".", "-.", "abc", "1e5", "1,5", " 1.5", "1.5 ", "1.2.3", "--1", "1-", "NaN", "inf", "4 7"] {
        assert_eq!(parse_coord(text), Err(MalformedCoordinate { text: text.to_string() }));
    }
}
