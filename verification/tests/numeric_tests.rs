use flag::numeric::parse_u32;
use flag::numeric::u32_to_dec;

#[test]
fn renders_decimal_canonically() {
    assert_eq!(u32_to_dec(0), "0");
    assert_eq!(u32_to_dec(7), "7");
    assert_eq!(u32_to_dec(80), "80");
    assert_eq!(u32_to_dec(1024), "1024");
    assert_eq!(u32_to_dec(u32::MAX), "4294967295");
}

#[test]
fn parses_plain_digits() {
    assert_eq!(parse_u32("0"), Some(0));
    assert_eq!(parse_u32("80"), Some(80));
    assert_eq!(parse_u32("8080"), Some(8080));
    assert_eq!(parse_u32("00080"), Some(80));
    assert_eq!(parse_u32("4294967295"), Some(u32::MAX));
}

#[test]
fn parses_leading_plus() {
    assert_eq!(parse_u32("+123"), Some(123));
    assert_eq!(parse_u32("+0"), Some(0));
    assert_eq!(parse_u32("+"), None);
}

#[test]
fn rejects_what_is_no_unsigned_number() {
    assert_eq!(parse_u32(""), None);
    assert_eq!(parse_u32("-1"), None);
    assert_eq!(parse_u32("12a"), None);
    assert_eq!(parse_u32("a12"), None);
    assert_eq!(parse_u32(" 12"), None);
    assert_eq!(parse_u32("4294967296"), None);
    assert_eq!(parse_u32("99999999999999999999"), None);
}

#[test]
fn round_trips_through_rendering() {
    for n in [0u32, 1, 9, 10, 99, 100, 65535, u32::MAX] {
        assert_eq!(parse_u32(&u32_to_dec(n)), Some(n));
    }
}
