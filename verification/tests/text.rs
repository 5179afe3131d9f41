use rudis::clock::{clock_millis, now_ms};
use rudis::text::{parse_int, parse_len};

#[test]
fn parses_decimal_integers() {
    assert_eq!(parse_int(b"10"), Some(10));
    assert_eq!(parse_int(b"-7"), Some(-7));
    assert_eq!(parse_int(b"+007"), Some(7));
    assert_eq!(parse_int(b"-9223372036854775808"), Some(i64::MIN));
    assert_eq!(parse_int(b"9223372036854775808"), None);
    assert_eq!(parse_int(b""), None);
    assert_eq!(parse_int(b"-"), None);
    assert_eq!(parse_int(b" 1"), None);
    assert_eq!(parse_int(&[0xff, 0x31]), None);
    assert_eq!(parse_len(b"+3"), Some(3));
    assert_eq!(parse_len(b"-0"), None);
}

#[test]
fn clock_readings() {
    assert_eq!(clock_millis(None), 0);
    assert_eq!(clock_millis(Some(1_700_000_000_123)), 1_700_000_000_123);
    assert_eq!(clock_millis(Some((1u128 << 64) + 5)), 5);
    assert!(now_ms() > 1_600_000_000_000);
}
