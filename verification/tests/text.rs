use anvil_sim::text::{decimal_string, format_dprint, parse_int};

#[test]
fn dprint_fills_values_right_aligned() {
    assert_eq!(format_dprint("x=%d y=%d", &[5, 123]), Some("x= 5 y=123".to_string()));
    assert_eq!(format_dprint("%d", &[-3]), Some("-3".to_string()));
}

#[test]
fn dprint_keeps_other_percent_pairs() {
    assert_eq!(format_dprint("100%% %x", &[]), Some("100%% %x".to_string()));
    assert_eq!(format_dprint("end %", &[]), Some("end %".to_string()));
}

#[test]
fn dprint_without_directives_is_unchanged() {
    assert_eq!(format_dprint("plain text", &[1, 2]), Some("plain text".to_string()));
}

#[test]
fn dprint_with_too_few_values_fails() {
    assert_eq!(format_dprint("%d %d", &[1]), None);
}

#[test]
fn decimal_text() {
    assert_eq!(decimal_string(0), "0");
    assert_eq!(decimal_string(907), "907");
    assert_eq!(decimal_string(-45), "-45");
    assert_eq!(decimal_string(i64::MIN), "-9223372036854775808");
    assert_eq!(decimal_string(i64::MAX), "9223372036854775807");
}

#[test]
fn parse_integers_as_rust_does() {
    assert_eq!(parse_int("42"), Some(42));
    assert_eq!(parse_int("+7"), Some(7));
    assert_eq!(parse_int("-9223372036854775808"), Some(i64::MIN));
    assert_eq!(parse_int("9223372036854775807"), Some(i64::MAX));
    assert_eq!(parse_int("9223372036854775808"), None);
    assert_eq!(parse_int(""), None);
    assert_eq!(parse_int("-"), None);
    assert_eq!(parse_int("12a"), None);
    assert_eq!(parse_int(" 1"), None);
    assert_eq!(parse_int("99999999999999999999999"), None);
}

#[test]
fn parse_reads_back_decimal_text() {
    for v in [0i64, 1, -1, 31337, -271828, i64::MIN, i64::MAX] {
        assert_eq!(parse_int(&decimal_string(v)), Some(v));
    }
}
