use multi_reader::number::{is_numeric, parse_i32, parse_usize};

#[test]
fn numeric_inputs() {
    assert!(is_numeric("12"));
    assert!(is_numeric("-3"));
    assert!(is_numeric("+4"));
    assert!(is_numeric("2147483647"));
    assert!(is_numeric("-2147483648"));
    assert!(!is_numeric(""));
    assert!(!is_numeric("-"));
    assert!(!is_numeric("+"));
    assert!(!is_numeric("2147483648"));
    assert!(!is_numeric("1a"));
    assert!(!is_numeric(" 1"));
    assert!(!is_numeric("q"));
}

#[test]
fn parse_i32_values() {
    assert_eq!(parse_i32("0"), Some(0));
    assert_eq!(parse_i32("-17"), Some(-17));
    assert_eq!(parse_i32("+0042"), Some(42));
    assert_eq!(parse_i32("-2147483648"), Some(i32::MIN));
    assert_eq!(parse_i32("99999999999999999999999"), None);
}

#[test]
fn parse_usize_values() {
    assert_eq!(parse_usize("5"), Some(5));
    assert_eq!(parse_usize("+7"), Some(7));
    assert_eq!(parse_usize("-0"), None);
    assert_eq!(parse_usize(""), None);
    assert_eq!(parse_usize("18446744073709551615"), Some(usize::MAX));
    assert_eq!(parse_usize("18446744073709551616"), None);
    assert_eq!(parse_usize("5\r"), None);
}
