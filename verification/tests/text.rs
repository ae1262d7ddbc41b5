use ects_calc::text::{format_usize, parse_credit, parse_usize, trim};

#[test]
fn credits_are_read_as_decimal_thousandths() {
    assert_eq!(parse_credit("7.5"), Some(7500));
    assert_eq!(parse_credit("10"), Some(10000));
    assert_eq!(parse_credit(".5"), Some(500));
    assert_eq!(parse_credit("5."), Some(5000));
    assert_eq!(parse_credit("+2.125"), Some(2125));
    assert_eq!(parse_credit("2.1250"), Some(2125));
    assert_eq!(parse_credit("2.1255"), None);
    assert_eq!(parse_credit("."), None);
    assert_eq!(parse_credit(""), None);
    assert_eq!(parse_credit("1.2.3"), None);
    assert_eq!(parse_credit("-1"), None);
    assert_eq!(parse_credit("4294967.295"), Some(u32::MAX));
    assert_eq!(parse_credit("4294967.296"), None);
}

#[test]
fn whole_numbers() {
    assert_eq!(parse_usize("42"), Some(42));
    assert_eq!(parse_usize("+42"), Some(42));
    assert_eq!(parse_usize("+"), None);
    assert_eq!(parse_usize(""), None);
    assert_eq!(parse_usize("4 2"), None);
    assert_eq!(parse_usize("18446744073709551616"), None);
    assert_eq!(format_usize(0), "0");
    assert_eq!(format_usize(907), "907");
    assert_eq!(parse_usize(&format_usize(usize::MAX)), Some(usize::MAX));
}

#[test]
fn trim_removes_unicode_white_space() {
    assert_eq!(trim("  a b \t\n"), "a b");
    assert_eq!(trim("\u{3000}x\u{a0}"), "x");
    assert_eq!(trim("   "), "");
    assert_eq!(trim(""), "");
}
