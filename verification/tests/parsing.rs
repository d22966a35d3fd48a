use kosaraju::get_int_len;
use kosaraju::get_usize_len;
use kosaraju::parse_line;
use kosaraju::parse_line_fill;

#[test]
fn parses_space_separated_integers() {
    assert_eq!(parse_line("1 2 3"), Some(vec![1, 2, 3]));
    assert_eq!(parse_line("42"), Some(vec![42]));
    assert_eq!(parse_line("-5 +3 0"), Some(vec![-5, 3, 0]));
}

#[test]
fn skips_empty_fields() {
    assert_eq!(parse_line("  7   8 "), Some(vec![7, 8]));
    assert_eq!(parse_line(""), Some(vec![]));
    assert_eq!(parse_line("   "), Some(vec![]));
}

#[test]
fn rejects_malformed_fields() {
    assert_eq!(parse_line("1 x"), None);
    assert_eq!(parse_line("12a"), None);
    assert_eq!(parse_line("-"), None);
    assert_eq!(parse_line("+"), None);
    assert_eq!(parse_line("1.5"), None);
}

#[test]
fn honors_the_64_bit_range() {
    assert_eq!(parse_line("9223372036854775807"), Some(vec![i64::MAX]));
    assert_eq!(parse_line("9223372036854775808"), None);
    assert_eq!(parse_line("-9223372036854775808"), Some(vec![i64::MIN]));
    assert_eq!(parse_line("-9223372036854775809"), None);
    assert_eq!(parse_line("99999999999999999999999999"), None);
}

#[test]
fn fill_keeps_values_before_a_malformed_field() {
    let mut list = vec![9];
    assert!(!parse_line_fill("1 2 x 4", &mut list));
    assert_eq!(list, vec![9, 1, 2]);
}

#[test]
fn fill_appends_all_values_on_success() {
    let mut list = vec![7];
    assert!(parse_line_fill(" 10 -20 ", &mut list));
    assert_eq!(list, vec![7, 10, -20]);
}

#[test]
fn signed_widths_count_the_sign() {
    assert_eq!(get_int_len(0), 1);
    assert_eq!(get_int_len(7), 1);
    assert_eq!(get_int_len(10), 2);
    assert_eq!(get_int_len(99), 2);
    assert_eq!(get_int_len(100), 3);
    assert_eq!(get_int_len(-5), 2);
    assert_eq!(get_int_len(-100), 4);
    assert_eq!(get_int_len(i64::MAX), 19);
    assert_eq!(get_int_len(i64::MIN), 20);
}

#[test]
fn unsigned_widths_count_digits() {
    assert_eq!(get_usize_len(0), 1);
    assert_eq!(get_usize_len(9), 1);
    assert_eq!(get_usize_len(10), 2);
    assert_eq!(get_usize_len(123456), 6);
}
