use steamscan::display::find_selected_index;
use steamscan::display::format_hours;
use steamscan::display::pad_left;
use steamscan::display::pad_right;
use steamscan::display::truncate_title;
use steamscan::numbers::decimal_string;
use steamscan::numbers::parse_u64;

#[test]
fn formats_hours_in_hours_unit() {
    assert_eq!(format_hours(0), "0h");
    assert_eq!(format_hours(90), "1h");
}

#[test]
fn truncates_long_titles_with_ellipsis() {
    assert_eq!(truncate_title("abcdef", 6), "abcdef");
    assert_eq!(truncate_title("abcdefg", 6), "abc...");
    assert_eq!(truncate_title("abcdef", 2), "..");
}

#[test]
fn truncation_edge_widths() {
    assert_eq!(truncate_title("abcdef", 0), "");
    assert_eq!(truncate_title("abcdef", 1), ".");
    assert_eq!(truncate_title("abcdef", 3), "...");
    assert_eq!(truncate_title("abcd", 4), "abcd");
    assert_eq!(truncate_title("abcde", 4), "a...");
    assert_eq!(truncate_title("", 5), "");
}

#[test]
fn formats_larger_playtimes() {
    assert_eq!(format_hours(59), "0h");
    assert_eq!(format_hours(60), "1h");
    assert_eq!(format_hours(61), "1h");
    assert_eq!(format_hours(6000), "100h");
}

#[test]
fn renders_decimal_strings() {
    assert_eq!(decimal_string(0), "0");
    assert_eq!(decimal_string(7), "7");
    assert_eq!(decimal_string(90), "90");
    assert_eq!(decimal_string(1030300), "1030300");
    assert_eq!(decimal_string(u64::MAX), "18446744073709551615");
}

#[test]
fn parses_unsigned_decimals() {
    assert_eq!(parse_u64("0"), Some(0));
    assert_eq!(parse_u64("321"), Some(321));
    assert_eq!(parse_u64("+5"), Some(5));
    assert_eq!(parse_u64(""), None);
    assert_eq!(parse_u64("+"), None);
    assert_eq!(parse_u64("12a"), None);
    assert_eq!(parse_u64(" 12"), None);
    assert_eq!(parse_u64("-3"), None);
    assert_eq!(parse_u64("18446744073709551615"), Some(u64::MAX));
    assert_eq!(parse_u64("18446744073709551616"), None);
    assert_eq!(parse_u64("99999999999999999999999"), None);
}

#[test]
fn pads_columns_with_spaces() {
    assert_eq!(pad_right("ab", 5), "ab   ");
    assert_eq!(pad_right("abcdef", 4), "abcdef");
    assert_eq!(pad_left("7h", 4), "  7h");
    assert_eq!(pad_left("123h", 3), "123h");
}

#[test]
fn finds_selected_row_index() {
    let rows = vec!["alpha".to_string(), "beta".to_string(), "beta".to_string()];
    assert_eq!(find_selected_index(&rows, "beta"), Some(1));
    assert_eq!(find_selected_index(&rows, "alpha"), Some(0));
    assert_eq!(find_selected_index(&rows, "gamma"), None);
}
