use election_snapshots::percent::{parse_percent, percent_of};

#[test]
fn bare_number_coerces() {
    assert_eq!(parse_percent("42.5"), Some(4250));
}

#[test]
fn quoted_number_coerces_to_same_value() {
    assert_eq!(parse_percent("\"42.5\""), Some(4250));
}

#[test]
fn padded_number_coerces_to_same_value() {
    assert_eq!(parse_percent(" 42.5 "), Some(4250));
}

#[test]
fn quoted_and_padded_number_coerces_to_same_value() {
    assert_eq!(parse_percent(" \"42.5\" "), Some(4250));
}

#[test]
fn integer_percent() {
    assert_eq!(parse_percent("42"), Some(4200));
    assert_eq!(parse_percent("0"), Some(0));
    assert_eq!(parse_percent("100.00"), Some(10000));
}

#[test]
fn fraction_only_and_trailing_dot() {
    assert_eq!(parse_percent(".5"), Some(50));
    assert_eq!(parse_percent("5."), Some(500));
}

#[test]
fn extra_fraction_digits_truncate() {
    assert_eq!(parse_percent("42.567"), Some(4256));
    assert_eq!(parse_percent("42.509"), Some(4250));
}

#[test]
fn malformed_fields_are_rejected() {
    assert_eq!(parse_percent(""), None);
    assert_eq!(parse_percent("   "), None);
    assert_eq!(parse_percent("."), None);
    assert_eq!(parse_percent("abc"), None);
    assert_eq!(parse_percent("4e2"), None);
    assert_eq!(parse_percent("1.2.3"), None);
    assert_eq!(parse_percent("-1"), None);
    assert_eq!(parse_percent("4 2"), None);
}

#[test]
fn out_of_range_value_is_rejected() {
    assert_eq!(parse_percent("99999999999"), None);
}

#[test]
fn share_of_total_in_hundredths() {
    assert_eq!(percent_of(600, 1000), 6000);
    assert_eq!(percent_of(400, 1000), 4000);
    assert_eq!(percent_of(1, 3), 3333);
    assert_eq!(percent_of(0, 7), 0);
    assert_eq!(percent_of(7, 7), 10000);
}

#[test]
fn hundredths_format_with_two_decimals() {
    let v = percent_of(600, 1000);
    assert_eq!(format!("{}.{:02}", v / 100, v % 100), "60.00");
}
