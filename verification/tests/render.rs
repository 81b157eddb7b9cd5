use lc::app::is_positive;
use lc::text::stdin_line;
use lc::text::summary_line;
use lc::text::usize_to_string;

#[test]
fn renders_decimals() {
    assert_eq!(usize_to_string(0), "0");
    assert_eq!(usize_to_string(7), "7");
    assert_eq!(usize_to_string(10), "10");
    assert_eq!(usize_to_string(101), "101");
    assert_eq!(usize_to_string(1234567890), "1234567890");
}

#[test]
fn stdin_summary_pluralizes() {
    assert_eq!(stdin_line(3), "3 lines");
    assert_eq!(stdin_line(1), "1 line");
    assert_eq!(stdin_line(0), "0 lines");
}

#[test]
fn file_summary_pluralizes_each_noun() {
    assert_eq!(summary_line(7, 3), "7 lines in 3 files");
    assert_eq!(summary_line(1, 1), "1 line in 1 file");
    assert_eq!(summary_line(1, 2), "1 line in 2 files");
    assert_eq!(summary_line(2, 1), "2 lines in 1 file");
    assert_eq!(summary_line(0, 0), "0 lines in 0 files");
}

#[test]
fn accepts_positive_numbers() {
    assert!(is_positive("1").is_ok());
    assert!(is_positive("8").is_ok());
    assert!(is_positive("+5").is_ok());
    assert!(is_positive("18446744073709551615").is_ok());
}

#[test]
fn rejects_zero_and_non_numbers() {
    assert!(is_positive("0").is_err());
    assert!(is_positive("+0").is_err());
    assert!(is_positive("").is_err());
    assert!(is_positive("+").is_err());
    assert!(is_positive("abc").is_err());
    assert!(is_positive("1x").is_err());
    assert!(is_positive("-1").is_err());
    assert!(is_positive("18446744073709551616").is_err());
}

#[test]
fn reports_why_a_value_is_rejected() {
    let e = is_positive("0").unwrap_err();
    assert_eq!(e, "the value must be a positive number");
}
