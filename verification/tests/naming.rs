use siftfs::naming::{ConfigError, NamingConfig};
use siftfs::naming::{count_placeholders, parse_fill_order, parse_num, render_name};

#[test]
fn round_trip_naming() {
    let cfg = NamingConfig::new(
        r"^([A-Za-z]+)-([A-Za-z]+)-([0-9]+)\.([a-z0-9]+)$",
        "{} - {} ({}).{}",
        "1,2,3,4",
    )
    .unwrap();
    let m = cfg.classify("Alice-Bob-42.mp3").unwrap();
    assert_eq!(m.label, "Alice");
    assert_eq!(m.display, "Alice - Bob (42).mp3");
}

#[test]
fn classify_no_match_is_skipped() {
    let cfg = NamingConfig::new(
        r"^([A-Za-z]+)-([A-Za-z]+)-([0-9]+)\.([a-z0-9]+)$",
        "{} - {} ({}).{}",
        "1,2,3,4",
    )
    .unwrap();
    assert!(cfg.classify("README.txt").is_none());
    assert!(cfg.classify("Alice-Bob-notanumber.mp3").is_none());
}

#[test]
fn bad_pattern_is_fatal() {
    let r = NamingConfig::new("(", "{}", "1");
    assert_eq!(r.err(), Some(ConfigError::BadPattern));
}

#[test]
fn pattern_without_capture_group_is_fatal() {
    let r = NamingConfig::new("abc", "{}", "1");
    assert_eq!(r.err(), Some(ConfigError::NoCaptureGroup));
}

#[test]
fn malformed_fill_order_is_fatal() {
    let r = NamingConfig::new("(a)(b)", "{},{}", "1,x");
    assert_eq!(r.err(), Some(ConfigError::BadFillOrder));
    let r = NamingConfig::new("(a)(b)", "{},{}", "");
    assert_eq!(r.err(), Some(ConfigError::BadFillOrder));
}

#[test]
fn out_of_range_fill_index_is_fatal() {
    let r = NamingConfig::new("(a)(b)", "{},{}", "1,3");
    assert_eq!(r.err(), Some(ConfigError::BadFillOrder));
    let r = NamingConfig::new("(a)(b)", "{},{}", "0,1");
    assert_eq!(r.err(), Some(ConfigError::BadFillOrder));
}

#[test]
fn placeholder_count_mismatch_is_fatal() {
    let r = NamingConfig::new("(a)(b)", "{}", "1,2");
    assert_eq!(r.err(), Some(ConfigError::PlaceholderMismatch));
    let r = NamingConfig::new("(a)(b)", "{} {} {}", "1,2");
    assert_eq!(r.err(), Some(ConfigError::PlaceholderMismatch));
}

#[test]
fn count_placeholders_scans_left_to_right() {
    assert_eq!(count_placeholders("{} - {} ({}).{}"), 4);
    assert_eq!(count_placeholders(""), 0);
    assert_eq!(count_placeholders("no placeholders"), 0);
    assert_eq!(count_placeholders("{{}"), 1);
    assert_eq!(count_placeholders("{}{}"), 2);
}

#[test]
fn render_substitutes_in_fill_order() {
    let groups = vec![
        "whole".to_string(),
        "A".to_string(),
        "B".to_string(),
        "C".to_string(),
    ];
    let fill = vec![3usize, 1, 2];
    assert_eq!(render_name("{}-{}-{}", &fill, &groups), "C-A-B");
    assert_eq!(render_name("x{}y", &vec![2usize], &groups), "xBy");
    assert_eq!(render_name("plain", &vec![], &groups), "plain");
}

#[test]
fn parse_num_accepts_digits_only() {
    assert_eq!(parse_num("42"), Some(42));
    assert_eq!(parse_num("0"), Some(0));
    assert_eq!(parse_num(""), None);
    assert_eq!(parse_num("4a"), None);
    assert_eq!(parse_num("-1"), None);
    assert_eq!(parse_num("99999999999999999999999999999"), None);
}

#[test]
fn parse_fill_order_splits_on_commas() {
    assert_eq!(parse_fill_order("1,2,3,4"), Some(vec![1, 2, 3, 4]));
    assert_eq!(parse_fill_order("7"), Some(vec![7]));
    assert_eq!(parse_fill_order("1,,2"), None);
    assert_eq!(parse_fill_order("1,2,"), None);
    assert_eq!(parse_fill_order(""), None);
}

#[test]
fn render_scans_the_template_not_the_output() {
    // A captured group that itself holds a placeholder is not substituted
    // again: rendering walks the template left to right, once.
    let groups = vec!["w".to_string(), "{}".to_string(), "Z".to_string()];
    let fill = vec![1usize, 2];
    assert_eq!(render_name("{}{}", &fill, &groups), "{}Z");
}
