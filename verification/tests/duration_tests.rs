use chrono::Duration;
use toolbox::duration::{AsDuration, Intervals, parse_duration_seconds};

#[test]
fn test_valid_time_format() {
    assert_eq!("00:12:03".as_duration(), Some(Duration::seconds(723)));

    assert_eq!("03:12".as_duration(), Some(Duration::seconds(192)));
}

#[test]
fn test_invalid_time_format() {
    assert_eq!("invalid".as_duration(), None); // Invalid format
}

#[test]
fn test_empty_string() {
    assert_eq!("".as_duration(), None);
}

#[test]
fn test_single_digit_values() {
    assert_eq!("0:03".as_duration(), None);
    assert_eq!("00:03".as_duration(), Some(Duration::seconds(3)));
    assert_eq!("asvas00:03asvad".as_duration(), Some(Duration::seconds(3)));
    assert_eq!("00:00:03".as_duration(), Some(Duration::seconds(3)));
}

#[test]
fn long_form_is_preferred_over_an_earlier_short_form() {
    // "12:34" occurs first, but a full HH:MM:SS elsewhere wins.
    assert_eq!(parse_duration_seconds("12:34 then 01:02:03"), Some(3723));
    assert_eq!(parse_duration_seconds("99:99:99"), Some(99 * 3600 + 99 * 60 + 99));
}

#[test]
fn leftmost_short_form_is_taken() {
    assert_eq!(parse_duration_seconds("a 10:20 b 30:40"), Some(620));
}

#[test]
fn intervals_parse_and_classify() {
    let ivs = Intervals::try_from_text("0:60,60:180,180:360").unwrap();
    assert_eq!(ivs.classify(0), "other");
    assert_eq!(ivs.classify(1), "0-60");
    assert_eq!(ivs.classify(60), "0-60");
    assert_eq!(ivs.classify(61), "60-180");
    assert_eq!(ivs.classify(400), "other");
    let iv = ivs.in_which_interval(200).unwrap();
    assert_eq!(iv.to_string(), "180-360");
    assert!(iv.contains(360));
    assert!(!iv.contains(180));
}

#[test]
fn intervals_negative_bounds_and_extra_fields() {
    let ivs = Intervals::try_from_text("-10:-5:99,+3:7").unwrap();
    assert_eq!(ivs.classify(-6), "-10--5");
    assert_eq!(ivs.classify(5), "3-7");
}

#[test]
fn intervals_refuse_malformed_lists() {
    assert!(Intervals::try_from_text("0:60,60").is_none());
    assert!(Intervals::try_from_text("a:1").is_none());
    assert!(Intervals::try_from_text("").is_none());
    assert!(Intervals::try_from_text("1:99999999999999999999").is_none());
}

#[test]
fn intervals_add_keeps_order() {
    let mut ivs = Intervals::new();
    ivs.add(0, 10);
    ivs.add(5, 20);
    assert_eq!(ivs.classify(7), "0-10");
    assert_eq!(ivs.classify(15), "5-20");
}
