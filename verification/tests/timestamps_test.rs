use code_diary::timestamps::TimeStamp;

fn ts(year: u16, month: u8, day: u8, hour: u8, minute: u8, second: u8) -> TimeStamp {
    TimeStamp { year, month, day, hour, minute, second }
}

#[test]
fn formats_without_zero_padding() {
    let t = ts(2023, 3, 14, 3, 0, 10);
    assert_eq!(t.to_text(), "2023-3-14 3:0:10");
}

#[test]
fn formats_two_digit_components_in_full() {
    let t = ts(1999, 12, 31, 23, 59, 58);
    assert_eq!(t.to_text(), "1999-12-31 23:59:58");
}

#[test]
fn parse_format_round_trip() {
    let t = ts(2023, 3, 14, 3, 0, 10);
    assert_eq!(TimeStamp::from_string(&t.to_text()), Some(t));
    let u = ts(100, 1, 1, 0, 0, 0);
    assert_eq!(TimeStamp::from_string(&u.to_text()), Some(u));
    let v = ts(9999, 12, 31, 23, 59, 59);
    assert_eq!(TimeStamp::from_string(&v.to_text()), Some(v));
}

#[test]
fn parses_single_digit_components() {
    assert_eq!(TimeStamp::from_string("2023-3-14 3:0:10"), Some(ts(2023, 3, 14, 3, 0, 10)));
}

#[test]
fn parses_padded_components() {
    assert_eq!(TimeStamp::from_string("2023-03-14 03:00:00"), Some(ts(2023, 3, 14, 3, 0, 0)));
}

#[test]
fn parses_three_digit_year() {
    assert_eq!(TimeStamp::from_string("999-1-2 3:4:5"), Some(ts(999, 1, 2, 3, 4, 5)));
}

#[test]
fn accepts_pattern_without_calendar_validation() {
    assert_eq!(
        TimeStamp::from_string("9999-99-99 99:99:99"),
        Some(ts(9999, 99, 99, 99, 99, 99))
    );
}

#[test]
fn rejects_malformed_text() {
    assert_eq!(TimeStamp::from_string(""), None);
    assert_eq!(TimeStamp::from_string("hello"), None);
    assert_eq!(TimeStamp::from_string("2023-03-14"), None);
    assert_eq!(TimeStamp::from_string("23-1-1 1:1:1"), None);
    assert_eq!(TimeStamp::from_string("12345-1-1 1:1:1"), None);
    assert_eq!(TimeStamp::from_string("2023-1-1 1:1:123"), None);
    assert_eq!(TimeStamp::from_string("2023-1-1 1:1:1 "), None);
    assert_eq!(TimeStamp::from_string(" 2023-1-1 1:1:1"), None);
    assert_eq!(TimeStamp::from_string("2023-1-1T1:1:1"), None);
    assert_eq!(TimeStamp::from_string("2023-1-1 1:1:"), None);
}

#[test]
fn captured_time_is_in_range() {
    let now = TimeStamp::new();
    assert!((1..=12).contains(&now.month));
    assert!((1..=31).contains(&now.day));
    assert!(now.hour <= 23);
    assert!(now.minute <= 59);
    assert!(now.second <= 59);
}

#[test]
fn captured_time_round_trips() {
    let now = TimeStamp::new();
    assert_eq!(TimeStamp::from_string(&now.to_text()), Some(now));
}
