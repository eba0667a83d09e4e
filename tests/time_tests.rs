use thyme::time::{TimeDuration, TimeError, TimeStamp};

fn ts(hours: u32, minutes: u32) -> TimeStamp {
    TimeStamp { hours, minutes }
}

#[test]
fn timestamp_new_rejects_out_of_range() {
    assert_eq!(TimeStamp::new(24, 0), Err(TimeError::InvalidTimeStamp));
    assert_eq!(TimeStamp::new(0, 60), Err(TimeError::InvalidTimeStamp));
    assert_eq!(TimeStamp::new(23, 59), Ok(ts(23, 59)));
    assert_eq!(TimeStamp::new(0, 0), Ok(ts(0, 0)));
}

#[test]
fn timestamp_text_round_trip() {
    assert_eq!(ts(9, 5).to_string(), "09:05");
    assert_eq!(ts(23, 59).to_string(), "23:59");
    assert_eq!(TimeStamp::from_string("09:05"), Ok(ts(9, 5)));
    assert_eq!(TimeStamp::from_string(&ts(17, 30).to_string()), Ok(ts(17, 30)));
}

#[test]
fn timestamp_from_string_rejects_other_shapes() {
    assert_eq!(TimeStamp::from_string("9:05"), Err(TimeError::MalformedTimestamp));
    assert_eq!(TimeStamp::from_string("09-05"), Err(TimeError::MalformedTimestamp));
    assert_eq!(TimeStamp::from_string("09:05 "), Err(TimeError::MalformedTimestamp));
    assert_eq!(TimeStamp::from_string("ab:cd"), Err(TimeError::MalformedTimestamp));
    assert_eq!(TimeStamp::from_string(""), Err(TimeError::MalformedTimestamp));
    assert_eq!(TimeStamp::from_string("25:00"), Err(TimeError::InvalidTimeStamp));
    assert_eq!(TimeStamp::from_string("12:60"), Err(TimeError::InvalidTimeStamp));
}

#[test]
fn timestamp_difference_is_not_clamped() {
    assert_eq!(ts(10, 30).minutes_since(ts(9, 0)).minutes, 90);
    assert_eq!(ts(0, 10).minutes_since(ts(23, 50)).minutes, -1420);
    assert!(ts(9, 0).is_before(&ts(9, 1)));
    assert!(!ts(9, 1).is_before(&ts(9, 1)));
}

#[test]
fn duration_arithmetic_and_text() {
    let a = TimeDuration::from_minutes(90);
    let b = TimeDuration::from_minutes(15);
    assert_eq!(a.add(b).minutes, 105);
    assert_eq!(b.subtract(a).minutes, -75);
    assert_eq!(TimeDuration::zero().minutes, 0);
    assert_eq!(a.to_string(), "01:30");
    assert_eq!(TimeDuration::zero().to_string(), "00:00");
    assert_eq!(b.subtract(a).to_string(), "-01:15");
    assert_eq!(TimeDuration::from_minutes(6000).to_string(), "100:00");
}

#[test]
fn duration_text_with_decimal_hours() {
    assert_eq!(TimeDuration::from_minutes(90).to_string_with_hours(), "01:30 (1.50h)");
    assert_eq!(TimeDuration::from_minutes(1).to_string_with_hours(), "00:01 (0.02h)");
    assert_eq!(TimeDuration::from_minutes(-20).to_string_with_hours(), "-00:20 (-0.33h)");
    assert_eq!(TimeDuration::from_minutes(i64::MIN).minutes, i64::MIN);
    assert!(TimeDuration::from_minutes(i64::MIN).to_string().starts_with('-'));
}

#[test]
fn timestamp_advanced_wraps_past_midnight() {
    assert_eq!(ts(9, 30).advanced_by(TimeDuration::from_minutes(45)), ts(10, 15));
    assert_eq!(ts(23, 30).advanced_by(TimeDuration::from_minutes(45)), ts(0, 15));
    assert_eq!(ts(8, 0).advanced_by(TimeDuration::from_minutes(0)), ts(8, 0));
    assert_eq!(ts(8, 0).advanced_by(TimeDuration::from_minutes(3 * 1440 + 1)), ts(8, 1));
}
