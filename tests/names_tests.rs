use thyme::dayentry::DayEntry;
use thyme::names::{parse_activity_names, ActivityNamesError};
use thyme::session::adjust_preferred_working_time;
use thyme::time::{TimeDuration, TimeStamp};

#[test]
fn activity_names_from_lines() {
    assert_eq!(parse_activity_names("A\n\nB\r\nC"), Ok(vec!["A".to_owned(), "B".to_owned(), "C".to_owned()]));
    assert_eq!(parse_activity_names(""), Ok(vec![]));
}

#[test]
fn activity_names_limits() {
    let long = "x".repeat(71);
    assert_eq!(parse_activity_names(&long), Err(ActivityNamesError::NameTooLong));
    assert_eq!(parse_activity_names(&"x".repeat(70)).map(|v| v.len()), Ok(1));
    let ten = (0..10).map(|i| format!("n{}", i)).collect::<Vec<_>>().join("\n");
    assert_eq!(parse_activity_names(&ten), Err(ActivityNamesError::TooManyNames));
    let nine = (0..9).map(|i| format!("n{}", i)).collect::<Vec<_>>().join("\n");
    assert_eq!(parse_activity_names(&nine).map(|v| v.len()), Ok(9));
}

#[test]
fn selection_keys() {
    let names = vec!["A".to_owned(), "B".to_owned()];
    let mut d = DayEntry::checked_in(thyme::date::Date::new(2024, 1, 5).unwrap(), TimeStamp { hours: 9, minutes: 0 });
    assert_eq!(d.activity_for_selection(0, &names), Some(("Leave".to_owned(), false)));
    assert_eq!(d.activity_for_selection(2, &names), Some(("B".to_owned(), true)));
    assert_eq!(d.activity_for_selection(3, &names), None);
    d.start_activitiy("B", true, TimeStamp { hours: 10, minutes: 0 });
    assert_eq!(d.activity_for_selection(2, &names), Some(("Work (Non-specific)".to_owned(), true)));
    d.start_activitiy("Leave", false, TimeStamp { hours: 11, minutes: 0 });
    assert_eq!(d.activity_for_selection(0, &names), Some(("Work (Non-specific)".to_owned(), true)));
}

#[test]
fn preferred_working_time_keys() {
    assert_eq!(adjust_preferred_working_time(TimeDuration::from_minutes(480), true).minutes, 481);
    assert_eq!(adjust_preferred_working_time(TimeDuration::from_minutes(600), true).minutes, 600);
    assert_eq!(adjust_preferred_working_time(TimeDuration::from_minutes(480), false).minutes, 465);
    assert_eq!(adjust_preferred_working_time(TimeDuration::from_minutes(250), false).minutes, 240);
}
