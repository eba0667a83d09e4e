use thyme::activity::{Activity, ACTIVITY_NAME_BREAK, ACTIVITY_NAME_LEAVE, ACTIVITY_NAME_NON_SPECIFIC_WORK};
use thyme::date::Date;
use thyme::dayentry::{mandatory_break_time_for_working_time, DayEntry};
use thyme::report::write_durations_summary;
use thyme::stamp::{DayEntryError, StampEvent};
use thyme::time::{TimeDuration, TimeStamp};

fn ts(hours: u32, minutes: u32) -> TimeStamp {
    TimeStamp { hours, minutes }
}

fn work(name: &str, start: TimeStamp, end: Option<TimeStamp>) -> Activity {
    Activity { is_work: true, name: name.to_owned(), time_start: start, time_end: end }
}

fn away(name: &str, start: TimeStamp, end: Option<TimeStamp>) -> Activity {
    Activity { is_work: false, name: name.to_owned(), time_start: start, time_end: end }
}

fn summary(acts: &[Activity]) -> Vec<(bool, String, TimeStamp, Option<TimeStamp>)> {
    acts.iter().map(|a| (a.is_work, a.name.clone(), a.time_start, a.time_end)).collect()
}

fn day() -> Date {
    Date::new(2024, 1, 5).unwrap()
}

fn entry(activities: Vec<Activity>) -> DayEntry {
    DayEntry { date: day(), activities, last_write_time: 0 }
}

fn aggregation_day() -> DayEntry {
    entry(vec![
        work(ACTIVITY_NAME_NON_SPECIFIC_WORK, ts(9, 0), Some(ts(11, 0))),
        work("ProjectX", ts(11, 0), Some(ts(12, 0))),
        away(ACTIVITY_NAME_BREAK, ts(12, 0), Some(ts(12, 30))),
        work(ACTIVITY_NAME_NON_SPECIFIC_WORK, ts(12, 30), Some(ts(17, 0))),
    ])
}

#[test]
fn cleanup_merges_adjacent_same_activity() {
    let mut acts = vec![work("A", ts(9, 0), Some(ts(10, 0))), work("A", ts(10, 0), Some(ts(10, 30)))];
    DayEntry::cleanup_activities(&mut acts);
    assert_eq!(summary(&acts), summary(&[work("A", ts(9, 0), Some(ts(10, 30)))]));
}

#[test]
fn cleanup_drops_closed_zero_duration() {
    let mut acts = vec![work("A", ts(9, 0), Some(ts(9, 0))), work("B", ts(9, 0), Some(ts(10, 0)))];
    DayEntry::cleanup_activities(&mut acts);
    assert_eq!(summary(&acts), summary(&[work("B", ts(9, 0), Some(ts(10, 0)))]));
}

#[test]
fn cleanup_keeps_open_zero_duration() {
    let mut acts = vec![work("A", ts(9, 0), Some(ts(10, 0))), work("B", ts(10, 0), None)];
    DayEntry::cleanup_activities(&mut acts);
    assert_eq!(acts.len(), 2);
    assert_eq!(acts[1].time_end, None);
}

#[test]
fn cleanup_merges_across_dropped_span() {
    let mut acts = vec![
        work("A", ts(9, 0), Some(ts(10, 0))),
        work("B", ts(10, 0), Some(ts(10, 0))),
        work("A", ts(10, 0), None),
    ];
    DayEntry::cleanup_activities(&mut acts);
    assert_eq!(summary(&acts), summary(&[work("A", ts(9, 0), None)]));
}

#[test]
fn cleanup_labels_breaks_and_leaves() {
    let mut acts = vec![
        work("A", ts(9, 0), Some(ts(10, 0))),
        away(ACTIVITY_NAME_LEAVE, ts(10, 0), Some(ts(10, 30))),
        work("A", ts(10, 30), Some(ts(11, 0))),
        away(ACTIVITY_NAME_BREAK, ts(11, 0), None),
    ];
    DayEntry::cleanup_activities(&mut acts);
    assert_eq!(acts[1].name, "Break");
    assert_eq!(acts[3].name, "Leave");
}

#[test]
fn cleanup_merges_neighbouring_breaks() {
    let mut acts = vec![
        work("A", ts(9, 0), Some(ts(10, 0))),
        away(ACTIVITY_NAME_BREAK, ts(10, 0), Some(ts(10, 30))),
        away(ACTIVITY_NAME_LEAVE, ts(10, 30), Some(ts(11, 0))),
    ];
    DayEntry::cleanup_activities(&mut acts);
    assert_eq!(
        summary(&acts),
        summary(&[work("A", ts(9, 0), Some(ts(10, 0))), away("Break", ts(10, 0), Some(ts(11, 0)))])
    );
}

#[test]
fn cleanup_twice_equals_once() {
    let mut acts = vec![
        work("A", ts(9, 0), Some(ts(9, 0))),
        work("B", ts(9, 0), Some(ts(10, 0))),
        away("Leave", ts(10, 0), Some(ts(10, 15))),
        away("Break", ts(10, 15), Some(ts(10, 30))),
        work("B", ts(10, 30), Some(ts(11, 0))),
        work("B", ts(11, 0), None),
    ];
    DayEntry::cleanup_activities(&mut acts);
    let once = summary(&acts);
    DayEntry::cleanup_activities(&mut acts);
    assert_eq!(summary(&acts), once);
}

#[test]
fn duration_aggregation() {
    let d = aggregation_day();
    let now = ts(18, 0);
    assert_eq!(d.get_work_duration_total(now).minutes, 450);
    assert_eq!(d.get_work_duration_specific(now).minutes, 60);
    assert_eq!(d.get_work_duration_non_specific(now).minutes, 390);
    assert_eq!(d.get_break_duration(now).minutes, 30);
    assert_eq!(d.get_non_work_duration(now).minutes, 30);
    assert_eq!(d.get_leave_duration(now), None);
}

#[test]
fn running_activity_measured_to_now() {
    let d = entry(vec![work("A", ts(9, 0), Some(ts(10, 0))), away("Leave", ts(10, 0), None)]);
    assert_eq!(d.get_leave_duration(ts(10, 45)), Some(TimeDuration::from_minutes(45)));
    assert_eq!(d.get_break_duration(ts(10, 45)).minutes, 0);
    assert_eq!(d.get_non_work_duration(ts(10, 45)).minutes, 45);
    assert!(!d.is_currently_working());
    assert_eq!(d.first_checkin_time(), Some(ts(9, 0)));
}

#[test]
fn empty_day_queries() {
    let d = DayEntry::empty(day());
    assert!(d.get_current_activity().is_none());
    assert!(!d.is_currently_working());
    assert_eq!(d.first_checkin_time(), None);
    assert_eq!(d.get_leave_duration(ts(9, 0)), None);
    assert_eq!(d.get_work_duration_total(ts(9, 0)).minutes, 0);
    assert!(d.get_activity_durations(ts(9, 0)).is_empty());
}

#[test]
fn activity_durations_longest_first() {
    let d = entry(vec![
        work("A", ts(9, 0), Some(ts(10, 0))),
        work("B", ts(10, 0), Some(ts(12, 0))),
        work("C", ts(12, 0), Some(ts(13, 0))),
        away("Leave", ts(13, 0), None),
    ]);
    let r: Vec<(String, i64)> =
        d.get_activity_durations(ts(14, 0)).into_iter().map(|(n, t)| (n, t.minutes)).collect();
    assert_eq!(r, vec![("B".to_owned(), 120), ("A".to_owned(), 60), ("C".to_owned(), 60)]);
}

#[test]
fn activity_durations_sum_repeated_names() {
    let d = entry(vec![
        work("A", ts(9, 0), Some(ts(9, 30))),
        work("B", ts(9, 30), Some(ts(10, 30))),
        work("A", ts(10, 30), None),
    ]);
    let r: Vec<(String, i64)> =
        d.get_activity_durations(ts(11, 30)).into_iter().map(|(n, t)| (n, t.minutes)).collect();
    assert_eq!(r, vec![("A".to_owned(), 90), ("B".to_owned(), 60)]);
}

#[test]
fn start_activity_closes_current_and_opens_new() {
    let mut d = DayEntry::checked_in(day(), ts(9, 0));
    d.start_activitiy("A", true, ts(10, 0));
    assert_eq!(
        summary(&d.activities),
        summary(&[
            work(ACTIVITY_NAME_NON_SPECIFIC_WORK, ts(9, 0), Some(ts(10, 0))),
            work("A", ts(10, 0), None)
        ])
    );
    d.start_activitiy("A", true, ts(10, 30));
    assert_eq!(d.activities.len(), 2);
    assert_eq!(d.activities[1].time_end, None);
    d.start_activitiy(ACTIVITY_NAME_LEAVE, false, ts(12, 0));
    d.start_activitiy(ACTIVITY_NAME_NON_SPECIFIC_WORK, true, ts(12, 30));
    assert_eq!(d.activities[2].name, "Break");
    assert_eq!(d.activities[2].time_end, Some(ts(12, 30)));
    assert!(d.is_currently_working());
}

#[test]
fn start_activity_at_same_minute_replaces_current() {
    let mut d = DayEntry::checked_in(day(), ts(9, 0));
    d.start_activitiy("A", true, ts(9, 0));
    assert_eq!(summary(&d.activities), summary(&[work("A", ts(9, 0), None)]));
}

#[test]
fn stamp_event_lines() {
    let e = StampEvent::from_string("09:00 - Begin [Project X]").unwrap();
    assert!(matches!(&e, StampEvent::Begin(t, n) if *t == ts(9, 0) && n == "Project X"));
    assert_eq!(e.to_string(), "09:00 - Begin [Project X]");
    let l = StampEvent::from_string("17:45 - Leave").unwrap();
    assert!(matches!(l, StampEvent::Leave(t) if t == ts(17, 45)));
    assert_eq!(l.to_string(), "17:45 - Leave");
    assert_eq!(l.timestamp(), ts(17, 45));
}

#[test]
fn stamp_event_rejects_malformed_lines() {
    for line in ["09:00 - Begin []", "09:00 - Begin X", "9:00 - Leave", "09:00 - leave", "25:00 - Leave", ""] {
        assert!(matches!(StampEvent::from_string(line), Err(DayEntryError::MalformedStampEvent)), "{}", line);
    }
}

#[test]
fn events_from_activities_and_back() {
    let acts = vec![
        work("A", ts(9, 0), Some(ts(10, 0))),
        away("Break", ts(10, 0), Some(ts(10, 30))),
        work("B", ts(10, 30), Some(ts(11, 0))),
        away("Leave", ts(11, 0), None),
    ];
    let events = DayEntry::create_stamp_events_from_activities(&acts);
    let lines: Vec<String> = events.iter().map(|e| e.to_string()).collect();
    assert_eq!(lines, vec!["09:00 - Begin [A]", "10:00 - Leave", "10:30 - Begin [B]", "11:00 - Leave"]);
    let back = DayEntry::create_activities_from_stamp_events(&events).unwrap();
    assert_eq!(summary(&back), summary(&acts));
}

#[test]
fn events_duplicate_activity_and_leave() {
    let dup = vec![StampEvent::Begin(ts(9, 0), "A".to_owned()), StampEvent::Begin(ts(10, 0), "A".to_owned())];
    assert!(matches!(DayEntry::create_activities_from_stamp_events(&dup), Err(DayEntryError::DuplicateActivity)));
    let leave = vec![StampEvent::Leave(ts(9, 0)), StampEvent::Leave(ts(10, 0))];
    assert!(matches!(DayEntry::create_activities_from_stamp_events(&leave), Err(DayEntryError::DuplicateLeave)));
    assert!(DayEntry::create_activities_from_stamp_events(&[]).unwrap().is_empty());
}

const SHEET: &str = "Timesheet for 2024-01-05\n------------------------\n\n09:00 - Begin [Work (Non-specific)]\n11:00 - Begin [ProjectX]\n12:00 - Leave\n12:30 - Begin [Work (Non-specific)]\n17:00 - Leave\n";

#[test]
fn timesheet_is_written_and_read_back() {
    let mut d = aggregation_day();
    d.activities.push(away(ACTIVITY_NAME_LEAVE, ts(17, 0), None));
    let text = d.generate_timesheet();
    assert_eq!(text, SHEET);
    let back = DayEntry::from_timesheet(&text).unwrap();
    assert_eq!(back.date, day());
    assert_eq!(summary(&back.activities), summary(&d.activities));
    assert_eq!(back.last_write_time, 0);
}

#[test]
fn timesheet_with_crlf_lines() {
    let text = SHEET.replace('\n', "\r\n");
    let back = DayEntry::from_timesheet(&text).unwrap();
    assert_eq!(back.activities.len(), 5);
}

#[test]
fn timesheet_out_of_order_is_rejected() {
    let equal = "Timesheet for 2024-01-05\n------------------------\n\n09:00 - Begin [A]\n09:00 - Leave\n";
    assert!(matches!(DayEntry::from_timesheet(equal), Err(DayEntryError::OutOfOrderStampEvent)));
    let earlier = "Timesheet for 2024-01-05\n\n10:00 - Begin [A]\n09:00 - Leave\n";
    assert!(matches!(DayEntry::from_timesheet(earlier), Err(DayEntryError::OutOfOrderStampEvent)));
}

#[test]
fn timesheet_errors() {
    assert!(matches!(DayEntry::from_timesheet(""), Err(DayEntryError::EmptyTimesheet)));
    assert!(matches!(DayEntry::from_timesheet("\n---\n\n"), Err(DayEntryError::EmptyTimesheet)));
    assert!(matches!(DayEntry::from_timesheet("Timesheet for 2024-02-30\n"), Err(DayEntryError::InvalidDate)));
    assert!(matches!(DayEntry::from_timesheet("Hello\n09:00 - Leave\n"), Err(DayEntryError::InvalidDate)));
    assert!(matches!(
        DayEntry::from_timesheet("Timesheet for 2024-01-05\n09:00 - Begin A\n"),
        Err(DayEntryError::MalformedStampEvent)
    ));
    assert!(matches!(
        DayEntry::from_timesheet("Timesheet for 2024-01-05\n09:00 - Begin [A]\n10:00 - Begin [A]\n"),
        Err(DayEntryError::DuplicateActivity)
    ));
    assert!(matches!(
        DayEntry::from_timesheet("Timesheet for 2024-01-05\n09:00 - Leave\n10:00 - Leave\n"),
        Err(DayEntryError::DuplicateLeave)
    ));
    let only_date = DayEntry::from_timesheet("Timesheet for 2024-01-05\n").unwrap();
    assert!(only_date.activities.is_empty());
}

#[test]
fn durations_summary_text() {
    let d = aggregation_day();
    let s = write_durations_summary(&d, ts(18, 0));
    assert_eq!(
        s,
        "Total work duration:            07:30 (100%)\n  - Activities (from list):     01:00 ( 13%)\n  - Activities (non-specific):  06:30 ( 87%)\nTotal break duration:           00:30\n\n"
    );
    let mut on_leave = aggregation_day();
    on_leave.activities.push(away(ACTIVITY_NAME_LEAVE, ts(17, 0), None));
    let s = write_durations_summary(&on_leave, ts(17, 20));
    assert!(s.ends_with("Time since last leave:          00:20\n"));
    let empty = write_durations_summary(&DayEntry::empty(day()), ts(9, 0));
    assert!(empty.contains("00:00 (  0%)\n  - Activities (non-specific):  00:00 (100%)"));
}

#[test]
fn report_text() {
    let d = entry(vec![work("A", ts(9, 0), Some(ts(10, 30))), away("Leave", ts(10, 30), None)]);
    let r = d.generate_report(ts(11, 0));
    assert!(r.starts_with("Report for Friday  5. Jan (05.01.2024)\n\n\nActivity Durations:\n=====================\n\n01:30 - A\n\n-------------\n\n"));
    assert!(r.ends_with("\nDetailed Activity List:\n=========================\n\n09:00 - 10:30 [01:30] - [A]\n10:30 - <now> [00:30] - [Leave]\n\n"));
}

#[test]
fn file_paths() {
    assert_eq!(DayEntry::timesheet_filepath_for_date(day()), "database/2024_01_05__Jan_Friday__timesheet.txt");
    assert_eq!(DayEntry::report_filepath_for_date(day()), "database/2024_01_05__Jan_Friday__report.txt");
    assert_eq!(DayEntry::timesheet_filepath_default(), "today__timesheet.txt");
    assert_eq!(DayEntry::report_filepath_default(), "today__report.txt");
}

#[test]
fn dates() {
    assert_eq!(Date::new(2024, 2, 29), Some(Date { year: 2024, month: 2, day: 29 }));
    assert_eq!(Date::new(2023, 2, 29), None);
    assert_eq!(Date::new(2024, 13, 1), None);
    assert_eq!(Date::new(2024, 4, 31), None);
    assert_eq!(Date::parse("Timesheet for 2023-12-31", thyme::date::DATE_FORMAT_TIMESHEET), Date::new(2023, 12, 31));
    assert_eq!(day().format(thyme::date::DATE_FORMAT_TIMESHEET), "Timesheet for 2024-01-05");
}

#[test]
fn activity_text_and_duration() {
    let a = work("A", ts(9, 0), Some(ts(10, 30)));
    assert_eq!(a.to_string(ts(12, 0)), "09:00 - 10:30 [01:30] - [A]");
    assert_eq!(a.duration(ts(12, 0)).minutes, 90);
    let open = away("Leave", ts(9, 0), None);
    assert_eq!(open.to_string(ts(9, 5)), "09:00 - <now> [00:05] - [Leave]");
    assert_eq!(open.copied().name, "Leave");
}

#[test]
fn fresh_day_for_today() {
    let today = day();
    let d = DayEntry::for_today(None, today, ts(8, 15));
    assert_eq!(summary(&d.activities), summary(&[work(ACTIVITY_NAME_NON_SPECIFIC_WORK, ts(8, 15), None)]));
    let old = DayEntry::from_timesheet("Timesheet for 2024-01-04\n09:00 - Begin [A]\n").unwrap();
    let d = DayEntry::for_today(Some(old), today, ts(8, 15));
    assert_eq!(d.activities.len(), 1);
    assert_eq!(d.activities[0].time_start, ts(8, 15));
    let stored = DayEntry::from_timesheet("Timesheet for 2024-01-05\n07:00 - Begin [A]\n").unwrap();
    let d = DayEntry::for_today(Some(stored), today, ts(8, 15));
    assert_eq!(d.activities[0].name, "A");
}

#[test]
fn reload_when_storage_is_newer() {
    let mut d = DayEntry::empty(day());
    d.last_write_time = 1000;
    assert!(d.is_outdated(1001));
    assert!(!d.is_outdated(1000));
}

#[test]
fn mandatory_breaks_and_time_left() {
    assert_eq!(mandatory_break_time_for_working_time(TimeDuration::from_minutes(9 * 60 + 1)).minutes, 45);
    assert_eq!(mandatory_break_time_for_working_time(TimeDuration::from_minutes(9 * 60)).minutes, 30);
    assert_eq!(mandatory_break_time_for_working_time(TimeDuration::from_minutes(6 * 60)).minutes, 0);
    let d = aggregation_day();
    let left = d.get_time_left_for_the_day(TimeDuration::from_minutes(480), TimeDuration::from_minutes(45), ts(18, 0));
    assert_eq!(left.minutes, 480 - 450 + 15);
}

#[test]
fn activity_durations_count_only_work_spans() {
    let d = entry(vec![
        work("Break", ts(9, 0), Some(ts(10, 0))),
        away(ACTIVITY_NAME_BREAK, ts(10, 0), Some(ts(11, 0))),
        work("A", ts(11, 0), None),
    ]);
    let r: Vec<(String, i64)> =
        d.get_activity_durations(ts(11, 30)).into_iter().map(|(n, t)| (n, t.minutes)).collect();
    assert_eq!(r, vec![("Break".to_owned(), 60), ("A".to_owned(), 30)]);
}

#[test]
fn time_left_with_large_targets() {
    let d = aggregation_day();
    let big = 1_000_000_000_000i64;
    let left = d.get_time_left_for_the_day(TimeDuration::from_minutes(big), TimeDuration::from_minutes(-5), ts(18, 0));
    assert_eq!(left.minutes, big - 450);
    assert!(thyme::date::calendar_date_exists(2000, 2, 29));
    assert!(!thyme::date::calendar_date_exists(1900, 2, 29));
}
