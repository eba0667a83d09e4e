//! A labelled, contiguous span of time within a day.

use vstd::prelude::*;
use crate::time::{TimeDuration, TimeStamp};

verus! {

/// The fallback work activity, used when no named activity is running.
pub const ACTIVITY_NAME_NON_SPECIFIC_WORK: &'static str = "Work (Non-specific)";

/// The name of a non-work span that is still running.
pub const ACTIVITY_NAME_LEAVE: &'static str = "Leave";

/// The name of a non-work span that has ended.
pub const ACTIVITY_NAME_BREAK: &'static str = "Break";

pub open spec fn non_specific_work_name() -> Seq<char> {
    "Work (Non-specific)"@
}

pub open spec fn leave_name() -> Seq<char> {
    "Leave"@
}

pub open spec fn break_name() -> Seq<char> {
    "Break"@
}

/// One labelled span: work of some kind, or time away.
#[derive(Debug)]
pub struct Activity {
    pub is_work: bool,
    pub name: String,
    pub time_start: TimeStamp,
    /// `None` while the activity is still running.
    pub time_end: Option<TimeStamp>,
}

/// The mathematical value of an [`Activity`].
pub struct ActivityView {
    pub is_work: bool,
    pub name: Seq<char>,
    pub time_start: TimeStamp,
    pub time_end: Option<TimeStamp>,
}

impl View for Activity {
    type V = ActivityView;

    open spec fn view(&self) -> ActivityView {
        ActivityView {
            is_work: self.is_work,
            name: self.name@,
            time_start: self.time_start,
            time_end: self.time_end,
        }
    }
}

/// The values of a list of activities.
pub open spec fn views(s: Seq<Activity>) -> Seq<ActivityView> {
    s.map_values(|a: Activity| a@)
}

impl ActivityView {
    /// Where the span stops, counting a running one up to `now`.
    pub open spec fn end_at(self, now: TimeStamp) -> TimeStamp {
        match self.time_end {
            Some(end) => end,
            None => now,
        }
    }

    /// Length of the span in minutes, a running one measured up to `now`.
    pub open spec fn duration_at(self, now: TimeStamp) -> int {
        self.end_at(now).minute_of_day() - self.time_start.minute_of_day()
    }

    /// `HH:MM - HH:MM [duration] - [name]`, with `<now>` as the end of a
    /// running span.
    pub open spec fn text(self, now: TimeStamp) -> Seq<char> {
        let end = match self.time_end {
            Some(end) => end.text(),
            None => "<now>"@,
        };
        self.time_start.text() + " - "@ + end + " ["@ + TimeDuration {
            minutes: self.duration_at(now) as i64,
        }.text() + "] - ["@ + self.name + "]"@
    }
}

impl Activity {
    /// A copy with the same value.
    pub fn copied(&self) -> (r: Activity)
        ensures
            r@ == self@,
    {
        Activity {
            is_work: self.is_work,
            name: self.name.clone(),
            time_start: self.time_start,
            time_end: self.time_end,
        }
    }

    /// Length in minutes; a running activity is measured up to `now`.
    pub fn duration(&self, now: TimeStamp) -> (r: TimeDuration)
        ensures
            r.minutes == self@.duration_at(now),
    {
        match self.time_end {
            Some(end) => end.minutes_since(self.time_start),
            None => now.minutes_since(self.time_start),
        }
    }

    /// One line describing the activity, for reports.
    pub fn to_string(&self, now: TimeStamp) -> (r: String)
        ensures
            r@ == self@.text(now),
    {
        let mut r = self.time_start.to_string();
        r.append(" - ");
        match self.time_end {
            Some(end) => {
                let e = end.to_string();
                r.append(e.as_str());
            },
            None => {
                r.append("<now>");
            },
        }
        r.append(" [");
        let d = self.duration(now).to_string();
        r.append(d.as_str());
        r.append("] - [");
        r.append(self.name.as_str());
        r.append("]");
        r
    }
}

} // verus!
