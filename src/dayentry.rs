//! The activities of one calendar day, and the durations derived from them.

use vstd::prelude::*;
use crate::activity::{Activity, ActivityView, views, non_specific_work_name, ACTIVITY_NAME_NON_SPECIFIC_WORK};
use crate::date::Date;
use crate::time::{TimeDuration, TimeStamp};
use crate::cleanup::{
    cleaned, lemma_cleaned_times, all_times_wf, chronological, is_normal, lemma_cleaned_normal,
    lemma_cleaned_chronological, only_last_open, lemma_cleaned_only_last_open,
};
use crate::stamp::closed_at;

verus! {

/// The most activities a day may hold, so that any sum of their durations
/// fits in an `i64` (`i64::MAX / 1440`).
pub const MAX_ACTIVITIES: u64 = 6405119470038038;

/// Largest magnitude of a working-time target or a mandatory break, so
/// that adding either to the summed durations of a well-formed day fits in
/// an `i64` (`(i64::MAX - 1439 * MAX_ACTIVITIES) / 2`, rounded down).
pub const MAX_TARGET_MINUTES: i64 = 3202559735019562;

/// The ordered activities of one day.
pub struct DayEntry {
    pub date: Date,
    pub activities: Vec<Activity>,
    /// When this entry was last written to storage, in milliseconds since
    /// the Unix epoch; 0 before the first write.
    pub last_write_time: u64,
}

/// Which activities a duration total counts.
#[derive(Debug, Clone, Copy, PartialEq, Eq, Structural)]
pub enum DurationFilter {
    /// All work.
    Work,
    /// Work on a named activity.
    SpecificWork,
    /// Non-specific work.
    NonSpecificWork,
    /// Non-work spans that have ended.
    ClosedNonWork,
    /// Non-work spans still running.
    OpenNonWork,
    /// All non-work spans.
    NonWork,
}

pub open spec fn selects(f: DurationFilter, a: ActivityView) -> bool {
    match f {
        DurationFilter::Work => a.is_work,
        DurationFilter::SpecificWork => a.is_work && a.name != non_specific_work_name(),
        DurationFilter::NonSpecificWork => a.is_work && a.name == non_specific_work_name(),
        DurationFilter::ClosedNonWork => !a.is_work && a.time_end is Some,
        DurationFilter::OpenNonWork => !a.is_work && a.time_end is None,
        DurationFilter::NonWork => !a.is_work,
    }
}

/// Sum of the durations of the selected activities, running ones measured
/// up to `now`.
pub open spec fn total_duration(s: Seq<ActivityView>, now: TimeStamp, f: DurationFilter) -> int
    decreases s.len(),
{
    if s.len() == 0 {
        0
    } else {
        total_duration(s.drop_last(), now, f) + if selects(f, s.last()) {
            s.last().duration_at(now)
        } else {
            0
        }
    }
}

/// The list after the current activity is closed at `now` and a new one,
/// running from `now`, is appended.
pub open spec fn started(
    s: Seq<ActivityView>,
    name: Seq<char>,
    is_work: bool,
    now: TimeStamp,
) -> Seq<ActivityView> {
    let opened = ActivityView { is_work, name, time_start: now, time_end: None };
    if s.len() > 0 {
        s.update(s.len() - 1, closed_at(s.last(), now)).push(opened)
    } else {
        s.push(opened)
    }
}

/// Closing the current activity at a time no earlier than its start and
/// starting a new one then keeps a list chronological.
proof fn lemma_started_chronological(
    s: Seq<ActivityView>,
    name: Seq<char>,
    is_work: bool,
    now: TimeStamp,
)
    requires
        chronological(s),
        s.len() > 0 ==> s.last().time_start.minute_of_day() <= now.minute_of_day(),
    ensures
        chronological(started(s, name, is_work, now)),
{
    let r = started(s, name, is_work, now);
    let n = s.len() as int;
    assert forall|i: int| 0 <= i < n implies #[trigger] r[i].time_start == s[i].time_start
        && (i < n - 1 ==> r[i] == s[i]) by {}
    assert forall|i: int, j: int|
        #![trigger r[i], r[j]]
        0 <= i < j < r.len() implies r[i].time_start.minute_of_day()
        <= r[j].time_start.minute_of_day() by {
        assert(r[i].time_start == s[i].time_start);
        if j < n {
            assert(r[j].time_start == s[j].time_start);
        } else if i < n - 1 {
            assert(s[i].time_start.minute_of_day() <= s[n - 1].time_start.minute_of_day());
        }
    }
    assert forall|i: int|
        0 <= i < r.len() && (#[trigger] r[i]).time_end is Some implies r[i].time_start.minute_of_day()
        <= r[i].time_end->0.minute_of_day() by {
        if i < n - 1 {
            assert(r[i] == s[i]);
        }
    }
}

/// Start and end (if any) are times within a day.
pub open spec fn times_wf(a: ActivityView) -> bool {
    a.time_start.wf() && (a.time_end is Some ==> a.time_end->0.wf())
}

/// The part of a mandatory break not yet taken.
pub open spec fn missing_break(mandatory: int, taken: int) -> int {
    if taken >= mandatory {
        0
    } else if taken <= 0 {
        mandatory
    } else {
        mandatory - taken
    }
}

pub proof fn lemma_total_bounded(s: Seq<ActivityView>, now: TimeStamp, f: DurationFilter)
    requires
        forall|i: int| 0 <= i < s.len() ==> times_wf(#[trigger] s[i]),
        now.wf(),
    ensures
        -1439 * s.len() <= total_duration(s, now, f) <= 1439 * s.len(),
    decreases s.len(),
{
    if s.len() > 0 {
        let t = s.drop_last();
        assert forall|i: int| 0 <= i < t.len() implies times_wf(#[trigger] t[i]) by {
            assert(t[i] == s[i]);
        }
        lemma_total_bounded(t, now, f);
        assert(times_wf(s[s.len() - 1]));
        lemma_duration_bounded(s.last(), now);
    }
}

/// The break a working time calls for: 45 minutes above nine hours, 30
/// above six, none otherwise.
pub fn mandatory_break_time_for_working_time(working_time: TimeDuration) -> (r: TimeDuration)
    ensures
        working_time.minutes > 9 * 60 ==> r.minutes == 45,
        6 * 60 < working_time.minutes <= 9 * 60 ==> r.minutes == 30,
        working_time.minutes <= 6 * 60 ==> r.minutes == 0,
{
    if working_time.minutes > 9 * 60 {
        TimeDuration { minutes: 45 }
    } else if working_time.minutes > 6 * 60 {
        TimeDuration { minutes: 30 }
    } else {
        TimeDuration::zero()
    }
}

pub proof fn lemma_duration_bounded(a: ActivityView, now: TimeStamp)
    requires
        times_wf(a),
        now.wf(),
    ensures
        -1439 <= a.duration_at(now) <= 1439,
{
}

impl DayEntry {
    /// The date exists, every time lies within a day, and there are few
    /// enough activities for their durations to be summed.
    pub open spec fn wf(&self) -> bool {
        &&& self.date.wf()
        &&& self.activities@.len() <= MAX_ACTIVITIES
        &&& forall|i: int| 0 <= i < self.activities@.len() ==> times_wf(#[trigger] self.activities@[i]@)
    }

    /// The day's standing shape: starts never go back in time, no closed
    /// span ends before it starts, only the last activity may be running,
    /// and the list is as cleanup leaves it.
    pub open spec fn is_ordered(&self) -> bool {
        &&& chronological(views(self.activities@))
        &&& only_last_open(views(self.activities@))
        &&& is_normal(views(self.activities@))
    }

    pub open spec fn total(&self, now: TimeStamp, f: DurationFilter) -> int {
        total_duration(views(self.activities@), now, f)
    }

    /// Sum of the durations of the activities that `f` selects.
    pub fn duration_total(&self, f: DurationFilter, now: TimeStamp) -> (r: TimeDuration)
        requires
            self.wf(),
            now.wf(),
        ensures
            r.minutes == self.total(now, f),
    {
        let ghost s = views(self.activities@);
        let mut sum: i64 = 0;
        let mut i: usize = 0;
        proof {
            assert(s.take(0) =~= Seq::<ActivityView>::empty());
        }
        while i < self.activities.len()
            invariant
                self.wf(),
                now.wf(),
                s == views(self.activities@),
                i <= self.activities.len(),
                sum == total_duration(s.take(i as int), now, f),
                -1439 * i <= sum <= 1439 * i,
            decreases self.activities.len() - i,
        {
            let a = &self.activities[i];
            proof {
                assert(s.take(i + 1).drop_last() =~= s.take(i as int));
                assert(s.take(i + 1).last() == a@);
                assert(times_wf(self.activities@[i as int]@));
                lemma_duration_bounded(a@, now);
            }
            if select(f, a) {
                let d = a.duration(now);
                sum = sum + d.minutes;
            }
            i += 1;
        }
        proof {
            assert(s.take(self.activities.len() as int) =~= s);
        }
        TimeDuration { minutes: sum }
    }

    pub fn get_work_duration_total(&self, now: TimeStamp) -> (r: TimeDuration)
        requires
            self.wf(),
            now.wf(),
        ensures
            r.minutes == self.total(now, DurationFilter::Work),
    {
        self.duration_total(DurationFilter::Work, now)
    }

    /// Work on named activities, non-specific work left out.
    pub fn get_work_duration_specific(&self, now: TimeStamp) -> (r: TimeDuration)
        requires
            self.wf(),
            now.wf(),
        ensures
            r.minutes == self.total(now, DurationFilter::SpecificWork),
    {
        self.duration_total(DurationFilter::SpecificWork, now)
    }

    pub fn get_work_duration_non_specific(&self, now: TimeStamp) -> (r: TimeDuration)
        requires
            self.wf(),
            now.wf(),
        ensures
            r.minutes == self.total(now, DurationFilter::NonSpecificWork),
    {
        self.duration_total(DurationFilter::NonSpecificWork, now)
    }

    /// Breaks that have ended; a running one is left out.
    pub fn get_break_duration(&self, now: TimeStamp) -> (r: TimeDuration)
        requires
            self.wf(),
            now.wf(),
        ensures
            r.minutes == self.total(now, DurationFilter::ClosedNonWork),
    {
        self.duration_total(DurationFilter::ClosedNonWork, now)
    }

    /// All time away from work, a running span up to `now`.
    pub fn get_non_work_duration(&self, now: TimeStamp) -> (r: TimeDuration)
        requires
            self.wf(),
            now.wf(),
        ensures
            r.minutes == self.total(now, DurationFilter::NonWork),
    {
        self.duration_total(DurationFilter::NonWork, now)
    }

    /// Time since the current leave began: `None` with no activity or while
    /// working.
    pub fn get_leave_duration(&self, now: TimeStamp) -> (r: Option<TimeDuration>)
        requires
            self.wf(),
            now.wf(),
        ensures
            (self.activities@.len() == 0 || self.activities@.last().is_work) ==> r is None,
            !(self.activities@.len() == 0 || self.activities@.last().is_work) ==> r == Some(
                TimeDuration { minutes: self.total(now, DurationFilter::OpenNonWork) as i64 },
            ),
    {
        if self.activities.len() == 0 {
            return None;
        }
        if self.is_currently_working() {
            None
        } else {
            Some(self.duration_total(DurationFilter::OpenNonWork, now))
        }
    }

    /// Closes the current activity at `now` and starts `name`, then cleans
    /// up. Starting the activity that is already current changes nothing.
    pub fn start_activitiy(&mut self, name: &str, is_work: bool, now: TimeStamp)
        requires
            old(self).wf(),
            now.wf(),
            old(self).activities@.len() < MAX_ACTIVITIES,
            old(self).activities@.len() > 0 && old(self).activities@.last().name@ != name@
                ==> old(self).activities@.last().time_end is None,
        ensures
            final(self).wf(),
            final(self).date == old(self).date,
            final(self).last_write_time == old(self).last_write_time,
            old(self).activities@.len() > 0 && old(self).activities@.last().name@ == name@
                ==> views(final(self).activities@) == views(old(self).activities@),
            !(old(self).activities@.len() > 0 && old(self).activities@.last().name@ == name@)
                ==> views(final(self).activities@) == cleaned(
                started(views(old(self).activities@), name@, is_work, now),
            ),
            old(self).is_ordered() && (old(self).activities@.len() > 0
                ==> old(self).activities@.last().time_start.minute_of_day() <= now.minute_of_day())
                ==> final(self).is_ordered(),
    {
        let name = String::from_str(name);
        let ghost s = views(self.activities@);
        let n = self.activities.len();
        if n > 0 {
            if self.activities[n - 1].name == name {
                return;
            }
            let mut last = self.activities.pop().unwrap();
            last.time_end = Some(now);
            self.activities.push(last);
        }
        self.activities.push(Activity { is_work, name, time_start: now, time_end: None });
        proof {
            assert(views(self.activities@) =~= started(s, name@, is_work, now));
            assert(all_times_wf(views(self.activities@))) by {
                let v = views(self.activities@);
                assert forall|i: int| 0 <= i < v.len() implies times_wf(#[trigger] v[i]) by {
                    if i < n {
                        assert(times_wf(old(self).activities@[i]@));
                    }
                }
            }
            lemma_cleaned_times(views(self.activities@));
            if old(self).is_ordered() && (n > 0 ==> s.last().time_start.minute_of_day()
                <= now.minute_of_day()) {
                lemma_started_chronological(s, name@, is_work, now);
                lemma_cleaned_normal(views(self.activities@));
                lemma_cleaned_chronological(views(self.activities@));
                let st = started(s, name@, is_work, now);
                assert forall|i: int| 0 <= i < st.len() - 1 implies (#[trigger] st[i]).time_end is Some by {
                    if i < n - 1 {
                        assert(st[i] == s[i]);
                    }
                }
                lemma_cleaned_only_last_open(st);
            }
        }
        DayEntry::cleanup_activities(&mut self.activities);
        proof {
            let v = views(self.activities@);
            assert forall|i: int| 0 <= i < self.activities@.len() implies times_wf(
                #[trigger] self.activities@[i]@,
            ) by {
                assert(v[i] == self.activities@[i]@);
            }
        }
    }

    /// A day with no activities.
    pub fn empty(date: Date) -> (r: DayEntry)
        requires
            date.wf(),
        ensures
            r.wf(),
            r.is_ordered(),
            r.date == date,
            r.activities@.len() == 0,
            r.last_write_time == 0,
    {
        DayEntry { date, activities: Vec::new(), last_write_time: 0 }
    }

    /// A day checked in at `now`: one running non-specific work activity.
    pub fn checked_in(date: Date, now: TimeStamp) -> (r: DayEntry)
        requires
            date.wf(),
            now.wf(),
        ensures
            r.wf(),
            r.is_ordered(),
            r.date == date,
            views(r.activities@) == seq![
                ActivityView {
                    is_work: true,
                    name: non_specific_work_name(),
                    time_start: now,
                    time_end: None,
                },
            ],
            r.last_write_time == 0,
    {
        let mut activities: Vec<Activity> = Vec::new();
        activities.push(
            Activity {
                is_work: true,
                name: String::from_str(ACTIVITY_NAME_NON_SPECIFIC_WORK),
                time_start: now,
                time_end: None,
            },
        );
        proof {
            assert(views(activities@) =~= seq![
                ActivityView {
                    is_work: true,
                    name: non_specific_work_name(),
                    time_start: now,
                    time_end: None,
                },
            ]);
        }
        DayEntry { date, activities, last_write_time: 0 }
    }

    /// The entry to use on `today`: the stored one if it belongs to today,
    /// else a fresh day checked in at `now`.
    pub fn for_today(stored: Option<DayEntry>, today: Date, now: TimeStamp) -> (r: DayEntry)
        requires
            today.wf(),
            now.wf(),
            stored matches Some(e) ==> e.wf(),
        ensures
            r.wf(),
            r.date == today,
            stored is Some && stored->0.date == today ==> r == stored->0,
            (stored is Some ==> stored->0.is_ordered()) ==> r.is_ordered(),
            !(stored is Some && stored->0.date == today) ==> (views(r.activities@) == seq![
                ActivityView {
                    is_work: true,
                    name: non_specific_work_name(),
                    time_start: now,
                    time_end: None,
                },
            ] && r.last_write_time == 0),
    {
        match stored {
            Some(e) => {
                if e.date == today {
                    e
                } else {
                    DayEntry::checked_in(today, now)
                }
            },
            None => DayEntry::checked_in(today, now),
        }
    }

    /// Whether storage was changed after this entry last wrote it.
    pub fn is_outdated(&self, last_modified_time: u64) -> (r: bool)
        ensures
            r == (self.last_write_time < last_modified_time),
    {
        self.last_write_time < last_modified_time
    }

    /// Work time still to do to reach `preferred`, plus the part of the
    /// mandatory break not yet taken (a negative break total counts as no
    /// break); negative once both are done and more was worked.
    pub fn get_time_left_for_the_day(
        &self,
        preferred: TimeDuration,
        mandatory_break: TimeDuration,
        now: TimeStamp,
    ) -> (r: TimeDuration)
        requires
            self.wf(),
            now.wf(),
            -MAX_TARGET_MINUTES <= preferred.minutes <= MAX_TARGET_MINUTES,
            -MAX_TARGET_MINUTES <= mandatory_break.minutes <= MAX_TARGET_MINUTES,
        ensures
            r.minutes == preferred.minutes - self.total(now, DurationFilter::Work) + missing_break(
                mandatory_break.minutes as int,
                self.total(now, DurationFilter::ClosedNonWork),
            ),
    {
        let work = self.get_work_duration_total(now);
        let breaks = self.get_break_duration(now);
        proof {
            lemma_total_bounded(views(self.activities@), now, DurationFilter::Work);
            lemma_total_bounded(views(self.activities@), now, DurationFilter::ClosedNonWork);
        }
        let missing = if breaks.minutes >= mandatory_break.minutes {
            0
        } else if breaks.minutes <= 0 {
            mandatory_break.minutes
        } else {
            mandatory_break.minutes - breaks.minutes
        };
        TimeDuration { minutes: preferred.minutes - work.minutes + missing }
    }

    /// The last activity, if any.
    pub fn get_current_activity(&self) -> (r: Option<&Activity>)
        ensures
            self.activities@.len() == 0 ==> r is None,
            self.activities@.len() > 0 ==> r == Some(&self.activities@.last()),
    {
        if self.activities.len() == 0 {
            None
        } else {
            Some(&self.activities[self.activities.len() - 1])
        }
    }

    /// Whether the current activity is work.
    pub fn is_currently_working(&self) -> (r: bool)
        ensures
            r == (self.activities@.len() > 0 && self.activities@.last().is_work),
    {
        match self.get_current_activity() {
            Some(a) => a.is_work,
            None => false,
        }
    }

    /// When the first activity of the day began.
    pub fn first_checkin_time(&self) -> (r: Option<TimeStamp>)
        ensures
            self.activities@.len() == 0 ==> r is None,
            self.activities@.len() > 0 ==> r == Some(self.activities@[0].time_start),
    {
        if self.activities.len() == 0 {
            None
        } else {
            Some(self.activities[0].time_start)
        }
    }
}

fn select(f: DurationFilter, a: &Activity) -> (r: bool)
    ensures
        r == selects(f, a@),
{
    match f {
        DurationFilter::Work => a.is_work,
        DurationFilter::SpecificWork => a.is_work && !is_non_specific(&a.name),
        DurationFilter::NonSpecificWork => a.is_work && is_non_specific(&a.name),
        DurationFilter::ClosedNonWork => !a.is_work && a.time_end.is_some(),
        DurationFilter::OpenNonWork => !a.is_work && a.time_end.is_none(),
        DurationFilter::NonWork => !a.is_work,
    }
}

fn is_non_specific(name: &String) -> (r: bool)
    ensures
        r == (name@ == non_specific_work_name()),
{
    let n = String::from_str(ACTIVITY_NAME_NON_SPECIFIC_WORK);
    *name == n
}

} // verus!
