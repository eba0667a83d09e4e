//! The plain-text report and the duration summary of a day.

use vstd::prelude::*;
use crate::activity::{ActivityView, views};
use crate::breakdown::{activity_durations, pairs_view};
use crate::date::DATE_FORMAT_DISPLAY;
use crate::dayentry::{DayEntry, DurationFilter};
use crate::time::{TimeDuration, TimeStamp, decimal_text, push_decimal};

verus! {

/// Whole percent of `part` in `whole`, rounded half up, within `0..=100`.
pub open spec fn percent_of(part: int, whole: int) -> int {
    if whole <= 0 || part <= 0 {
        0
    } else if part >= whole {
        100
    } else {
        (200 * part + whole) / (2 * whole)
    }
}

/// `n` right-aligned in three columns.
pub open spec fn width3_text(n: nat) -> Seq<char> {
    if n < 10 {
        "  "@ + decimal_text(n)
    } else if n < 100 {
        " "@ + decimal_text(n)
    } else {
        decimal_text(n)
    }
}

/// The summary block: total work, its split into listed and non-specific
/// activities, total break, and the time since the last leave (or an empty
/// line while working).
pub open spec fn summary_text(
    total: TimeDuration,
    specific: TimeDuration,
    non_specific: TimeDuration,
    breaks: TimeDuration,
    leave: Option<TimeDuration>,
) -> Seq<char> {
    let pct = percent_of(specific.minutes as int, total.minutes as int);
    "Total work duration:            "@ + total.text() + " (100%)\n"@
        + "  - Activities (from list):     "@ + specific.text() + " ("@ + width3_text(
        pct as nat,
    ) + "%)\n"@ + "  - Activities (non-specific):  "@ + non_specific.text() + " ("@
        + width3_text((100 - pct) as nat) + "%)\n"@ + "Total break duration:           "@
        + breaks.text() + "\n"@ + match leave {
        Some(l) => "Time since last leave:          "@ + l.text() + "\n"@,
        None => "\n"@,
    }
}

/// The summary of a day as of `now`.
pub open spec fn day_summary_text(e: &DayEntry, now: TimeStamp) -> Seq<char> {
    let s = views(e.activities@);
    summary_text(
        TimeDuration { minutes: e.total(now, DurationFilter::Work) as i64 },
        TimeDuration { minutes: e.total(now, DurationFilter::SpecificWork) as i64 },
        TimeDuration { minutes: e.total(now, DurationFilter::NonSpecificWork) as i64 },
        TimeDuration { minutes: e.total(now, DurationFilter::ClosedNonWork) as i64 },
        if s.len() == 0 || s.last().is_work {
            None
        } else {
            Some(TimeDuration { minutes: e.total(now, DurationFilter::OpenNonWork) as i64 })
        },
    )
}

/// One `duration - name` line per entry.
pub open spec fn durations_lines(pairs: Seq<(Seq<char>, int)>) -> Seq<char>
    decreases pairs.len(),
{
    if pairs.len() == 0 {
        Seq::empty()
    } else {
        durations_lines(pairs.drop_last()) + TimeDuration {
            minutes: pairs.last().1 as i64,
        }.text() + " - "@ + pairs.last().0 + "\n"@
    }
}

/// One line per activity.
pub open spec fn activity_lines(s: Seq<ActivityView>, now: TimeStamp) -> Seq<char>
    decreases s.len(),
{
    if s.len() == 0 {
        Seq::empty()
    } else {
        activity_lines(s.drop_last(), now) + s.last().text(now) + "\n"@
    }
}

/// The report of a day: date header, per-activity durations, summary, and
/// the full list of activities.
pub open spec fn report_text(e: &DayEntry, now: TimeStamp) -> Seq<char> {
    let s = views(e.activities@);
    "Report for "@ + e.date.formatted("%A %e. %b (%d.%m.%Y)"@) + "\n\n"@
        + "\nActivity Durations:\n"@ + "=====================\n\n"@ + durations_lines(
        activity_durations(s, now),
    ) + "\n-------------\n\n"@ + day_summary_text(e, now) + "\n"@
        + "\nDetailed Activity List:\n"@ + "=========================\n\n"@ + activity_lines(
        s,
        now,
    ) + "\n"@
}

fn percent(part: i64, whole: i64) -> (r: u64)
    ensures
        r == percent_of(part as int, whole as int),
        r <= 100,
{
    if whole <= 0 || part <= 0 {
        0
    } else if part >= whole {
        100
    } else {
        let p = part as i128;
        let w = whole as i128;
        let q = (200 * p + w) / (2 * w);
        assert(0 <= q <= 100) by (nonlinear_arith)
            requires
                0 < p < w,
                q == (200 * p + w) / (2 * w),
        {
            assert(200 * p + w < 201 * w);
        }
        q as u64
    }
}

fn push_width3(out: &mut String, n: u64)
    ensures
        final(out)@ == old(out)@ + width3_text(n as nat),
{
    if n < 10 {
        out.append("  ");
    } else if n < 100 {
        out.append(" ");
    }
    push_decimal(out, n);
}

/// The summary block of a day as of `now`.
pub fn write_durations_summary(day_entry: &DayEntry, now: TimeStamp) -> (r: String)
    requires
        day_entry.wf(),
        now.wf(),
    ensures
        r@ == day_summary_text(day_entry, now),
{
    let total = day_entry.get_work_duration_total(now);
    let specific = day_entry.get_work_duration_specific(now);
    let non_specific = day_entry.get_work_duration_non_specific(now);
    let breaks = day_entry.get_break_duration(now);
    let pct = percent(specific.minutes, total.minutes);
    let mut r = String::new();
    r.append("Total work duration:            ");
    r.append(total.to_string().as_str());
    r.append(" (100%)\n");
    r.append("  - Activities (from list):     ");
    r.append(specific.to_string().as_str());
    r.append(" (");
    push_width3(&mut r, pct);
    r.append("%)\n");
    r.append("  - Activities (non-specific):  ");
    r.append(non_specific.to_string().as_str());
    r.append(" (");
    push_width3(&mut r, 100 - pct);
    r.append("%)\n");
    r.append("Total break duration:           ");
    r.append(breaks.to_string().as_str());
    r.append("\n");
    match day_entry.get_leave_duration(now) {
        Some(l) => {
            r.append("Time since last leave:          ");
            r.append(l.to_string().as_str());
            r.append("\n");
        },
        None => {
            r.append("\n");
        },
    }
    r
}

impl DayEntry {
    /// The report of this day as of `now`.
    pub fn generate_report(&self, now: TimeStamp) -> (r: String)
        requires
            self.wf(),
            now.wf(),
        ensures
            r@ == report_text(self, now),
    {
        let ghost s = views(self.activities@);
        let mut r = String::new();
        r.append("Report for ");
        r.append(self.date.format(DATE_FORMAT_DISPLAY).as_str());
        r.append("\n\n");
        r.append("\nActivity Durations:\n");
        r.append("=====================\n\n");
        let durations = self.get_activity_durations(now);
        let ghost pv = pairs_view(durations@);
        let ghost head = r@;
        let mut i: usize = 0;
        proof {
            assert(pv.take(0) =~= Seq::<(Seq<char>, int)>::empty());
            assert(r@ =~= head + durations_lines(pv.take(0)));
        }
        while i < durations.len()
            invariant
                i <= durations.len(),
                pv == pairs_view(durations@),
                r@ == head + durations_lines(pv.take(i as int)),
            decreases durations.len() - i,
        {
            proof {
                assert(pv.take(i + 1).drop_last() =~= pv.take(i as int));
                assert(pv.take(i + 1).last() == (durations@[i as int].0@, durations@[i as int].1.minutes as int));
            }
            r.append(durations[i].1.to_string().as_str());
            r.append(" - ");
            r.append(durations[i].0.as_str());
            r.append("\n");
            proof {
                assert(r@ =~= head + durations_lines(pv.take(i + 1)));
            }
            i += 1;
        }
        proof {
            assert(pv.take(durations.len() as int) =~= pv);
        }
        r.append("\n-------------\n\n");
        r.append(write_durations_summary(self, now).as_str());
        r.append("\n");
        r.append("\nDetailed Activity List:\n");
        r.append("=========================\n\n");
        let ghost head2 = r@;
        let mut k: usize = 0;
        proof {
            assert(s.take(0) =~= Seq::<ActivityView>::empty());
            assert(r@ =~= head2 + activity_lines(s.take(0), now));
        }
        while k < self.activities.len()
            invariant
                k <= self.activities.len(),
                s == views(self.activities@),
                r@ == head2 + activity_lines(s.take(k as int), now),
            decreases self.activities.len() - k,
        {
            proof {
                assert(s.take(k + 1).drop_last() =~= s.take(k as int));
                assert(s.take(k + 1).last() == self.activities@[k as int]@);
            }
            r.append(self.activities[k].to_string(now).as_str());
            r.append("\n");
            proof {
                assert(r@ =~= head2 + activity_lines(s.take(k + 1), now));
            }
            k += 1;
        }
        proof {
            assert(s.take(self.activities.len() as int) =~= s);
        }
        r.append("\n");
        r
    }
}

} // verus!
