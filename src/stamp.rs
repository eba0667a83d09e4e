//! Stamp events: the flat, persisted form of a day's activities.

use vstd::prelude::*;
use crate::activity::{Activity, ActivityView, views, leave_name, ACTIVITY_NAME_LEAVE};
use crate::cleanup::{
    cleaned, is_normal, kind_eq, properly_labeled, is_zero_closed, lemma_cleanup_of_normal,
    rename_leaves, leave_renamed, lemma_views_push, lemma_drop_zero_identity,
};
use crate::dayentry::{DayEntry, times_wf};
use crate::cleanup::{all_times_wf, lemma_cleaned_times};
use crate::time::{TimeStamp, parse_timestamp, lemma_timestamp_text_round_trip,
    lemma_timestamp_parse_exact};

verus! {

/// Errors raised while reading a day back from its events.
#[derive(Debug, Clone, Copy, PartialEq, Eq, Structural)]
pub enum DayEntryError {
    /// The timesheet holds no line at all.
    EmptyTimesheet,
    /// The first line does not name a date.
    InvalidDate,
    /// A line is not a stamp event.
    MalformedStampEvent,
    /// An event is not strictly later than the one before it.
    OutOfOrderStampEvent,
    /// A work activity begins while an activity of that name is running.
    DuplicateActivity,
    /// A leave begins while a non-work span is running.
    DuplicateLeave,
}

/// One boundary between activities.
#[derive(Debug)]
pub enum StampEvent {
    /// A work activity of the given name begins.
    Begin(TimeStamp, String),
    /// Time away from work begins.
    Leave(TimeStamp),
}

/// The mathematical value of a [`StampEvent`].
pub enum StampEventView {
    Begin(TimeStamp, Seq<char>),
    Leave(TimeStamp),
}

impl View for StampEvent {
    type V = StampEventView;

    open spec fn view(&self) -> StampEventView {
        match self {
            StampEvent::Begin(t, name) => StampEventView::Begin(*t, name@),
            StampEvent::Leave(t) => StampEventView::Leave(*t),
        }
    }
}

pub open spec fn event_views(s: Seq<StampEvent>) -> Seq<StampEventView> {
    s.map_values(|e: StampEvent| e@)
}

impl StampEventView {
    pub open spec fn timestamp(self) -> TimeStamp {
        match self {
            StampEventView::Begin(t, _) => t,
            StampEventView::Leave(t) => t,
        }
    }

    /// `HH:MM - Begin [name]` or `HH:MM - Leave`.
    pub open spec fn text(self) -> Seq<char> {
        match self {
            StampEventView::Begin(t, name) => t.text() + " - Begin ["@ + name + "]"@,
            StampEventView::Leave(t) => t.text() + " - Leave"@,
        }
    }

    /// The event can be written as a line and read back: its time lies
    /// within a day and a begun activity has a name.
    pub open spec fn wf(self) -> bool {
        match self {
            StampEventView::Begin(t, name) => t.wf() && name.len() > 0,
            StampEventView::Leave(t) => t.wf(),
        }
    }
}

/// What a line reads as: a time of day, then ` - Leave`, or ` - Begin [`,
/// a non-empty name and `]`.
pub open spec fn parse_event(line: Seq<char>) -> Option<StampEventView> {
    if line.len() < 5 {
        None
    } else {
        match parse_timestamp(line.take(5)) {
            Ok(t) => {
                let rest = line.skip(5);
                if rest == " - Leave"@ {
                    Some(StampEventView::Leave(t))
                } else if rest.len() > 11 && rest.take(10) == " - Begin ["@ && rest.last()
                    == ']' {
                    Some(StampEventView::Begin(t, rest.subrange(10, rest.len() - 1)))
                } else {
                    None
                }
            },
            Err(_) => None,
        }
    }
}

/// The activity that an event opens.
pub open spec fn opened_by(e: StampEventView) -> ActivityView {
    match e {
        StampEventView::Begin(t, name) => ActivityView {
            is_work: true,
            name,
            time_start: t,
            time_end: None,
        },
        StampEventView::Leave(t) => ActivityView {
            is_work: false,
            name: leave_name(),
            time_start: t,
            time_end: None,
        },
    }
}

pub open spec fn closed_at(a: ActivityView, t: TimeStamp) -> ActivityView {
    ActivityView { is_work: a.is_work, name: a.name, time_start: a.time_start, time_end: Some(t) }
}

/// One event applied to the closed activities so far and the running one.
pub open spec fn replay_step(
    done: Seq<ActivityView>,
    current: Option<ActivityView>,
    e: StampEventView,
) -> Result<(Seq<ActivityView>, Option<ActivityView>), DayEntryError> {
    match current {
        None => Ok((done, Some(opened_by(e)))),
        Some(c) => match e {
            StampEventView::Begin(t, name) => if c.name == name {
                Err(DayEntryError::DuplicateActivity)
            } else {
                Ok((done.push(closed_at(c, t)), Some(opened_by(e))))
            },
            StampEventView::Leave(t) => if !c.is_work {
                Err(DayEntryError::DuplicateLeave)
            } else {
                Ok((done.push(closed_at(c, t)), Some(opened_by(e))))
            },
        },
    }
}

/// The events folded from left to right.
pub open spec fn replay(
    events: Seq<StampEventView>,
) -> Result<(Seq<ActivityView>, Option<ActivityView>), DayEntryError>
    decreases events.len(),
{
    if events.len() == 0 {
        Ok((Seq::empty(), None))
    } else {
        match replay(events.drop_last()) {
            Ok((done, current)) => replay_step(done, current, events.last()),
            Err(e) => Err(e),
        }
    }
}

/// The activities that a list of events stands for, after cleanup.
pub open spec fn reconstructed(events: Seq<StampEventView>) -> Result<
    Seq<ActivityView>,
    DayEntryError,
> {
    match replay(events) {
        Ok((done, current)) => Ok(
            cleaned(
                match current {
                    Some(c) => done.push(c),
                    None => done,
                },
            ),
        ),
        Err(e) => Err(e),
    }
}

/// The event that starts an activity.
pub open spec fn event_of(a: ActivityView) -> StampEventView {
    if a.is_work {
        StampEventView::Begin(a.time_start, a.name)
    } else {
        StampEventView::Leave(a.time_start)
    }
}

/// The events that stand for a list of activities.
pub open spec fn events_of(s: Seq<ActivityView>) -> Seq<StampEventView> {
    s.map_values(|a: ActivityView| event_of(a))
}

/// A list of activities in the form that storage keeps: each span ends
/// where the next begins, only the last one is running, no span has zero
/// length, neighbours differ in kind, non-work spans are properly labelled,
/// and no work activity named "Leave" follows a non-work span.
pub open spec fn canonical(s: Seq<ActivityView>) -> bool {
    &&& forall|i: int|
        0 <= i < s.len() - 1 ==> (#[trigger] s[i]).time_end == Some(s[i + 1].time_start)
    &&& s.len() > 0 ==> s.last().time_end is None
    &&& forall|i: int|
        0 <= i < s.len() - 1 ==> (#[trigger] s[i]).time_start.minute_of_day()
            != s[i + 1].time_start.minute_of_day()
    &&& forall|i: int| 0 <= i < s.len() - 1 ==> !kind_eq(#[trigger] s[i], s[i + 1])
    &&& forall|i: int| 0 <= i < s.len() ==> properly_labeled(#[trigger] s[i])
    &&& forall|i: int|
        0 <= i < s.len() - 1 ==> (!(#[trigger] s[i]).is_work && s[i + 1].is_work ==> s[i
            + 1].name != leave_name())
}

pub open spec fn reopened(a: ActivityView) -> ActivityView {
    ActivityView { is_work: a.is_work, name: a.name, time_start: a.time_start, time_end: None }
}

proof fn lemma_replay_canonical(s: Seq<ActivityView>, k: int)
    requires
        canonical(s),
        1 <= k <= s.len(),
    ensures
        replay(events_of(s).take(k)) == Ok::<
            (Seq<ActivityView>, Option<ActivityView>),
            DayEntryError,
        >((rename_leaves(s).take(k - 1), Some(reopened(rename_leaves(s)[k - 1])))),
    decreases k,
{
    let evs = events_of(s);
    let r = rename_leaves(s);
    assert(evs.take(k).drop_last() =~= evs.take(k - 1));
    assert(evs.take(k).last() == event_of(s[k - 1]));
    if k == 1 {
        assert(evs.take(0) =~= Seq::<StampEventView>::empty());
        assert(r.take(0) =~= Seq::<ActivityView>::empty());
    } else {
        lemma_replay_canonical(s, k - 1);
        let prev = s[k - 2];
        let cur = s[k - 1];
        assert(!kind_eq(prev, cur));
        assert(prev.time_end == Some(cur.time_start));
        assert(closed_at(reopened(r[k - 2]), cur.time_start) == r[k - 2]);
        assert(r.take(k - 2).push(r[k - 2]) =~= r.take(k - 1));
    }
}

/// Writing a canonical list of activities as events and reading the events
/// back gives the same list.
pub proof fn lemma_round_trip(s: Seq<ActivityView>)
    requires
        canonical(s),
    ensures
        reconstructed(events_of(s)) == Ok::<Seq<ActivityView>, DayEntryError>(s),
{
    assert(is_normal(s)) by {
        assert forall|i: int| 0 <= i < s.len() implies !is_zero_closed(#[trigger] s[i]) by {
            if i < s.len() - 1 {
                assert(s[i].time_end == Some(s[i + 1].time_start));
            }
        }
    }
    let r = rename_leaves(s);
    lemma_drop_zero_identity(s);
    lemma_cleanup_of_normal(s);
    assert(rename_leaves(r) =~= r);
    if s.len() == 0 {
        assert(events_of(s) =~= Seq::<StampEventView>::empty());
        assert(replay(events_of(s)) == Ok::<
            (Seq<ActivityView>, Option<ActivityView>),
            DayEntryError,
        >((Seq::<ActivityView>::empty(), None)));
        assert(s =~= Seq::<ActivityView>::empty());
    } else {
        let n = s.len() as int;
        lemma_replay_canonical(s, n);
        assert(events_of(s).take(n) =~= events_of(s));
        assert(r.take(n - 1).push(reopened(r[n - 1])) =~= r);
        assert forall|i: int| 0 <= i < r.len() implies !is_zero_closed(#[trigger] r[i]) by {
            assert(r[i] == leave_renamed(s[i]));
        }
        lemma_drop_zero_identity(r);
        assert(cleaned(r) == cleaned(s));
    }
}

proof fn lemma_replay_times(evs: Seq<StampEventView>)
    requires
        forall|i: int| 0 <= i < evs.len() ==> (#[trigger] evs[i]).timestamp().wf(),
        replay(evs) is Ok,
    ensures
        all_times_wf(replay(evs)->Ok_0.0),
        replay(evs)->Ok_0.1 matches Some(c) ==> times_wf(c),
        replay(evs)->Ok_0.0.len() + (if replay(evs)->Ok_0.1 is Some {
            1int
        } else {
            0int
        }) <= evs.len(),
    decreases evs.len(),
{
    if evs.len() > 0 {
        let t = evs.drop_last();
        assert forall|i: int| 0 <= i < t.len() implies (#[trigger] t[i]).timestamp().wf() by {
            assert(t[i] == evs[i]);
        }
        lemma_replay_times(t);
        assert(evs.last().timestamp().wf()) by {
            assert(evs[evs.len() - 1] == evs.last());
        }
        let (done, cur) = replay(t)->Ok_0;
        let (done2, cur2) = replay(evs)->Ok_0;
        assert forall|i: int| 0 <= i < done2.len() implies times_wf(#[trigger] done2[i]) by {
            if i < done.len() {
                assert(done2[i] == done[i]);
            }
        }
    }
}

/// Events at times within a day give activities at times within a day, no
/// more of them than there are events.
pub proof fn lemma_reconstructed_times(evs: Seq<StampEventView>)
    requires
        forall|i: int| 0 <= i < evs.len() ==> (#[trigger] evs[i]).timestamp().wf(),
        reconstructed(evs) is Ok,
    ensures
        all_times_wf(reconstructed(evs)->Ok_0),
        reconstructed(evs)->Ok_0.len() <= evs.len(),
{
    lemma_replay_times(evs);
    let (done, cur) = replay(evs)->Ok_0;
    let all = match cur {
        Some(c) => done.push(c),
        None => done,
    };
    assert(all_times_wf(all)) by {
        assert forall|i: int| 0 <= i < all.len() implies times_wf(#[trigger] all[i]) by {
            if i < done.len() {
                assert(all[i] == done[i]);
            }
        }
    }
    lemma_cleaned_times(all);
}

pub open spec fn current_view(c: Option<Activity>) -> Option<ActivityView> {
    match c {
        Some(a) => Some(a@),
        None => None,
    }
}

proof fn lemma_replay_error_stays(events: Seq<StampEventView>, k: int)
    requires
        0 <= k <= events.len(),
        replay(events.take(k)) is Err,
    ensures
        replay(events) == replay(events.take(k)),
    decreases events.len(),
{
    if k == events.len() {
        assert(events.take(k) =~= events);
    } else {
        let t = events.drop_last();
        assert(t.take(k) =~= events.take(k));
        lemma_replay_error_stays(t, k);
    }
}

/// Reading back the line of an event gives the same event.
pub proof fn lemma_event_text_round_trip(e: StampEventView)
    requires
        e.wf(),
    ensures
        parse_event(e.text()) == Some(e),
{
    reveal_strlit(" - Begin [");
    reveal_strlit("]");
    reveal_strlit(" - Leave");
    let t = e.timestamp();
    lemma_timestamp_text_round_trip(t);
    lemma_timestamp_parse_exact(t.text());
    let s = e.text();
    assert(s.take(5) =~= t.text());
    match e {
        StampEventView::Begin(_, name) => {
            let rest = s.skip(5);
            assert(rest =~= " - Begin ["@ + name + "]"@);
            assert(rest.take(10) =~= " - Begin ["@);
            assert(rest.subrange(10, rest.len() - 1) =~= name);
            assert(rest != " - Leave"@) by {
                assert(rest.len() > 11 || rest.len() != 8);
                if rest.len() == 8 {
                    assert(rest[3] == 'B');
                    assert(" - Leave"@[3] == 'L');
                }
            }
        },
        StampEventView::Leave(_) => {
            assert(s.skip(5) =~= " - Leave"@);
        },
    }
}

/// A line that reads as an event is exactly that event's line.
pub proof fn lemma_event_parse_exact(line: Seq<char>)
    requires
        parse_event(line) is Some,
    ensures
        parse_event(line)->0.wf(),
        parse_event(line)->0.text() == line,
{
    reveal_strlit(" - Begin [");
    reveal_strlit("]");
    reveal_strlit(" - Leave");
    lemma_timestamp_parse_exact(line.take(5));
    let e = parse_event(line)->0;
    let rest = line.skip(5);
    match e {
        StampEventView::Begin(_, name) => {
            assert(rest =~= rest.take(10) + rest.subrange(10, rest.len() - 1) + seq![']']);
            assert(line =~= line.take(5) + rest);
        },
        StampEventView::Leave(_) => {
            assert(line =~= line.take(5) + rest);
        },
    }
}

impl StampEvent {
    pub fn timestamp(&self) -> (r: TimeStamp)
        ensures
            r == self@.timestamp(),
    {
        match self {
            StampEvent::Begin(t, _) => *t,
            StampEvent::Leave(t) => *t,
        }
    }

    /// The event as one line of a timesheet.
    pub fn to_string(&self) -> (r: String)
        ensures
            r@ == self@.text(),
    {
        match self {
            StampEvent::Begin(t, name) => {
                let mut r = t.to_string();
                r.append(" - Begin [");
                r.append(name.as_str());
                r.append("]");
                r
            },
            StampEvent::Leave(t) => {
                let mut r = t.to_string();
                r.append(" - Leave");
                r
            },
        }
    }

    /// Reads one line of a timesheet.
    pub fn from_string(line: &str) -> (r: Result<StampEvent, DayEntryError>)
        ensures
            match r {
                Ok(e) => parse_event(line@) == Some(e@),
                Err(err) => err == DayEntryError::MalformedStampEvent && parse_event(line@) is None,
            },
    {
        let len = line.unicode_len();
        if len < 5 {
            return Err(DayEntryError::MalformedStampEvent);
        }
        let head = line.substring_char(0, 5);
        proof {
            assert(head@ =~= line@.take(5));
        }
        let t = match TimeStamp::from_string(head) {
            Ok(t) => t,
            Err(_) => {
                return Err(DayEntryError::MalformedStampEvent);
            },
        };
        let rest = String::from_str(line.substring_char(5, len));
        proof {
            assert(rest@ =~= line@.skip(5));
        }
        let leave = String::from_str(" - Leave");
        if rest == leave {
            return Ok(StampEvent::Leave(t));
        }
        let rest_len = len - 5;
        if rest_len > 11 {
            let opening = String::from_str(rest.as_str().substring_char(0, 10));
            let begin = String::from_str(" - Begin [");
            proof {
                assert(opening@ =~= rest@.take(10));
            }
            if opening == begin && rest.as_str().get_char(rest_len - 1) == ']' {
                let name = String::from_str(rest.as_str().substring_char(10, rest_len - 1));
                return Ok(StampEvent::Begin(t, name));
            }
        }
        Err(DayEntryError::MalformedStampEvent)
    }
}

impl DayEntry {
    /// Folds events into activities: each event closes the running activity
    /// at its time and opens the next. Ends with the cleanup pass.
    pub fn create_activities_from_stamp_events(events: &[StampEvent]) -> (r: Result<
        Vec<Activity>,
        DayEntryError,
    >)
        ensures
            match r {
                Ok(v) => reconstructed(event_views(events@)) == Ok::<
                    Seq<ActivityView>,
                    DayEntryError,
                >(views(v@)),
                Err(e) => reconstructed(event_views(events@)) == Err::<
                    Seq<ActivityView>,
                    DayEntryError,
                >(e),
            },
    {
        let ghost evs = event_views(events@);
        let mut result: Vec<Activity> = Vec::new();
        let mut current: Option<Activity> = None;
        let mut i: usize = 0;
        proof {
            assert(evs.take(0) =~= Seq::<StampEventView>::empty());
            assert(views(result@) =~= Seq::<ActivityView>::empty());
        }
        while i < events.len()
            invariant
                i <= events.len(),
                evs == event_views(events@),
                replay(evs.take(i as int)) == Ok::<
                    (Seq<ActivityView>, Option<ActivityView>),
                    DayEntryError,
                >((views(result@), current_view(current))),
            decreases events.len() - i,
        {
            let ev = &events[i];
            proof {
                assert(evs.take(i + 1).drop_last() =~= evs.take(i as int));
                assert(evs.take(i + 1).last() == ev@);
            }
            match ev {
                StampEvent::Begin(t, name) => {
                    match current {
                        Some(mut c) => {
                            if c.name == *name {
                                proof {
                                    lemma_replay_error_stays(evs, i + 1);
                                }
                                return Err(DayEntryError::DuplicateActivity);
                            }
                            c.time_end = Some(*t);
                            proof {
                                lemma_views_push(result@, c);
                            }
                            result.push(c);
                        },
                        None => {},
                    }
                    current = Some(
                        Activity { is_work: true, name: name.clone(), time_start: *t, time_end: None },
                    );
                },
                StampEvent::Leave(t) => {
                    match current {
                        Some(mut c) => {
                            if !c.is_work {
                                proof {
                                    lemma_replay_error_stays(evs, i + 1);
                                }
                                return Err(DayEntryError::DuplicateLeave);
                            }
                            c.time_end = Some(*t);
                            proof {
                                lemma_views_push(result@, c);
                            }
                            result.push(c);
                        },
                        None => {},
                    }
                    current = Some(
                        Activity {
                            is_work: false,
                            name: String::from_str(ACTIVITY_NAME_LEAVE),
                            time_start: *t,
                            time_end: None,
                        },
                    );
                },
            }
            i += 1;
        }
        proof {
            assert(evs.take(events.len() as int) =~= evs);
        }
        match current {
            Some(c) => {
                proof {
                    lemma_views_push(result@, c);
                }
                result.push(c);
            },
            None => {},
        }
        DayEntry::cleanup_activities(&mut result);
        Ok(result)
    }

    /// One event for each activity: `Begin` for work, `Leave` otherwise.
    pub fn create_stamp_events_from_activities(activities: &[Activity]) -> (r: Vec<StampEvent>)
        ensures
            event_views(r@) == events_of(views(activities@)),
    {
        let mut r: Vec<StampEvent> = Vec::new();
        let mut i: usize = 0;
        while i < activities.len()
            invariant
                i <= activities.len(),
                r.len() == i,
                forall|k: int| 0 <= k < i ==> (#[trigger] r@[k])@ == event_of(activities@[k]@),
            decreases activities.len() - i,
        {
            let a = &activities[i];
            if a.is_work {
                r.push(StampEvent::Begin(a.time_start, a.name.clone()));
            } else {
                r.push(StampEvent::Leave(a.time_start));
            }
            i += 1;
        }
        proof {
            assert(event_views(r@) =~= events_of(views(activities@)));
        }
        r
    }
}

} // verus!
