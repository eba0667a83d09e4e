//! The timesheet file: a date header and one stamp event per line.

use vstd::prelude::*;
use crate::activity::{ActivityView, views};
use crate::date::{Date, parsed_date, DATE_FORMAT_TIMESHEET, DATE_FORMAT_DATABASE};
use crate::dayentry::{DayEntry, times_wf};
use crate::cleanup::{
    chronological, cleaned, is_normal, lemma_cleaned_chronological, lemma_cleaned_normal,
    only_last_open, lemma_cleaned_only_last_open,
};
use crate::stamp::{
    DayEntryError, StampEvent, StampEventView, event_views, parse_event, reconstructed, replay,
    events_of, lemma_event_parse_exact, lemma_reconstructed_times, canonical, lemma_round_trip,
    lemma_event_text_round_trip,
};
use crate::time::{TimeStamp, lemma_padded_two_digits, lemma_digit_char, is_digit};

verus! {

/// The values of a list of strings.
pub open spec fn strings_view(v: Seq<String>) -> Seq<Seq<char>> {
    v.map_values(|s: String| s@)
}

/// The pieces of `s` between line feeds; there is one more piece than
/// there are line feeds.
pub open spec fn split_lines(s: Seq<char>) -> Seq<Seq<char>>
    decreases s.len(),
{
    if s.len() == 0 {
        seq![Seq::<char>::empty()]
    } else {
        let r = split_lines(s.drop_last());
        if s.last() == '\n' {
            r.push(Seq::<char>::empty())
        } else {
            r.update(r.len() - 1, r.last().push(s.last()))
        }
    }
}

/// A line without its carriage return, if it ends in one.
pub open spec fn strip_cr(l: Seq<char>) -> Seq<char> {
    if l.len() > 0 && l.last() == '\r' {
        l.drop_last()
    } else {
        l
    }
}

/// A line that is neither empty nor a `---` rule.
pub open spec fn is_content_line(l: Seq<char>) -> bool {
    l.len() > 0 && !(l.len() >= 3 && l.take(3) == "---"@)
}

/// The content lines of a list of lines, carriage returns stripped.
pub open spec fn content_lines(lines: Seq<Seq<char>>) -> Seq<Seq<char>>
    decreases lines.len(),
{
    if lines.len() == 0 {
        lines
    } else {
        let r = content_lines(lines.drop_last());
        let l = strip_cr(lines.last());
        if is_content_line(l) {
            r.push(l)
        } else {
            r
        }
    }
}

/// Every line read as an event, or `None` if one does not read.
pub open spec fn parse_events(lines: Seq<Seq<char>>) -> Option<Seq<StampEventView>>
    decreases lines.len(),
{
    if lines.len() == 0 {
        Some(Seq::empty())
    } else {
        match (parse_events(lines.drop_last()), parse_event(lines.last())) {
            (Some(evs), Some(e)) => Some(evs.push(e)),
            _ => None,
        }
    }
}

/// Each event strictly later in the day than the one before it.
pub open spec fn strictly_increasing(evs: Seq<StampEventView>) -> bool {
    forall|i: int|
        0 <= i < evs.len() - 1 ==> (#[trigger] evs[i]).timestamp().minute_of_day() < evs[i
            + 1].timestamp().minute_of_day()
}

/// The date in the first content line of a timesheet.
pub open spec fn header_date(content: Seq<char>) -> Option<(int, int, int)> {
    let lines = content_lines(split_lines(content));
    if lines.len() == 0 {
        None
    } else {
        parsed_date(lines[0], "Timesheet for %Y-%m-%d"@)
    }
}

/// The events in the content lines after the first.
pub open spec fn timesheet_events(content: Seq<char>) -> Option<Seq<StampEventView>> {
    let lines = content_lines(split_lines(content));
    parse_events(lines.skip(1))
}

/// What a timesheet holds: its date and activities, or the first problem
/// found in it.
pub open spec fn read_timesheet(content: Seq<char>) -> Result<
    ((int, int, int), Seq<ActivityView>),
    DayEntryError,
> {
    let lines = content_lines(split_lines(content));
    if lines.len() == 0 {
        Err(DayEntryError::EmptyTimesheet)
    } else {
        match header_date(content) {
            None => Err(DayEntryError::InvalidDate),
            Some(date) => match timesheet_events(content) {
                None => Err(DayEntryError::MalformedStampEvent),
                Some(evs) => if !strictly_increasing(evs) {
                    Err(DayEntryError::OutOfOrderStampEvent)
                } else {
                    match reconstructed(evs) {
                        Ok(acts) => Ok((date, acts)),
                        Err(e) => Err(e),
                    }
                },
            },
        }
    }
}

/// Splits text at its line feeds.
pub fn split_lines_of(s: &str) -> (r: Vec<String>)
    ensures
        strings_view(r@) == split_lines(s@),
{
    let n = s.unicode_len();
    let mut lines: Vec<String> = Vec::new();
    let mut start: usize = 0;
    let mut i: usize = 0;
    proof {
        assert(s@.take(0) =~= Seq::<char>::empty());
        assert(split_lines(s@.take(0)) =~= strings_view(lines@).push(s@.subrange(0, 0)));
    }
    while i < n
        invariant
            n == s@.len(),
            start <= i <= n,
            split_lines(s@.take(i as int)) == strings_view(lines@).push(s@.subrange(start as int, i as int)),
        decreases n - i,
    {
        let c = s.get_char(i);
        proof {
            assert(s@.take(i + 1).drop_last() =~= s@.take(i as int));
            assert(s@.take(i + 1).last() == c);
        }
        if c == '\n' {
            let piece = String::from_str(s.substring_char(start, i));
            proof {
                assert(strings_view(lines@.push(piece)) =~= strings_view(lines@).push(piece@));
                assert(s@.subrange(i + 1, i + 1) =~= Seq::<char>::empty());
            }
            lines.push(piece);
            start = i + 1;
        } else {
            proof {
                assert(s@.subrange(start as int, i + 1) =~= s@.subrange(start as int, i as int).push(c));
                assert(strings_view(lines@).push(s@.subrange(start as int, i as int)).update(
                    lines@.len() as int,
                    s@.subrange(start as int, i + 1),
                ) =~= strings_view(lines@).push(s@.subrange(start as int, i + 1)));
            }
        }
        i += 1;
    }
    let piece = String::from_str(s.substring_char(start, n));
    proof {
        assert(s@.take(n as int) =~= s@);
        assert(strings_view(lines@.push(piece)) =~= strings_view(lines@).push(piece@));
    }
    lines.push(piece);
    lines
}

/// The content lines of text: neither empty nor `---` rules, carriage
/// returns stripped.
pub fn content_lines_of(s: &str) -> (r: Vec<String>)
    ensures
        strings_view(r@) == content_lines(split_lines(s@)),
{
    let lines = split_lines_of(s);
    let ghost ls = strings_view(lines@);
    let mut r: Vec<String> = Vec::new();
    let mut i: usize = 0;
    proof {
        assert(ls.take(0) =~= Seq::<Seq<char>>::empty());
        assert(strings_view(r@) =~= Seq::<Seq<char>>::empty());
    }
    while i < lines.len()
        invariant
            i <= lines.len(),
            ls == strings_view(lines@),
            strings_view(r@) == content_lines(ls.take(i as int)),
        decreases lines.len() - i,
    {
        let l = lines[i].as_str();
        let len = l.unicode_len();
        let stripped = if len > 0 && l.get_char(len - 1) == '\r' {
            l.substring_char(0, len - 1)
        } else {
            l.substring_char(0, len)
        };
        proof {
            assert(ls.take(i + 1).drop_last() =~= ls.take(i as int));
            assert(ls.take(i + 1).last() == l@);
            if len > 0 && l@.last() == '\r' {
                assert(stripped@ =~= l@.drop_last());
            } else {
                assert(stripped@ =~= l@);
            }
        }
        let slen = stripped.unicode_len();
        let mut keep = slen > 0;
        if slen >= 3 {
            let head = String::from_str(stripped.substring_char(0, 3));
            let rule = String::from_str("---");
            proof {
                assert(head@ =~= stripped@.take(3));
            }
            if head == rule {
                keep = false;
            }
        }
        if keep {
            let line = String::from_str(stripped);
            proof {
                assert(strings_view(r@.push(line)) =~= strings_view(r@).push(line@));
            }
            r.push(line);
        }
        i += 1;
    }
    proof {
        assert(ls.take(lines.len() as int) =~= ls);
    }
    r
}

/// The lines of a list of events, each ended by a line feed.
pub open spec fn events_text(evs: Seq<StampEventView>) -> Seq<char>
    decreases evs.len(),
{
    if evs.len() == 0 {
        Seq::empty()
    } else {
        events_text(evs.drop_last()) + evs.last().text() + seq!['\n']
    }
}

/// The timesheet of a day: a date header, a rule, an empty line, then one
/// event per line.
pub open spec fn timesheet_text(date: Date, acts: Seq<ActivityView>) -> Seq<char> {
    date.formatted("Timesheet for %Y-%m-%d"@) + "\n------------------------\n\n"@ + events_text(
        events_of(acts),
    )
}

/// Whether each event is strictly later in the day than the one before.
fn events_increasing(events: &Vec<StampEvent>) -> (r: bool)
    ensures
        r == strictly_increasing(event_views(events@)),
{
    let ghost evs = event_views(events@);
    let mut k: usize = 1;
    while k < events.len()
        invariant
            evs == event_views(events@),
            1 <= k,
            events.len() > 0 ==> k <= events.len(),
            forall|j: int|
                0 <= j < k - 1 && j < evs.len() - 1 ==> (#[trigger] evs[j]).timestamp().minute_of_day()
                    < evs[j + 1].timestamp().minute_of_day(),
        decreases events.len() - k,
    {
        let a = events[k - 1].timestamp();
        let b = events[k].timestamp();
        proof {
            assert(evs[k - 1] == events@[k - 1]@);
            assert(evs[k as int] == events@[k as int]@);
        }
        if !a.is_before(&b) {
            return false;
        }
        k += 1;
    }
    true
}

impl DayEntry {
    /// Reads a day from the text of its timesheet. Events must be strictly
    /// increasing in time.
    #[verifier::rlimit(30)]
    pub fn from_timesheet(content: &str) -> (r: Result<DayEntry, DayEntryError>)
        ensures
            match r {
                Ok(d) => {
                    &&& read_timesheet(content@) == Ok::<
                        ((int, int, int), Seq<ActivityView>),
                        DayEntryError,
                    >(((d.date.year as int, d.date.month as int, d.date.day as int), views(d.activities@)))
                    &&& d.wf()
                    &&& d.is_ordered()
                    &&& d.last_write_time == 0
                },
                Err(e) => read_timesheet(content@) == Err::<
                    ((int, int, int), Seq<ActivityView>),
                    DayEntryError,
                >(e),
            },
            (header_date(content@) is Some && timesheet_events(content@) is Some
                && !strictly_increasing(timesheet_events(content@)->0)) ==> r == Err::<
                DayEntry,
                DayEntryError,
            >(DayEntryError::OutOfOrderStampEvent),
    {
        let lines = content_lines_of(content);
        let ghost ls = strings_view(lines@);
        if lines.len() == 0 {
            return Err(DayEntryError::EmptyTimesheet);
        }
        let date = match Date::parse(lines[0].as_str(), DATE_FORMAT_TIMESHEET) {
            Some(d) => d,
            None => {
                return Err(DayEntryError::InvalidDate);
            },
        };
        proof {
            assert(ls[0] == lines@[0]@);
            assert(header_date(content@) == Some(
                (date.year as int, date.month as int, date.day as int),
            ));
        }
        let mut events: Vec<StampEvent> = Vec::new();
        let mut i: usize = 1;
        proof {
            assert(ls.subrange(1, 1) =~= Seq::<Seq<char>>::empty());
            assert(event_views(events@) =~= Seq::<StampEventView>::empty());
        }
        while i < lines.len()
            invariant
                1 <= i <= lines.len(),
                ls == strings_view(lines@),
                ls == content_lines(split_lines(content@)),
                parse_events(ls.subrange(1, i as int)) == Some(event_views(events@)),
                header_date(content@) == Some(
                    (date.year as int, date.month as int, date.day as int),
                ),
                date.wf(),
            decreases lines.len() - i,
        {
            proof {
                assert(ls.subrange(1, i + 1).drop_last() =~= ls.subrange(1, i as int));
                assert(ls.subrange(1, i + 1).last() == lines@[i as int]@);
            }
            match StampEvent::from_string(lines[i].as_str()) {
                Ok(e) => {
                    proof {
                        assert(event_views(events@.push(e)) =~= event_views(events@).push(e@));
                    }
                    events.push(e);
                },
                Err(err) => {
                    proof {
                        assert(ls.skip(1)[i - 1] == lines@[i as int]@);
                        lemma_parse_events_fails(ls.skip(1), i - 1);
                        assert(timesheet_events(content@) is None);
                    }
                    return Err(err);
                },
            }
            i += 1;
        }
        proof {
            assert(ls.subrange(1, lines.len() as int) =~= ls.skip(1));
        }
        let ghost evs = event_views(events@);
        proof {
            assert(timesheet_events(content@) == Some(evs));
        }
        if !events_increasing(&events) {
            return Err(DayEntryError::OutOfOrderStampEvent);
        }
        proof {
            lemma_parse_events_wf(ls.skip(1));
            assert forall|i: int| 0 <= i < evs.len() implies (#[trigger] evs[i]).timestamp().wf() by {
                assert(evs[i].wf());
            }
            lemma_increasing_events_few(evs);
            if reconstructed(evs) is Ok {
                lemma_reconstructed_times(evs);
                lemma_reconstructed_ordered(evs);
            }
        }
        match DayEntry::create_activities_from_stamp_events(events.as_slice()) {
            Ok(activities) => {
                proof {
                    let v = views(activities@);
                    assert forall|i: int| 0 <= i < activities@.len() implies times_wf(
                        #[trigger] activities@[i]@,
                    ) by {
                        assert(v[i] == activities@[i]@);
                    }
                }
                Ok(DayEntry { date, activities, last_write_time: 0 })
            },
            Err(e) => Err(e),
        }
    }

    /// The text of this day's timesheet.
    pub fn generate_timesheet(&self) -> (r: String)
        requires
            self.date.wf(),
        ensures
            r@ == timesheet_text(self.date, views(self.activities@)),
    {
        let mut r = self.date.format(DATE_FORMAT_TIMESHEET);
        r.append("\n------------------------\n\n");
        let events = DayEntry::create_stamp_events_from_activities(self.activities.as_slice());
        let ghost evs = event_views(events@);
        let ghost start = r@;
        let mut i: usize = 0;
        proof {
            assert(evs.take(0) =~= Seq::<StampEventView>::empty());
            assert(r@ =~= start + events_text(evs.take(0)));
        }
        while i < events.len()
            invariant
                i <= events.len(),
                evs == event_views(events@),
                r@ == start + events_text(evs.take(i as int)),
            decreases events.len() - i,
        {
            proof {
                assert(evs.take(i + 1).drop_last() =~= evs.take(i as int));
                assert(evs.take(i + 1).last() == events@[i as int]@);
            }
            let line = events[i].to_string();
            r.append(line.as_str());
            r.append("\n");
            proof {
                reveal_strlit("\n");
                assert(r@ =~= start + events_text(evs.take(i + 1)));
            }
            i += 1;
        }
        proof {
            assert(evs.take(events.len() as int) =~= evs);
        }
        r
    }
}

impl DayEntry {
    /// Where the timesheet of `date` is archived.
    pub fn timesheet_filepath_for_date(date: Date) -> (r: String)
        requires
            date.wf(),
        ensures
            r@ == "database/"@ + date.formatted("%Y_%m_%d__%b_%A"@) + "__timesheet.txt"@,
    {
        let mut r = String::from_str("database/");
        r.append(date.format(DATE_FORMAT_DATABASE).as_str());
        r.append("__timesheet.txt");
        r
    }

    /// Where the timesheet of the current day is kept.
    pub fn timesheet_filepath_default() -> (r: String)
        ensures
            r@ == "today__timesheet.txt"@,
    {
        String::from_str("today__timesheet.txt")
    }

    /// Where the report of `date` is archived.
    pub fn report_filepath_for_date(date: Date) -> (r: String)
        requires
            date.wf(),
        ensures
            r@ == "database/"@ + date.formatted("%Y_%m_%d__%b_%A"@) + "__report.txt"@,
    {
        let mut r = String::from_str("database/");
        r.append(date.format(DATE_FORMAT_DATABASE).as_str());
        r.append("__report.txt");
        r
    }

    /// Where the report of the current day is kept.
    pub fn report_filepath_default() -> (r: String)
        ensures
            r@ == "today__report.txt"@,
    {
        String::from_str("today__report.txt")
    }
}

proof fn lemma_replay_chronological(evs: Seq<StampEventView>)
    requires
        strictly_increasing(evs),
        evs.len() > 0,
        replay(evs) is Ok,
    ensures
        replay(evs)->Ok_0.1 is Some,
        replay(evs)->Ok_0.1->0.time_start == evs.last().timestamp(),
        chronological(replay(evs)->Ok_0.0.push(replay(evs)->Ok_0.1->0)),
        only_last_open(replay(evs)->Ok_0.0.push(replay(evs)->Ok_0.1->0)),
    decreases evs.len(),
{
    let t = evs.drop_last();
    let e = evs.last();
    if t.len() == 0 {
        let (done, cur) = replay(evs)->Ok_0;
        assert(done.push(cur->0) =~= seq![cur->0]);
    } else {
        assert(strictly_increasing(t)) by {
            assert forall|i: int| 0 <= i < t.len() - 1 implies (#[trigger] t[i]).timestamp().minute_of_day()
                < t[i + 1].timestamp().minute_of_day() by {
                assert(t[i] == evs[i] && t[i + 1] == evs[i + 1]);
            }
        }
        lemma_replay_chronological(t);
        let (done, cur) = replay(t)->Ok_0;
        let c = cur->0;
        let l = done.push(c);
        assert(c.time_start == evs[evs.len() - 2].timestamp());
        assert(c.time_start.minute_of_day() < e.timestamp().minute_of_day());
        let (done2, cur2) = replay(evs)->Ok_0;
        let l2 = done2.push(cur2->0);
        assert(l2.len() == l.len() + 1);
        assert forall|i: int| 0 <= i < l.len() implies (#[trigger] l[i]).time_start.minute_of_day()
            <= c.time_start.minute_of_day() by {
            assert(l[l.len() - 1] == c);
        }
        assert forall|i: int| 0 <= i < l.len() - 1 implies #[trigger] l2[i] == l[i] by {}
        assert forall|i: int, j: int|
            #![trigger l2[i], l2[j]]
            0 <= i < j < l2.len() implies l2[i].time_start.minute_of_day()
            <= l2[j].time_start.minute_of_day() by {
            assert(l2[i].time_start == l[i].time_start);
            if j < l.len() {
                assert(l2[j].time_start == l[j].time_start);
            } else {
                assert(l[i].time_start.minute_of_day() <= c.time_start.minute_of_day());
            }
        }
        assert forall|i: int|
            0 <= i < l2.len() && (#[trigger] l2[i]).time_end is Some implies l2[i].time_start.minute_of_day()
            <= l2[i].time_end->0.minute_of_day() by {
            if i < l.len() - 1 {
                assert(l2[i] == l[i]);
            }
        }
        assert forall|i: int| 0 <= i < l2.len() - 1 implies (#[trigger] l2[i]).time_end is Some by {
            if i < l.len() - 1 {
                assert(l2[i] == l[i]);
            }
        }
    }
}

/// Strictly increasing events give activities in the day's standing shape.
proof fn lemma_reconstructed_ordered(evs: Seq<StampEventView>)
    requires
        strictly_increasing(evs),
        reconstructed(evs) is Ok,
    ensures
        chronological(reconstructed(evs)->Ok_0),
        is_normal(reconstructed(evs)->Ok_0),
        only_last_open(reconstructed(evs)->Ok_0),
{
    let all = if evs.len() == 0 {
        Seq::<ActivityView>::empty()
    } else {
        lemma_replay_chronological(evs);
        replay(evs)->Ok_0.0.push(replay(evs)->Ok_0.1->0)
    };
    if evs.len() == 0 {
        assert(replay(evs)->Ok_0.0 =~= Seq::<ActivityView>::empty());
    }
    assert(reconstructed(evs)->Ok_0 == cleaned(all));
    lemma_cleaned_normal(all);
    lemma_cleaned_chronological(all);
    lemma_cleaned_only_last_open(all);
}

proof fn lemma_parse_events_wf(lines: Seq<Seq<char>>)
    requires
        parse_events(lines) is Some,
    ensures
        forall|i: int|
            0 <= i < parse_events(lines)->0.len() ==> (#[trigger] parse_events(lines)->0[i]).wf(),
        parse_events(lines)->0.len() == lines.len(),
    decreases lines.len(),
{
    if lines.len() > 0 {
        lemma_parse_events_wf(lines.drop_last());
        lemma_event_parse_exact(lines.last());
        let evs = parse_events(lines.drop_last())->0;
        let all = parse_events(lines)->0;
        assert forall|i: int| 0 <= i < all.len() implies (#[trigger] all[i]).wf() by {
            if i < evs.len() {
                assert(all[i] == evs[i]);
            }
        }
    }
}

/// Events strictly increasing in time within one day number at most 1440.
proof fn lemma_increasing_events_few(evs: Seq<StampEventView>)
    requires
        strictly_increasing(evs),
        forall|i: int| 0 <= i < evs.len() ==> (#[trigger] evs[i]).timestamp().wf(),
    ensures
        evs.len() <= 1440,
{
    if evs.len() > 0 {
        lemma_increasing_from(evs, evs.len() - 1);
        assert(evs[evs.len() - 1].timestamp().wf());
    }
}

proof fn lemma_increasing_from(evs: Seq<StampEventView>, k: int)
    requires
        strictly_increasing(evs),
        forall|i: int| 0 <= i < evs.len() ==> (#[trigger] evs[i]).timestamp().wf(),
        0 <= k < evs.len(),
    ensures
        evs[k].timestamp().minute_of_day() >= k,
    decreases k,
{
    if k > 0 {
        lemma_increasing_from(evs, k - 1);
        assert(evs[k - 1].timestamp().minute_of_day() < evs[k].timestamp().minute_of_day());
    }
    assert(evs[k].timestamp().wf());
}

proof fn lemma_parse_events_fails(lines: Seq<Seq<char>>, k: int)
    requires
        0 <= k < lines.len(),
        parse_event(lines[k]) is None,
    ensures
        parse_events(lines) is None,
    decreases lines.len(),
{
    if k < lines.len() - 1 {
        lemma_parse_events_fails(lines.drop_last(), k);
    }
}

pub open spec fn no_newline(s: Seq<char>) -> bool {
    forall|i: int| 0 <= i < s.len() ==> s[i] != '\n'
}

/// The lines of a list of events.
pub open spec fn event_lines(evs: Seq<StampEventView>) -> Seq<Seq<char>> {
    evs.map_values(|e: StampEventView| e.text())
}

proof fn lemma_split_nonempty(x: Seq<char>)
    ensures
        split_lines(x).len() >= 1,
    decreases x.len(),
{
    if x.len() > 0 {
        lemma_split_nonempty(x.drop_last());
    }
}

proof fn lemma_split_newline(x: Seq<char>)
    ensures
        split_lines(x.push('\n')) == split_lines(x).push(Seq::<char>::empty()),
{
    assert(x.push('\n').drop_last() =~= x);
}

/// Text without line feeds extends the last line.
proof fn lemma_split_append(x: Seq<char>, w: Seq<char>)
    requires
        no_newline(w),
    ensures
        split_lines(x + w) == split_lines(x).update(
            split_lines(x).len() - 1,
            split_lines(x).last() + w,
        ),
    decreases w.len(),
{
    lemma_split_nonempty(x);
    let s = split_lines(x);
    if w.len() == 0 {
        assert(x + w =~= x);
        assert(s.last() + w =~= s.last());
        assert(s.update(s.len() - 1, s.last() + w) =~= s);
    } else {
        let w2 = w.drop_last();
        lemma_split_append(x, w2);
        assert((x + w).drop_last() =~= x + w2);
        assert((x + w).last() == w[w.len() - 1]);
        assert((s.last() + w2).push(w.last()) =~= s.last() + w);
        assert(s.update(s.len() - 1, s.last() + w2).update(s.len() - 1, s.last() + w) =~= s.update(
            s.len() - 1,
            s.last() + w,
        ));
    }
}

proof fn lemma_split_events(x: Seq<char>, evs: Seq<StampEventView>)
    requires
        split_lines(x).last() == Seq::<char>::empty(),
        forall|i: int| 0 <= i < evs.len() ==> no_newline(#[trigger] evs[i].text()),
    ensures
        split_lines(x + events_text(evs)) == split_lines(x).drop_last() + event_lines(evs) + seq![
            Seq::<char>::empty(),
        ],
    decreases evs.len(),
{
    lemma_split_nonempty(x);
    let s = split_lines(x);
    if evs.len() == 0 {
        assert(x + events_text(evs) =~= x);
        assert(s.drop_last() + event_lines(evs) + seq![Seq::<char>::empty()] =~= s);
    } else {
        let e2 = evs.drop_last();
        let t = evs.last().text();
        assert forall|i: int| 0 <= i < e2.len() implies no_newline(#[trigger] e2[i].text()) by {
            assert(e2[i] == evs[i]);
        }
        lemma_split_events(x, e2);
        assert(no_newline(evs[evs.len() - 1].text()));
        let y = x + events_text(e2);
        lemma_split_append(y, t);
        lemma_split_newline(y + t);
        assert(x + events_text(evs) =~= (y + t).push('\n'));
        let m = s.drop_last() + event_lines(e2) + seq![Seq::<char>::empty()];
        assert(m.last() + t =~= t);
        assert(event_lines(evs) =~= event_lines(e2).push(t));
        assert(m.update(m.len() - 1, t).push(Seq::<char>::empty()) =~= s.drop_last() + event_lines(
            evs,
        ) + seq![Seq::<char>::empty()]);
    }
}

proof fn lemma_content_lines_concat(a: Seq<Seq<char>>, b: Seq<Seq<char>>)
    ensures
        content_lines(a + b) == content_lines(a) + content_lines(b),
    decreases b.len(),
{
    if b.len() == 0 {
        assert(a + b =~= a);
        assert(content_lines(a) + content_lines(b) =~= content_lines(a));
    } else {
        lemma_content_lines_concat(a, b.drop_last());
        assert((a + b).drop_last() =~= a + b.drop_last());
        assert((a + b).last() == b.last());
        let l = strip_cr(b.last());
        if is_content_line(l) {
            assert(content_lines(a) + content_lines(b.drop_last()).push(l) =~= (content_lines(a)
                + content_lines(b.drop_last())).push(l));
        }
    }
}

proof fn lemma_content_lines_identity(ls: Seq<Seq<char>>)
    requires
        forall|i: int|
            0 <= i < ls.len() ==> is_content_line(#[trigger] ls[i]) && strip_cr(ls[i]) == ls[i],
    ensures
        content_lines(ls) == ls,
    decreases ls.len(),
{
    if ls.len() > 0 {
        let t = ls.drop_last();
        assert forall|i: int| 0 <= i < t.len() implies is_content_line(#[trigger] t[i])
            && strip_cr(t[i]) == t[i] by {
            assert(t[i] == ls[i]);
        }
        lemma_content_lines_identity(t);
        assert(is_content_line(ls[ls.len() - 1]) && strip_cr(ls[ls.len() - 1]) == ls[ls.len() - 1]);
        assert(t.push(ls.last()) =~= ls);
    }
}

proof fn lemma_parse_event_lines(evs: Seq<StampEventView>)
    requires
        forall|i: int| 0 <= i < evs.len() ==> (#[trigger] evs[i]).wf(),
    ensures
        parse_events(event_lines(evs)) == Some(evs),
    decreases evs.len(),
{
    if evs.len() > 0 {
        let t = evs.drop_last();
        assert forall|i: int| 0 <= i < t.len() implies (#[trigger] t[i]).wf() by {
            assert(t[i] == evs[i]);
        }
        lemma_parse_event_lines(t);
        assert(event_lines(evs).drop_last() =~= event_lines(t));
        assert(evs[evs.len() - 1].wf());
        lemma_event_text_round_trip(evs.last());
        assert(t.push(evs.last()) =~= evs);
    }
}

proof fn lemma_timestamp_text_shape(t: TimeStamp)
    requires
        t.wf(),
    ensures
        t.text().len() == 5,
        is_digit(t.text()[0]),
        no_newline(t.text()),
{
    lemma_padded_two_digits(t.hours as nat);
    lemma_padded_two_digits(t.minutes as nat);
    lemma_digit_char((t.hours / 10) as int);
    lemma_digit_char((t.hours % 10) as int);
    lemma_digit_char((t.minutes / 10) as int);
    lemma_digit_char((t.minutes % 10) as int);
    assert(t.text() =~= seq![
        crate::time::digit_char((t.hours / 10) as int),
        crate::time::digit_char((t.hours % 10) as int),
        ':',
        crate::time::digit_char((t.minutes / 10) as int),
        crate::time::digit_char((t.minutes % 10) as int),
    ]);
}

/// The line of an event at a time within a day, with a name free of line
/// feeds, is a content line of its own.
proof fn lemma_event_line_shape(e: StampEventView)
    requires
        e.wf(),
        e matches StampEventView::Begin(_, name) ==> no_newline(name),
    ensures
        no_newline(e.text()),
        is_content_line(e.text()),
        strip_cr(e.text()) == e.text(),
{
    reveal_strlit(" - Begin [");
    reveal_strlit("]");
    reveal_strlit(" - Leave");
    reveal_strlit("---");
    let t = e.timestamp();
    lemma_timestamp_text_shape(t);
    let s = e.text();
    assert(s[0] == t.text()[0]);
    assert(s.take(3)[0] == s[0]);
    assert("---"@[0] == '-');
    match e {
        StampEventView::Begin(_, name) => {
            assert forall|i: int| 0 <= i < s.len() implies s[i] != '\n' by {
                if i < 5 {
                    assert(s[i] == t.text()[i]);
                } else if i < 15 {
                    assert(s[i] == " - Begin ["@[i - 5]);
                } else if i < 15 + name.len() {
                    assert(s[i] == name[i - 15]);
                } else {
                    assert(s[i] == ']');
                }
            }
            assert(s.last() == ']');
        },
        StampEventView::Leave(_) => {
            assert forall|i: int| 0 <= i < s.len() implies s[i] != '\n' by {
                if i < 5 {
                    assert(s[i] == t.text()[i]);
                } else {
                    assert(s[i] == " - Leave"@[i - 5]);
                }
            }
            assert(s.last() == 'e');
        },
    }
}

proof fn lemma_header_split(h: Seq<char>)
    requires
        no_newline(h),
    ensures
        split_lines(h + "\n------------------------\n\n"@) == seq![
            h,
            "------------------------"@,
            Seq::<char>::empty(),
            Seq::<char>::empty(),
        ],
{
    reveal_strlit("\n------------------------\n\n");
    reveal_strlit("------------------------");
    let dashes = "------------------------"@;
    let e0 = Seq::<char>::empty();
    assert(split_lines(e0) =~= seq![e0]);
    lemma_split_append(e0, h);
    assert(e0 + h =~= h);
    assert(split_lines(h) =~= seq![h]);
    lemma_split_newline(h);
    assert forall|i: int| 0 <= i < dashes.len() implies dashes[i] != '\n' by {}
    lemma_split_append(h.push('\n'), dashes);
    let x1 = h.push('\n') + dashes;
    assert(split_lines(x1) =~= seq![h, dashes]);
    lemma_split_newline(x1);
    lemma_split_newline(x1.push('\n'));
    let x = x1.push('\n').push('\n');
    assert(x =~= h + "\n------------------------\n\n"@);
    assert(split_lines(x) =~= seq![h, dashes, e0, e0]);
}

proof fn lemma_header_content(h: Seq<char>)
    requires
        is_content_line(h),
        strip_cr(h) == h,
    ensures
        content_lines(seq![h, "------------------------"@, Seq::<char>::empty()]) == seq![h],
{
    reveal_strlit("------------------------");
    reveal_strlit("---");
    let dashes = "------------------------"@;
    let e0 = Seq::<char>::empty();
    lemma_content_lines_concat(seq![h], seq![dashes, e0]);
    lemma_content_lines_concat(seq![dashes], seq![e0]);
    assert(seq![h] + seq![dashes, e0] =~= seq![h, dashes, e0]);
    assert(seq![dashes] + seq![e0] =~= seq![dashes, e0]);
    assert(seq![dashes].drop_last() =~= Seq::<Seq<char>>::empty());
    assert(seq![h].drop_last() =~= Seq::<Seq<char>>::empty());
    assert(seq![e0].drop_last() =~= Seq::<Seq<char>>::empty());
    assert(dashes.take(3) =~= "---"@);
    assert(seq![dashes].last() == dashes);
    assert(dashes.last() == '-');
    assert(strip_cr(dashes) == dashes);
    assert(!is_content_line(dashes));
    assert(content_lines(Seq::<Seq<char>>::empty()) =~= Seq::<Seq<char>>::empty());
    assert(content_lines(seq![dashes]) =~= Seq::<Seq<char>>::empty());
    assert(content_lines(seq![e0]) =~= Seq::<Seq<char>>::empty());
    assert(content_lines(seq![h]) =~= seq![h]);
    assert(content_lines(seq![dashes, e0]) =~= Seq::<Seq<char>>::empty());
}

/// The content lines of a written timesheet: its header, then one line per
/// event.
proof fn lemma_timesheet_lines(h: Seq<char>, evs: Seq<StampEventView>)
    requires
        no_newline(h),
        is_content_line(h),
        strip_cr(h) == h,
        forall|i: int|
            0 <= i < evs.len() ==> no_newline(#[trigger] evs[i].text()) && is_content_line(
                evs[i].text(),
            ) && strip_cr(evs[i].text()) == evs[i].text(),
    ensures
        content_lines(split_lines(h + "\n------------------------\n\n"@ + events_text(evs)))
            == seq![h] + event_lines(evs),
{
    let dashes = "------------------------"@;
    let e0 = Seq::<char>::empty();
    let x = h + "\n------------------------\n\n"@;
    lemma_header_split(h);
    lemma_split_events(x, evs);
    let pieces = split_lines(x + events_text(evs));
    assert(pieces =~= seq![h, dashes, e0] + event_lines(evs) + seq![e0]);
    lemma_content_lines_concat(seq![h, dashes, e0], event_lines(evs));
    lemma_content_lines_concat(seq![h, dashes, e0] + event_lines(evs), seq![e0]);
    lemma_header_content(h);
    assert(seq![e0].drop_last() =~= Seq::<Seq<char>>::empty());
    assert(content_lines(Seq::<Seq<char>>::empty()) =~= Seq::<Seq<char>>::empty());
    assert(content_lines(seq![e0]) =~= Seq::<Seq<char>>::empty());
    assert forall|i: int| 0 <= i < event_lines(evs).len() implies is_content_line(
        #[trigger] event_lines(evs)[i],
    ) && strip_cr(event_lines(evs)[i]) == event_lines(evs)[i] by {
        assert(event_lines(evs)[i] == evs[i].text());
    }
    lemma_content_lines_identity(event_lines(evs));
    assert(seq![h] + event_lines(evs) + Seq::<Seq<char>>::empty() =~= seq![h] + event_lines(evs));
}

/// Reading back the timesheet written for a day gives that day's date and
/// activities: for activities in stored form, starting strictly later one
/// after the other at times within the day, with work names that are not
/// empty and hold no line feed; and for a date whose header line chrono
/// writes as one content line and reads back as the same date.
#[verifier::rlimit(50)]
pub proof fn lemma_timesheet_round_trip(date: Date, acts: Seq<ActivityView>)
    requires
        canonical(acts),
        forall|i: int| 0 <= i < acts.len() ==> times_wf(#[trigger] acts[i]),
        forall|i: int|
            0 <= i < acts.len() - 1 ==> (#[trigger] acts[i]).time_start.minute_of_day()
                < acts[i + 1].time_start.minute_of_day(),
        forall|i: int|
            0 <= i < acts.len() && (#[trigger] acts[i]).is_work ==> acts[i].name.len() > 0
                && no_newline(acts[i].name),
        no_newline(date.formatted("Timesheet for %Y-%m-%d"@)),
        is_content_line(date.formatted("Timesheet for %Y-%m-%d"@)),
        strip_cr(date.formatted("Timesheet for %Y-%m-%d"@)) == date.formatted(
            "Timesheet for %Y-%m-%d"@,
        ),
        parsed_date(date.formatted("Timesheet for %Y-%m-%d"@), "Timesheet for %Y-%m-%d"@) == Some(
            (date.year as int, date.month as int, date.day as int),
        ),
    ensures
        read_timesheet(timesheet_text(date, acts)) == Ok::<
            ((int, int, int), Seq<ActivityView>),
            DayEntryError,
        >(((date.year as int, date.month as int, date.day as int), acts)),
{
    let h = date.formatted("Timesheet for %Y-%m-%d"@);
    let evs = events_of(acts);
    assert forall|i: int| 0 <= i < evs.len() implies (#[trigger] evs[i]).wf() && no_newline(
        evs[i].text(),
    ) && is_content_line(evs[i].text()) && strip_cr(evs[i].text()) == evs[i].text() by {
        assert(times_wf(acts[i]));
        lemma_event_line_shape(evs[i]);
    }
    lemma_timesheet_lines(h, evs);
    let content = timesheet_text(date, acts);
    assert(content =~= h + "\n------------------------\n\n"@ + events_text(evs));
    let lines = content_lines(split_lines(content));
    assert(lines[0] == h);
    assert(lines.skip(1) =~= event_lines(evs));
    lemma_parse_event_lines(evs);
    assert(strictly_increasing(evs)) by {
        assert forall|i: int| 0 <= i < evs.len() - 1 implies (#[trigger] evs[i]).timestamp().minute_of_day()
            < evs[i + 1].timestamp().minute_of_day() by {
            assert(evs[i].timestamp() == acts[i].time_start);
            assert(evs[i + 1].timestamp() == acts[i + 1].time_start);
        }
    }
    lemma_round_trip(acts);
}

} // verus!
