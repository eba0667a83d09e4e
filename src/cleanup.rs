//! The cleanup pass that keeps a day's activity list canonical.
//!
//! The pass runs in four steps: drop closed spans of zero length, name every
//! non-work span "Leave", merge neighbours of the same kind, and name the
//! closed non-work spans "Break".

use vstd::prelude::*;
use crate::activity::{
    Activity, ActivityView, views, leave_name, break_name, ACTIVITY_NAME_LEAVE,
    ACTIVITY_NAME_BREAK,
};
use crate::dayentry::{DayEntry, times_wf};

verus! {

/// A closed span that starts and ends at the same minute.
pub open spec fn is_zero_closed(a: ActivityView) -> bool {
    match a.time_end {
        Some(end) => end.minute_of_day() == a.time_start.minute_of_day(),
        None => false,
    }
}

/// Step one: the list without its closed zero-length spans.
pub open spec fn drop_zero(s: Seq<ActivityView>) -> Seq<ActivityView>
    decreases s.len(),
{
    if s.len() == 0 {
        s
    } else {
        let rest = drop_zero(s.drop_last());
        if is_zero_closed(s.last()) {
            rest
        } else {
            rest.push(s.last())
        }
    }
}

pub open spec fn renamed(a: ActivityView, name: Seq<char>) -> ActivityView {
    ActivityView { is_work: a.is_work, name, time_start: a.time_start, time_end: a.time_end }
}

pub open spec fn leave_renamed(a: ActivityView) -> ActivityView {
    if a.is_work {
        a
    } else {
        renamed(a, leave_name())
    }
}

/// Step two: every non-work span named "Leave".
pub open spec fn rename_leaves(s: Seq<ActivityView>) -> Seq<ActivityView> {
    s.map_values(|a: ActivityView| leave_renamed(a))
}

/// Same work flag and same name.
pub open spec fn same_kind(a: ActivityView, b: ActivityView) -> bool {
    a.is_work == b.is_work && a.name == b.name
}

/// Step three: each span that has the kind of the one before it is folded
/// into that one, which takes over its end.
pub open spec fn merge_adjacent(s: Seq<ActivityView>) -> Seq<ActivityView>
    decreases s.len(),
{
    if s.len() == 0 {
        s
    } else {
        let m = merge_adjacent(s.drop_last());
        let b = s.last();
        if m.len() > 0 && same_kind(m.last(), b) {
            m.update(
                m.len() - 1,
                ActivityView {
                    is_work: m.last().is_work,
                    name: m.last().name,
                    time_start: m.last().time_start,
                    time_end: b.time_end,
                },
            )
        } else {
            m.push(b)
        }
    }
}

pub open spec fn break_labeled(a: ActivityView) -> ActivityView {
    if !a.is_work && a.time_end is Some {
        renamed(a, break_name())
    } else {
        a
    }
}

/// Step four: every closed non-work span named "Break".
pub open spec fn label_breaks(s: Seq<ActivityView>) -> Seq<ActivityView> {
    s.map_values(|a: ActivityView| break_labeled(a))
}

/// The result of the whole cleanup pass.
pub open spec fn cleaned(s: Seq<ActivityView>) -> Seq<ActivityView> {
    label_breaks(merge_adjacent(rename_leaves(drop_zero(s))))
}

/// A non-work span is named "Break" once closed and "Leave" while running.
pub open spec fn properly_labeled(a: ActivityView) -> bool {
    !a.is_work ==> a.name == (if a.time_end is Some {
        break_name()
    } else {
        leave_name()
    })
}

/// Two spans that cleanup would merge: both non-work, or both work of the
/// same name.
pub open spec fn kind_eq(a: ActivityView, b: ActivityView) -> bool {
    a.is_work == b.is_work && (a.is_work ==> a.name == b.name)
}

/// The shape the cleanup pass leaves: no closed zero-length span, no two
/// neighbours of one kind, and non-work spans properly labelled.
pub open spec fn is_normal(s: Seq<ActivityView>) -> bool {
    &&& forall|i: int| 0 <= i < s.len() ==> !is_zero_closed(#[trigger] s[i])
    &&& forall|i: int| 0 <= i < s.len() - 1 ==> !kind_eq(#[trigger] s[i], s[i + 1])
    &&& forall|i: int| 0 <= i < s.len() ==> properly_labeled(#[trigger] s[i])
}

/// Starts never go back in time, and no closed span ends before it starts.
pub open spec fn chronological(s: Seq<ActivityView>) -> bool {
    &&& forall|i: int, j: int|
        #![trigger s[i], s[j]]
        0 <= i < j < s.len() ==> s[i].time_start.minute_of_day()
            <= s[j].time_start.minute_of_day()
    &&& forall|i: int|
        0 <= i < s.len() && (#[trigger] s[i]).time_end is Some ==> s[i].time_start.minute_of_day()
            <= s[i].time_end->0.minute_of_day()
}

/// Every closed span ends strictly after it starts.
pub open spec fn closed_spans_positive(s: Seq<ActivityView>) -> bool {
    forall|i: int|
        0 <= i < s.len() && (#[trigger] s[i]).time_end is Some ==> s[i].time_start.minute_of_day()
            < s[i].time_end->0.minute_of_day()
}

pub open spec fn non_work_named_leave(s: Seq<ActivityView>) -> bool {
    forall|i: int| 0 <= i < s.len() && !(#[trigger] s[i]).is_work ==> s[i].name == leave_name()
}

pub open spec fn starts_bounded(s: Seq<ActivityView>, bound: int) -> bool {
    forall|i: int| 0 <= i < s.len() ==> (#[trigger] s[i]).time_start.minute_of_day() <= bound
}

pub(crate) proof fn lemma_views_push(s: Seq<Activity>, a: Activity)
    ensures
        views(s.push(a)) == views(s).push(a@),
{
    assert(views(s.push(a)) =~= views(s).push(a@));
}

pub(crate) proof fn lemma_drop_zero_identity(s: Seq<ActivityView>)
    requires
        forall|i: int| 0 <= i < s.len() ==> !is_zero_closed(#[trigger] s[i]),
    ensures
        drop_zero(s) == s,
    decreases s.len(),
{
    if s.len() > 0 {
        let t = s.drop_last();
        assert forall|i: int| 0 <= i < t.len() implies !is_zero_closed(#[trigger] t[i]) by {
            assert(t[i] == s[i]);
        }
        lemma_drop_zero_identity(t);
        assert(!is_zero_closed(s[s.len() - 1]));
        assert(t.push(s.last()) =~= s);
    }
}

proof fn lemma_drop_zero_bounded(s: Seq<ActivityView>, bound: int)
    requires
        starts_bounded(s, bound),
    ensures
        starts_bounded(drop_zero(s), bound),
    decreases s.len(),
{
    if s.len() > 0 {
        let t = s.drop_last();
        assert(starts_bounded(t, bound)) by {
            assert forall|i: int| 0 <= i < t.len() implies (#[trigger] t[i]).time_start.minute_of_day()
                <= bound by {
                assert(t[i] == s[i]);
            }
        }
        lemma_drop_zero_bounded(t, bound);
        assert(s[s.len() - 1].time_start.minute_of_day() <= bound);
    }
}

/// Dropping zero-length spans from a chronological list leaves a
/// chronological list whose closed spans all have positive length.
proof fn lemma_drop_zero_chronological(s: Seq<ActivityView>)
    requires
        chronological(s),
    ensures
        chronological(drop_zero(s)),
        closed_spans_positive(drop_zero(s)),
    decreases s.len(),
{
    if s.len() > 0 {
        let t = s.drop_last();
        let b = s.last();
        assert(chronological(t)) by {
            assert forall|i: int, j: int|
                #![trigger t[i], t[j]]
                0 <= i < j < t.len() implies t[i].time_start.minute_of_day()
                <= t[j].time_start.minute_of_day() by {
                assert(t[i] == s[i] && t[j] == s[j]);
            }
            assert forall|i: int|
                0 <= i < t.len() && (#[trigger] t[i]).time_end is Some implies t[i].time_start.minute_of_day()
                <= t[i].time_end->0.minute_of_day() by {
                assert(t[i] == s[i]);
            }
        }
        lemma_drop_zero_chronological(t);
        let d = drop_zero(t);
        if !is_zero_closed(b) {
            assert(starts_bounded(t, b.time_start.minute_of_day())) by {
                assert forall|i: int| 0 <= i < t.len() implies (#[trigger] t[i]).time_start.minute_of_day()
                    <= b.time_start.minute_of_day() by {
                    assert(t[i] == s[i] && b == s[s.len() - 1]);
                }
            }
            lemma_drop_zero_bounded(t, b.time_start.minute_of_day());
            let e = d.push(b);
            assert(b == s[s.len() - 1]);
            assert forall|i: int, j: int|
                #![trigger e[i], e[j]]
                0 <= i < j < e.len() implies e[i].time_start.minute_of_day()
                <= e[j].time_start.minute_of_day() by {
                if j == e.len() - 1 {
                    assert(e[i] == d[i]);
                } else {
                    assert(e[i] == d[i] && e[j] == d[j]);
                }
            }
            assert forall|i: int|
                0 <= i < e.len() && (#[trigger] e[i]).time_end is Some implies e[i].time_start.minute_of_day()
                <= e[i].time_end->0.minute_of_day() && e[i].time_start.minute_of_day()
                < e[i].time_end->0.minute_of_day() by {
                if i < e.len() - 1 {
                    assert(e[i] == d[i]);
                }
            }
        }
    }
}

proof fn lemma_merge_bounded(s: Seq<ActivityView>, bound: int)
    requires
        starts_bounded(s, bound),
    ensures
        starts_bounded(merge_adjacent(s), bound),
    decreases s.len(),
{
    if s.len() > 0 {
        let t = s.drop_last();
        assert(starts_bounded(t, bound)) by {
            assert forall|i: int| 0 <= i < t.len() implies (#[trigger] t[i]).time_start.minute_of_day()
                <= bound by {
                assert(t[i] == s[i]);
            }
        }
        lemma_merge_bounded(t, bound);
        assert(s[s.len() - 1].time_start.minute_of_day() <= bound);
        let m = merge_adjacent(t);
        let r = merge_adjacent(s);
        assert forall|i: int| 0 <= i < r.len() implies (#[trigger] r[i]).time_start.minute_of_day()
            <= bound by {
            if i < m.len() {
                assert(r[i].time_start == m[i].time_start);
            }
        }
    }
}

/// Merging keeps every non-work span named "Leave" and keeps neighbours of
/// different kinds.
proof fn lemma_merge_shape(s: Seq<ActivityView>)
    requires
        non_work_named_leave(s),
    ensures
        non_work_named_leave(merge_adjacent(s)),
        forall|i: int|
            0 <= i < merge_adjacent(s).len() - 1 ==> !same_kind(
                #[trigger] merge_adjacent(s)[i],
                merge_adjacent(s)[i + 1],
            ),
        merge_adjacent(s).len() <= s.len(),
        s.len() > 0 ==> merge_adjacent(s).len() > 0,
    decreases s.len(),
{
    if s.len() > 0 {
        let t = s.drop_last();
        assert(non_work_named_leave(t)) by {
            assert forall|i: int| 0 <= i < t.len() && !(#[trigger] t[i]).is_work implies t[i].name
                == leave_name() by {
                assert(t[i] == s[i]);
            }
        }
        lemma_merge_shape(t);
        let m = merge_adjacent(t);
        let r = merge_adjacent(s);
        assert(s[s.len() - 1] == s.last());
        if m.len() > 0 && same_kind(m.last(), s.last()) {
            assert forall|i: int| 0 <= i < r.len() - 1 implies !same_kind(
                #[trigger] r[i],
                r[i + 1],
            ) by {
                assert(r[i] == m[i]);
                if i + 1 < m.len() - 1 {
                    assert(r[i + 1] == m[i + 1]);
                }
            }
        } else {
            assert forall|i: int| 0 <= i < r.len() - 1 implies !same_kind(
                #[trigger] r[i],
                r[i + 1],
            ) by {
                assert(r[i] == m[i]);
                if i + 1 < m.len() {
                    assert(r[i + 1] == m[i + 1]);
                }
            }
        }
    }
}

/// On a chronological list whose closed spans have positive length,
/// merging keeps closed spans positive.
proof fn lemma_merge_positive(s: Seq<ActivityView>)
    requires
        chronological(s),
        closed_spans_positive(s),
    ensures
        closed_spans_positive(merge_adjacent(s)),
    decreases s.len(),
{
    if s.len() > 0 {
        let t = s.drop_last();
        let b = s.last();
        assert(b == s[s.len() - 1]);
        assert(chronological(t)) by {
            assert forall|i: int, j: int|
                #![trigger t[i], t[j]]
                0 <= i < j < t.len() implies t[i].time_start.minute_of_day()
                <= t[j].time_start.minute_of_day() by {
                assert(t[i] == s[i] && t[j] == s[j]);
            }
            assert forall|i: int|
                0 <= i < t.len() && (#[trigger] t[i]).time_end is Some implies t[i].time_start.minute_of_day()
                <= t[i].time_end->0.minute_of_day() by {
                assert(t[i] == s[i]);
            }
        }
        assert(closed_spans_positive(t)) by {
            assert forall|i: int|
                0 <= i < t.len() && (#[trigger] t[i]).time_end is Some implies t[i].time_start.minute_of_day()
                < t[i].time_end->0.minute_of_day() by {
                assert(t[i] == s[i]);
            }
        }
        lemma_merge_positive(t);
        assert(starts_bounded(t, b.time_start.minute_of_day())) by {
            assert forall|i: int| 0 <= i < t.len() implies (#[trigger] t[i]).time_start.minute_of_day()
                <= b.time_start.minute_of_day() by {
                assert(t[i] == s[i]);
            }
        }
        lemma_merge_bounded(t, b.time_start.minute_of_day());
        let m = merge_adjacent(t);
        let r = merge_adjacent(s);
        assert forall|i: int|
            0 <= i < r.len() && (#[trigger] r[i]).time_end is Some implies r[i].time_start.minute_of_day()
            < r[i].time_end->0.minute_of_day() by {
            if i < m.len() - 1 {
                assert(r[i] == m[i]);
            } else if i == m.len() - 1 && !(m.len() > 0 && same_kind(m.last(), b)) {
                assert(r[i] == m[i]);
            }
        }
    }
}

proof fn lemma_rename_shape(s: Seq<ActivityView>)
    ensures
        non_work_named_leave(rename_leaves(s)),
        rename_leaves(s).len() == s.len(),
        chronological(s) ==> chronological(rename_leaves(s)),
        closed_spans_positive(s) ==> closed_spans_positive(rename_leaves(s)),
{
    let r = rename_leaves(s);
    assert forall|i: int| 0 <= i < r.len() implies #[trigger] r[i] == leave_renamed(s[i]) by {}
    if chronological(s) {
        assert forall|i: int, j: int|
            #![trigger r[i], r[j]]
            0 <= i < j < r.len() implies r[i].time_start.minute_of_day()
            <= r[j].time_start.minute_of_day() by {
            assert(r[i] == leave_renamed(s[i]) && r[j] == leave_renamed(s[j]));
        }
        assert forall|i: int|
            0 <= i < r.len() && (#[trigger] r[i]).time_end is Some implies r[i].time_start.minute_of_day()
            <= r[i].time_end->0.minute_of_day() by {
            assert(r[i] == leave_renamed(s[i]));
        }
    }
}

pub open spec fn all_times_wf(s: Seq<ActivityView>) -> bool {
    forall|i: int| 0 <= i < s.len() ==> times_wf(#[trigger] s[i])
}

proof fn lemma_drop_zero_times(s: Seq<ActivityView>)
    requires
        all_times_wf(s),
    ensures
        all_times_wf(drop_zero(s)),
        drop_zero(s).len() <= s.len(),
    decreases s.len(),
{
    if s.len() > 0 {
        let t = s.drop_last();
        assert(all_times_wf(t)) by {
            assert forall|i: int| 0 <= i < t.len() implies times_wf(#[trigger] t[i]) by {
                assert(t[i] == s[i]);
            }
        }
        lemma_drop_zero_times(t);
        assert(times_wf(s[s.len() - 1]));
    }
}

proof fn lemma_merge_times(s: Seq<ActivityView>)
    requires
        all_times_wf(s),
    ensures
        all_times_wf(merge_adjacent(s)),
        merge_adjacent(s).len() <= s.len(),
    decreases s.len(),
{
    if s.len() > 0 {
        let t = s.drop_last();
        assert(all_times_wf(t)) by {
            assert forall|i: int| 0 <= i < t.len() implies times_wf(#[trigger] t[i]) by {
                assert(t[i] == s[i]);
            }
        }
        lemma_merge_times(t);
        assert(times_wf(s[s.len() - 1]));
        let m = merge_adjacent(t);
        let r = merge_adjacent(s);
        assert forall|i: int| 0 <= i < r.len() implies times_wf(#[trigger] r[i]) by {
            if i < m.len() {
                assert(times_wf(m[i]));
            }
        }
    }
}

/// The pass keeps times within a day and never adds activities.
pub proof fn lemma_cleaned_times(s: Seq<ActivityView>)
    requires
        all_times_wf(s),
    ensures
        all_times_wf(cleaned(s)),
        cleaned(s).len() <= s.len(),
{
    let d = drop_zero(s);
    lemma_drop_zero_times(s);
    let r = rename_leaves(d);
    assert(all_times_wf(r)) by {
        assert forall|i: int| 0 <= i < r.len() implies times_wf(#[trigger] r[i]) by {
            assert(times_wf(d[i]));
        }
    }
    lemma_merge_times(r);
    let m = merge_adjacent(r);
    let c = cleaned(s);
    assert forall|i: int| 0 <= i < c.len() implies times_wf(#[trigger] c[i]) by {
        assert(times_wf(m[i]));
    }
}

proof fn lemma_merge_chronological(s: Seq<ActivityView>)
    requires
        chronological(s),
        closed_spans_positive(s),
    ensures
        chronological(merge_adjacent(s)),
    decreases s.len(),
{
    lemma_merge_positive(s);
    if s.len() > 0 {
        let t = s.drop_last();
        let b = s.last();
        assert(b == s[s.len() - 1]);
        assert(chronological(t)) by {
            assert forall|i: int, j: int|
                #![trigger t[i], t[j]]
                0 <= i < j < t.len() implies t[i].time_start.minute_of_day()
                <= t[j].time_start.minute_of_day() by {
                assert(t[i] == s[i] && t[j] == s[j]);
            }
            assert forall|i: int|
                0 <= i < t.len() && (#[trigger] t[i]).time_end is Some implies t[i].time_start.minute_of_day()
                <= t[i].time_end->0.minute_of_day() by {
                assert(t[i] == s[i]);
            }
        }
        assert(closed_spans_positive(t)) by {
            assert forall|i: int|
                0 <= i < t.len() && (#[trigger] t[i]).time_end is Some implies t[i].time_start.minute_of_day()
                < t[i].time_end->0.minute_of_day() by {
                assert(t[i] == s[i]);
            }
        }
        lemma_merge_chronological(t);
        assert(starts_bounded(t, b.time_start.minute_of_day())) by {
            assert forall|i: int| 0 <= i < t.len() implies (#[trigger] t[i]).time_start.minute_of_day()
                <= b.time_start.minute_of_day() by {
                assert(t[i] == s[i]);
            }
        }
        lemma_merge_bounded(t, b.time_start.minute_of_day());
        let m = merge_adjacent(t);
        let r = merge_adjacent(s);
        assert forall|i: int, j: int|
            #![trigger r[i], r[j]]
            0 <= i < j < r.len() implies r[i].time_start.minute_of_day()
            <= r[j].time_start.minute_of_day() by {
            assert(r[i].time_start == m[i].time_start);
            if j < m.len() {
                assert(r[j].time_start == m[j].time_start);
            }
        }
    }
}

/// On a chronological list the pass gives a chronological list.
pub proof fn lemma_cleaned_chronological(s: Seq<ActivityView>)
    requires
        chronological(s),
    ensures
        chronological(cleaned(s)),
{
    let d = drop_zero(s);
    lemma_drop_zero_chronological(s);
    let r = rename_leaves(d);
    lemma_rename_shape(d);
    lemma_merge_chronological(r);
    let m = merge_adjacent(r);
    let c = cleaned(s);
    assert forall|i: int, j: int|
        #![trigger c[i], c[j]]
        0 <= i < j < c.len() implies c[i].time_start.minute_of_day()
        <= c[j].time_start.minute_of_day() by {
        assert(c[i] == break_labeled(m[i]) && c[j] == break_labeled(m[j]));
    }
    assert forall|i: int|
        0 <= i < c.len() && (#[trigger] c[i]).time_end is Some implies c[i].time_start.minute_of_day()
        <= c[i].time_end->0.minute_of_day() by {
        assert(c[i] == break_labeled(m[i]));
    }
}

/// Every span but the last has ended.
pub open spec fn only_last_open(s: Seq<ActivityView>) -> bool {
    forall|i: int| 0 <= i < s.len() - 1 ==> (#[trigger] s[i]).time_end is Some
}

pub open spec fn all_closed(s: Seq<ActivityView>) -> bool {
    forall|i: int| 0 <= i < s.len() ==> (#[trigger] s[i]).time_end is Some
}

proof fn lemma_drop_zero_closed(s: Seq<ActivityView>)
    requires
        all_closed(s),
    ensures
        all_closed(drop_zero(s)),
    decreases s.len(),
{
    if s.len() > 0 {
        let t = s.drop_last();
        assert(all_closed(t)) by {
            assert forall|i: int| 0 <= i < t.len() implies (#[trigger] t[i]).time_end is Some by {
                assert(t[i] == s[i]);
            }
        }
        lemma_drop_zero_closed(t);
        assert(s[s.len() - 1].time_end is Some);
    }
}

proof fn lemma_merge_closed(s: Seq<ActivityView>)
    requires
        all_closed(s),
    ensures
        all_closed(merge_adjacent(s)),
    decreases s.len(),
{
    if s.len() > 0 {
        let t = s.drop_last();
        assert(all_closed(t)) by {
            assert forall|i: int| 0 <= i < t.len() implies (#[trigger] t[i]).time_end is Some by {
                assert(t[i] == s[i]);
            }
        }
        lemma_merge_closed(t);
        assert(s[s.len() - 1].time_end is Some);
        let m = merge_adjacent(t);
        let r = merge_adjacent(s);
        assert forall|i: int| 0 <= i < r.len() implies (#[trigger] r[i]).time_end is Some by {
            if i < m.len() - 1 {
                assert(r[i] == m[i]);
            } else if i == m.len() - 1 {
                assert(m[i].time_end is Some);
            }
        }
    }
}

/// The pass keeps every span but the last ended.
pub proof fn lemma_cleaned_only_last_open(s: Seq<ActivityView>)
    requires
        only_last_open(s),
    ensures
        only_last_open(cleaned(s)),
{
    if s.len() > 0 {
        let t = s.drop_last();
        assert(all_closed(t)) by {
            assert forall|i: int| 0 <= i < t.len() implies (#[trigger] t[i]).time_end is Some by {
                assert(t[i] == s[i]);
            }
        }
        lemma_drop_zero_closed(t);
        let d = drop_zero(s);
        let dt = drop_zero(t);
        assert(only_last_open(d)) by {
            assert forall|i: int| 0 <= i < d.len() - 1 implies (#[trigger] d[i]).time_end is Some by {
                assert(d[i] == dt[i]);
            }
        }
        let r = rename_leaves(d);
        if r.len() > 0 {
            let rt = r.drop_last();
            assert(all_closed(rt)) by {
                assert forall|i: int| 0 <= i < rt.len() implies (#[trigger] rt[i]).time_end is Some by {
                    assert(rt[i] == leave_renamed(d[i]));
                }
            }
            lemma_merge_closed(rt);
            let m = merge_adjacent(r);
            let mt = merge_adjacent(rt);
            assert(r.drop_last() == rt);
            assert(only_last_open(m)) by {
                assert forall|i: int| 0 <= i < m.len() - 1 implies (#[trigger] m[i]).time_end is Some by {
                    assert(m[i] == mt[i]);
                }
            }
            let c = cleaned(s);
            assert forall|i: int| 0 <= i < c.len() - 1 implies (#[trigger] c[i]).time_end is Some by {
                assert(c[i] == break_labeled(m[i]));
            }
        }
    }
}

/// After the pass, every non-work span is properly labelled.
pub proof fn lemma_cleaned_labels(s: Seq<ActivityView>)
    ensures
        forall|i: int| 0 <= i < cleaned(s).len() ==> properly_labeled(#[trigger] cleaned(s)[i]),
{
    let r = rename_leaves(drop_zero(s));
    lemma_rename_shape(drop_zero(s));
    lemma_merge_shape(r);
    let m = merge_adjacent(r);
    let c = cleaned(s);
    assert forall|i: int| 0 <= i < c.len() implies properly_labeled(#[trigger] c[i]) by {
        assert(c[i] == break_labeled(m[i]));
    }
}

/// On a chronological list the pass produces its own normal shape.
pub(crate) proof fn lemma_cleaned_normal(s: Seq<ActivityView>)
    requires
        chronological(s),
    ensures
        is_normal(cleaned(s)),
{
    let d = drop_zero(s);
    lemma_drop_zero_chronological(s);
    let r = rename_leaves(d);
    lemma_rename_shape(d);
    lemma_merge_shape(r);
    lemma_merge_positive(r);
    lemma_cleaned_labels(s);
    let m = merge_adjacent(r);
    let c = cleaned(s);
    assert forall|i: int| 0 <= i < c.len() implies !is_zero_closed(#[trigger] c[i]) by {
        assert(c[i] == break_labeled(m[i]));
    }
    assert forall|i: int| 0 <= i < c.len() - 1 implies !kind_eq(#[trigger] c[i], c[i + 1]) by {
        assert(c[i] == break_labeled(m[i]) && c[i + 1] == break_labeled(m[i + 1]));
        assert(!same_kind(m[i], m[i + 1]));
    }
}

proof fn lemma_merge_identity(s: Seq<ActivityView>)
    requires
        forall|i: int| 0 <= i < s.len() - 1 ==> !same_kind(#[trigger] s[i], s[i + 1]),
    ensures
        merge_adjacent(s) == s,
    decreases s.len(),
{
    if s.len() > 0 {
        let t = s.drop_last();
        assert forall|i: int| 0 <= i < t.len() - 1 implies !same_kind(#[trigger] t[i], t[i + 1]) by {
            assert(t[i] == s[i] && t[i + 1] == s[i + 1]);
        }
        lemma_merge_identity(t);
        if t.len() > 0 {
            assert(t.last() == s[s.len() - 2]);
        }
        assert(t.push(s.last()) =~= s);
    }
}

/// The pass leaves a list of its normal shape unchanged.
pub proof fn lemma_cleanup_of_normal(s: Seq<ActivityView>)
    requires
        is_normal(s),
    ensures
        cleaned(s) == s,
{
    lemma_drop_zero_identity(s);
    let r = rename_leaves(s);
    assert forall|i: int| 0 <= i < r.len() - 1 implies !same_kind(#[trigger] r[i], r[i + 1]) by {
        assert(r[i] == leave_renamed(s[i]) && r[i + 1] == leave_renamed(s[i + 1]));
        assert(!kind_eq(s[i], s[i + 1]));
    }
    lemma_merge_identity(r);
    assert forall|i: int| 0 <= i < s.len() implies #[trigger] label_breaks(r)[i] == s[i] by {
        assert(properly_labeled(s[i]));
    }
    assert(label_breaks(r) =~= s);
}

/// Cleaning twice gives what cleaning once gives, for any list whose starts
/// never go back in time and whose closed spans never end before they start.
pub proof fn lemma_cleanup_idempotent(s: Seq<ActivityView>)
    requires
        chronological(s),
    ensures
        cleaned(cleaned(s)) == cleaned(s),
{
    lemma_cleaned_normal(s);
    lemma_cleanup_of_normal(cleaned(s));
}

fn drop_zero_activities(v: &Vec<Activity>) -> (r: Vec<Activity>)
    ensures
        views(r@) == drop_zero(views(v@)),
{
    let mut r: Vec<Activity> = Vec::new();
    let mut i: usize = 0;
    while i < v.len()
        invariant
            i <= v.len(),
            views(r@) == drop_zero(views(v@).take(i as int)),
        decreases v.len() - i,
    {
        let a = &v[i];
        let keep = match a.time_end {
            Some(end) => end.minutes_since(a.time_start).minutes != 0,
            None => true,
        };
        proof {
            assert(views(v@).take(i + 1).drop_last() =~= views(v@).take(i as int));
            assert(views(v@).take(i + 1).last() == a@);
        }
        if keep {
            let c = a.copied();
            proof {
                lemma_views_push(r@, c);
            }
            r.push(c);
        }
        i += 1;
    }
    proof {
        assert(views(v@).take(v.len() as int) =~= views(v@));
    }
    r
}

fn rename_leave_activities(v: &Vec<Activity>) -> (r: Vec<Activity>)
    ensures
        views(r@) == rename_leaves(views(v@)),
{
    let mut r: Vec<Activity> = Vec::new();
    let mut i: usize = 0;
    while i < v.len()
        invariant
            i <= v.len(),
            r.len() == i,
            forall|k: int| 0 <= k < i ==> (#[trigger] r@[k])@ == leave_renamed(v@[k]@),
        decreases v.len() - i,
    {
        let mut a = v[i].copied();
        if !a.is_work {
            a.name = String::from_str(ACTIVITY_NAME_LEAVE);
        }
        r.push(a);
        i += 1;
    }
    proof {
        assert(views(r@) =~= rename_leaves(views(v@)));
    }
    r
}

fn merge_adjacent_activities(v: &Vec<Activity>) -> (r: Vec<Activity>)
    ensures
        views(r@) == merge_adjacent(views(v@)),
{
    let mut r: Vec<Activity> = Vec::new();
    let mut i: usize = 0;
    while i < v.len()
        invariant
            i <= v.len(),
            views(r@) == merge_adjacent(views(v@).take(i as int)),
        decreases v.len() - i,
    {
        let a = &v[i];
        proof {
            assert(views(v@).take(i + 1).drop_last() =~= views(v@).take(i as int));
            assert(views(v@).take(i + 1).last() == a@);
        }
        let n = r.len();
        if n > 0 && r[n - 1].is_work == a.is_work && r[n - 1].name == a.name {
            let ghost before = r@;
            let mut last = r.pop().unwrap();
            last.time_end = a.time_end;
            r.push(last);
            proof {
                assert(views(r@) =~= views(before).update(
                    n - 1,
                    ActivityView {
                        is_work: before[n - 1]@.is_work,
                        name: before[n - 1]@.name,
                        time_start: before[n - 1]@.time_start,
                        time_end: a@.time_end,
                    },
                ));
            }
        } else {
            let c = a.copied();
            proof {
                lemma_views_push(r@, c);
            }
            r.push(c);
        }
        i += 1;
    }
    proof {
        assert(views(v@).take(v.len() as int) =~= views(v@));
    }
    r
}

fn label_break_activities(v: &Vec<Activity>) -> (r: Vec<Activity>)
    ensures
        views(r@) == label_breaks(views(v@)),
{
    let mut r: Vec<Activity> = Vec::new();
    let mut i: usize = 0;
    while i < v.len()
        invariant
            i <= v.len(),
            r.len() == i,
            forall|k: int| 0 <= k < i ==> (#[trigger] r@[k])@ == break_labeled(v@[k]@),
        decreases v.len() - i,
    {
        let mut a = v[i].copied();
        if !a.is_work && a.time_end.is_some() {
            a.name = String::from_str(ACTIVITY_NAME_BREAK);
        }
        r.push(a);
        i += 1;
    }
    proof {
        assert(views(r@) =~= label_breaks(views(v@)));
    }
    r
}

impl DayEntry {
    /// Brings a list of activities into its canonical shape: closed spans of
    /// zero length go, neighbours of the same kind merge, and non-work spans
    /// are named "Break" once closed and "Leave" while running.
    pub fn cleanup_activities(activities: &mut Vec<Activity>)
        ensures
            views(final(activities)@) == cleaned(views(old(activities)@)),
            forall|i: int|
                0 <= i < final(activities)@.len() ==> properly_labeled(
                    #[trigger] final(activities)@[i]@,
                ),
            chronological(views(old(activities)@)) ==> is_normal(views(final(activities)@))
                && chronological(views(final(activities)@)),
            only_last_open(views(old(activities)@)) ==> only_last_open(views(final(activities)@)),
    {
        let step1 = drop_zero_activities(activities);
        let step2 = rename_leave_activities(&step1);
        let step3 = merge_adjacent_activities(&step2);
        let step4 = label_break_activities(&step3);
        *activities = step4;
        proof {
            let c = cleaned(views(old(activities)@));
            lemma_cleaned_labels(views(old(activities)@));
            assert forall|i: int| 0 <= i < final(activities)@.len() implies properly_labeled(
                #[trigger] final(activities)@[i]@,
            ) by {
                assert(final(activities)@[i]@ == c[i]);
            }
            if chronological(views(old(activities)@)) {
                lemma_cleaned_normal(views(old(activities)@));
                lemma_cleaned_chronological(views(old(activities)@));
            }
            if only_last_open(views(old(activities)@)) {
                lemma_cleaned_only_last_open(views(old(activities)@));
            }
        }
    }
}

} // verus!
