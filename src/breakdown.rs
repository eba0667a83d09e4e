//! Work time per activity name.

use vstd::prelude::*;
use crate::activity::{ActivityView, views};
use crate::dayentry::{DayEntry, times_wf, lemma_duration_bounded};
use crate::time::{TimeDuration, TimeStamp};

verus! {

/// The names of the work activities, each once, in order of first
/// occurrence.
pub open spec fn work_names(s: Seq<ActivityView>) -> Seq<Seq<char>>
    decreases s.len(),
{
    if s.len() == 0 {
        Seq::empty()
    } else {
        let n = work_names(s.drop_last());
        let a = s.last();
        if a.is_work && !n.contains(a.name) {
            n.push(a.name)
        } else {
            n
        }
    }
}

/// Sum of the durations of the work activities called `name`.
pub open spec fn named_total(s: Seq<ActivityView>, now: TimeStamp, name: Seq<char>) -> int
    decreases s.len(),
{
    if s.len() == 0 {
        0
    } else {
        named_total(s.drop_last(), now, name) + if s.last().is_work && s.last().name == name {
            s.last().duration_at(now)
        } else {
            0
        }
    }
}

/// Where `d` goes in a list sorted by descending duration: after every
/// entry at least as long.
pub open spec fn first_shorter(sorted: Seq<(Seq<char>, int)>, d: int) -> int
    decreases sorted.len(),
{
    if sorted.len() == 0 {
        0
    } else if sorted[0].1 < d {
        0
    } else {
        1 + first_shorter(sorted.skip(1), d)
    }
}

pub open spec fn insert_desc(sorted: Seq<(Seq<char>, int)>, x: (Seq<char>, int)) -> Seq<
    (Seq<char>, int),
> {
    sorted.insert(first_shorter(sorted, x.1), x)
}

/// Stable sort by descending duration: entries of equal duration keep
/// their order.
pub open spec fn sort_desc(s: Seq<(Seq<char>, int)>) -> Seq<(Seq<char>, int)>
    decreases s.len(),
{
    if s.len() == 0 {
        s
    } else {
        insert_desc(sort_desc(s.drop_last()), s.last())
    }
}

/// Each work name with the summed duration of the work activities of that
/// name.
pub open spec fn name_totals(s: Seq<ActivityView>, now: TimeStamp) -> Seq<(Seq<char>, int)> {
    work_names(s).map_values(|n: Seq<char>| (n, named_total(s, now, n)))
}

/// Work names with their durations, longest first, ties in order of first
/// occurrence.
pub open spec fn activity_durations(s: Seq<ActivityView>, now: TimeStamp) -> Seq<
    (Seq<char>, int),
> {
    sort_desc(name_totals(s, now))
}

pub open spec fn pairs_view(v: Seq<(String, TimeDuration)>) -> Seq<(Seq<char>, int)> {
    v.map_values(|p: (String, TimeDuration)| (p.0@, p.1.minutes as int))
}

pub open spec fn sorted_desc(s: Seq<(Seq<char>, int)>) -> bool {
    forall|i: int, j: int| #![trigger s[i], s[j]] 0 <= i < j < s.len() ==> s[i].1 >= s[j].1
}

proof fn lemma_first_shorter(s: Seq<(Seq<char>, int)>, d: int, p: int)
    requires
        0 <= p <= s.len(),
        forall|j: int| 0 <= j < p ==> (#[trigger] s[j]).1 >= d,
        p < s.len() ==> s[p].1 < d,
    ensures
        first_shorter(s, d) == p,
    decreases s.len(),
{
    if s.len() > 0 && p > 0 {
        let t = s.skip(1);
        assert forall|j: int| 0 <= j < p - 1 implies (#[trigger] t[j]).1 >= d by {
            assert(t[j] == s[j + 1]);
        }
        if p < s.len() {
            assert(t[p - 1] == s[p]);
        }
        lemma_first_shorter(t, d, p - 1);
        assert(s[0].1 >= d);
    }
}

proof fn lemma_first_shorter_bounds(s: Seq<(Seq<char>, int)>, d: int)
    ensures
        0 <= first_shorter(s, d) <= s.len(),
        forall|j: int| 0 <= j < first_shorter(s, d) ==> (#[trigger] s[j]).1 >= d,
        first_shorter(s, d) < s.len() ==> s[first_shorter(s, d)].1 < d,
    decreases s.len(),
{
    if s.len() > 0 && s[0].1 >= d {
        let t = s.skip(1);
        lemma_first_shorter_bounds(t, d);
        assert forall|j: int| 0 <= j < first_shorter(s, d) implies (#[trigger] s[j]).1 >= d by {
            if j > 0 {
                assert(s[j] == t[j - 1]);
            }
        }
        if first_shorter(s, d) < s.len() {
            assert(s[first_shorter(s, d)] == t[first_shorter(t, d)]);
        }
    }
}

/// Inserting at its place keeps a list sorted by descending duration.
proof fn lemma_insert_desc_sorted(s: Seq<(Seq<char>, int)>, x: (Seq<char>, int))
    requires
        sorted_desc(s),
    ensures
        sorted_desc(insert_desc(s, x)),
        insert_desc(s, x).len() == s.len() + 1,
{
    lemma_first_shorter_bounds(s, x.1);
    let p = first_shorter(s, x.1);
    s.insert_ensures(p, x);
    let r = insert_desc(s, x);
    assert forall|i: int, j: int| #![trigger r[i], r[j]] 0 <= i < j < r.len() implies r[i].1
        >= r[j].1 by {
        if i < p && j < p {
            assert(r[i] == s[i] && r[j] == s[j]);
        } else if i < p && j == p {
            assert(r[i] == s[i]);
        } else if i < p {
            assert(r[i] == s[i] && r[j] == s[j - 1]);
        } else if i == p {
            assert(r[j] == s[j - 1]);
            assert(s[p].1 < x.1);
            assert(s[p].1 >= s[j - 1].1 || p == j - 1);
        } else {
            assert(r[i] == s[i - 1] && r[j] == s[j - 1]);
        }
    }
}

/// The sort gives a list sorted by descending duration.
pub proof fn lemma_sort_desc_sorted(s: Seq<(Seq<char>, int)>)
    ensures
        sorted_desc(sort_desc(s)),
        sort_desc(s).len() == s.len(),
    decreases s.len(),
{
    if s.len() > 0 {
        lemma_sort_desc_sorted(s.drop_last());
        lemma_insert_desc_sorted(sort_desc(s.drop_last()), s.last());
    }
}

fn contains_name(names: &Vec<String>, name: &String) -> (r: bool)
    ensures
        r == names@.map_values(|s: String| s@).contains(name@),
{
    let ghost v = names@.map_values(|s: String| s@);
    let mut i: usize = 0;
    while i < names.len()
        invariant
            i <= names.len(),
            v == names@.map_values(|s: String| s@),
            forall|j: int| 0 <= j < i ==> v[j] != name@,
        decreases names.len() - i,
    {
        if names[i] == *name {
            proof {
                assert(v[i as int] == name@);
            }
            return true;
        }
        i += 1;
    }
    false
}

impl DayEntry {
    /// Sum of the durations of the work activities called `name`.
    pub fn named_duration(&self, name: &String, now: TimeStamp) -> (r: TimeDuration)
        requires
            self.wf(),
            now.wf(),
        ensures
            r.minutes == named_total(views(self.activities@), now, name@),
    {
        let ghost s = views(self.activities@);
        let mut sum: i64 = 0;
        let mut i: usize = 0;
        proof {
            assert(s.take(0) =~= Seq::<ActivityView>::empty());
        }
        while i < self.activities.len()
            invariant
                self.wf(),
                now.wf(),
                s == views(self.activities@),
                i <= self.activities.len(),
                sum == named_total(s.take(i as int), now, name@),
                -1439 * i <= sum <= 1439 * i,
            decreases self.activities.len() - i,
        {
            let a = &self.activities[i];
            proof {
                assert(s.take(i + 1).drop_last() =~= s.take(i as int));
                assert(s.take(i + 1).last() == a@);
                assert(times_wf(self.activities@[i as int]@));
                lemma_duration_bounded(a@, now);
            }
            if a.is_work && a.name == *name {
                let d = a.duration(now);
                sum = sum + d.minutes;
            }
            i += 1;
        }
        proof {
            assert(s.take(self.activities.len() as int) =~= s);
        }
        TimeDuration { minutes: sum }
    }

    /// The distinct work names of the day, in order of first occurrence.
    pub fn work_activity_names(&self) -> (r: Vec<String>)
        ensures
            r@.map_values(|s: String| s@) == work_names(views(self.activities@)),
    {
        let ghost s = views(self.activities@);
        let mut names: Vec<String> = Vec::new();
        let mut i: usize = 0;
        proof {
            assert(s.take(0) =~= Seq::<ActivityView>::empty());
            assert(names@.map_values(|s: String| s@) =~= Seq::<Seq<char>>::empty());
        }
        while i < self.activities.len()
            invariant
                s == views(self.activities@),
                i <= self.activities.len(),
                names@.map_values(|s: String| s@) == work_names(s.take(i as int)),
            decreases self.activities.len() - i,
        {
            let a = &self.activities[i];
            proof {
                assert(s.take(i + 1).drop_last() =~= s.take(i as int));
                assert(s.take(i + 1).last() == a@);
            }
            if a.is_work && !contains_name(&names, &a.name) {
                let n = a.name.clone();
                proof {
                    assert(names@.push(n).map_values(|s: String| s@) =~= names@.map_values(
                        |s: String| s@,
                    ).push(n@));
                }
                names.push(n);
            }
            i += 1;
        }
        proof {
            assert(s.take(self.activities.len() as int) =~= s);
        }
        names
    }

    /// Work time per activity name, longest first; names of equal duration
    /// keep the order in which they first occur.
    pub fn get_activity_durations(&self, now: TimeStamp) -> (r: Vec<(String, TimeDuration)>)
        requires
            self.wf(),
            now.wf(),
        ensures
            pairs_view(r@) == activity_durations(views(self.activities@), now),
            sorted_desc(pairs_view(r@)),
    {
        let ghost s = views(self.activities@);
        let names = self.work_activity_names();
        let ghost nv = names@.map_values(|s: String| s@);
        let ghost totals = name_totals(s, now);
        let mut r: Vec<(String, TimeDuration)> = Vec::new();
        let mut i: usize = 0;
        proof {
            assert(totals.take(0) =~= Seq::<(Seq<char>, int)>::empty());
            assert(pairs_view(r@) =~= Seq::<(Seq<char>, int)>::empty());
        }
        while i < names.len()
            invariant
                self.wf(),
                now.wf(),
                s == views(self.activities@),
                nv == names@.map_values(|s: String| s@),
                nv == work_names(s),
                totals == name_totals(s, now),
                i <= names.len(),
                pairs_view(r@) == sort_desc(totals.take(i as int)),
            decreases names.len() - i,
        {
            let name = names[i].clone();
            let d = self.named_duration(&name, now);
            let ghost x = (name@, d.minutes as int);
            proof {
                assert(totals.take(i + 1).drop_last() =~= totals.take(i as int));
                assert(nv[i as int] == name@);
                assert(totals.take(i + 1).last() == x);
            }
            let ghost before = pairs_view(r@);
            let mut p: usize = 0;
            while p < r.len() && r[p].1.minutes >= d.minutes
                invariant
                    p <= r.len(),
                    before == pairs_view(r@),
                    forall|j: int| 0 <= j < p ==> (#[trigger] before[j]).1 >= d.minutes,
                decreases r.len() - p,
            {
                p += 1;
            }
            proof {
                lemma_first_shorter(before, d.minutes as int, p as int);
            }
            r.insert(p, (name, d));
            proof {
                assert(pairs_view(r@) =~= before.insert(p as int, x));
            }
            i += 1;
        }
        proof {
            assert(totals.take(names.len() as int) =~= totals);
            lemma_sort_desc_sorted(totals);
        }
        r
    }
}

} // verus!
