//! What the user's keys do to the day.

use vstd::prelude::*;
use crate::activity::{
    non_specific_work_name, leave_name, ACTIVITY_NAME_LEAVE, ACTIVITY_NAME_NON_SPECIFIC_WORK,
};
use crate::dayentry::DayEntry;
use crate::time::TimeDuration;
use crate::timesheet::strings_view;

verus! {

/// Least preferred working time the user can set, in minutes.
pub const MIN_PREFERRED_WORKING_MINUTES: i64 = 240;

/// Most preferred working time the user can set, in minutes.
pub const MAX_PREFERRED_WORKING_MINUTES: i64 = 600;

/// The activity that a selection starts: `(name, is_work)`.
pub open spec fn selected_activity(
    current: Option<(bool, Seq<char>)>,
    selection: int,
    names: Seq<Seq<char>>,
) -> Option<(Seq<char>, bool)> {
    if selection == 0 {
        if current matches Some(c) && c.0 {
            Some((leave_name(), false))
        } else {
            Some((non_specific_work_name(), true))
        }
    } else if selection - 1 < names.len() {
        if current matches Some(c) && c.1 == names[selection - 1] {
            Some((non_specific_work_name(), true))
        } else {
            Some((names[selection - 1], true))
        }
    } else {
        None
    }
}

impl DayEntry {
    pub open spec fn current_kind(&self) -> Option<(bool, Seq<char>)> {
        if self.activities@.len() == 0 {
            None
        } else {
            Some((self.activities@.last().is_work, self.activities@.last().name@))
        }
    }

    /// What a selection key asks for. Selection 0 toggles between leave and
    /// non-specific work; selection `k` toggles the `k`-th listed name, going
    /// back to non-specific work when it is already running; `None` when
    /// nothing is listed under `k`.
    pub fn activity_for_selection(&self, selection: usize, names: &Vec<String>) -> (r: Option<
        (String, bool),
    >)
        ensures
            match r {
                Some(p) => selected_activity(self.current_kind(), selection as int, strings_view(names@))
                    == Some((p.0@, p.1)),
                None => selected_activity(self.current_kind(), selection as int, strings_view(names@))
                    is None,
            },
    {
        if selection == 0 {
            if self.is_currently_working() {
                Some((String::from_str(ACTIVITY_NAME_LEAVE), false))
            } else {
                Some((String::from_str(ACTIVITY_NAME_NON_SPECIFIC_WORK), true))
            }
        } else if selection - 1 < names.len() {
            let name = &names[selection - 1];
            let is_active = match self.get_current_activity() {
                Some(a) => a.name == *name,
                None => false,
            };
            if is_active {
                Some((String::from_str(ACTIVITY_NAME_NON_SPECIFIC_WORK), true))
            } else {
                Some((name.clone(), true))
            }
        } else {
            None
        }
    }
}

/// The preferred working time after the increase key (one minute more) or
/// the decrease key (a quarter hour less), kept within the allowed range.
pub fn adjust_preferred_working_time(preferred: TimeDuration, increase: bool) -> (r: TimeDuration)
    ensures
        increase ==> r.minutes == if preferred.minutes + 1 < 600 {
            preferred.minutes + 1
        } else {
            600
        },
        !increase ==> r.minutes == if preferred.minutes - 15 > 240 {
            preferred.minutes - 15
        } else {
            240
        },
{
    if increase {
        if preferred.minutes < MAX_PREFERRED_WORKING_MINUTES - 1 {
            TimeDuration { minutes: preferred.minutes + 1 }
        } else {
            TimeDuration { minutes: MAX_PREFERRED_WORKING_MINUTES }
        }
    } else {
        if preferred.minutes > MIN_PREFERRED_WORKING_MINUTES + 15 {
            TimeDuration { minutes: preferred.minutes - 15 }
        } else {
            TimeDuration { minutes: MIN_PREFERRED_WORKING_MINUTES }
        }
    }
}

} // verus!
