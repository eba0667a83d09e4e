//! The list of activity names the user can pick from.

use vstd::prelude::*;
use crate::timesheet::{split_lines, split_lines_of, strip_cr, strings_view};

verus! {

/// Longest activity name, in characters.
pub const MAX_ACTIVITY_NAME_LEN: usize = 70;

/// Most activity names, one per selection key.
pub const MAX_ACTIVITY_NAMES: usize = 9;

#[derive(Debug, Clone, Copy, PartialEq, Eq, Structural)]
pub enum ActivityNamesError {
    /// A name is longer than [`MAX_ACTIVITY_NAME_LEN`] characters.
    NameTooLong,
    /// There are more than [`MAX_ACTIVITY_NAMES`] names.
    TooManyNames,
}

/// The non-empty lines, carriage returns stripped.
pub open spec fn non_empty_lines(lines: Seq<Seq<char>>) -> Seq<Seq<char>>
    decreases lines.len(),
{
    if lines.len() == 0 {
        lines
    } else {
        let r = non_empty_lines(lines.drop_last());
        let l = strip_cr(lines.last());
        if l.len() > 0 {
            r.push(l)
        } else {
            r
        }
    }
}

/// The names that a names file lists, or why it is refused.
pub open spec fn read_activity_names(content: Seq<char>) -> Result<
    Seq<Seq<char>>,
    ActivityNamesError,
> {
    let names = non_empty_lines(split_lines(content));
    if exists|i: int| 0 <= i < names.len() && (#[trigger] names[i]).len() > 70 {
        Err(ActivityNamesError::NameTooLong)
    } else if names.len() > 9 {
        Err(ActivityNamesError::TooManyNames)
    } else {
        Ok(names)
    }
}

/// Reads the activity names, one per non-empty line.
pub fn parse_activity_names(content: &str) -> (r: Result<Vec<String>, ActivityNamesError>)
    ensures
        match r {
            Ok(v) => read_activity_names(content@) == Ok::<
                Seq<Seq<char>>,
                ActivityNamesError,
            >(strings_view(v@)),
            Err(e) => read_activity_names(content@) == Err::<Seq<Seq<char>>, ActivityNamesError>(
                e,
            ),
        },
{
    let lines = split_lines_of(content);
    let ghost ls = strings_view(lines@);
    let mut names: Vec<String> = Vec::new();
    let mut too_long = false;
    let mut i: usize = 0;
    proof {
        assert(ls.take(0) =~= Seq::<Seq<char>>::empty());
        assert(strings_view(names@) =~= Seq::<Seq<char>>::empty());
    }
    while i < lines.len()
        invariant
            i <= lines.len(),
            ls == strings_view(lines@),
            ls == split_lines(content@),
            strings_view(names@) == non_empty_lines(ls.take(i as int)),
            too_long == exists|j: int|
                0 <= j < names@.len() && (#[trigger] strings_view(names@)[j]).len() > 70,
        decreases lines.len() - i,
    {
        let l = lines[i].as_str();
        let len = l.unicode_len();
        let stripped = if len > 0 && l.get_char(len - 1) == '\r' {
            l.substring_char(0, len - 1)
        } else {
            l.substring_char(0, len)
        };
        proof {
            assert(ls.take(i + 1).drop_last() =~= ls.take(i as int));
            assert(ls.take(i + 1).last() == l@);
            if len > 0 && l@.last() == '\r' {
                assert(stripped@ =~= l@.drop_last());
            } else {
                assert(stripped@ =~= l@);
            }
        }
        let slen = stripped.unicode_len();
        if slen > 0 {
            let name = String::from_str(stripped);
            let ghost before = strings_view(names@);
            proof {
                assert(strings_view(names@.push(name)) =~= strings_view(names@).push(name@));
            }
            names.push(name);
            proof {
                let after = strings_view(names@);
                if too_long {
                    let j = choose|j: int| 0 <= j < before.len() && (#[trigger] before[j]).len() > 70;
                    assert(after[j] == before[j]);
                }
                if slen > MAX_ACTIVITY_NAME_LEN {
                    assert(after[after.len() - 1].len() > 70);
                }
                if !too_long && slen <= MAX_ACTIVITY_NAME_LEN {
                    assert forall|j: int| 0 <= j < after.len() implies !((#[trigger] after[j]).len()
                        > 70) by {
                        if j < before.len() {
                            assert(after[j] == before[j]);
                        }
                    }
                }
            }
            if slen > MAX_ACTIVITY_NAME_LEN {
                too_long = true;
            }
        }
        i += 1;
    }
    proof {
        assert(ls.take(lines.len() as int) =~= ls);
    }
    if too_long {
        return Err(ActivityNamesError::NameTooLong);
    }
    if names.len() > MAX_ACTIVITY_NAMES {
        return Err(ActivityNamesError::TooManyNames);
    }
    Ok(names)
}

} // verus!
