//! Day-based time and activity tracking: time-of-day primitives, the
//! reconstruction of labelled activity spans from a log of stamp events,
//! the cleanup rules that keep that list canonical, and the duration
//! queries and text artifacts derived from it.

pub mod time;
pub mod activity;
pub mod date;
pub mod dayentry;
pub mod cleanup;
pub mod stamp;
pub mod timesheet;
pub mod breakdown;
pub mod report;
pub mod names;
pub mod session;
