//! Weekly university timetables: validating that a grid tiles its slot
//! table, counting the slot-options of each course identity, narrowing the
//! grid to the slots the user chose, and expanding the result into dated
//! occurrences for an academic term.

pub mod filter;
pub mod info;
pub mod timetable;
pub mod utils;
