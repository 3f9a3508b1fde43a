use vstd::prelude::*;

verus! {

/// One pass of the recurrence expander: two stretches, each a Monday day
/// number (days from 1970-01-01, a Thursday) and a count of weeks.
pub type InfoList = Vec<(u64, u64)>;

/// The period descriptors of one semester: the stretches that govern the
/// lecture occurrences and those that govern the tutorial/practical ones.
pub struct InfoType {
    pub course: InfoList,
    pub td_tp: InfoList,
}

/// Period descriptors per semester number.
pub type Info = Vec<(usize, InfoType)>;

} // verus!
