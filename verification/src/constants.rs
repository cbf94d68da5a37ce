//! The days of the semester that is now under way. They follow the school
//! calendar and change with every semester.

use crate::calendar::{FIRST_YEAR, LAST_YEAR};
use crate::semester::SemesterConfig;
use vstd::prelude::*;

verus! {

/// The semester that begins in the autumn of `year`: counted from the ninth
/// of September, over on the 21st of December, with one day and one week
/// without classes.
pub fn current_semester(year: i32) -> (config: SemesterConfig)
    ensures
        config.start == (9u32, 9u32),
        config.end == (12u32, 21u32),
        config.year == year,
        config.vacation_days@ == seq![(9u32, 24u32)],
        config.vacation_weeks@ == seq![(10u32, 1u32)],
        FIRST_YEAR <= year <= LAST_YEAR ==> config.wf(),
{
    let mut vacation_days: Vec<(u32, u32)> = Vec::new();
    vacation_days.push((9, 24));
    let mut vacation_weeks: Vec<(u32, u32)> = Vec::new();
    vacation_weeks.push((10, 1));
    SemesterConfig { start: (9, 9), end: (12, 21), year, vacation_days, vacation_weeks }
}

} // verus!
