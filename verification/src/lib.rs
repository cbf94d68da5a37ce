//! Turns a weekly timetable, given as the rows and cells of its grid, into
//! the calendar file of a semester.
//!
//! `table` holds the grid as a page gives it. `parser` reads it into classes,
//! with `spans` for the cells that cover several rows and `weeks` for the
//! weeks of a class. `semester` names the days of a semester, `schedule` says
//! which class meets on which of them, and `ical` makes the events and writes
//! them as text. `calendar` holds the dates, and `text` the work on
//! characters.

use vstd::prelude::*;

pub mod calendar;
pub mod constants;
pub mod error;
pub mod ical;
pub mod parser;
pub mod schedule;
pub mod semester;
pub mod spans;
pub mod table;
pub mod text;
pub mod weeks;

use crate::error::{overlong_message, overlong_text};
use crate::ical::{calendar_text, try_classes_to_ical, ICalElement};
use crate::parser::{classes_of_source, parse};
use crate::schedule::{semester_events, semester_fits};
use crate::semester::SemesterConfig;
use crate::table::TableSource;

verus! {

/// Reads the timetable of a page and writes the calendar file of the given
/// semester. Where the timetable cannot be read, the result is the message
/// of the first error, and no calendar; and so it is where a class is so long
/// that a meeting of it ends after the years that four digits write.
pub fn build_calendar(source: &TableSource, config: &SemesterConfig) -> (calendar: Result<
    String,
    String,
>)
    requires
        config.wf(),
    ensures
        match classes_of_source(source@) {
            Ok(classes) => if semester_fits(classes, *config) {
                calendar matches Ok(text) && text@ == calendar_text(
                    semester_events(classes, *config),
                )
            } else {
                calendar matches Err(message) && message@ == overlong_text()
            },
            Err(e) => calendar matches Err(message) && message@ == e.message_text(),
        },
{
    match parse(source) {
        Ok(classes) => match try_classes_to_ical(classes.as_slice(), config) {
            Some(builder) => Ok(builder.serialize()),
            None => Err(overlong_message()),
        },
        Err(e) => Err(e.message()),
    }
}

} // verus!
