//! What can be wrong with a timetable, and how it is told.

use crate::text::{append_str, decimal_text, from_chars, push_decimal};
use vstd::prelude::*;

verus! {

/// Why a timetable could not be read. Rows, cells and columns are counted
/// from 0.
#[derive(Clone, Copy, Debug, PartialEq, Eq)]
pub enum ParseError {
    /// The page holds no timetable.
    MissingTable,
    /// The class in cell `cell` of row `row` lies right of the Friday column.
    Structure { row: usize, cell: usize },
    /// The time label of row `row` is no time of day.
    TimeFormat { row: usize },
    /// The class at `row` and `column` covers no row, or its row span is no
    /// number.
    RowSpan { row: usize, column: usize },
    /// The class at `row` and `column` lacks one of its four lines, or its
    /// week line is not laid out as one.
    ContentFormat { row: usize, column: usize },
    /// A week of the class at `row` and `column` is no number, or lies outside
    /// the semester, or a range of weeks ends before it begins.
    Range { row: usize, column: usize },
}

impl ParseError {
    /// The message that describes the error to a reader.
    pub open spec fn message_text(self) -> Seq<char> {
        match self {
            ParseError::MissingTable => "failed to find the timetable"@,
            ParseError::Structure { row, cell } => "Invalid column "@ + decimal_text(row as nat)
                + ":"@ + decimal_text(cell as nat),
            ParseError::TimeFormat { row } => "Invalid time at row "@ + decimal_text(row as nat),
            ParseError::RowSpan { row, column } => "Invalid class at "@ + decimal_text(row as nat)
                + ":"@ + decimal_text(column as nat),
            ParseError::ContentFormat { row, column } => "Information corrupted at "@
                + decimal_text(row as nat) + ":"@ + decimal_text(column as nat),
            ParseError::Range { row, column } => "Invalid week string at "@ + decimal_text(
                row as nat,
            ) + ":"@ + decimal_text(column as nat),
        }
    }

    /// Describes the error to a reader.
    pub fn message(&self) -> (text: String)
        ensures
            text@ == self.message_text(),
    {
        let mut out: Vec<char> = Vec::new();
        match *self {
            ParseError::MissingTable => {
                append_str(&mut out, "failed to find the timetable");
            },
            ParseError::Structure { row, cell } => {
                append_str(&mut out, "Invalid column ");
                push_place(&mut out, row, cell);
            },
            ParseError::TimeFormat { row } => {
                append_str(&mut out, "Invalid time at row ");
                push_decimal(&mut out, row);
            },
            ParseError::RowSpan { row, column } => {
                append_str(&mut out, "Invalid class at ");
                push_place(&mut out, row, column);
            },
            ParseError::ContentFormat { row, column } => {
                append_str(&mut out, "Information corrupted at ");
                push_place(&mut out, row, column);
            },
            ParseError::Range { row, column } => {
                append_str(&mut out, "Invalid week string at ");
                push_place(&mut out, row, column);
            },
        }
        from_chars(&out)
    }
}

/// Appends a place in the grid, written as row, colon, column.
fn push_place(out: &mut Vec<char>, row: usize, column: usize)
    ensures
        final(out)@ == old(out)@ + decimal_text(row as nat) + ":"@ + decimal_text(column as nat),
{
    push_decimal(out, row);
    append_str(out, ":");
    push_decimal(out, column);
}

/// The message for classes that a calendar file cannot hold: a meeting of one
/// of them would end after the years that four digits write.
pub open spec fn overlong_text() -> Seq<char> {
    "Class too long for the calendar"@
}

/// Says that a calendar file cannot hold the classes.
pub fn overlong_message() -> (text: String)
    ensures
        text@ == overlong_text(),
{
    let mut out: Vec<char> = Vec::new();
    append_str(&mut out, "Class too long for the calendar");
    from_chars(&out)
}

} // verus!
