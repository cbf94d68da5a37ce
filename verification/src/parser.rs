//! From the rows of a timetable grid to class records.
//!
//! A grid row holds the cells that begin in it; a cell that covers several
//! rows is missing from the rows below, where it still occupies its column.
//! The parser keeps the cells that are still open, finds each cell's true
//! column from them, and reads the four text lines of every class cell.

use crate::error::ParseError;
use crate::spans::{
    advance_spans, aged_spans, all_in_grid, lemma_aged_spans, lemma_logical_column,
    logical_column, occupied_up_to, resolve_column, RowSpanCell, LAST_DAY,
};
use crate::table::{
    cells_of, rows_of, text_of, CellModel, RowModel, TableCell, TableRow, TableSource,
};
use crate::text::{
    from_chars, has_prefix, parse_number, parse_number_text, pieces_of, remove_char, same_chars,
    skip_chars, split_chars, split_text, starts_with_chars, to_chars, trim_chars, trim_text,
    without_char,
};
use crate::weeks::{lemma_weeks_of_tokens, parse_weeks, weeks_of_text, WEEK_COUNT};
use vstd::prelude::*;

verus! {

/// The last hour at which a class may begin.
pub const LAST_HOUR: usize = 23;

/// The time at which a class begins, on the hour or half past it.
#[derive(Clone, Copy, Debug, PartialEq, Eq)]
pub struct ClassTime {
    pub hour: usize,
    pub half: bool,
}

/// One class of the timetable: what it is, where, and in which weeks.
#[derive(Debug)]
pub struct Class {
    pub title: String,
    pub lecturer: String,
    pub location: String,
    /// The weekday, counted from Monday as 0.
    pub day: usize,
    /// Whether the class meets in week `i + 1`, for each index `i`.
    pub weeks: [bool; 14],
    pub start: ClassTime,
    /// The length in half-hours.
    pub len: usize,
}

/// What a `Class` holds, as plain mathematical values.
pub struct ClassModel {
    pub title: Seq<char>,
    pub lecturer: Seq<char>,
    pub location: Seq<char>,
    pub day: nat,
    pub weeks: Seq<bool>,
    pub start: ClassTime,
    pub len: nat,
}

impl ClassModel {
    /// A class that can stand in a timetable: on a weekday, beginning at an
    /// hour of the day, with fourteen week marks and a length of at least one
    /// half-hour.
    pub open spec fn wf(self) -> bool {
        &&& self.day <= LAST_DAY
        &&& self.weeks.len() == WEEK_COUNT
        &&& self.start.hour <= LAST_HOUR
        &&& 1 <= self.len
    }

    /// Whether the class meets in the given week, counted from 1.
    pub open spec fn meets_in(self, week: int) -> bool {
        1 <= week <= self.weeks.len() && self.weeks[week - 1]
    }
}

impl View for Class {
    type V = ClassModel;

    open spec fn view(&self) -> ClassModel {
        ClassModel {
            title: self.title@,
            lecturer: self.lecturer@,
            location: self.location@,
            day: self.day as nat,
            weeks: self.weeks@,
            start: self.start,
            len: self.len as nat,
        }
    }
}

/// The models of a list of classes.
pub open spec fn classes_of(classes: Seq<Class>) -> Seq<ClassModel> {
    classes.map_values(|c: Class| c@)
}

impl Class {
    /// Whether the class can stand in a timetable.
    pub open spec fn wf(&self) -> bool {
        self@.wf()
    }

    /// Tests whether the class can stand in a timetable.
    pub fn is_valid(&self) -> (b: bool)
        ensures
            b == self.wf(),
    {
        self.day <= LAST_DAY && self.start.hour <= LAST_HOUR && 1 <= self.len
    }
}

/// The time of day that a row's label names: an hour, a colon, and minutes,
/// both of them numbers. The time is half past the hour where the minutes
/// read `30`, and on the hour otherwise.
pub open spec fn time_of_label(label: Seq<char>, row: usize) -> Result<ClassTime, ParseError> {
    let parts = split_text(trim_text(label), ':');
    if parts.len() != 2 {
        Err(ParseError::TimeFormat { row })
    } else {
        match (parse_number_text(parts[0]), parse_number_text(parts[1])) {
            (Some(hour), Some(_)) => if hour <= LAST_HOUR {
                Ok(ClassTime { hour, half: parts[1] == "30"@ })
            } else {
                Err(ParseError::TimeFormat { row })
            },
            _ => Err(ParseError::TimeFormat { row }),
        }
    }
}

/// Reads the time label of row `row`.
pub fn parse_time_label(label: &str, row: usize) -> (time: Result<ClassTime, ParseError>)
    ensures
        time == time_of_label(label@, row),
{
    let chars = to_chars(label);
    let trimmed = trim_chars(&chars);
    let parts = split_chars(&trimmed, ':');
    if parts.len() != 2 {
        proof {
            assert(pieces_of(parts@).len() == parts.len());
        }
        return Err(ParseError::TimeFormat { row });
    }
    proof {
        assert(pieces_of(parts@)[0] == parts@[0]@);
        assert(pieces_of(parts@)[1] == parts@[1]@);
    }
    match (parse_number(&parts[0]), parse_number(&parts[1])) {
        (Some(hour), Some(_)) => {
            if hour <= LAST_HOUR {
                let thirty = to_chars("30");
                Ok(ClassTime { hour, half: same_chars(&parts[1], &thirty) })
            } else {
                Err(ParseError::TimeFormat { row })
            }
        },
        _ => Err(ParseError::TimeFormat { row }),
    }
}

/// A line of a class cell as it is read: without line breaks, and without
/// white space at its ends.
pub open spec fn clean_line(raw: Seq<char>) -> Seq<char> {
    trim_text(without_char(raw, '\n'))
}

/// Whether the cleaned lines of a cell are those of a class: a title, a
/// lecturer, a location, none of them empty, and a line of weeks.
pub open spec fn content_shaped(lines: Seq<Seq<char>>) -> bool {
    &&& lines.len() == 4
    &&& lines[0].len() > 0
    &&& lines[1].len() > 0
    &&& lines[2].len() > 0
    &&& has_prefix(lines[3], "Week:"@)
}

/// The class that the lines of a cell describe, for a cell that begins in row
/// `row` at time `start`, lies in column `day` and covers `len` rows.
pub open spec fn class_of_content(
    row: usize,
    day: usize,
    start: ClassTime,
    len: usize,
    lines: Seq<Seq<char>>,
) -> Result<ClassModel, ParseError> {
    let cleaned = lines.map_values(|l: Seq<char>| clean_line(l));
    if !content_shaped(cleaned) {
        Err(ParseError::ContentFormat { row, column: day })
    } else {
        match weeks_of_text(cleaned[3].skip("Week:"@.len() as int), row, day) {
            Err(e) => Err(e),
            Ok(weeks) => Ok(
                ClassModel {
                    title: cleaned[0],
                    lecturer: cleaned[1],
                    location: cleaned[2],
                    day: day as nat,
                    weeks,
                    start,
                    len: len as nat,
                },
            ),
        }
    }
}

/// The model of a class that was read, or the error.
pub open spec fn class_outcome(r: Result<Class, ParseError>) -> Result<ClassModel, ParseError> {
    match r {
        Ok(class) => Ok(class@),
        Err(e) => Err(e),
    }
}

/// The models of the classes that were read, or the error.
pub open spec fn classes_outcome(r: Result<Vec<Class>, ParseError>) -> Result<
    Seq<ClassModel>,
    ParseError,
> {
    match r {
        Ok(classes) => Ok(classes_of(classes@)),
        Err(e) => Err(e),
    }
}

/// Reads one line of a class cell.
fn read_line(raw: &String) -> (line: Vec<char>)
    ensures
        line@ == clean_line(raw@),
{
    let chars = to_chars(raw.as_str());
    let joined = remove_char(&chars, '\n');
    trim_chars(&joined)
}

/// Reads the text of a class cell. The cell begins in row `row_index` at time
/// `class_start`, lies in column `day` and covers `len` rows.
pub fn parse_class_content(
    row_index: usize,
    day: usize,
    class_start: ClassTime,
    len: usize,
    content: &TableCell,
) -> (class: Result<Class, ParseError>)
    ensures
        class_outcome(class) == class_of_content(row_index, day, class_start, len, content@.lines),
{
    let ghost raw = content@.lines;
    let ghost cleaned = raw.map_values(|l: Seq<char>| clean_line(l));
    let mut lines: Vec<Vec<char>> = Vec::new();
    let mut i: usize = 0;
    while i < content.lines.len()
        invariant
            i <= content.lines.len(),
            raw == content@.lines,
            cleaned == raw.map_values(|l: Seq<char>| clean_line(l)),
            pieces_of(lines@) == cleaned.take(i as int),
        decreases content.lines.len() - i,
    {
        let line = read_line(&content.lines[i]);
        let ghost before = pieces_of(lines@);
        lines.push(line);
        proof {
            assert(raw[i as int] == content.lines@[i as int]@);
            assert(pieces_of(lines@) == before.push(cleaned[i as int]));
        }
        i += 1;
    }
    proof {
        assert(cleaned.take(content.lines.len() as int) == cleaned);
    }
    let prefix = to_chars("Week:");
    if lines.len() != 4 {
        return Err(ParseError::ContentFormat { row: row_index, column: day });
    }
    proof {
        assert(cleaned[0] == lines@[0]@);
        assert(cleaned[1] == lines@[1]@);
        assert(cleaned[2] == lines@[2]@);
        assert(cleaned[3] == lines@[3]@);
    }
    if lines[0].len() == 0 || lines[1].len() == 0 || lines[2].len() == 0 || !starts_with_chars(
        &lines[3],
        &prefix,
    ) {
        return Err(ParseError::ContentFormat { row: row_index, column: day });
    }
    let weeks_text = skip_chars(&lines[3], prefix.len());
    match parse_weeks(&weeks_text, row_index, day) {
        Err(e) => Err(e),
        Ok(weeks) => Ok(
            Class {
                title: from_chars(&lines[0]),
                lecturer: from_chars(&lines[1]),
                location: from_chars(&lines[2]),
                day,
                weeks,
                start: class_start,
                len,
            },
        ),
    }
}

/// The number of rows that a cell covers: the number that its row-span
/// attribute names, and one row where it has no such attribute. The number
/// is 0 where the attribute is no number.
pub open spec fn span_of(rowspan: Option<Seq<char>>) -> usize {
    match rowspan {
        Some(text) => match parse_number_text(text) {
            Some(span) => span,
            None => 0,
        },
        None => 1,
    }
}

/// What the class cell with index `nominal` in row `row` gives: the open cell
/// that it becomes for the rows below, and its class.
pub open spec fn class_of_cell(
    row: usize,
    nominal: int,
    time: ClassTime,
    active: Seq<RowSpanCell>,
    cell: CellModel,
) -> Result<(RowSpanCell, ClassModel), ParseError> {
    let column = logical_column(active, nominal);
    let span = span_of(cell.rowspan);
    if column > LAST_DAY {
        Err(ParseError::Structure { row, cell: nominal as usize })
    } else if span == 0 {
        Err(ParseError::RowSpan { row, column: column as usize })
    } else {
        match class_of_content(row, column as usize, time, span, cell.lines) {
            Err(e) => Err(e),
            Ok(class) => Ok(
                (RowSpanCell { cell_index: column as usize, remaining_rows: span }, class),
            ),
        }
    }
}

/// What the cells of one row give.
pub struct RowOutcome {
    /// The class cells of the row, as open cells for the rows below.
    pub pending: Seq<RowSpanCell>,
    /// The classes of the row, from left to right.
    pub classes: Seq<ClassModel>,
}

/// What the cells of row `row` give, read from left to right up to the first
/// error. `active` holds the cells of earlier rows that are still open.
pub open spec fn row_outcome(
    row: usize,
    time: ClassTime,
    active: Seq<RowSpanCell>,
    cells: Seq<CellModel>,
) -> Result<RowOutcome, ParseError>
    decreases cells.len(),
{
    if cells.len() == 0 {
        Ok(RowOutcome { pending: Seq::empty(), classes: Seq::empty() })
    } else {
        match row_outcome(row, time, active, cells.drop_last()) {
            Err(e) => Err(e),
            Ok(before) => if !cells.last().class_bearing {
                Ok(before)
            } else {
                match class_of_cell(row, cells.len() - 1, time, active, cells.last()) {
                    Err(e) => Err(e),
                    Ok((span, class)) => Ok(
                        RowOutcome {
                            pending: before.pending.push(span),
                            classes: before.classes.push(class),
                        },
                    ),
                }
            },
        }
    }
}

/// What is known after some rows of the grid.
pub struct GridState {
    /// The class cells that are still open below the rows read.
    pub active: Seq<RowSpanCell>,
    /// The classes read, row by row and from left to right.
    pub classes: Seq<ClassModel>,
}

/// Whether a row with the given time label is passed over: it has no time
/// label, or an empty one.
pub open spec fn label_skips(label: Option<Seq<char>>) -> bool {
    match label {
        Some(text) => text.len() == 0,
        None => true,
    }
}

/// Whether a row is passed over: it has no time label, or an empty one.
pub open spec fn row_skipped(row: RowModel) -> bool {
    label_skips(row.time_label)
}

/// Tests whether a row with the given time label is passed over.
pub fn label_skips_row(label: &Option<String>) -> (skips: bool)
    ensures
        skips == label_skips(text_of(*label)),
{
    match label {
        Some(text) => text.as_str().unicode_len() == 0,
        None => true,
    }
}

/// What is known after the given rows, read from the top up to the first
/// error. A row that is passed over changes nothing.
pub open spec fn grid_after(rows: Seq<RowModel>) -> Result<GridState, ParseError>
    decreases rows.len(),
{
    if rows.len() == 0 {
        Ok(GridState { active: Seq::empty(), classes: Seq::empty() })
    } else {
        let index = (rows.len() - 1) as usize;
        match grid_after(rows.drop_last()) {
            Err(e) => Err(e),
            Ok(state) => if row_skipped(rows.last()) {
                Ok(state)
            } else {
                match time_of_label(rows.last().time_label->0, index) {
                    Err(e) => Err(e),
                    Ok(time) => match row_outcome(index, time, state.active, rows.last().cells) {
                        Err(e) => Err(e),
                        Ok(found) => Ok(
                            GridState {
                                active: aged_spans(state.active + found.pending),
                                classes: state.classes + found.classes,
                            },
                        ),
                    },
                }
            },
        }
    }
}

/// The classes of a grid, or the first error in it.
pub open spec fn classes_of_rows(rows: Seq<RowModel>) -> Result<Seq<ClassModel>, ParseError> {
    match grid_after(rows) {
        Ok(state) => Ok(state.classes),
        Err(e) => Err(e),
    }
}

/// The classes of a page, or the reason why it has none.
pub open spec fn classes_of_source(rows: Option<Seq<RowModel>>) -> Result<
    Seq<ClassModel>,
    ParseError,
> {
    match rows {
        Some(rows) => classes_of_rows(rows),
        None => Err(ParseError::MissingTable),
    }
}

/// Whether every class of the list can stand in a timetable.
pub open spec fn all_wf(classes: Seq<ClassModel>) -> bool {
    forall|i: int| 0 <= i < classes.len() ==> (#[trigger] classes[i]).wf()
}

/// Reads the row-span attribute of a cell: the number of rows that the cell
/// covers, and 0 where the attribute is no number.
pub fn parse_rowspan(rowspan: &Option<String>) -> (span: usize)
    ensures
        span == span_of(text_of(*rowspan)),
{
    match rowspan {
        Some(text) => {
            let chars = to_chars(text.as_str());
            match parse_number(&chars) {
                Some(span) => span,
                None => 0,
            }
        },
        None => 1,
    }
}

/// A class that was read from its lines has the weeks that a class needs.
proof fn lemma_content_weeks(
    row: usize,
    day: usize,
    start: ClassTime,
    len: usize,
    lines: Seq<Seq<char>>,
)
    ensures
        class_of_content(row, day, start, len, lines) matches Ok(class) ==> class.weeks.len()
            == WEEK_COUNT,
{
    let cleaned = lines.map_values(|l: Seq<char>| clean_line(l));
    if content_shaped(cleaned) {
        lemma_weeks_of_tokens(
            split_text(trim_text(cleaned[3].skip("Week:"@.len() as int)), ','),
            row,
            day,
        );
    }
}

/// The class of a cell lies in the column of the cell: as far right of the
/// cell's index in its row as there are open cells at or left of that
/// column, and in no column right of Friday. The class is as long as the
/// cell covers rows, begins at the time of the row, and can stand in a
/// timetable; the cell stays open under its column for as many rows.
pub proof fn lemma_class_of_cell(
    row: usize,
    nominal: int,
    time: ClassTime,
    active: Seq<RowSpanCell>,
    cell: CellModel,
)
    requires
        0 <= nominal,
        time.hour <= LAST_HOUR,
    ensures
        class_of_cell(row, nominal, time, active, cell) matches Ok((span, class)) ==> {
            &&& class.day == nominal + occupied_up_to(active, class.day as int)
            &&& class.day == logical_column(active, nominal)
            &&& class.day <= LAST_DAY
            &&& class.len == span_of(cell.rowspan)
            &&& class.start == time
            &&& class.wf()
            &&& span.cell_index == class.day
            &&& span.remaining_rows == class.len
        },
{
    lemma_logical_column(active, nominal);
    let column = logical_column(active, nominal);
    if column <= LAST_DAY {
        lemma_content_weeks(row, column as usize, time, span_of(cell.rowspan), cell.lines);
    }
}

/// What the cells of a row give can stand in a timetable: every class can,
/// and every cell that stays open lies in a column that holds classes.
pub proof fn lemma_row_outcome(
    row: usize,
    time: ClassTime,
    active: Seq<RowSpanCell>,
    cells: Seq<CellModel>,
)
    requires
        time.hour <= LAST_HOUR,
    ensures
        row_outcome(row, time, active, cells) matches Ok(found) ==> all_wf(found.classes)
            && all_in_grid(found.pending) && found.pending.len() == found.classes.len(),
    decreases cells.len(),
{
    if cells.len() > 0 {
        lemma_row_outcome(row, time, active, cells.drop_last());
        if let Ok(found) = row_outcome(row, time, active, cells) {
            let before = row_outcome(row, time, active, cells.drop_last())->Ok_0;
            if cells.last().class_bearing {
                lemma_class_of_cell(row, cells.len() - 1, time, active, cells.last());
                assert forall|i: int| 0 <= i < found.classes.len() implies (
                #[trigger] found.classes[i]).wf() by {
                    if i < before.classes.len() {
                        assert(found.classes[i] == before.classes[i]);
                    }
                }
                assert forall|i: int| 0 <= i < found.pending.len() implies (
                #[trigger] found.pending[i]).cell_index <= LAST_DAY by {
                    if i < before.pending.len() {
                        assert(found.pending[i] == before.pending[i]);
                    }
                }
            }
        }
    }
}

/// After any rows of a grid that can be read, every class found can stand in
/// a timetable, and every open cell lies in a column that holds classes and
/// covers at least the next row.
pub proof fn lemma_grid_after(rows: Seq<RowModel>)
    ensures
        grid_after(rows) matches Ok(state) ==> {
            &&& all_wf(state.classes)
            &&& all_in_grid(state.active)
            &&& forall|i: int|
                0 <= i < state.active.len() ==> (#[trigger] state.active[i]).remaining_rows >= 1
        },
    decreases rows.len(),
{
    if rows.len() > 0 {
        lemma_grid_after(rows.drop_last());
        if let Ok(state) = grid_after(rows) {
            let before = grid_after(rows.drop_last())->Ok_0;
            if !row_skipped(rows.last()) {
                let index = (rows.len() - 1) as usize;
                let time = time_of_label(rows.last().time_label->0, index)->Ok_0;
                let found = row_outcome(index, time, before.active, rows.last().cells)->Ok_0;
                lemma_row_outcome(index, time, before.active, rows.last().cells);
                let all = before.active + found.pending;
                assert forall|i: int| 0 <= i < all.len() implies (#[trigger] all[i]).cell_index
                    <= LAST_DAY by {
                    if i < before.active.len() {
                        assert(all[i] == before.active[i]);
                    } else {
                        assert(all[i] == found.pending[i - before.active.len()]);
                    }
                }
                lemma_aged_spans(all);
                assert forall|i: int| 0 <= i < state.classes.len() implies (
                #[trigger] state.classes[i]).wf() by {
                    if i < before.classes.len() {
                        assert(state.classes[i] == before.classes[i]);
                    } else {
                        assert(state.classes[i] == found.classes[i - before.classes.len()]);
                    }
                }
            }
        }
    }
}

/// Reads the cells of row `row_index`, whose label names the time `time`.
/// The classes found are appended to `classes`, and the result holds the
/// class cells of the row as open cells for the rows below.
fn parse_row_cells(
    row_index: usize,
    time: ClassTime,
    active: &Vec<RowSpanCell>,
    cells: &Vec<TableCell>,
    classes: &mut Vec<Class>,
) -> (pending: Result<Vec<RowSpanCell>, ParseError>)
    requires
        time.hour <= LAST_HOUR,
        all_wf(classes_of(old(classes)@)),
    ensures
        match pending {
            Ok(p) => row_outcome(row_index, time, active@, cells_of(cells@)) == Ok::<
                RowOutcome,
                ParseError,
            >(
                RowOutcome {
                    pending: p@,
                    classes: classes_of(final(classes)@).skip(old(classes)@.len() as int),
                },
            ) && classes_of(final(classes)@).take(old(classes)@.len() as int) == classes_of(
                old(classes)@,
            ) && old(classes)@.len() <= final(classes)@.len() && all_wf(
                classes_of(final(classes)@),
            ),
            Err(e) => row_outcome(row_index, time, active@, cells_of(cells@)) == Err::<
                RowOutcome,
                ParseError,
            >(e),
        },
{
    let ghost models = cells_of(cells@);
    let ghost base = classes_of(classes@);
    let mut pending: Vec<RowSpanCell> = Vec::new();
    let mut j: usize = 0;
    proof {
        assert(classes_of(classes@).skip(base.len() as int) == Seq::<ClassModel>::empty());
        assert(classes_of(classes@).take(base.len() as int) == base);
    }
    while j < cells.len()
        invariant
            j <= cells.len(),
            time.hour <= LAST_HOUR,
            models == cells_of(cells@),
            base == classes_of(old(classes)@),
            base.len() <= classes@.len(),
            classes_of(classes@).take(base.len() as int) == base,
            all_wf(classes_of(classes@)),
            row_outcome(row_index, time, active@, models.take(j as int)) == Ok::<
                RowOutcome,
                ParseError,
            >(
                RowOutcome {
                    pending: pending@,
                    classes: classes_of(classes@).skip(base.len() as int),
                },
            ),
        decreases cells.len() - j,
    {
        let ghost upto = models.take(j + 1);
        proof {
            assert(upto.drop_last() == models.take(j as int));
            assert(upto.last() == cells@[j as int]@);
        }
        let cell = &cells[j];
        if cell.class_bearing {
            let column = match resolve_column(active, j) {
                Some(c) => c,
                None => {
                    proof {
                        lemma_row_error_stays(row_index, time, active@, models, j + 1);
                    }
                    return Err(ParseError::Structure { row: row_index, cell: j });
                },
            };
            let span = parse_rowspan(&cell.rowspan);
            if span == 0 {
                proof {
                    lemma_row_error_stays(row_index, time, active@, models, j + 1);
                }
                return Err(ParseError::RowSpan { row: row_index, column });
            }
            let class = match parse_class_content(row_index, column, time, span, cell) {
                Ok(class) => class,
                Err(e) => {
                    proof {
                        lemma_row_error_stays(row_index, time, active@, models, j + 1);
                    }
                    return Err(e);
                },
            };
            let ghost found_before = classes_of(classes@);
            proof {
                lemma_content_weeks(row_index, column, time, span, cell@.lines);
            }
            pending.push(RowSpanCell { cell_index: column, remaining_rows: span });
            classes.push(class);
            proof {
                assert(classes_of(classes@) == found_before.push(class@));
                assert(classes_of(classes@).skip(base.len() as int) == found_before.skip(
                    base.len() as int,
                ).push(class@));
                assert(classes_of(classes@).take(base.len() as int) == found_before.take(
                    base.len() as int,
                ));
            }
        }
        j += 1;
    }
    proof {
        assert(models.take(cells.len() as int) == models);
    }
    Ok(pending)
}

/// Once the cells up to some point give an error, the whole row gives it.
proof fn lemma_row_error_stays(
    row: usize,
    time: ClassTime,
    active: Seq<RowSpanCell>,
    cells: Seq<CellModel>,
    k: int,
)
    requires
        0 <= k <= cells.len(),
        row_outcome(row, time, active, cells.take(k)) is Err,
    ensures
        row_outcome(row, time, active, cells) == row_outcome(row, time, active, cells.take(k)),
    decreases cells.len() - k,
{
    if k == cells.len() {
        assert(cells.take(k) == cells);
    } else {
        assert(cells.drop_last().take(k) == cells.take(k));
        lemma_row_error_stays(row, time, active, cells.drop_last(), k);
    }
}

/// Once the rows up to some point give an error, the whole grid gives it.
proof fn lemma_grid_error_stays(rows: Seq<RowModel>, k: int)
    requires
        0 <= k <= rows.len(),
        grid_after(rows.take(k)) is Err,
    ensures
        grid_after(rows) == grid_after(rows.take(k)),
    decreases rows.len() - k,
{
    if k == rows.len() {
        assert(rows.take(k) == rows);
    } else {
        assert(rows.drop_last().take(k) == rows.take(k));
        lemma_grid_error_stays(rows.drop_last(), k);
    }
}

/// Reads the rows of a timetable grid into classes. Reading stops at the
/// first error, and then no class is returned.
pub fn parse_rows(rows: &Vec<TableRow>) -> (classes: Result<Vec<Class>, ParseError>)
    ensures
        classes_outcome(classes) == classes_of_rows(rows_of(rows@)),
        classes matches Ok(found) ==> all_wf(classes_of(found@)),
{
    let ghost models = rows_of(rows@);
    let mut ret: Vec<Class> = Vec::new();
    let mut row_span_cells: Vec<RowSpanCell> = Vec::new();
    let mut row_index: usize = 0;
    proof {
        assert(classes_of(ret@) == Seq::<ClassModel>::empty());
    }
    while row_index < rows.len()
        invariant
            row_index <= rows.len(),
            models == rows_of(rows@),
            all_wf(classes_of(ret@)),
            grid_after(models.take(row_index as int)) == Ok::<GridState, ParseError>(
                GridState { active: row_span_cells@, classes: classes_of(ret@) },
            ),
        decreases rows.len() - row_index,
    {
        let ghost upto = models.take(row_index + 1);
        proof {
            assert(upto.drop_last() == models.take(row_index as int));
            assert(upto.last() == rows@[row_index as int]@);
        }
        let row = &rows[row_index];
        let label: &String = match &row.time_label {
            Some(label) => label,
            None => {
                row_index += 1;
                continue ;
            },
        };
        if label.as_str().unicode_len() == 0 {
            row_index += 1;
            continue ;
        }
        let current_start_time = match parse_time_label(label.as_str(), row_index) {
            Ok(time) => time,
            Err(e) => {
                proof {
                    lemma_grid_error_stays(models, row_index + 1);
                }
                return Err(e);
            },
        };
        let ghost before = classes_of(ret@);
        let pending_span_cells = match parse_row_cells(
            row_index,
            current_start_time,
            &row_span_cells,
            &row.cells,
            &mut ret,
        ) {
            Ok(pending) => pending,
            Err(e) => {
                proof {
                    lemma_grid_error_stays(models, row_index + 1);
                }
                return Err(e);
            },
        };
        proof {
            let now = classes_of(ret@);
            assert(now == now.take(before.len() as int) + now.skip(before.len() as int));
        }
        advance_spans(&mut row_span_cells, &pending_span_cells);
        row_index += 1;
    }
    proof {
        assert(models.take(rows.len() as int) == models);
    }
    Ok(ret)
}

/// Reads the timetable of a page into classes. A page without a timetable is
/// an error, and so is the first cell or label that cannot be read.
pub fn parse(source: &TableSource) -> (classes: Result<Vec<Class>, ParseError>)
    ensures
        classes_outcome(classes) == classes_of_source(source@),
        classes matches Ok(found) ==> all_wf(classes_of(found@)),
        source@ is None ==> classes == Err::<Vec<Class>, ParseError>(ParseError::MissingTable),
{
    match &source.rows {
        Some(rows) => parse_rows(rows),
        None => Err(ParseError::MissingTable),
    }
}

/// The error to tell where a page failed after the given rows were read: the
/// first error in those rows, and the failure of the page where they hold
/// none. A page is read from the top, so what was read before it failed is
/// judged first.
pub fn first_error(rows: &Vec<TableRow>, failure: String) -> (message: String)
    ensures
        message@ == match classes_of_rows(rows_of(rows@)) {
            Err(e) => e.message_text(),
            Ok(_) => failure@,
        },
{
    match parse_rows(rows) {
        Err(e) => e.message(),
        Ok(_) => failure,
    }
}

} // verus!
