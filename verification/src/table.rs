//! The grid of a timetable as a page gives it: rows of cells, and in the
//! cells of classes lines of text. Nothing is read into it here.

use vstd::prelude::*;

verus! {

/// One cell of the grid, as the page gives it.
#[derive(Debug)]
pub struct TableCell {
    /// Whether the cell is marked as holding a class.
    pub class_bearing: bool,
    /// The text of the cell's row-span attribute, if it has one.
    pub rowspan: Option<String>,
    /// The text of each inner line of the cell, untrimmed.
    pub lines: Vec<String>,
}

/// One row of the grid, as the page gives it.
#[derive(Debug)]
pub struct TableRow {
    /// The text of the row's time label, if the row has one.
    pub time_label: Option<String>,
    /// The grid cells that begin in this row, from left to right.
    pub cells: Vec<TableCell>,
}

/// What the page holds: the rows of the timetable, or nothing where the page
/// has no timetable.
#[derive(Debug)]
pub struct TableSource {
    pub rows: Option<Vec<TableRow>>,
}

/// What a `TableCell` holds, as plain mathematical values.
pub struct CellModel {
    pub class_bearing: bool,
    pub rowspan: Option<Seq<char>>,
    pub lines: Seq<Seq<char>>,
}

/// What a `TableRow` holds, as plain mathematical values.
pub struct RowModel {
    pub time_label: Option<Seq<char>>,
    pub cells: Seq<CellModel>,
}

/// The character sequences of a list of texts.
pub open spec fn lines_of(lines: Seq<String>) -> Seq<Seq<char>> {
    lines.map_values(|l: String| l@)
}

/// The character sequence of a text that may be missing.
pub open spec fn text_of(text: Option<String>) -> Option<Seq<char>> {
    match text {
        Some(t) => Some(t@),
        None => None,
    }
}

impl View for TableCell {
    type V = CellModel;

    open spec fn view(&self) -> CellModel {
        CellModel {
            class_bearing: self.class_bearing,
            rowspan: text_of(self.rowspan),
            lines: lines_of(self.lines@),
        }
    }
}

/// The models of a list of cells.
pub open spec fn cells_of(cells: Seq<TableCell>) -> Seq<CellModel> {
    cells.map_values(|c: TableCell| c@)
}

impl View for TableRow {
    type V = RowModel;

    open spec fn view(&self) -> RowModel {
        RowModel { time_label: text_of(self.time_label), cells: cells_of(self.cells@) }
    }
}

/// The models of a list of rows.
pub open spec fn rows_of(rows: Seq<TableRow>) -> Seq<RowModel> {
    rows.map_values(|r: TableRow| r@)
}

impl View for TableSource {
    type V = Option<Seq<RowModel>>;

    open spec fn view(&self) -> Option<Seq<RowModel>> {
        match self.rows {
            Some(rows) => Some(rows_of(rows@)),
            None => None,
        }
    }
}

} // verus!
