//! Cells that cover several rows. Such a cell stands in the row in which it
//! begins only; in the rows below it still occupies its column, and moves
//! the cells of those rows to the right.

use vstd::prelude::*;

verus! {

/// The last column that holds classes: Friday, counted from Monday as 0.
pub const LAST_DAY: usize = 4;

/// A class cell that covers several rows, as it is kept while the rows below
/// it are read: the column that it occupies, and the number of rows that it
/// covers from the row at hand on.
#[derive(Clone, Copy, Debug, PartialEq, Eq)]
pub struct RowSpanCell {
    pub cell_index: usize,
    pub remaining_rows: usize,
}

/// How many of the open cells occupy a column at or left of `column`.
pub open spec fn occupied_up_to(active: Seq<RowSpanCell>, column: int) -> nat
    decreases active.len(),
{
    if active.len() == 0 {
        0
    } else {
        occupied_up_to(active.drop_last(), column) + if active.last().cell_index <= column {
            1nat
        } else {
            0nat
        }
    }
}

/// The first column at or right of `column` that is as far right of
/// `nominal` as there are open cells at or left of it. There are no more
/// open cells at or left of a column than there are open cells, so the search
/// ends; the second condition says so, and never decides.
pub open spec fn logical_column_from(active: Seq<RowSpanCell>, nominal: int, column: int) -> int
    decreases nominal + active.len() - column,
{
    if column < nominal + occupied_up_to(active, column) && column < nominal + active.len() {
        logical_column_from(active, nominal, column + 1)
    } else {
        column
    }
}

/// The column in which the cell with index `nominal` among the cells of its
/// row lies, given the cells of earlier rows that are still open.
pub open spec fn logical_column(active: Seq<RowSpanCell>, nominal: int) -> int {
    logical_column_from(active, nominal, nominal)
}

/// No more cells are counted than there are.
pub proof fn lemma_occupied_bounds(active: Seq<RowSpanCell>, column: int)
    ensures
        occupied_up_to(active, column) <= active.len(),
    decreases active.len(),
{
    if active.len() > 0 {
        lemma_occupied_bounds(active.drop_last(), column);
    }
}

/// Further right, no fewer cells are counted.
pub proof fn lemma_occupied_grows(active: Seq<RowSpanCell>, left: int, right: int)
    requires
        left <= right,
    ensures
        occupied_up_to(active, left) <= occupied_up_to(active, right),
    decreases active.len(),
{
    if active.len() > 0 {
        lemma_occupied_grows(active.drop_last(), left, right);
    }
}

/// A cell's column is as far right of its index in the row as there are open
/// cells at or left of that column, and it is the first such column at or
/// right of the index.
pub proof fn lemma_logical_column(active: Seq<RowSpanCell>, nominal: int)
    ensures
        nominal <= logical_column(active, nominal),
        logical_column(active, nominal) == nominal + occupied_up_to(
            active,
            logical_column(active, nominal),
        ),
        forall|c: int|
            nominal <= c < logical_column(active, nominal) ==> c < nominal
                + #[trigger] occupied_up_to(active, c),
{
    lemma_logical_column_from(active, nominal, nominal);
}

/// The search for a cell's column, begun at a column that is at most as far
/// right of the cell's index as there are open cells at or left of it, ends
/// at the first column from there on that is exactly as far right.
proof fn lemma_logical_column_from(active: Seq<RowSpanCell>, nominal: int, column: int)
    requires
        nominal <= column <= nominal + occupied_up_to(active, column),
    ensures
        column <= logical_column_from(active, nominal, column),
        logical_column_from(active, nominal, column) == nominal + occupied_up_to(
            active,
            logical_column_from(active, nominal, column),
        ),
        forall|c: int|
            column <= c < logical_column_from(active, nominal, column) ==> c < nominal
                + #[trigger] occupied_up_to(active, c),
    decreases nominal + active.len() - column,
{
    lemma_occupied_bounds(active, column);
    if column < nominal + occupied_up_to(active, column) {
        lemma_occupied_grows(active, column, column + 1);
        lemma_logical_column_from(active, nominal, column + 1);
    }
}

/// Where no open cell lies right of a cell's index in the row and at or left
/// of its column, the column is as far right of the index as there are open
/// cells at or left of the index.
pub proof fn lemma_column_from_index(active: Seq<RowSpanCell>, nominal: int)
    requires
        forall|i: int|
            0 <= i < active.len() ==> !(nominal < (#[trigger] active[i]).cell_index
                <= logical_column(active, nominal)),
    ensures
        logical_column(active, nominal) == nominal + occupied_up_to(active, nominal),
{
    lemma_logical_column(active, nominal);
    lemma_occupied_between(active, nominal, logical_column(active, nominal));
}

/// Two columns without an open cell between them have the same open cells at
/// or left of them.
proof fn lemma_occupied_between(active: Seq<RowSpanCell>, left: int, right: int)
    requires
        left <= right,
        forall|i: int|
            0 <= i < active.len() ==> !(left < (#[trigger] active[i]).cell_index <= right),
    ensures
        occupied_up_to(active, left) == occupied_up_to(active, right),
    decreases active.len(),
{
    if active.len() > 0 {
        let before = active.drop_last();
        assert forall|i: int| 0 <= i < before.len() implies !(left < (
        #[trigger] before[i]).cell_index <= right) by {
            assert(before[i] == active[i]);
        }
        lemma_occupied_between(before, left, right);
        assert(active.last() == active[active.len() - 1]);
    }
}

/// Counts the open cells that occupy a column at or left of `column`.
fn count_up_to(active: &Vec<RowSpanCell>, column: usize) -> (n: usize)
    ensures
        n == occupied_up_to(active@, column as int),
{
    let mut n: usize = 0;
    let mut i: usize = 0;
    while i < active.len()
        invariant
            i <= active.len(),
            n <= i,
            n == occupied_up_to(active@.take(i as int), column as int),
        decreases active.len() - i,
    {
        proof {
            assert(active@.take(i + 1).drop_last() == active@.take(i as int));
        }
        if active[i].cell_index <= column {
            n += 1;
        }
        i += 1;
    }
    proof {
        assert(active@.take(active.len() as int) == active@);
    }
    n
}

/// Finds the column of the cell with index `nominal` in its row; `None` where
/// the column lies right of Friday.
pub fn resolve_column(active: &Vec<RowSpanCell>, nominal: usize) -> (column: Option<usize>)
    ensures
        match column {
            Some(c) => c == logical_column(active@, nominal as int) && c <= LAST_DAY && c
                == nominal + occupied_up_to(active@, c as int),
            None => logical_column(active@, nominal as int) > LAST_DAY,
        },
{
    proof {
        lemma_logical_column(active@, nominal as int);
    }
    if nominal > LAST_DAY {
        return None;
    }
    let mut c: usize = nominal;
    loop
        invariant
            nominal <= c <= LAST_DAY,
            c <= nominal + occupied_up_to(active@, c as int),
            logical_column_from(active@, nominal as int, c as int) == logical_column(
                active@,
                nominal as int,
            ),
        decreases LAST_DAY - c,
    {
        let n = count_up_to(active, c);
        proof {
            lemma_occupied_bounds(active@, c as int);
        }
        if c - nominal < n {
            proof {
                lemma_occupied_grows(active@, c as int, c + 1);
                lemma_logical_column_from(active@, nominal as int, c + 1);
            }
            if c == LAST_DAY {
                return None;
            }
            c += 1;
        } else {
            return Some(c);
        }
    }
}

/// The open cells one row further down: each covers one row less, and those
/// that cover no further row are gone.
pub open spec fn aged_spans(spans: Seq<RowSpanCell>) -> Seq<RowSpanCell>
    decreases spans.len(),
{
    if spans.len() == 0 {
        Seq::empty()
    } else if spans.last().remaining_rows > 1 {
        aged_spans(spans.drop_last()).push(
            RowSpanCell {
                cell_index: spans.last().cell_index,
                remaining_rows: (spans.last().remaining_rows - 1) as usize,
            },
        )
    } else {
        aged_spans(spans.drop_last())
    }
}

/// Whether every open cell of the list lies in a column that holds classes.
pub open spec fn all_in_grid(spans: Seq<RowSpanCell>) -> bool {
    forall|i: int| 0 <= i < spans.len() ==> (#[trigger] spans[i]).cell_index <= LAST_DAY
}

/// The open cells that are left one row further down all cover a row, and
/// each of them lies where an open cell lay before.
pub proof fn lemma_aged_spans(spans: Seq<RowSpanCell>)
    ensures
        aged_spans(spans).len() <= spans.len(),
        forall|i: int|
            0 <= i < aged_spans(spans).len() ==> (#[trigger] aged_spans(spans)[i]).remaining_rows
                >= 1,
        all_in_grid(spans) ==> all_in_grid(aged_spans(spans)),
    decreases spans.len(),
{
    if spans.len() > 0 {
        let before = spans.drop_last();
        lemma_aged_spans(before);
        let aged = aged_spans(spans);
        assert forall|i: int| 0 <= i < aged.len() implies (#[trigger] aged[i]).remaining_rows
            >= 1 by {
            if i < aged_spans(before).len() {
                assert(aged[i] == aged_spans(before)[i]);
            }
        }
        if all_in_grid(spans) {
            assert forall|i: int| 0 <= i < before.len() implies (#[trigger] before[i]).cell_index
                <= LAST_DAY by {
                assert(before[i] == spans[i]);
            }
            assert(spans[spans.len() - 1].cell_index <= LAST_DAY);
            assert forall|i: int| 0 <= i < aged.len() implies (#[trigger] aged[i]).cell_index
                <= LAST_DAY by {
                if i < aged_spans(before).len() {
                    assert(aged[i] == aged_spans(before)[i]);
                }
            }
        }
    }
}

/// Moves the cells found in a row to the open cells, and takes the open cells
/// one row further down.
pub fn advance_spans(active: &mut Vec<RowSpanCell>, pending: &Vec<RowSpanCell>)
    ensures
        final(active)@ == aged_spans(old(active)@ + pending@),
{
    let mut next: Vec<RowSpanCell> = Vec::new();
    let ghost all = active@ + pending@;
    let mut i: usize = 0;
    while i < active.len()
        invariant
            i <= active.len(),
            all == active@ + pending@,
            next@ == aged_spans(all.take(i as int)),
        decreases active.len() - i,
    {
        proof {
            assert(all.take(i + 1).drop_last() == all.take(i as int));
            assert(all.take(i + 1).last() == active@[i as int]);
        }
        let cell = active[i];
        if cell.remaining_rows > 1 {
            let remaining_rows = cell.remaining_rows - 1;
            next.push(RowSpanCell { cell_index: cell.cell_index, remaining_rows });
        }
        i += 1;
    }
    let mut k: usize = 0;
    while k < pending.len()
        invariant
            k <= pending.len(),
            all == active@ + pending@,
            next@ == aged_spans(all.take(active.len() + k)),
        decreases pending.len() - k,
    {
        proof {
            assert(all.take(active.len() + k + 1).drop_last() == all.take(active.len() + k));
            assert(all.take(active.len() + k + 1).last() == pending@[k as int]);
        }
        let cell = pending[k];
        if cell.remaining_rows > 1 {
            let remaining_rows = cell.remaining_rows - 1;
            next.push(RowSpanCell { cell_index: cell.cell_index, remaining_rows });
        }
        k += 1;
    }
    proof {
        assert(all.take(active.len() + pending.len()) == all);
    }
    *active = next;
}

} // verus!
