//! The cell store: the `grid` crate's two-dimensional array, as far as this
//! library uses it.
//!
//! Nothing in this file is proved. Each function states what the `grid`
//! crate's source shows of the method it calls.

use crate::model::Cell;
use vstd::prelude::*;

verus! {

/// A `grid::Grid` of cells. Verus sees nothing inside it: what it holds is
/// named by `store_rows`.
#[verifier::external_body]
pub struct CellStore {
    cells: grid::Grid<Cell>,
}

/// The cells a store holds, row by row from row 0, each row from column 0.
pub uninterp spec fn store_rows(store: CellStore) -> Seq<Seq<Cell>>;

/// `grid::Grid::init`: a store of `rows` rows of `cols` cells, each cell
/// holding `fill`. The call panics when `rows * cols` does not fit in
/// `usize`, and collapses to an empty store when either count is zero; both
/// are left out here.
#[verifier::external_body]
pub(crate) fn store_init(rows: usize, cols: usize, fill: Cell) -> (store: CellStore)
    requires
        rows > 0,
        cols > 0,
        rows * cols <= usize::MAX,
    ensures
        store_rows(store) == Seq::new(rows as nat, |r: int| Seq::new(cols as nat, |c: int| fill)),
{
    CellStore { cells: grid::Grid::init(rows, cols, fill) }
}

/// `grid::Grid::rows`: the number of rows.
#[verifier::external_body]
pub(crate) fn store_row_count(store: &CellStore) -> (n: usize)
    ensures
        n == store_rows(*store).len(),
{
    store.cells.rows()
}

/// `grid::Grid::cols`: the number of columns, which is the length of every
/// row.
#[verifier::external_body]
pub(crate) fn store_col_count(store: &CellStore) -> (n: usize)
    ensures
        forall|r: int|
            0 <= r < store_rows(*store).len() ==> (#[trigger] store_rows(*store)[r]).len() == n,
{
    store.cells.cols()
}

/// Indexing a store by row and then by column: the cell at that place. Both
/// indexings panic out of range.
#[verifier::external_body]
pub(crate) fn store_get(store: &CellStore, row: usize, col: usize) -> (cell: Cell)
    requires
        row < store_rows(*store).len(),
        col < store_rows(*store)[row as int].len(),
    ensures
        cell == store_rows(*store)[row as int][col as int],
{
    store.cells[row][col]
}

/// Assigning through a store's row and column index: that cell is replaced
/// and no other. Both indexings panic out of range.
#[verifier::external_body]
pub(crate) fn store_set(store: &mut CellStore, row: usize, col: usize, cell: Cell)
    requires
        row < store_rows(*old(store)).len(),
        col < store_rows(*old(store))[row as int].len(),
    ensures
        store_rows(*final(store)) == store_rows(*old(store)).update(
            row as int,
            store_rows(*old(store))[row as int].update(col as int, cell),
        ),
{
    store.cells[row][col] = cell;
}

/// `grid::Grid::clone`: a store with the same cells in the same places.
#[verifier::external_body]
pub(crate) fn store_clone(store: &CellStore) -> (copy: CellStore)
    ensures
        store_rows(copy) == store_rows(*store),
{
    CellStore { cells: store.cells.clone() }
}

} // verus!
