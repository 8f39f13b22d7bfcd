//! The grid as a matrix of cell states, and the flood as a function on such
//! matrices.
//!
//! A matrix is a sequence of rows, each a sequence of cells; a cell is named
//! by its column first and its row second, as a point is by x and y.

use vstd::prelude::*;

verus! {

/// The state of one grid cell.
///
/// `Building` never changes. The others only move forward: `Empty`, then
/// `Frontier`, then `Flooded`; the cell where a flood is started goes from
/// `Empty` to `Flooded` at the next tick.
#[derive(Clone, Copy, Debug, PartialEq, Eq, Structural)]
pub enum Cell {
    /// Free ground the flood has not reached.
    Empty,
    /// An obstacle.
    Building,
    /// Reached by the flood, and flooded by the next tick.
    Frontier,
    /// Under water.
    Flooded,
}

/// Number of rows of a matrix.
pub open spec fn rows_of(cells: Seq<Seq<Cell>>) -> nat {
    cells.len()
}

/// Number of columns of a matrix, read off its first row.
pub open spec fn cols_of(cells: Seq<Seq<Cell>>) -> nat {
    if cells.len() > 0 {
        cells[0].len()
    } else {
        0
    }
}

/// Every row is as long as the first.
pub open spec fn rectangular(cells: Seq<Seq<Cell>>) -> bool {
    forall|r: int| 0 <= r < cells.len() ==> (#[trigger] cells[r]).len() == cols_of(cells)
}

/// Whether `(col, row)` names a cell of the matrix.
pub open spec fn inside(cells: Seq<Seq<Cell>>, col: int, row: int) -> bool {
    0 <= row < rows_of(cells) && 0 <= col < cols_of(cells)
}

/// Whether `(col, row)` names a cell of the matrix that is in state `state`.
pub open spec fn holds(cells: Seq<Seq<Cell>>, col: int, row: int, state: Cell) -> bool {
    inside(cells, col, row) && cells[row][col] == state
}

/// Whether two cells lie in one three-by-three block, the first at its
/// middle: they are the same cell or neighbours along an edge or a corner.
pub open spec fn near(c1: int, r1: int, c2: int, r2: int) -> bool {
    -1 <= c1 - c2 <= 1 && -1 <= r1 - r2 <= 1
}

/// Whether some cell of the three-by-three block around `(col, row)`, cut
/// off at the matrix's edges, is a frontier cell.
pub open spec fn touches_frontier(cells: Seq<Seq<Cell>>, col: int, row: int) -> bool {
    ||| holds(cells, col - 1, row - 1, Cell::Frontier)
    ||| holds(cells, col - 1, row, Cell::Frontier)
    ||| holds(cells, col - 1, row + 1, Cell::Frontier)
    ||| holds(cells, col, row - 1, Cell::Frontier)
    ||| holds(cells, col, row, Cell::Frontier)
    ||| holds(cells, col, row + 1, Cell::Frontier)
    ||| holds(cells, col + 1, row - 1, Cell::Frontier)
    ||| holds(cells, col + 1, row, Cell::Frontier)
    ||| holds(cells, col + 1, row + 1, Cell::Frontier)
}

/// The place `(col, row)` as a frontier list names it.
pub open spec fn place(col: int, row: int) -> (usize, usize) {
    (col as usize, row as usize)
}

/// The matrix with every listed place made a frontier cell. A frontier list
/// names the cells that the next tick floods, whatever state they are in:
/// the cell where a flood was started stays as it was until that tick.
pub open spec fn marked(cells: Seq<Seq<Cell>>, frontier: Seq<(usize, usize)>) -> Seq<Seq<Cell>> {
    Seq::new(
        cells.len(),
        |r: int|
            Seq::new(
                cells[r].len(),
                |c: int|
                    if frontier.contains(place(c, r)) {
                        Cell::Frontier
                    } else {
                        cells[r][c]
                    },
            ),
    )
}

/// The test whether a place of `cells` is in state `state`.
pub open spec fn in_state(cells: Seq<Seq<Cell>>, state: Cell) -> spec_fn((usize, usize)) -> bool {
    |p: (usize, usize)| cells[p.1 as int][p.0 as int] == state
}

/// The places of column `col` from row `first_row` to row `last_row`.
pub open spec fn column(col: int, first_row: int, last_row: int) -> Seq<(usize, usize)> {
    Seq::new((last_row - first_row + 1) as nat, |j: int| place(col, first_row + j))
}

/// The places of the columns from `first_col` up to, but not including,
/// `end_col`, column after column, each from row `first_row` to row
/// `last_row`.
pub open spec fn columns(first_col: int, end_col: int, first_row: int, last_row: int) -> Seq<
    (usize, usize),
>
    decreases end_col - first_col,
{
    if end_col <= first_col {
        Seq::empty()
    } else {
        columns(first_col, end_col - 1, first_row, last_row) + column(
            end_col - 1,
            first_row,
            last_row,
        )
    }
}

/// The places of the three-by-three block around `(col, row)`, cut off at
/// the edges of a matrix of `rows` rows and `cols` columns, column after
/// column.
pub open spec fn block(rows: nat, cols: nat, col: int, row: int) -> Seq<(usize, usize)> {
    let first_col = if col > 0 { col - 1 } else { 0 };
    let last_col = if col + 1 < cols { col + 1 } else { col };
    let first_row = if row > 0 { row - 1 } else { 0 };
    let last_row = if row + 1 < rows { row + 1 } else { row };
    columns(first_col, last_col + 1, first_row, last_row)
}

/// One of the first `upto` entries of `frontier` has `(col, row)` in the
/// block around it.
pub open spec fn reached(frontier: Seq<(usize, usize)>, upto: int, col: int, row: int) -> bool {
    exists|j: int|
        0 <= j < upto && near((#[trigger] frontier[j]).0 as int, frontier[j].1 as int, col, row)
}

/// The test whether a tick makes a place a frontier cell by way of entry
/// `index` of the frontier: the place is empty, the frontier does not name
/// it, and no earlier entry has it in its block.
pub open spec fn fresh_at(cells: Seq<Seq<Cell>>, frontier: Seq<(usize, usize)>, index: int) -> spec_fn(
    (usize, usize),
) -> bool {
    |p: (usize, usize)|
        cells[p.1 as int][p.0 as int] == Cell::Empty && !frontier.contains(p) && !reached(
            frontier,
            index,
            p.0 as int,
            p.1 as int,
        )
}

/// The frontier that a tick makes by way of the first `upto` entries of the
/// frontier before it: for each entry in turn, the places of the block
/// around it, column after column, that the tick makes frontier cells by
/// way of that entry.
pub open spec fn next_frontier(
    cells: Seq<Seq<Cell>>,
    frontier: Seq<(usize, usize)>,
    upto: nat,
) -> Seq<(usize, usize)>
    decreases upto,
{
    if upto == 0 {
        Seq::empty()
    } else {
        let index = upto - 1;
        next_frontier(cells, frontier, index as nat) + block(
            rows_of(cells),
            cols_of(cells),
            frontier[index].0 as int,
            frontier[index].1 as int,
        ).filter(fresh_at(cells, frontier, index))
    }
}

/// What one tick makes of the cell `(col, row)`: a frontier cell is flooded,
/// an empty cell next to a frontier cell joins the frontier, and every other
/// cell stays as it is.
pub open spec fn step_cell(cells: Seq<Seq<Cell>>, col: int, row: int) -> Cell {
    match cells[row][col] {
        Cell::Frontier => Cell::Flooded,
        Cell::Empty => if touches_frontier(cells, col, row) {
            Cell::Frontier
        } else {
            Cell::Empty
        },
        Cell::Building => Cell::Building,
        Cell::Flooded => Cell::Flooded,
    }
}

/// What one tick makes of the whole matrix.
pub open spec fn step(cells: Seq<Seq<Cell>>) -> Seq<Seq<Cell>> {
    Seq::new(cells.len(), |r: int| Seq::new(cells[r].len(), |c: int| step_cell(cells, c, r)))
}

/// What `n` ticks make of the matrix.
pub open spec fn steps(cells: Seq<Seq<Cell>>, n: nat) -> Seq<Seq<Cell>>
    decreases n,
{
    if n == 0 {
        cells
    } else {
        step(steps(cells, (n - 1) as nat))
    }
}

} // verus!
