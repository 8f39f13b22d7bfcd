//! How far the flood gets: which cells it reaches, and after how many
//! ticks.
//!
//! The laws speak of a matrix in which the frontier cells are the front of
//! the flood. A grid's frontier list may also name cells in other states,
//! where floods were started; `marked` makes frontier cells of them, and a
//! tick of the grid is `step` of the marked matrix. After a tick the list
//! names the frontier cells and nothing else, and marking changes nothing.

use crate::model::{
    cols_of, holds, inside, marked, near, place, rectangular, rows_of, step, step_cell, steps,
    touches_frontier, Cell,
};
use vstd::prelude::*;

verus! {

/// Whether the flood can come to `(col, row)` within `n` moves: the cell is
/// a frontier cell, or it is an empty cell and one of the eight cells around
/// it is a cell to which the flood can come in one move fewer. So the flood
/// comes to a cell only along a chain of empty cells that starts next to a
/// frontier cell: it never passes through a building.
pub open spec fn reachable(cells: Seq<Seq<Cell>>, col: int, row: int, n: nat) -> bool
    decreases n,
{
    if n == 0 {
        holds(cells, col, row, Cell::Frontier)
    } else {
        let m = (n - 1) as nat;
        ||| reachable(cells, col, row, m)
        ||| (holds(cells, col, row, Cell::Empty) && (reachable(cells, col - 1, row - 1, m)
            || reachable(cells, col - 1, row, m) || reachable(cells, col - 1, row + 1, m)
            || reachable(cells, col, row - 1, m) || reachable(cells, col, row + 1, m) || reachable(
            cells,
            col + 1,
            row - 1,
            m,
        ) || reachable(cells, col + 1, row, m) || reachable(cells, col + 1, row + 1, m)))
    }
}

/// The state after `n` ticks of a cell that was empty or a frontier cell
/// before them: flooded once the flood could come to it in fewer than `n`
/// moves, a frontier cell when it takes exactly `n`, and empty until then.
pub open spec fn wave(cells: Seq<Seq<Cell>>, col: int, row: int, n: nat) -> Cell {
    if n >= 1 && reachable(cells, col, row, (n - 1) as nat) {
        Cell::Flooded
    } else if reachable(cells, col, row, n) {
        Cell::Frontier
    } else {
        Cell::Empty
    }
}

/// The state after `n` ticks of any cell: buildings and flooded cells stay
/// as they are, and the others follow the wave.
pub open spec fn state_after(cells: Seq<Seq<Cell>>, col: int, row: int, n: nat) -> Cell {
    match cells[row][col] {
        Cell::Building => Cell::Building,
        Cell::Flooded => Cell::Flooded,
        _ => wave(cells, col, row, n),
    }
}

/// Ticks do not change how many rows and columns there are.
pub proof fn lemma_steps_keep_shape(cells: Seq<Seq<Cell>>, n: nat)
    requires
        rectangular(cells),
    ensures
        rectangular(steps(cells, n)),
        rows_of(steps(cells, n)) == rows_of(cells),
        cols_of(steps(cells, n)) == cols_of(cells),
    decreases n,
{
    if n > 0 {
        lemma_steps_keep_shape(cells, (n - 1) as nat);
        let before = steps(cells, (n - 1) as nat);
        assert forall|r: int| 0 <= r < step(before).len() implies (#[trigger] step(before)[r]).len()
            == cols_of(cells) by {
            assert(before[r].len() == cols_of(before));
        }
        if before.len() > 0 {
            assert(step(before)[0].len() == cols_of(cells));
        }
    }
}

/// The flood comes only to cells of the matrix, and only to cells that are
/// empty or frontier cells.
pub proof fn lemma_reachable_is_open(cells: Seq<Seq<Cell>>, col: int, row: int, n: nat)
    requires
        reachable(cells, col, row, n),
    ensures
        holds(cells, col, row, Cell::Empty) || holds(cells, col, row, Cell::Frontier),
    decreases n,
{
    if n > 0 && reachable(cells, col, row, (n - 1) as nat) {
        lemma_reachable_is_open(cells, col, row, (n - 1) as nat);
    }
}

/// A cell within reach in `n` moves is within reach in any greater number.
pub proof fn lemma_reachable_later(cells: Seq<Seq<Cell>>, col: int, row: int, n: nat, m: nat)
    requires
        reachable(cells, col, row, n),
        n <= m,
    ensures
        reachable(cells, col, row, m),
    decreases m,
{
    if n < m {
        lemma_reachable_later(cells, col, row, n, (m - 1) as nat);
    }
}

/// The block around an empty cell that the flood has not come to holds a
/// frontier cell after `n - 1` ticks exactly if the flood can come to the
/// cell in `n` moves.
proof fn lemma_touching_is_next(cells: Seq<Seq<Cell>>, col: int, row: int, n: nat)
    requires
        n >= 1,
        rectangular(cells),
        holds(cells, col, row, Cell::Empty),
        !reachable(cells, col, row, (n - 1) as nat),
        rectangular(steps(cells, (n - 1) as nat)),
        rows_of(steps(cells, (n - 1) as nat)) == rows_of(cells),
        cols_of(steps(cells, (n - 1) as nat)) == cols_of(cells),
        forall|c: int, r: int|
            inside(cells, c, r) ==> #[trigger] steps(cells, (n - 1) as nat)[r][c] == state_after(
                cells,
                c,
                r,
                (n - 1) as nat,
            ),
    ensures
        touches_frontier(steps(cells, (n - 1) as nat), col, row) == reachable(cells, col, row, n),
{
    let m = (n - 1) as nat;
    let now = steps(cells, m);
    if touches_frontier(now, col, row) {
        let (c, r): (int, int) = if holds(now, col - 1, row - 1, Cell::Frontier) {
            (col - 1, row - 1)
        } else if holds(now, col - 1, row, Cell::Frontier) {
            (col - 1, row)
        } else if holds(now, col - 1, row + 1, Cell::Frontier) {
            (col - 1, row + 1)
        } else if holds(now, col, row - 1, Cell::Frontier) {
            (col, row - 1)
        } else if holds(now, col, row, Cell::Frontier) {
            (col, row)
        } else if holds(now, col, row + 1, Cell::Frontier) {
            (col, row + 1)
        } else if holds(now, col + 1, row - 1, Cell::Frontier) {
            (col + 1, row - 1)
        } else if holds(now, col + 1, row, Cell::Frontier) {
            (col + 1, row)
        } else {
            (col + 1, row + 1)
        };
        assert(holds(now, c, r, Cell::Frontier));
        assert(inside(cells, c, r));
        assert(now[r][c] == state_after(cells, c, r, m));
        assert(reachable(cells, c, r, m));
        if c == col && r == row {
            assert(reachable(cells, col, row, n));
        }
        assert(reachable(cells, col, row, n));
    }
    if reachable(cells, col, row, n) {
        let (c, r): (int, int) = if reachable(cells, col - 1, row - 1, m) {
            (col - 1, row - 1)
        } else if reachable(cells, col - 1, row, m) {
            (col - 1, row)
        } else if reachable(cells, col - 1, row + 1, m) {
            (col - 1, row + 1)
        } else if reachable(cells, col, row - 1, m) {
            (col, row - 1)
        } else if reachable(cells, col, row + 1, m) {
            (col, row + 1)
        } else if reachable(cells, col + 1, row - 1, m) {
            (col + 1, row - 1)
        } else if reachable(cells, col + 1, row, m) {
            (col + 1, row)
        } else {
            (col + 1, row + 1)
        };
        assert(reachable(cells, c, r, m));
        lemma_reachable_is_open(cells, c, r, m);
        assert(inside(cells, c, r));
        assert(now[r][c] == state_after(cells, c, r, m));
        if m >= 1 && reachable(cells, c, r, (m - 1) as nat) {
            assert(reachable(cells, col, row, m));
        }
        assert(wave(cells, c, r, m) == Cell::Frontier);
        assert(holds(now, c, r, Cell::Frontier));
    }
}

/// The flood is a breadth-first wave. After `n` ticks a building is a
/// building and a flooded cell is flooded, as before; of the other cells,
/// those to which the flood can come in fewer than `n` moves are flooded,
/// those to which it can come in `n` moves and no fewer are frontier cells,
/// and the rest are empty.
pub proof fn lemma_flood_is_breadth_first(cells: Seq<Seq<Cell>>, n: nat)
    requires
        rectangular(cells),
    ensures
        forall|c: int, r: int|
            inside(cells, c, r) ==> #[trigger] steps(cells, n)[r][c] == state_after(cells, c, r, n),
    decreases n,
{
    if n == 0 {
    } else {
        let m = (n - 1) as nat;
        let before = steps(cells, m);
        lemma_flood_is_breadth_first(cells, m);
        lemma_steps_keep_shape(cells, m);
        assert forall|c: int, r: int| inside(cells, c, r) implies #[trigger] steps(cells, n)[r][c]
            == state_after(cells, c, r, n) by {
            assert(before[r].len() == cols_of(before));
            assert(steps(cells, n)[r][c] == step_cell(before, c, r));
            assert(before[r][c] == state_after(cells, c, r, m));
            match cells[r][c] {
                Cell::Building => {},
                Cell::Flooded => {},
                Cell::Frontier => {
                    assert(reachable(cells, c, r, 0));
                    lemma_reachable_later(cells, c, r, 0, m);
                },
                Cell::Empty => {
                    if m >= 1 && reachable(cells, c, r, (m - 1) as nat) {
                        lemma_reachable_later(cells, c, r, (m - 1) as nat, m);
                    } else if reachable(cells, c, r, m) {
                    } else {
                        lemma_touching_is_next(cells, c, r, n);
                    }
                },
            }
        }
    }
}

/// A way for the flood: a run of cells that starts at a frontier cell and
/// goes on over empty cells, each in the block around the one before. No
/// building is on it.
pub open spec fn is_flood_path(cells: Seq<Seq<Cell>>, path: Seq<(int, int)>) -> bool {
    &&& path.len() >= 1
    &&& holds(cells, path[0].0, path[0].1, Cell::Frontier)
    &&& forall|i: int|
        1 <= i < path.len() ==> holds(cells, (#[trigger] path[i]).0, path[i].1, Cell::Empty) && near(
            path[i - 1].0,
            path[i - 1].1,
            path[i].0,
            path[i].1,
        )
}

/// Where the flood can come in `n` moves, a way for the flood of at most `n`
/// moves ends.
pub proof fn lemma_reachable_has_path(cells: Seq<Seq<Cell>>, col: int, row: int, n: nat) -> (path:
    Seq<(int, int)>)
    requires
        reachable(cells, col, row, n),
    ensures
        is_flood_path(cells, path),
        path.last() == (col, row),
        path.len() <= n + 1,
    decreases n,
{
    if n == 0 {
        seq![(col, row)]
    } else {
        let m = (n - 1) as nat;
        if reachable(cells, col, row, m) {
            lemma_reachable_has_path(cells, col, row, m)
        } else {
            let (c, r): (int, int) = if reachable(cells, col - 1, row - 1, m) {
                (col - 1, row - 1)
            } else if reachable(cells, col - 1, row, m) {
                (col - 1, row)
            } else if reachable(cells, col - 1, row + 1, m) {
                (col - 1, row + 1)
            } else if reachable(cells, col, row - 1, m) {
                (col, row - 1)
            } else if reachable(cells, col, row + 1, m) {
                (col, row + 1)
            } else if reachable(cells, col + 1, row - 1, m) {
                (col + 1, row - 1)
            } else if reachable(cells, col + 1, row, m) {
                (col + 1, row)
            } else {
                (col + 1, row + 1)
            };
            let before = lemma_reachable_has_path(cells, c, r, m);
            let path = before.push((col, row));
            assert forall|i: int| 1 <= i < path.len() implies holds(
                cells,
                (#[trigger] path[i]).0,
                path[i].1,
                Cell::Empty,
            ) && near(path[i - 1].0, path[i - 1].1, path[i].0, path[i].1) by {
                if i < before.len() {
                    assert(path[i] == before[i]);
                    assert(path[i - 1] == before[i - 1]);
                } else {
                    assert(path[i - 1] == before.last());
                }
            }
            path
        }
    }
}

/// Where a way for the flood ends, the flood can come in as many moves as
/// the way has.
pub proof fn lemma_path_is_reachable(cells: Seq<Seq<Cell>>, path: Seq<(int, int)>)
    requires
        is_flood_path(cells, path),
    ensures
        reachable(cells, path.last().0, path.last().1, (path.len() - 1) as nat),
    decreases path.len(),
{
    if path.len() > 1 {
        let before = path.drop_last();
        assert forall|i: int| 1 <= i < before.len() implies holds(
            cells,
            (#[trigger] before[i]).0,
            before[i].1,
            Cell::Empty,
        ) && near(before[i - 1].0, before[i - 1].1, before[i].0, before[i].1) by {
            assert(before[i] == path[i]);
            assert(before[i - 1] == path[i - 1]);
        }
        assert(before[0] == path[0]);
        lemma_path_is_reachable(cells, before);
        let last = path[path.len() - 1];
        assert(holds(cells, last.0, last.1, Cell::Empty));
        assert(before.last() == path[path.len() - 2]);
        assert(near(before.last().0, before.last().1, last.0, last.1));
        let m = (before.len() - 1) as nat;
        assert(reachable(cells, before.last().0, before.last().1, m));
        let n = (path.len() - 1) as nat;
        assert(m == (n - 1) as nat);
        if before.last() == last {
            assert(reachable(cells, last.0, last.1, m));
        }
        assert(reachable(cells, last.0, last.1, n));
    }
}

/// An empty cell at which no way for the flood ends stays empty through any
/// number of ticks: the flood does not come to a cell that only ways across
/// buildings lead to.
pub proof fn lemma_cut_off_cell_stays_dry(cells: Seq<Seq<Cell>>, col: int, row: int, n: nat)
    requires
        rectangular(cells),
        inside(cells, col, row),
        cells[row][col] == Cell::Empty,
        forall|path: Seq<(int, int)>| #[trigger]
            is_flood_path(cells, path) ==> path.last() != (col, row),
    ensures
        steps(cells, n)[row][col] == Cell::Empty,
{
    lemma_flood_respects_obstacles(cells, col, row, n);
    if reachable(cells, col, row, n) {
        let path = lemma_reachable_has_path(cells, col, row, n);
        assert(is_flood_path(cells, path));
    }
}

/// The flood keeps clear of obstacles. A building stays a building through
/// any number of ticks, and an empty cell is reached within `n` ticks, so
/// that it is a frontier cell or flooded after them, exactly if the flood
/// can come to it in `n` moves through empty cells.
pub proof fn lemma_flood_respects_obstacles(cells: Seq<Seq<Cell>>, col: int, row: int, n: nat)
    requires
        rectangular(cells),
        inside(cells, col, row),
    ensures
        cells[row][col] == Cell::Building ==> steps(cells, n)[row][col] == Cell::Building,
        cells[row][col] == Cell::Empty ==> (steps(cells, n)[row][col] != Cell::Empty <==> reachable(
            cells,
            col,
            row,
            n,
        )),
        steps(cells, n)[row][col] == Cell::Building ==> cells[row][col] == Cell::Building,
{
    lemma_flood_is_breadth_first(cells, n);
    assert(steps(cells, n)[row][col] == state_after(cells, col, row, n));
    if n >= 1 && reachable(cells, col, row, (n - 1) as nat) {
        lemma_reachable_later(cells, col, row, (n - 1) as nat, n);
    }
}

/// A flooded cell stays flooded: no tick makes it a frontier cell again.
pub proof fn lemma_flooded_stays(cells: Seq<Seq<Cell>>, col: int, row: int, n: nat, m: nat)
    requires
        rectangular(cells),
        inside(cells, col, row),
        steps(cells, n)[row][col] == Cell::Flooded,
        n <= m,
    ensures
        steps(cells, m)[row][col] == Cell::Flooded,
{
    lemma_flood_is_breadth_first(cells, n);
    lemma_flood_is_breadth_first(cells, m);
    assert(steps(cells, n)[row][col] == state_after(cells, col, row, n));
    assert(steps(cells, m)[row][col] == state_after(cells, col, row, m));
    if cells[row][col] != Cell::Flooded {
        lemma_reachable_later(cells, col, row, (n - 1) as nat, (m - 1) as nat);
    }
}

/// The Chebyshev distance of two cells: the larger of their distances along
/// the two axes. It is the least number of moves from one to the other.
pub open spec fn chebyshev(c1: int, r1: int, c2: int, r2: int) -> int {
    let dc = if c1 >= c2 { c1 - c2 } else { c2 - c1 };
    let dr = if r1 >= r2 { r1 - r2 } else { r2 - r1 };
    if dc >= dr {
        dc
    } else {
        dr
    }
}

/// The matrix is open ground with one seed: `(col, row)` is a frontier cell,
/// and every other cell is empty.
pub open spec fn single_seed(cells: Seq<Seq<Cell>>, col: int, row: int) -> bool {
    &&& rectangular(cells)
    &&& inside(cells, col, row)
    &&& forall|c: int, r: int|
        inside(cells, c, r) ==> #[trigger] cells[r][c] == if c == col && r == row {
            Cell::Frontier
        } else {
            Cell::Empty
        }
}

/// The greatest Chebyshev distance that a cell of the matrix has from
/// `(col, row)`.
pub open spec fn farthest(cells: Seq<Seq<Cell>>, col: int, row: int) -> int {
    let left = col;
    let right = cols_of(cells) - 1 - col;
    let above = row;
    let below = rows_of(cells) - 1 - row;
    let across = if left >= right { left } else { right };
    let along = if above >= below { above } else { below };
    if across >= along {
        across
    } else {
        along
    }
}

/// `farthest` is what its name says: no cell of the matrix is farther from
/// `(col, row)`, and some cell is that far.
pub proof fn lemma_farthest_is_greatest(cells: Seq<Seq<Cell>>, col: int, row: int)
    requires
        rectangular(cells),
        inside(cells, col, row),
    ensures
        forall|c: int, r: int|
            inside(cells, c, r) ==> #[trigger] chebyshev(c, r, col, row) <= farthest(cells, col, row),
        exists|c: int, r: int|
            inside(cells, c, r) && #[trigger] chebyshev(c, r, col, row) == farthest(cells, col, row),
{
    let far = farthest(cells, col, row);
    let c0 = if far == col {
        0
    } else if far == cols_of(cells) - 1 - col {
        cols_of(cells) - 1
    } else {
        col
    };
    let r0 = if far == col || far == cols_of(cells) - 1 - col {
        row
    } else if far == row {
        0
    } else {
        rows_of(cells) - 1
    };
    assert(inside(cells, c0, r0) && chebyshev(c0, r0, col, row) == far);
}

/// Ground that is all empty, with one place on the frontier list, is open
/// ground with one seed once the listed place is marked: so a flood started
/// on empty ground spreads as the laws on open ground say.
pub proof fn lemma_seed_on_open_ground(cells: Seq<Seq<Cell>>, col: int, row: int)
    requires
        rectangular(cells),
        inside(cells, col, row),
        rows_of(cells) <= usize::MAX,
        cols_of(cells) <= usize::MAX,
        forall|c: int, r: int| inside(cells, c, r) ==> #[trigger] cells[r][c] == Cell::Empty,
    ensures
        single_seed(marked(cells, seq![place(col, row)]), col, row),
{
    let list = seq![place(col, row)];
    let after = marked(cells, list);
    assert(list[0] == place(col, row));
    assert forall|r: int| 0 <= r < after.len() implies (#[trigger] after[r]).len() == cols_of(
        after,
    ) by {
        assert(cells[r].len() == cols_of(cells));
    }
    assert(cells[0].len() == cols_of(cells));
    assert forall|c: int, r: int| inside(after, c, r) implies #[trigger] after[r][c] == if c == col
        && r == row {
        Cell::Frontier
    } else {
        Cell::Empty
    } by {
        assert(inside(cells, c, r));
        assert(cells[r][c] == Cell::Empty);
        if list.contains(place(c, r)) {
            let j = choose|j: int| 0 <= j < list.len() && list[j] == place(c, r);
            assert(place(c, r) == place(col, row));
        }
    }
}

/// On open ground with one seed the flood can come in `n` moves to exactly
/// the cells of the matrix within Chebyshev distance `n` of the seed.
pub proof fn lemma_reach_is_distance(
    cells: Seq<Seq<Cell>>,
    seed_col: int,
    seed_row: int,
    col: int,
    row: int,
    n: nat,
)
    requires
        single_seed(cells, seed_col, seed_row),
    ensures
        reachable(cells, col, row, n) == (inside(cells, col, row) && chebyshev(
            col,
            row,
            seed_col,
            seed_row,
        ) <= n),
    decreases n,
{
    if n == 0 {
        if inside(cells, col, row) {
            let _ = cells[row][col];
        }
    } else {
        let m = (n - 1) as nat;
        lemma_reach_is_distance(cells, seed_col, seed_row, col, row, m);
        lemma_reach_is_distance(cells, seed_col, seed_row, col - 1, row - 1, m);
        lemma_reach_is_distance(cells, seed_col, seed_row, col - 1, row, m);
        lemma_reach_is_distance(cells, seed_col, seed_row, col - 1, row + 1, m);
        lemma_reach_is_distance(cells, seed_col, seed_row, col, row - 1, m);
        lemma_reach_is_distance(cells, seed_col, seed_row, col, row + 1, m);
        lemma_reach_is_distance(cells, seed_col, seed_row, col + 1, row - 1, m);
        lemma_reach_is_distance(cells, seed_col, seed_row, col + 1, row, m);
        lemma_reach_is_distance(cells, seed_col, seed_row, col + 1, row + 1, m);
        if inside(cells, col, row) {
            let _ = cells[row][col];
            if chebyshev(col, row, seed_col, seed_row) == n {
                let c = if col < seed_col {
                    col + 1
                } else if col > seed_col {
                    col - 1
                } else {
                    col
                };
                let r = if row < seed_row {
                    row + 1
                } else if row > seed_row {
                    row - 1
                } else {
                    row
                };
                assert(inside(cells, c, r));
                assert(chebyshev(c, r, seed_col, seed_row) <= m);
                assert(reachable(cells, c, r, m));
            }
        }
    }
}

/// On open ground with one seed, after `n` ticks the cells nearer to the
/// seed than `n`, by Chebyshev distance, are flooded, those at distance `n`
/// are the frontier, and those farther off are still empty.
pub proof fn lemma_open_ground_floods_by_distance(
    cells: Seq<Seq<Cell>>,
    seed_col: int,
    seed_row: int,
    col: int,
    row: int,
    n: nat,
)
    requires
        single_seed(cells, seed_col, seed_row),
        inside(cells, col, row),
    ensures
        steps(cells, n)[row][col] == if chebyshev(col, row, seed_col, seed_row) < n {
            Cell::Flooded
        } else if chebyshev(col, row, seed_col, seed_row) == n {
            Cell::Frontier
        } else {
            Cell::Empty
        },
{
    lemma_flood_is_breadth_first(cells, n);
    assert(steps(cells, n)[row][col] == state_after(cells, col, row, n));
    lemma_reach_is_distance(cells, seed_col, seed_row, col, row, n);
    if n >= 1 {
        lemma_reach_is_distance(cells, seed_col, seed_row, col, row, (n - 1) as nat);
    }
}

/// On open ground with one seed the flood has reached every cell after as
/// many ticks as the farthest cell is from the seed, by Chebyshev distance,
/// and after no fewer; one tick later, and no sooner, every cell is flooded.
pub proof fn lemma_open_ground_floods_whole(
    cells: Seq<Seq<Cell>>,
    seed_col: int,
    seed_row: int,
    n: nat,
)
    requires
        single_seed(cells, seed_col, seed_row),
    ensures
        (forall|c: int, r: int| inside(cells, c, r) ==> #[trigger] steps(cells, n)[r][c] != Cell::Empty)
            <==> n >= farthest(cells, seed_col, seed_row),
        (forall|c: int, r: int|
            inside(cells, c, r) ==> #[trigger] steps(cells, n)[r][c] == Cell::Flooded) <==> n
            > farthest(cells, seed_col, seed_row),
{
    let far = farthest(cells, seed_col, seed_row);
    lemma_farthest_is_greatest(cells, seed_col, seed_row);
    let (c0, r0): (int, int) = choose|c: int, r: int|
        inside(cells, c, r) && #[trigger] chebyshev(c, r, seed_col, seed_row) == far;
    lemma_open_ground_floods_by_distance(cells, seed_col, seed_row, c0, r0, n);
    assert forall|c: int, r: int| inside(cells, c, r) implies (#[trigger] steps(cells, n)[r][c]
        == if chebyshev(c, r, seed_col, seed_row) < n {
        Cell::Flooded
    } else if chebyshev(c, r, seed_col, seed_row) == n {
        Cell::Frontier
    } else {
        Cell::Empty
    }) && chebyshev(c, r, seed_col, seed_row) <= far by {
        lemma_open_ground_floods_by_distance(cells, seed_col, seed_row, c, r, n);
    }
    let _ = steps(cells, n)[r0][c0];
}

/// The number of empty cells in a row.
pub open spec fn empties_in(row: Seq<Cell>) -> nat
    decreases row.len(),
{
    if row.len() == 0 {
        0
    } else {
        empties_in(row.drop_last()) + if row.last() == Cell::Empty {
            1nat
        } else {
            0nat
        }
    }
}

/// The number of empty cells in a matrix.
pub open spec fn empty_count(cells: Seq<Seq<Cell>>) -> nat
    decreases cells.len(),
{
    if cells.len() == 0 {
        0
    } else {
        empty_count(cells.drop_last()) + empties_in(cells.last())
    }
}

/// A row in which no cell has become empty has no more empty cells than
/// before, and fewer where an empty cell has become something else.
proof fn lemma_row_uses_up(before: Seq<Cell>, after: Seq<Cell>)
    requires
        before.len() == after.len(),
        forall|i: int|
            0 <= i < after.len() && #[trigger] after[i] == Cell::Empty ==> before[i] == Cell::Empty,
    ensures
        empties_in(after) <= empties_in(before),
        (exists|k: int| 0 <= k < before.len() && before[k] == Cell::Empty && #[trigger] after[k]
            != Cell::Empty) ==> empties_in(after) < empties_in(before),
    decreases before.len(),
{
    if before.len() > 0 {
        let last = before.len() - 1;
        let b = before.drop_last();
        let a = after.drop_last();
        assert forall|i: int| 0 <= i < a.len() && #[trigger] a[i] == Cell::Empty implies b[i]
            == Cell::Empty by {
            assert(a[i] == after[i] && b[i] == before[i]);
        }
        lemma_row_uses_up(b, a);
        assert(after[last] == Cell::Empty ==> before[last] == Cell::Empty);
        if exists|k: int| 0 <= k < before.len() && before[k] == Cell::Empty && #[trigger] after[k]
            != Cell::Empty {
            let k = choose|k: int| 0 <= k < before.len() && before[k] == Cell::Empty
                && #[trigger] after[k] != Cell::Empty;
            if k < last {
                assert(b[k] == before[k] && a[k] == after[k]);
            }
        }
    }
}

/// A matrix in which no cell has become empty has no more empty cells than
/// before, and fewer where an empty cell has become something else.
proof fn lemma_matrix_uses_up(before: Seq<Seq<Cell>>, after: Seq<Seq<Cell>>)
    requires
        before.len() == after.len(),
        forall|r: int| 0 <= r < before.len() ==> (#[trigger] before[r]).len() == after[r].len(),
        forall|c: int, r: int|
            0 <= r < after.len() && 0 <= c < after[r].len() && #[trigger] after[r][c]
                == Cell::Empty ==> before[r][c] == Cell::Empty,
    ensures
        empty_count(after) <= empty_count(before),
        (exists|c: int, r: int|
            0 <= r < before.len() && 0 <= c < before[r].len() && before[r][c] == Cell::Empty
                && #[trigger] after[r][c] != Cell::Empty) ==> empty_count(after) < empty_count(
            before,
        ),
    decreases before.len(),
{
    if before.len() > 0 {
        let last = before.len() - 1;
        let b = before.drop_last();
        let a = after.drop_last();
        assert forall|r: int| 0 <= r < b.len() implies (#[trigger] b[r]).len() == a[r].len() by {
            assert(b[r] == before[r] && a[r] == after[r]);
        }
        assert forall|c: int, r: int|
            0 <= r < a.len() && 0 <= c < a[r].len() && #[trigger] a[r][c]
                == Cell::Empty implies b[r][c] == Cell::Empty by {
            assert(b[r] == before[r] && a[r] == after[r]);
            assert(after[r][c] == Cell::Empty);
        }
        lemma_matrix_uses_up(b, a);
        assert(before[last].len() == after[last].len());
        assert forall|i: int|
            0 <= i < after[last].len() && #[trigger] after[last][i] == Cell::Empty implies before[last][i]
            == Cell::Empty by {}
        lemma_row_uses_up(before[last], after[last]);
        if exists|c: int, r: int|
            0 <= r < before.len() && 0 <= c < before[r].len() && before[r][c] == Cell::Empty
                && #[trigger] after[r][c] != Cell::Empty {
            let (c, r): (int, int) = choose|c: int, r: int|
                0 <= r < before.len() && 0 <= c < before[r].len() && before[r][c] == Cell::Empty
                    && #[trigger] after[r][c] != Cell::Empty;
            if r < last {
                assert(b[r] == before[r] && a[r] == after[r]);
                assert(b[r][c] == Cell::Empty && a[r][c] != Cell::Empty);
            } else {
                assert(before[last][c] == Cell::Empty && after[last][c] != Cell::Empty);
            }
        }
    }
}

/// The flood comes to an end. No tick makes a cell empty, and a tick that
/// makes any frontier cell takes an empty cell to make it: so the number of
/// empty cells never grows, and it falls with every tick that leaves a
/// frontier cell behind. After at most one tick more than there are empty
/// cells, a tick leaves none, and the flood stands still.
pub proof fn lemma_tick_uses_up_ground(cells: Seq<Seq<Cell>>, frontier: Seq<(usize, usize)>)
    requires
        rectangular(cells),
    ensures
        empty_count(step(marked(cells, frontier))) <= empty_count(cells),
        (exists|c: int, r: int| #[trigger]
            holds(step(marked(cells, frontier)), c, r, Cell::Frontier)) ==> empty_count(
            step(marked(cells, frontier)),
        ) < empty_count(cells),
{
    let m = marked(cells, frontier);
    let after = step(m);
    assert forall|r: int| 0 <= r < cells.len() implies (#[trigger] cells[r]).len()
        == after[r].len() by {}
    assert forall|c: int, r: int|
        0 <= r < after.len() && 0 <= c < after[r].len() && #[trigger] after[r][c]
            == Cell::Empty implies cells[r][c] == Cell::Empty by {
        let _ = m[r][c];
    }
    lemma_matrix_uses_up(cells, after);
    if exists|c: int, r: int| #[trigger] holds(after, c, r, Cell::Frontier) {
        let (c, r): (int, int) = choose|c: int, r: int| #[trigger]
            holds(after, c, r, Cell::Frontier);
        assert(0 <= r < after.len());
        assert(0 <= c < after[r].len()) by {
            assert(after[0].len() == cells[0].len());
            assert(cells[r].len() == cols_of(cells));
        }
        let _ = m[r][c];
        assert(cells[r][c] == Cell::Empty && after[r][c] != Cell::Empty);
    }
}

} // verus!
