//! Spreading the flood: making frontier cells of the empty cells around a
//! flooded one, and keeping the list of them.

use crate::model::{
    block, cols_of, column, columns, fresh_at, holds, in_state, inside, marked, near, next_frontier,
    place, reached, rectangular, rows_of, step, step_cell, touches_frontier, Cell,
};
use crate::store::{
    store_col_count, store_get, store_row_count, store_rows, store_set, CellStore,
};
use vstd::prelude::*;

verus! {

/// The frontier may stand with the cells: every entry names a cell that is
/// no building, and every frontier cell is listed. An entry may name a cell
/// in any other state, and may come more than once: that is where floods
/// were started.
pub open spec fn admits_frontier(cells: Seq<Seq<Cell>>, frontier: Seq<(usize, usize)>) -> bool {
    &&& forall|i: int|
        0 <= i < frontier.len() ==> inside(
            cells,
            (#[trigger] frontier[i]).0 as int,
            frontier[i].1 as int,
        ) && cells[frontier[i].1 as int][frontier[i].0 as int] != Cell::Building
    &&& forall|c: int, r: int|
        holds(cells, c, r, Cell::Frontier) ==> frontier.contains(#[trigger] place(c, r))
}

/// The frontier lists the frontier cells of `cells`, each once, and nothing
/// else: so it is after a tick.
pub open spec fn lists_frontier(cells: Seq<Seq<Cell>>, frontier: Seq<(usize, usize)>) -> bool {
    &&& forall|i: int|
        0 <= i < frontier.len() ==> holds(
            cells,
            (#[trigger] frontier[i]).0 as int,
            frontier[i].1 as int,
            Cell::Frontier,
        )
    &&& forall|i: int, j: int|
        0 <= i < j < frontier.len() ==> #[trigger] frontier[i] != #[trigger] frontier[j]
    &&& forall|c: int, r: int|
        holds(cells, c, r, Cell::Frontier) ==> frontier.contains(
            #[trigger] place(c, r),
        )
}

/// Where the frontier lists the frontier cells and nothing else, marking the
/// listed places changes nothing.
pub proof fn lemma_listed_frontier_is_marked(cells: Seq<Seq<Cell>>, frontier: Seq<(usize, usize)>)
    requires
        lists_frontier(cells, frontier),
        rectangular(cells),
        rows_of(cells) <= usize::MAX,
        cols_of(cells) <= usize::MAX,
    ensures
        marked(cells, frontier) == cells,
        admits_frontier(cells, frontier),
{
    let m = marked(cells, frontier);
    assert forall|r: int| 0 <= r < cells.len() implies #[trigger] m[r] =~= cells[r] by {
        assert forall|c: int| 0 <= c < cells[r].len() implies m[r][c] == cells[r][c] by {
            assert(cells[r].len() == cols_of(cells));
            if frontier.contains(place(c, r)) {
                let j = choose|j: int| 0 <= j < frontier.len() && frontier[j] == place(c, r);
                assert(holds(cells, frontier[j].0 as int, frontier[j].1 as int, Cell::Frontier));
            }
        }
    }
    assert(m =~= cells);
}

/// Two matrices have as many rows, and row by row as many cells.
pub(crate) open spec fn same_shape(a: Seq<Seq<Cell>>, b: Seq<Seq<Cell>>) -> bool {
    &&& a.len() == b.len()
    &&& forall|r: int| 0 <= r < a.len() ==> (#[trigger] a[r]).len() == b[r].len()
}

/// One of the first `upto` entries of `front` is the place `(col, row)`.
spec fn listed(front: Seq<(usize, usize)>, upto: int, col: int, row: int) -> bool {
    exists|j: int| 0 <= j < upto && #[trigger] front[j] == place(col, row)
}

/// Two tests that agree on every entry of a sequence keep the same entries
/// of it.
proof fn lemma_filter_agree(
    s: Seq<(usize, usize)>,
    p: spec_fn((usize, usize)) -> bool,
    q: spec_fn((usize, usize)) -> bool,
)
    requires
        forall|i: int| 0 <= i < s.len() ==> p(#[trigger] s[i]) == q(s[i]),
    ensures
        s.filter(p) == s.filter(q),
    decreases s.len(),
{
    reveal(Seq::filter);
    if s.len() > 0 {
        let shorter = s.drop_last();
        assert forall|i: int| 0 <= i < shorter.len() implies p(#[trigger] shorter[i]) == q(
            shorter[i],
        ) by {
            assert(shorter[i] == s[i]);
        }
        lemma_filter_agree(shorter, p, q);
        assert(p(s[s.len() - 1]) == q(s[s.len() - 1]));
    }
}

/// Every place of the columns from `first_col` up to `end_col` lies in one
/// of them, between `first_row` and `last_row`.
proof fn lemma_columns_hold(first_col: int, end_col: int, first_row: int, last_row: int, i: int)
    requires
        0 <= first_col <= end_col <= usize::MAX,
        0 <= first_row <= last_row <= usize::MAX,
        0 <= i < columns(first_col, end_col, first_row, last_row).len(),
    ensures
        first_col <= columns(first_col, end_col, first_row, last_row)[i].0 < end_col,
        first_row <= columns(first_col, end_col, first_row, last_row)[i].1 <= last_row,
    decreases end_col - first_col,
{
    if end_col > first_col {
        let before = columns(first_col, end_col - 1, first_row, last_row);
        if i < before.len() {
            lemma_columns_hold(first_col, end_col - 1, first_row, last_row, i);
        }
    }
}

/// A cell has a listed place in its block exactly if, once the listed
/// places are marked, it has a frontier cell in its block.
proof fn lemma_reached_is_touching(
    cells: Seq<Seq<Cell>>,
    front: Seq<(usize, usize)>,
    col: int,
    row: int,
)
    requires
        admits_frontier(cells, front),
        rectangular(cells),
        rows_of(cells) <= usize::MAX,
        cols_of(cells) <= usize::MAX,
    ensures
        reached(front, front.len() as int, col, row) == touches_frontier(
            marked(cells, front),
            col,
            row,
        ),
{
    let m = marked(cells, front);
    assert forall|c: int, r: int| inside(cells, c, r) implies inside(m, c, r) && (#[trigger] m[r][c]
        == Cell::Frontier) == front.contains(place(c, r)) by {
        assert(cells[r].len() == cols_of(cells));
        assert(cells[0].len() == cols_of(cells));
        if cells[r][c] == Cell::Frontier {
            assert(holds(cells, c, r, Cell::Frontier));
        }
    }
    assert forall|c: int, r: int| inside(m, c, r) implies inside(cells, c, r) by {
        assert(cells[0].len() == cols_of(cells));
    }
    if reached(front, front.len() as int, col, row) {
        let j = choose|j: int|
            0 <= j < front.len() && near((#[trigger] front[j]).0 as int, front[j].1 as int, col, row);
        let c = front[j].0 as int;
        let r = front[j].1 as int;
        assert(inside(cells, c, r));
        assert(front[j] == place(c, r));
        assert(m[r][c] == Cell::Frontier);
        assert(holds(m, c, r, Cell::Frontier));
    }
    if touches_frontier(m, col, row) {
        let (c, r): (int, int) = if holds(m, col - 1, row - 1, Cell::Frontier) {
            (col - 1, row - 1)
        } else if holds(m, col - 1, row, Cell::Frontier) {
            (col - 1, row)
        } else if holds(m, col - 1, row + 1, Cell::Frontier) {
            (col - 1, row + 1)
        } else if holds(m, col, row - 1, Cell::Frontier) {
            (col, row - 1)
        } else if holds(m, col, row, Cell::Frontier) {
            (col, row)
        } else if holds(m, col, row + 1, Cell::Frontier) {
            (col, row + 1)
        } else if holds(m, col + 1, row - 1, Cell::Frontier) {
            (col + 1, row - 1)
        } else if holds(m, col + 1, row, Cell::Frontier) {
            (col + 1, row)
        } else {
            (col + 1, row + 1)
        };
        assert(holds(m, c, r, Cell::Frontier));
        assert(inside(cells, c, r));
        assert(m[r][c] == Cell::Frontier);
        assert(front.contains(place(c, r)));
        let j = choose|j: int| 0 <= j < front.len() && front[j] == place(c, r);
        assert(near(front[j].0 as int, front[j].1 as int, col, row));
    }
}

/// Makes the cell `(col, row)` a frontier cell, and lists it, if it is
/// empty.
fn promote(store: &mut CellStore, next: &mut Vec<(usize, usize)>, col: usize, row: usize)
    requires
        inside(store_rows(*old(store)), col as int, row as int),
        rectangular(store_rows(*old(store))),
        lists_frontier(store_rows(*old(store)), old(next)@),
    ensures
        same_shape(store_rows(*final(store)), store_rows(*old(store))),
        rectangular(store_rows(*final(store))),
        rows_of(store_rows(*final(store))) == rows_of(store_rows(*old(store))),
        cols_of(store_rows(*final(store))) == cols_of(store_rows(*old(store))),
        forall|c: int, r: int|
            inside(store_rows(*old(store)), c, r) ==> #[trigger] store_rows(*final(store))[r][c]
                == if c == col && r == row && store_rows(*old(store))[r][c] == Cell::Empty {
                Cell::Frontier
            } else {
                store_rows(*old(store))[r][c]
            },
        lists_frontier(store_rows(*final(store)), final(next)@),
        final(next)@ == if store_rows(*old(store))[row as int][col as int] == Cell::Empty {
            old(next)@.push((col, row))
        } else {
            old(next)@
        },
{
    let ghost before = store_rows(*store);
    let ghost listed_before = next@;
    if store_get(store, row, col) == Cell::Empty {
        store_set(store, row, col, Cell::Frontier);
        next.push((col, row));
        proof {
            let after = store_rows(*store);
            assert(rectangular(after) && cols_of(after) == cols_of(before));
            assert forall|c: int, r: int| holds(after, c, r, Cell::Frontier) implies next@.contains(
                #[trigger] place(c, r),
            ) by {
                if c == col && r == row {
                    assert(next@[listed_before.len() as int] == place(c, r));
                } else {
                    assert(holds(before, c, r, Cell::Frontier));
                    assert(listed_before.contains(place(c, r)));
                    let j = choose|j: int|
                        0 <= j < listed_before.len() && listed_before[j] == place(c, r);
                    assert(next@[j] == place(c, r));
                }
            }
            assert forall|i: int| 0 <= i < next@.len() implies holds(
                after,
                (#[trigger] next@[i]).0 as int,
                next@[i].1 as int,
                Cell::Frontier,
            ) by {
                if i < listed_before.len() {
                    assert(holds(
                        before,
                        listed_before[i].0 as int,
                        listed_before[i].1 as int,
                        Cell::Frontier,
                    ));
                }
            }
            assert forall|i: int, j: int| 0 <= i < j < next@.len() implies #[trigger] next@[i]
                != #[trigger] next@[j] by {
                if j == listed_before.len() {
                    assert(holds(
                        before,
                        listed_before[i].0 as int,
                        listed_before[i].1 as int,
                        Cell::Frontier,
                    ));
                }
            }
        }
    }
}

/// Makes frontier cells of the empty cells in the block around
/// `(col, row)`, column by column, and lists them in that order.
fn promote_around(
    store: &mut CellStore,
    next: &mut Vec<(usize, usize)>,
    col: usize,
    row: usize,
    rows: usize,
    cols: usize,
)
    requires
        rows == rows_of(store_rows(*old(store))),
        cols == cols_of(store_rows(*old(store))),
        inside(store_rows(*old(store)), col as int, row as int),
        rectangular(store_rows(*old(store))),
        lists_frontier(store_rows(*old(store)), old(next)@),
    ensures
        same_shape(store_rows(*final(store)), store_rows(*old(store))),
        forall|c: int, r: int|
            inside(store_rows(*old(store)), c, r) ==> #[trigger] store_rows(*final(store))[r][c]
                == if near(col as int, row as int, c, r) && store_rows(*old(store))[r][c]
                == Cell::Empty {
                Cell::Frontier
            } else {
                store_rows(*old(store))[r][c]
            },
        lists_frontier(store_rows(*final(store)), final(next)@),
        final(next)@ == old(next)@ + block(rows as nat, cols as nat, col as int, row as int).filter(
            in_state(store_rows(*old(store)), Cell::Empty),
        ),
{
    let ghost before = store_rows(*store);
    let ghost base = next@;
    let ghost pred = in_state(before, Cell::Empty);
    let first_col: usize = if col > 0 { col - 1 } else { 0 };
    let last_col: usize = if col + 1 < cols { col + 1 } else { col };
    let first_row: usize = if row > 0 { row - 1 } else { 0 };
    let last_row: usize = if row + 1 < rows { row + 1 } else { row };
    let mut c: usize = first_col;
    proof {
        reveal(Seq::filter);
        assert(columns(first_col as int, first_col as int, first_row as int, last_row as int)
            =~= Seq::empty());
        assert(next@ =~= base + Seq::<(usize, usize)>::empty().filter(pred));
    }
    while c <= last_col
        invariant
            base == old(next)@,
            pred == in_state(before, Cell::Empty),
            next@ == base + columns(
                first_col as int,
                c as int,
                first_row as int,
                last_row as int,
            ).filter(pred),
            rows == rows_of(before),
            cols == cols_of(before),
            inside(before, col as int, row as int),
            rectangular(before),
            first_col == if col > 0 { col - 1 } else { 0 },
            last_col == if col + 1 < cols { col + 1 } else { col as int },
            first_row == if row > 0 { row - 1 } else { 0 },
            last_row == if row + 1 < rows { row + 1 } else { row as int },
            first_col <= c <= last_col + 1,
            same_shape(store_rows(*store), before),
            lists_frontier(store_rows(*store), next@),
            forall|c2: int, r2: int|
                inside(before, c2, r2) ==> #[trigger] store_rows(*store)[r2][c2] == if near(
                    col as int,
                    row as int,
                    c2,
                    r2,
                ) && before[r2][c2] == Cell::Empty && c2 < c {
                    Cell::Frontier
                } else {
                    before[r2][c2]
                },
        decreases last_col + 1 - c,
    {
        let mut r: usize = first_row;
        let ghost done = columns(first_col as int, c as int, first_row as int, last_row as int);
        let ghost here = column(c as int, first_row as int, last_row as int);
        proof {
            assert(done + here.take(0) =~= done);
        }
        while r <= last_row
            invariant
                base == old(next)@,
                pred == in_state(before, Cell::Empty),
                done == columns(first_col as int, c as int, first_row as int, last_row as int),
                here == column(c as int, first_row as int, last_row as int),
                next@ == base + (done + here.take(r - first_row)).filter(pred),
                rows == rows_of(before),
                cols == cols_of(before),
                inside(before, col as int, row as int),
                rectangular(before),
                first_col == if col > 0 { col - 1 } else { 0 },
                last_col == if col + 1 < cols { col + 1 } else { col as int },
                first_row == if row > 0 { row - 1 } else { 0 },
                last_row == if row + 1 < rows { row + 1 } else { row as int },
                first_col <= c <= last_col,
                first_row <= r <= last_row + 1,
                same_shape(store_rows(*store), before),
                lists_frontier(store_rows(*store), next@),
                forall|c2: int, r2: int|
                    inside(before, c2, r2) ==> #[trigger] store_rows(*store)[r2][c2] == if near(
                        col as int,
                        row as int,
                        c2,
                        r2,
                    ) && before[r2][c2] == Cell::Empty && (c2 < c || (c2 == c && r2 < r)) {
                        Cell::Frontier
                    } else {
                        before[r2][c2]
                    },
            decreases last_row + 1 - r,
        {
            let ghost middle = store_rows(*store);
            let ghost held = next@;
            proof {
                assert(rectangular(middle) && cols_of(middle) == cols_of(before));
                assert(inside(before, c as int, r as int));
                assert(middle[r as int][c as int] == before[r as int][c as int]);
            }
            promote(store, next, c, r);
            proof {
                let seen = done + here.take(r - first_row);
                let spot = (c, r);
                assert(here[r - first_row] == spot);
                assert(done + here.take(r + 1 - first_row) =~= seen.push(spot));
                seen.lemma_filter_push(spot, pred);
                assert(pred(spot) == (before[r as int][c as int] == Cell::Empty));
                assert(next@ =~= base + seen.push(spot).filter(pred));
                let after = store_rows(*store);
                assert forall|c2: int, r2: int| inside(before, c2, r2) implies #[trigger] after[r2][c2]
                    == if near(col as int, row as int, c2, r2) && before[r2][c2] == Cell::Empty && (
                c2 < c || (c2 == c && r2 < r + 1)) {
                    Cell::Frontier
                } else {
                    before[r2][c2]
                } by {
                    assert(inside(middle, c2, r2));
                    assert(after[r2][c2] == if c2 == c && r2 == r && middle[r2][c2]
                        == Cell::Empty {
                        Cell::Frontier
                    } else {
                        middle[r2][c2]
                    });
                }
            }
            r += 1;
        }
        proof {
            assert(here.take(last_row + 1 - first_row) =~= here);
        }
        c += 1;
    }
}

/// Floods every listed cell.
fn drown(store: &mut CellStore, frontier: &Vec<(usize, usize)>)
    requires
        rows_of(store_rows(*old(store))) > 0,
        rectangular(store_rows(*old(store))),
        admits_frontier(store_rows(*old(store)), frontier@),
    ensures
        same_shape(store_rows(*final(store)), store_rows(*old(store))),
        forall|c: int, r: int|
            inside(store_rows(*old(store)), c, r) ==> #[trigger] store_rows(*final(store))[r][c]
                == if listed(frontier@, frontier@.len() as int, c, r) {
                Cell::Flooded
            } else {
                store_rows(*old(store))[r][c]
            },
{
    let ghost before = store_rows(*store);
    let ghost front = frontier@;
    let rows: usize = store_row_count(store);
    let cols: usize = store_col_count(store);
    let count: usize = frontier.len();
    let mut i: usize = 0;
    while i < count
        invariant
            before == store_rows(*old(store)),
            front == frontier@,
            rectangular(before),
            admits_frontier(before, front),
            rows == rows_of(before),
            cols == cols_of(before),
            count == front.len(),
            i <= count,
            same_shape(store_rows(*store), before),
            forall|c: int, r: int|
                inside(before, c, r) ==> #[trigger] store_rows(*store)[r][c] == if listed(
                    front,
                    i as int,
                    c,
                    r,
                ) {
                    Cell::Flooded
                } else {
                    before[r][c]
                },
        decreases count - i,
    {
        let (col, row): (usize, usize) = frontier[i];
        let ghost middle = store_rows(*store);
        proof {
            let seat = front[i as int];
            assert(inside(before, seat.0 as int, seat.1 as int));
        }
        store_set(store, row, col, Cell::Flooded);
        proof {
            let after = store_rows(*store);
            assert forall|c: int, r: int| inside(before, c, r) implies #[trigger] after[r][c]
                == if listed(front, i + 1, c, r) {
                Cell::Flooded
            } else {
                before[r][c]
            } by {
                if c == col && r == row {
                    assert(front[i as int] == place(c, r));
                } else {
                    assert(after[r][c] == middle[r][c]);
                    if listed(front, i + 1, c, r) {
                        let j = choose|j: int|
                            0 <= j < i + 1 && #[trigger] front[j] == place(c, r);
                        assert(j < i);
                    }
                }
            }
        }
        i += 1;
    }
}

/// One tick of the flood on a store and its frontier list: every listed
/// cell is flooded, every empty cell in the block around one of them becomes
/// a frontier cell, and the list is made anew of those.
pub(crate) fn spread(store: &mut CellStore, frontier: &mut Vec<(usize, usize)>)
    requires
        rows_of(store_rows(*old(store))) > 0,
        rectangular(store_rows(*old(store))),
        admits_frontier(store_rows(*old(store)), old(frontier)@),
    ensures
        store_rows(*final(store)) == step(marked(store_rows(*old(store)), old(frontier)@)),
        rectangular(store_rows(*final(store))),
        rows_of(store_rows(*final(store))) == rows_of(store_rows(*old(store))),
        cols_of(store_rows(*final(store))) == cols_of(store_rows(*old(store))),
        lists_frontier(store_rows(*final(store)), final(frontier)@),
        final(frontier)@ == next_frontier(
            store_rows(*old(store)),
            old(frontier)@,
            old(frontier)@.len(),
        ),
{
    let ghost before = store_rows(*store);
    let ghost front = frontier@;
    let rows: usize = store_row_count(store);
    let cols: usize = store_col_count(store);
    drown(store, frontier);
    let ghost sunk = store_rows(*store);
    let mut next: Vec<(usize, usize)> = Vec::new();
    let count: usize = frontier.len();
    let mut i: usize = 0;
    proof {
        assert(rectangular(sunk) && cols_of(sunk) == cols_of(before));
        assert forall|c: int, r: int| holds(sunk, c, r, Cell::Frontier) implies false by {
            assert(inside(before, c, r));
            if before[r][c] == Cell::Frontier {
                assert(holds(before, c, r, Cell::Frontier));
                assert(front.contains(place(c, r)));
                let j = choose|j: int| 0 <= j < front.len() && front[j] == place(c, r);
                assert(listed(front, front.len() as int, c, r));
            }
        }
    }
    while i < count
        invariant
            before == store_rows(*old(store)),
            front == old(frontier)@,
            frontier@ == front,
            rectangular(before),
            admits_frontier(before, front),
            rectangular(sunk),
            same_shape(sunk, before),
            cols_of(sunk) == cols_of(before),
            rows == rows_of(before),
            cols == cols_of(before),
            count == front.len(),
            i <= count,
            same_shape(store_rows(*store), before),
            lists_frontier(store_rows(*store), next@),
            next@ == next_frontier(before, front, i as nat),
            forall|c: int, r: int|
                inside(before, c, r) ==> #[trigger] sunk[r][c] == if listed(
                    front,
                    front.len() as int,
                    c,
                    r,
                ) {
                    Cell::Flooded
                } else {
                    before[r][c]
                },
            forall|c: int, r: int|
                inside(before, c, r) ==> #[trigger] store_rows(*store)[r][c] == if sunk[r][c]
                    == Cell::Empty && reached(front, i as int, c, r) {
                    Cell::Frontier
                } else {
                    sunk[r][c]
                },
        decreases count - i,
    {
        let (col, row): (usize, usize) = frontier[i];
        let ghost middle = store_rows(*store);
        proof {
            let seat = front[i as int];
            assert(inside(before, seat.0 as int, seat.1 as int));
            assert(rectangular(middle) && cols_of(middle) == cols_of(before));
        }
        promote_around(store, &mut next, col, row, rows, cols);
        proof {
            let around = block(rows as nat, cols as nat, col as int, row as int);
            let first_col = if col > 0 { col - 1 } else { 0 };
            let last_col = if col + 1 < cols { col + 1 } else { col as int };
            let first_row = if row > 0 { row - 1 } else { 0 };
            let last_row = if row + 1 < rows { row + 1 } else { row as int };
            assert forall|k: int| 0 <= k < around.len() implies in_state(middle, Cell::Empty)(
                #[trigger] around[k],
            ) == fresh_at(before, front, i as int)(around[k]) by {
                lemma_columns_hold(first_col, last_col + 1, first_row, last_row, k);
                let c = around[k].0 as int;
                let r = around[k].1 as int;
                assert(inside(before, c, r));
                assert(around[k] == place(c, r));
                assert(listed(front, front.len() as int, c, r) == front.contains(place(c, r)));
                let _ = middle[r][c];
                let _ = sunk[r][c];
                if before[r][c] == Cell::Frontier {
                    assert(holds(before, c, r, Cell::Frontier));
                }
            }
            lemma_filter_agree(
                around,
                in_state(middle, Cell::Empty),
                fresh_at(before, front, i as int),
            );
            assert(next@ == next_frontier(before, front, (i + 1) as nat));
            let after = store_rows(*store);
            assert forall|c: int, r: int| inside(before, c, r) implies #[trigger] after[r][c]
                == if sunk[r][c] == Cell::Empty && reached(front, i + 1, c, r) {
                Cell::Frontier
            } else {
                sunk[r][c]
            } by {
                assert(inside(middle, c, r));
                if reached(front, i + 1, c, r) && !reached(front, i as int, c, r) {
                    let j = choose|j: int|
                        0 <= j < i + 1 && near(
                            (#[trigger] front[j]).0 as int,
                            front[j].1 as int,
                            c,
                            r,
                        );
                    assert(j == i);
                }
                if near(col as int, row as int, c, r) {
                    assert(near(front[i as int].0 as int, front[i as int].1 as int, c, r));
                }
            }
        }
        i += 1;
    }
    *frontier = next;
    proof {
        let after = store_rows(*store);
        let m = marked(before, front);
        assert(rectangular(after) && cols_of(after) == cols_of(before));
        assert forall|r: int| 0 <= r < after.len() implies #[trigger] after[r] =~= step(m)[r] by {
            assert(before[r].len() == cols_of(before));
            assert forall|c: int| 0 <= c < after[r].len() implies after[r][c] == step_cell(
                m,
                c,
                r,
            ) by {
                assert(inside(before, c, r));
                lemma_reached_is_touching(before, front, c, r);
                assert(listed(front, front.len() as int, c, r) == front.contains(place(c, r)));
                if before[r][c] == Cell::Frontier {
                    assert(holds(before, c, r, Cell::Frontier));
                }
            }
        }
        assert(after =~= step(m));
    }
}

} // verus!
