//! The spatial grid: a matrix of cells over the plane, and the flood that
//! spreads through it tick by tick.

use crate::geometry::{GeometryError, Point, Polygon, Rect, COORD_MAX};
use crate::model::{
    cols_of, holds, in_state, inside, marked, next_frontier, place, rectangular, rows_of, step,
    Cell,
};
use crate::raster::{
    built_on, cells_spanning, center_doubled, center_of_cell_doubled, count_spanning, coverage,
    double_polygon, lemma_cells_spanning, spans, Outline,
};
use crate::spread::{admits_frontier, lists_frontier, spread};
use crate::store::{
    store_clone, store_col_count, store_get, store_init, store_row_count, store_rows, store_set,
    CellStore,
};
use crate::wave::{empty_count, lemma_tick_uses_up_ground};
use vstd::prelude::*;

verus! {

/// Side of a cell where none is asked for.
pub const DEFAULT_RESOLUTION: i64 = 10;

/// A uniform grid of cells. Cell `(col, row)` covers the square from
/// `(col * resolution, row * resolution)` up to, but not including, the next
/// multiple of `resolution` along each axis.
pub struct Grid {
    inner: CellStore,
    resolution: i64,
    flood_frontier: Vec<(usize, usize)>,
}

/// What a grid is, to its users: its cells and the side of a cell.
pub struct GridView {
    pub cells: Seq<Seq<Cell>>,
    pub resolution: int,
}

/// The places of a matrix of `rows` rows and `cols` columns, each as
/// `(col, row)`, row by row.
pub open spec fn places(rows: nat, cols: nat) -> Seq<(usize, usize)> {
    Seq::new(rows * cols, |k: int| ((k % cols as int) as usize, (k / cols as int) as usize))
}

/// The cells of a matrix in one row: first the cells of row 0 from column 0,
/// then those of row 1, and so on.
pub open spec fn row_major(cells: Seq<Seq<Cell>>) -> Seq<Cell> {
    Seq::new(
        rows_of(cells) * cols_of(cells),
        |k: int| cells[k / cols_of(cells) as int][k % cols_of(cells) as int],
    )
}

/// The places of `cells` that are in state `state`, row by row.
pub open spec fn places_holding(cells: Seq<Seq<Cell>>, state: Cell) -> Seq<(usize, usize)> {
    places(rows_of(cells), cols_of(cells)).filter(in_state(cells, state))
}

/// What there is to draw of a grid in flood: the places under water and the
/// places the water has just reached, each row by row.
pub struct Overlay {
    pub flooded: Vec<(usize, usize)>,
    pub frontier: Vec<(usize, usize)>,
}

/// Row `r`, column `c` is the place number `r * cols + c` in row order.
proof fn lemma_place_number(r: int, c: int, cols: int)
    requires
        0 <= r,
        0 <= c < cols,
    ensures
        (r * cols + c) % cols == c,
        (r * cols + c) / cols == r,
{
    vstd::arithmetic::div_mod::lemma_fundamental_div_mod_converse(r * cols + c, cols, r, c);
}

/// Whether no grid can be laid over `bbox`: there is no polygon, the
/// resolution is not positive or beyond the lattice's range, the rectangle
/// has no width or no height or a corner outside the lattice's range, or
/// there would be more cells than a `usize` can count.
pub open spec fn no_grid(polygons: Seq<Polygon>, bbox: Rect, resolution: int) -> bool {
    ||| polygons.len() == 0
    ||| resolution < 1
    ||| resolution > COORD_MAX
    ||| !bbox.bounded()
    ||| bbox.spec_width() <= 0
    ||| bbox.spec_height() <= 0
    ||| cells_spanning(bbox.spec_height(), resolution) * cells_spanning(
        bbox.spec_width(),
        resolution,
    ) > usize::MAX
}

/// Whether a mask of `len` entries makes a grid of `rows` rows of `cols`
/// cells of side `resolution`: there is a cell, the mask has an entry for
/// each, and the resolution and the grid's extent are within the lattice's
/// range.
pub open spec fn mask_fits(rows: int, cols: int, resolution: int, len: int) -> bool {
    &&& rows >= 1
    &&& cols >= 1
    &&& 1 <= resolution <= COORD_MAX
    &&& rows * resolution <= 3 * COORD_MAX
    &&& cols * resolution <= 3 * COORD_MAX
    &&& len == rows * cols
}

/// Whether `grid` is what rasterising `polygons` over `bbox` with cells of
/// side `resolution` gives: its rows span the rectangle's height and its
/// columns span its width, the cells whose centres lie inside a polygon are
/// buildings, and all others are empty.
pub open spec fn rasterises(grid: Grid, polygons: Seq<Polygon>, bbox: Rect, resolution: int) -> bool {
    &&& grid.wf()
    &&& grid.frontier().len() == 0
    &&& grid@.resolution == resolution
    &&& spans(rows_of(grid@.cells) as int, bbox.spec_height(), resolution)
    &&& spans(cols_of(grid@.cells) as int, bbox.spec_width(), resolution)
    &&& forall|c: int, r: int|
        inside(grid@.cells, c, r) ==> #[trigger] grid@.cells[r][c] == if built_on(
            polygons,
            resolution,
            c,
            r,
        ) {
            Cell::Building
        } else {
            Cell::Empty
        }
}

/// A grid laid over polygons has as many rows as the rectangle's height
/// divided by the resolution, rounded up, and as many columns as its width
/// divided by the resolution, rounded up; its cells, row by row, are that
/// many rows times that many columns; its resolution is the one asked for;
/// and no flood is under way in it.
pub proof fn lemma_raster_dimensions(grid: Grid, polygons: Seq<Polygon>, bbox: Rect, resolution: int)
    requires
        rasterises(grid, polygons, bbox, resolution),
    ensures
        rows_of(grid@.cells) == cells_spanning(bbox.spec_height(), resolution),
        cols_of(grid@.cells) == cells_spanning(bbox.spec_width(), resolution),
        row_major(grid@.cells).len() == rows_of(grid@.cells) * cols_of(grid@.cells),
        grid@.resolution == resolution,
        grid.frontier().len() == 0,
{
    lemma_cells_spanning(bbox.spec_height(), resolution);
    lemma_cells_spanning(bbox.spec_width(), resolution);
}

/// In a grid laid over polygons every cell is a building or empty: a
/// building exactly if its centre lies inside one of the polygons, and empty
/// exactly if its centre lies inside none.
pub proof fn lemma_raster_cells(
    grid: Grid,
    polygons: Seq<Polygon>,
    bbox: Rect,
    resolution: int,
    col: int,
    row: int,
)
    requires
        rasterises(grid, polygons, bbox, resolution),
        inside(grid@.cells, col, row),
    ensures
        grid@.cells[row][col] == Cell::Building <==> built_on(polygons, resolution, col, row),
        grid@.cells[row][col] == Cell::Empty <==> !built_on(polygons, resolution, col, row),
        grid@.cells[row][col] != Cell::Frontier,
        grid@.cells[row][col] != Cell::Flooded,
{
    let _ = grid@.cells[row][col];
}

/// A grid is laid wherever there is a polygon, the rectangle has width and
/// height and lies within the lattice's range, the resolution is positive
/// and within that range, and a `usize` has sixty-four bits.
pub proof fn lemma_grid_is_laid(polygons: Seq<Polygon>, bbox: Rect, resolution: int)
    requires
        polygons.len() > 0,
        bbox.bounded(),
        bbox.spec_width() > 0,
        bbox.spec_height() > 0,
        1 <= resolution <= COORD_MAX,
        usize::MAX >= 0xffff_ffff_ffff_ffff,
    ensures
        !no_grid(polygons, bbox, resolution),
{
    let rows = cells_spanning(bbox.spec_height(), resolution);
    let cols = cells_spanning(bbox.spec_width(), resolution);
    lemma_cells_spanning(bbox.spec_height(), resolution);
    lemma_cells_spanning(bbox.spec_width(), resolution);
    assert(0 <= rows <= 200_000_000 && 0 <= cols <= 200_000_000) by (nonlinear_arith)
        requires
            (rows - 1) * resolution < bbox.spec_height() <= rows * resolution,
            (cols - 1) * resolution < bbox.spec_width() <= cols * resolution,
            0 < bbox.spec_height() <= 200_000_000,
            0 < bbox.spec_width() <= 200_000_000,
            1 <= resolution,
    ;
    assert(rows * cols <= 40_000_000_000_000_000) by (nonlinear_arith)
        requires
            0 <= rows <= 200_000_000,
            0 <= cols <= 200_000_000,
    ;
}

/// The place of the cell of `grid` that holds the point `(x, y)`.
pub open spec fn cell_holding(grid: GridView, x: int, y: int) -> Option<(usize, usize)> {
    if x < 0 || y < 0 || x / grid.resolution >= cols_of(grid.cells) || y / grid.resolution
        >= rows_of(grid.cells) {
        None
    } else {
        Some(((x / grid.resolution) as usize, (y / grid.resolution) as usize))
    }
}

/// The place of the cell of `grid` that holds the point `(x2 / 2, y2 / 2)`,
/// which is given by twice its coordinates.
pub open spec fn cell_holding_doubled(grid: GridView, x2: int, y2: int) -> Option<(usize, usize)> {
    if x2 < 0 || y2 < 0 || x2 / (2 * grid.resolution) >= cols_of(grid.cells) || y2 / (2
        * grid.resolution) >= rows_of(grid.cells) {
        None
    } else {
        Some(((x2 / (2 * grid.resolution)) as usize, (y2 / (2 * grid.resolution)) as usize))
    }
}

/// Giving a lattice point by twice its coordinates does not change the cell
/// that holds it.
pub proof fn lemma_doubled_point_keeps_cell(grid: GridView, x: int, y: int)
    requires
        grid.resolution > 0,
    ensures
        cell_holding_doubled(grid, 2 * x, 2 * y) == cell_holding(grid, x, y),
{
    lemma_half_quotient(x, grid.resolution);
    lemma_half_quotient(y, grid.resolution);
}

/// `2 * x` divided by `2 * d` is `x` divided by `d`.
proof fn lemma_half_quotient(x: int, d: int)
    requires
        d > 0,
    ensures
        (2 * x) / (2 * d) == x / d,
{
    vstd::arithmetic::div_mod::lemma_fundamental_div_mod(x, d);
    vstd::arithmetic::div_mod::lemma_mod_bound(x, d);
    let q = x / d;
    let m = x % d;
    assert(2 * x == q * (2 * d) + 2 * m) by (nonlinear_arith)
        requires
            x == d * q + m,
    ;
    vstd::arithmetic::div_mod::lemma_fundamental_div_mod_converse(2 * x, 2 * d, q, 2 * m);
}

/// The centre of a cell lies in that cell: mapping a world point to its cell
/// undoes mapping a cell to its centre. The centre is given by twice its
/// coordinates; where it is a lattice point, which it is for every even
/// resolution, `Grid::world_to_cell` maps that point to the cell.
pub proof fn lemma_center_lies_in_its_cell(grid: Grid, col: int, row: int)
    requires
        grid.wf(),
        inside(grid@.cells, col, row),
    ensures
        cell_holding_doubled(
            grid@,
            center_doubled(grid@.resolution, col, row).x as int,
            center_doubled(grid@.resolution, col, row).y as int,
        ) == Some(place(col, row)),
        center_doubled(grid@.resolution, col, row).x == (2 * col + 1) * grid@.resolution,
        center_doubled(grid@.resolution, col, row).y == (2 * row + 1) * grid@.resolution,
        forall|x: int, y: int|
            2 * x == (2 * col + 1) * grid@.resolution && 2 * y == (2 * row + 1) * grid@.resolution
                ==> #[trigger] cell_holding(grid@, x, y) == Some(place(col, row)),
{
    let res = grid@.resolution;
    let rows = rows_of(grid@.cells) as int;
    let cols = cols_of(grid@.cells) as int;
    assert(0 <= (2 * col + 1) * res <= 6 * COORD_MAX && 0 <= (2 * row + 1) * res <= 6 * COORD_MAX)
        by (nonlinear_arith)
        requires
            rows * res <= 3 * COORD_MAX,
            cols * res <= 3 * COORD_MAX,
            0 <= col < cols,
            0 <= row < rows,
            1 <= res,
    ;
    lemma_center_quotient(col, res);
    lemma_center_quotient(row, res);
    assert forall|x: int, y: int|
        2 * x == (2 * col + 1) * res && 2 * y == (2 * row + 1) * res implies #[trigger] cell_holding(
        grid@,
        x,
        y,
    ) == Some(place(col, row)) by {
        lemma_doubled_point_keeps_cell(grid@, x, y);
    }
}

/// `(2 * k + 1) * d` divided by `2 * d` is `k`.
proof fn lemma_center_quotient(k: int, d: int)
    requires
        d > 0,
    ensures
        ((2 * k + 1) * d) / (2 * d) == k,
{
    assert((2 * k + 1) * d == k * (2 * d) + d) by (nonlinear_arith);
    vstd::arithmetic::div_mod::lemma_fundamental_div_mod_converse((2 * k + 1) * d, 2 * d, k, d);
}

/// The frontier after a flood is started at `(col, row)`: where the grid
/// has such a cell and it is no building, the place is added at the end;
/// elsewhere the frontier stays as it is.
pub open spec fn with_seed(
    grid: GridView,
    frontier: Seq<(usize, usize)>,
    col: usize,
    row: usize,
) -> Seq<(usize, usize)> {
    if inside(grid.cells, col as int, row as int) && grid.cells[row as int][col as int]
        != Cell::Building {
        frontier.push((col, row))
    } else {
        frontier
    }
}

impl View for Grid {
    type V = GridView;

    closed spec fn view(&self) -> GridView {
        GridView { cells: store_rows(self.inner), resolution: self.resolution as int }
    }
}

impl Clone for Grid {
    /// A grid of its own that equals this one: see `Grid::copy`.
    fn clone(&self) -> (other: Grid)
        ensures
            other@ == self@,
            other.frontier() == self.frontier(),
    {
        self.copy()
    }
}

impl Grid {
    /// The cells that the next tick floods: those the flood has reached, in
    /// the order in which it reached them, and after them those where a
    /// flood was started since the last tick.
    pub closed spec fn frontier(&self) -> Seq<(usize, usize)> {
        self.flood_frontier@
    }

    /// The grid has at least one cell, its rows are equally long, its extent
    /// fits the lattice, and its frontier names cells that are no buildings,
    /// among them every frontier cell. Every grid is so.
    #[verifier::type_invariant]
    pub open spec fn wf(&self) -> bool {
        &&& rows_of(self@.cells) > 0
        &&& cols_of(self@.cells) > 0
        &&& rectangular(self@.cells)
        &&& 1 <= self@.resolution <= COORD_MAX
        &&& rows_of(self@.cells) * self@.resolution <= 3 * COORD_MAX
        &&& cols_of(self@.cells) * self@.resolution <= 3 * COORD_MAX
        &&& admits_frontier(self@.cells, self.frontier())
    }

    /// The grid over `bbox` with cells of side `DEFAULT_RESOLUTION`: see
    /// `with_resolution`.
    pub fn from_polygons(polygons: &[Polygon], bbox: Rect) -> (made: Result<Grid, GeometryError>)
        ensures
            made is Err <==> no_grid(polygons@, bbox, DEFAULT_RESOLUTION as int),
            made matches Err(error) ==> error == GeometryError::InvalidGeometry,
            made matches Ok(grid) ==> rasterises(grid, polygons@, bbox, DEFAULT_RESOLUTION as int),
    {
        Grid::with_resolution(polygons, bbox, DEFAULT_RESOLUTION)
    }

    /// The grid over `bbox` with cells of side `resolution`: as many rows as
    /// span the rectangle's height and as many columns as span its width,
    /// counted from the origin. A cell is a building where its centre lies
    /// inside one of the polygons, and empty otherwise.
    ///
    /// Fails with `InvalidGeometry` where there is no polygon, where the
    /// resolution is not positive or beyond the lattice's range, where the
    /// rectangle has no width, no height, or a corner outside the lattice's
    /// range, and where the grid would have more cells than a `usize` can
    /// count.
    pub fn with_resolution(polygons: &[Polygon], bbox: Rect, resolution: i64) -> (made: Result<
        Grid,
        GeometryError,
    >)
        ensures
            made is Err <==> no_grid(polygons@, bbox, resolution as int),
            made matches Err(error) ==> error == GeometryError::InvalidGeometry,
            made matches Ok(grid) ==> rasterises(grid, polygons@, bbox, resolution as int),
    {
        if polygons.len() == 0 || resolution < 1 || resolution > COORD_MAX || !bbox.is_bounded() {
            return Err(GeometryError::InvalidGeometry);
        }
        let width: i64 = bbox.width();
        let height: i64 = bbox.height();
        if width <= 0 || height <= 0 {
            return Err(GeometryError::InvalidGeometry);
        }
        let rows: usize = count_spanning(height, resolution);
        let cols: usize = count_spanning(width, resolution);
        if rows.checked_mul(cols).is_none() {
            return Err(GeometryError::InvalidGeometry);
        }
        proof {
            lemma_cells_spanning(height as int, resolution as int);
            lemma_cells_spanning(width as int, resolution as int);
        }
        let mut outlines: Vec<Outline> = Vec::new();
        let mut i: usize = 0;
        while i < polygons.len()
            invariant
                i <= polygons@.len(),
                outlines@.len() == i,
                forall|k: int| 0 <= k < i ==> (#[trigger] outlines@[k]).doubles(polygons@[k]@),
            decreases polygons@.len() - i,
        {
            let outline = double_polygon(&polygons[i]);
            outlines.push(outline);
            i += 1;
        }
        let mask = coverage(&outlines, rows, cols, resolution, Ghost(polygons@));
        match Grid::from_mask(rows, cols, resolution, &mask) {
            Ok(grid) => Ok(grid),
            Err(error) => Err(error),
        }
    }

    /// The grid of `rows` rows of `cols` cells of side `resolution` whose
    /// cells are buildings where `mask`, which goes through the cells row by
    /// row, says `true`, and empty where it says `false`.
    ///
    /// Fails with `InvalidGeometry` where there is no cell, where `mask` does
    /// not have an entry for each cell, and where the resolution or the
    /// grid's extent is beyond the lattice's range.
    pub fn from_mask(rows: usize, cols: usize, resolution: i64, mask: &Vec<bool>) -> (made: Result<
        Grid,
        GeometryError,
    >)
        ensures
            made is Ok <==> mask_fits(rows as int, cols as int, resolution as int, mask@.len() as int),
            made matches Err(error) ==> error == GeometryError::InvalidGeometry,
            made matches Ok(grid) ==> {
                &&& grid.wf()
                &&& grid.frontier().len() == 0
                &&& grid@.resolution == resolution
                &&& rows_of(grid@.cells) == rows
                &&& cols_of(grid@.cells) == cols
                &&& forall|c: int, r: int|
                    inside(grid@.cells, c, r) ==> #[trigger] grid@.cells[r][c] == if mask@[r * cols
                        + c] {
                        Cell::Building
                    } else {
                        Cell::Empty
                    }
            },
    {
        let limit: usize = 300_000_000;
        if rows == 0 || cols == 0 || rows > limit || cols > limit || resolution < 1 || resolution
            > COORD_MAX {
            proof {
                if rows > limit || cols > limit {
                    assert(rows * resolution > 3 * COORD_MAX || cols * resolution > 3 * COORD_MAX
                        || resolution < 1) by (nonlinear_arith)
                        requires
                            rows > 300_000_000 || cols > 300_000_000,
                            rows >= 0,
                            cols >= 0,
                    ;
                }
            }
            return Err(GeometryError::InvalidGeometry);
        }
        proof {
            assert(rows * resolution <= 30_000_000_000_000_000 && cols * resolution
                <= 30_000_000_000_000_000 && rows * cols <= 90_000_000_000_000_000)
                by (nonlinear_arith)
                requires
                    0 < rows <= 300_000_000,
                    0 < cols <= 300_000_000,
                    1 <= resolution <= 100_000_000,
            ;
        }
        if (rows as i64) * resolution > 3 * COORD_MAX || (cols as i64) * resolution > 3 * COORD_MAX {
            return Err(GeometryError::InvalidGeometry);
        }
        let len: usize = mask.len();
        match rows.checked_mul(cols) {
            Some(count) => {
                if len != count {
                    return Err(GeometryError::InvalidGeometry);
                }
            },
            None => {
                return Err(GeometryError::InvalidGeometry);
            },
        }
        let mut store = store_init(rows, cols, Cell::Empty);
        let mut row: usize = 0;
        while row < rows
            invariant
                mask@.len() == rows * cols,
                rows * cols <= usize::MAX,
                rows >= 1,
                cols >= 1,
                row <= rows,
                rows_of(store_rows(store)) == rows,
                cols_of(store_rows(store)) == cols,
                rectangular(store_rows(store)),
                forall|c: int, r: int|
                    inside(store_rows(store), c, r) ==> #[trigger] store_rows(store)[r][c] == if r
                        < row && mask@[r * cols + c] {
                        Cell::Building
                    } else {
                        Cell::Empty
                    },
            decreases rows - row,
        {
            let mut col: usize = 0;
            while col < cols
                invariant
                    mask@.len() == rows * cols,
                    rows * cols <= usize::MAX,
                    rows >= 1,
                    cols >= 1,
                    row < rows,
                    col <= cols,
                    rows_of(store_rows(store)) == rows,
                    cols_of(store_rows(store)) == cols,
                    rectangular(store_rows(store)),
                    forall|c: int, r: int|
                        inside(store_rows(store), c, r) ==> #[trigger] store_rows(store)[r][c]
                            == if (r < row || (r == row && c < col)) && mask@[r * cols + c] {
                            Cell::Building
                        } else {
                            Cell::Empty
                        },
                decreases cols - col,
            {
                proof {
                    assert(0 <= row * cols && row * cols + col < rows * cols) by (nonlinear_arith)
                        requires
                            row < rows,
                            col < cols,
                            0 <= row,
                            0 <= col,
                    ;
                }
                let ghost middle = store_rows(store);
                if mask[row * cols + col] {
                    store_set(&mut store, row, col, Cell::Building);
                }
                proof {
                    let after = store_rows(store);
                    assert(rectangular(after) && cols_of(after) == cols && rows_of(after) == rows);
                    assert forall|c: int, r: int| inside(after, c, r) implies #[trigger] after[r][c]
                        == if (r < row || (r == row && c < col + 1)) && mask@[r * cols + c] {
                        Cell::Building
                    } else {
                        Cell::Empty
                    } by {
                        assert(inside(middle, c, r));
                        if !(c == col && r == row) {
                            assert(after[r][c] == middle[r][c]);
                        }
                    }
                }
                col += 1;
            }
            row += 1;
        }
        proof {
            assert forall|c: int, r: int| holds(store_rows(store), c, r, Cell::Frontier) implies false by {
                assert(inside(store_rows(store), c, r));
                let _ = store_rows(store)[r][c];
            }
        }
        Ok(Grid { inner: store, resolution, flood_frontier: Vec::new() })
    }

    /// Number of rows.
    pub fn rows(&self) -> (n: usize)
        ensures
            n == rows_of(self@.cells),
    {
        store_row_count(&self.inner)
    }

    /// Number of columns.
    pub fn cols(&self) -> (n: usize)
        ensures
            n == cols_of(self@.cells),
    {
        proof {
            use_type_invariant(self);
        }
        store_col_count(&self.inner)
    }

    /// Side of a cell.
    pub fn resolution(&self) -> (r: i64)
        ensures
            r == self@.resolution,
    {
        self.resolution
    }

    /// Twice the centre of cell `(col, row)`, or `None` where the grid has no
    /// such cell. The centre itself is no lattice point where the
    /// resolution is odd; twice the centre always is one.
    pub fn center_of_cell_doubled(&self, col: usize, row: usize) -> (center: Option<Point>)
        ensures
            center == if inside(self@.cells, col as int, row as int) {
                Some(center_doubled(self@.resolution, col as int, row as int))
            } else {
                None
            },
            center matches Some(p) ==> p.x == (2 * col + 1) * self@.resolution && p.y == (2 * row
                + 1) * self@.resolution,
    {
        proof {
            use_type_invariant(self);
        }
        if row >= self.rows() || col >= self.cols() {
            return None;
        }
        proof {
            let rows = rows_of(self@.cells);
            let cols = cols_of(self@.cells);
            assert((col + 1) * self@.resolution <= 3 * COORD_MAX && (row + 1) * self@.resolution
                <= 3 * COORD_MAX && 0 <= (2 * col + 1) * self@.resolution <= 6 * COORD_MAX && 0
                <= (2 * row + 1) * self@.resolution <= 6 * COORD_MAX) by (nonlinear_arith)
                requires
                    rows * self@.resolution <= 3 * COORD_MAX,
                    cols * self@.resolution <= 3 * COORD_MAX,
                    0 <= col < cols,
                    0 <= row < rows,
                    1 <= self@.resolution,
            ;
        }
        Some(center_of_cell_doubled(self.resolution, col, row))
    }

    /// The state of cell `(col, row)`, or `None` where the grid has no such
    /// cell.
    pub fn cell(&self, col: usize, row: usize) -> (state: Option<Cell>)
        ensures
            state == if inside(self@.cells, col as int, row as int) {
                Some(self@.cells[row as int][col as int])
            } else {
                None
            },
    {
        proof {
            use_type_invariant(self);
        }
        if row < store_row_count(&self.inner) && col < store_col_count(&self.inner) {
            Some(store_get(&self.inner, row, col))
        } else {
            None
        }
    }

    /// The places in state `state`, row by row.
    fn collect(&self, state: Cell) -> (out: Vec<(usize, usize)>)
        ensures
            out@ == places_holding(self@.cells, state),
    {
        proof {
            use_type_invariant(self);
        }
        let rows: usize = self.rows();
        let cols: usize = self.cols();
        let ghost cells = self@.cells;
        let ghost all = places(rows as nat, cols as nat);
        let ghost pred = in_state(cells, state);
        let mut out: Vec<(usize, usize)> = Vec::new();
        proof {
            assert(all.take(0) =~= Seq::empty());
            reveal(Seq::filter);
        }
        let mut row: usize = 0;
        while row < rows
            invariant
                self.wf(),
                cells == self@.cells,
                rows == rows_of(cells),
                cols == cols_of(cells),
                all == places(rows as nat, cols as nat),
                pred == in_state(cells, state),
                row <= rows,
                out@ == all.take(row * cols).filter(pred),
            decreases rows - row,
        {
            let mut col: usize = 0;
            while col < cols
                invariant
                    self.wf(),
                    cells == self@.cells,
                    rows == rows_of(cells),
                    cols == cols_of(cells),
                    all == places(rows as nat, cols as nat),
                    pred == in_state(cells, state),
                    row < rows,
                    col <= cols,
                    out@ == all.take(row * cols + col).filter(pred),
                decreases cols - col,
            {
                let here = store_get(&self.inner, row, col);
                proof {
                    let k = row * cols + col;
                    lemma_place_number(row as int, col as int, cols as int);
                    assert(k < rows * cols) by (nonlinear_arith)
                        requires
                            k == row * cols + col,
                            row < rows,
                            col < cols,
                    ;
                    assert(all[k] == (col, row));
                    assert(all.take(k + 1) =~= all.take(k).push(all[k]));
                    all.take(k).lemma_filter_push(all[k], pred);
                    assert(pred(all[k]) == (here == state));
                }
                if here == state {
                    out.push((col, row));
                }
                col += 1;
            }
            proof {
                assert((row + 1) * cols == row * cols + cols) by (nonlinear_arith);
            }
            row += 1;
        }
        proof {
            assert(all.take(rows * cols) =~= all);
        }
        out
    }

    /// The states of all cells in one row: first the cells of row 0 from
    /// column 0, then those of row 1, and so on.
    pub fn cells(&self) -> (out: Vec<Cell>)
        ensures
            out@ == row_major(self@.cells),
    {
        proof {
            use_type_invariant(self);
        }
        let rows: usize = self.rows();
        let cols: usize = self.cols();
        let ghost all = row_major(self@.cells);
        let mut out: Vec<Cell> = Vec::new();
        proof {
            assert(all.take(0) =~= Seq::empty());
        }
        let mut row: usize = 0;
        while row < rows
            invariant
                self.wf(),
                rows == rows_of(self@.cells),
                cols == cols_of(self@.cells),
                all == row_major(self@.cells),
                row <= rows,
                out@ == all.take(row * cols),
            decreases rows - row,
        {
            let mut col: usize = 0;
            while col < cols
                invariant
                    self.wf(),
                    rows == rows_of(self@.cells),
                    cols == cols_of(self@.cells),
                    all == row_major(self@.cells),
                    row < rows,
                    col <= cols,
                    out@ == all.take(row * cols + col),
                decreases cols - col,
            {
                let here = store_get(&self.inner, row, col);
                proof {
                    let k = row * cols + col;
                    lemma_place_number(row as int, col as int, cols as int);
                    assert(k < rows * cols) by (nonlinear_arith)
                        requires
                            k == row * cols + col,
                            row < rows,
                            col < cols,
                    ;
                    assert(all[k] == here);
                    assert(all.take(k + 1) =~= all.take(k).push(all[k]));
                }
                out.push(here);
                col += 1;
            }
            proof {
                assert((row + 1) * cols == row * cols + cols) by (nonlinear_arith);
            }
            row += 1;
        }
        proof {
            assert(all.take(rows * cols) =~= all);
        }
        out
    }

    /// The places to draw while the grid floods: those under water, and
    /// those the water has just reached.
    pub fn render(&self) -> (overlay: Overlay)
        ensures
            overlay.flooded@ == places_holding(self@.cells, Cell::Flooded),
            overlay.frontier@ == places_holding(self@.cells, Cell::Frontier),
    {
        Overlay { flooded: self.collect(Cell::Flooded), frontier: self.collect(Cell::Frontier) }
    }

    /// The places that are free and dry: neither built on nor reached by the
    /// flood.
    pub fn render_unfilled(&self) -> (unfilled: Vec<(usize, usize)>)
        ensures
            unfilled@ == places_holding(self@.cells, Cell::Empty),
    {
        self.collect(Cell::Empty)
    }

    /// The cell that holds the point `world`, as `(col, row)`, or `None`
    /// where the point lies left of or below the origin or beyond the last
    /// column or row.
    pub fn world_to_cell(&self, world: Point) -> (place: Option<(usize, usize)>)
        ensures
            place == cell_holding(self@, world.x as int, world.y as int),
    {
        proof {
            use_type_invariant(self);
        }
        if world.x < 0 || world.y < 0 {
            return None;
        }
        let col: i64 = world.x / self.resolution;
        let row: i64 = world.y / self.resolution;
        let cols: usize = self.cols();
        let rows: usize = self.rows();
        proof {
            assert(cols <= 3 * COORD_MAX && rows <= 3 * COORD_MAX) by (nonlinear_arith)
                requires
                    rows * self@.resolution <= 3 * COORD_MAX,
                    cols * self@.resolution <= 3 * COORD_MAX,
                    1 <= self@.resolution,
                    rows >= 0,
                    cols >= 0,
            ;
        }
        if col >= cols as i64 || row >= rows as i64 {
            return None;
        }
        Some((col as usize, row as usize))
    }

    /// Takes the grid apart, and leaves a grid of one empty cell in its
    /// place.
    fn take(&mut self) -> (parts: (CellStore, i64, Vec<(usize, usize)>))
        ensures
            store_rows(parts.0) == old(self)@.cells,
            parts.1 == old(self)@.resolution,
            parts.2@ == old(self).frontier(),
            old(self).wf(),
    {
        proof {
            use_type_invariant(&*self);
        }
        let blank = store_init(1, 1, Cell::Empty);
        proof {
            let cells = store_rows(blank);
            assert(cells[0][0] == Cell::Empty);
            assert forall|c: int, r: int| holds(cells, c, r, Cell::Frontier) implies false by {
                assert(c == 0 && r == 0);
            }
        }
        let mut held = Grid { inner: blank, resolution: 1, flood_frontier: Vec::new() };
        core::mem::swap(self, &mut held);
        let Grid { inner, resolution, flood_frontier } = held;
        (inner, resolution, flood_frontier)
    }

    /// Starts a flood at cell `(col, row)`: the place is added to the end
    /// of the frontier, and the next tick floods it. No cell changes. Where
    /// the grid has no such cell, or the cell is a building, nothing
    /// happens.
    pub fn start_flood(&mut self, col: usize, row: usize)
        ensures
            final(self)@ == old(self)@,
            final(self).frontier() == with_seed(old(self)@, old(self).frontier(), col, row),
            final(self).wf(),
    {
        let (store, resolution, mut frontier) = self.take();
        let ghost before = frontier@;
        if row < store_row_count(&store) && col < store_col_count(&store) {
            if store_get(&store, row, col) != Cell::Building {
                frontier.push((col, row));
                proof {
                    assert forall|c: int, r: int|
                        holds(store_rows(store), c, r, Cell::Frontier) implies frontier@.contains(
                        #[trigger] place(c, r),
                    ) by {
                        assert(before.contains(place(c, r)));
                        let j = choose|j: int| 0 <= j < before.len() && before[j] == place(c, r);
                        assert(frontier@[j] == place(c, r));
                    }
                }
            }
        }
        *self = Grid { inner: store, resolution, flood_frontier: frontier };
    }

    /// One tick of the flood: every cell that the frontier names is
    /// flooded, and every empty cell in the block around one of them becomes
    /// a frontier cell. Buildings and flooded cells stay as they are. The
    /// frontier after the tick lists the new frontier cells, each once, in
    /// the order in which the tick came to them. A tick that leaves anything
    /// on the frontier has used up an empty cell, so the flood comes to an
    /// end.
    pub fn flood(&mut self)
        ensures
            final(self)@.cells == step(marked(old(self)@.cells, old(self).frontier())),
            final(self)@.resolution == old(self)@.resolution,
            final(self).frontier() == next_frontier(
                old(self)@.cells,
                old(self).frontier(),
                old(self).frontier().len(),
            ),
            lists_frontier(final(self)@.cells, final(self).frontier()),
            empty_count(final(self)@.cells) <= empty_count(old(self)@.cells),
            final(self).frontier().len() > 0 ==> empty_count(final(self)@.cells) < empty_count(
                old(self)@.cells,
            ),
            final(self).wf(),
    {
        let (mut store, resolution, mut frontier) = self.take();
        spread(&mut store, &mut frontier);
        proof {
            lemma_tick_uses_up_ground(old(self)@.cells, old(self).frontier());
            if frontier@.len() > 0 {
                let first = frontier@[0];
                assert(holds(store_rows(store), first.0 as int, first.1 as int, Cell::Frontier));
            }
            let rows = rows_of(store_rows(store));
            let cols = cols_of(store_rows(store));
            assert(rows <= 3 * COORD_MAX && cols <= 3 * COORD_MAX) by (nonlinear_arith)
                requires
                    rows * resolution <= 3 * COORD_MAX,
                    cols * resolution <= 3 * COORD_MAX,
                    1 <= resolution,
            ;
            crate::spread::lemma_listed_frontier_is_marked(store_rows(store), frontier@);
        }
        *self = Grid { inner: store, resolution, flood_frontier: frontier };
    }

    /// The frontier: the cells that the next tick floods.
    pub fn frontier_cells(&self) -> (list: &Vec<(usize, usize)>)
        ensures
            list@ == self.frontier(),
            self.wf(),
    {
        proof {
            use_type_invariant(self);
        }
        &self.flood_frontier
    }

    /// A grid of its own that equals this one: the same cells, the same
    /// resolution, the same frontier.
    pub fn copy(&self) -> (other: Grid)
        ensures
            other@ == self@,
            other.frontier() == self.frontier(),
            other.wf(),
    {
        proof {
            use_type_invariant(self);
        }
        let mut frontier: Vec<(usize, usize)> = Vec::new();
        let mut i: usize = 0;
        while i < self.flood_frontier.len()
            invariant
                i <= self.flood_frontier@.len(),
                frontier@ == self.flood_frontier@.take(i as int),
            decreases self.flood_frontier@.len() - i,
        {
            frontier.push(self.flood_frontier[i]);
            proof {
                assert(self.flood_frontier@.take(i + 1) =~= self.flood_frontier@.take(i as int).push(
                    self.flood_frontier@[i as int],
                ));
            }
            i += 1;
        }
        proof {
            assert(self.flood_frontier@.take(self.flood_frontier@.len() as int)
                =~= self.flood_frontier@);
        }
        Grid {
            inner: store_clone(&self.inner),
            resolution: self.resolution,
            flood_frontier: frontier,
        }
    }

    /// Goes back to a saved state: this grid becomes a copy of `snapshot`,
    /// and whatever flood was under way in it is gone.
    pub fn reset(&mut self, snapshot: &Grid)
        ensures
            final(self)@ == snapshot@,
            final(self).frontier() == snapshot.frontier(),
            final(self).wf(),
    {
        *self = snapshot.copy();
    }

    /// Whether no cell waits to be flooded: the frontier is empty, and a
    /// tick would change nothing.
    pub fn is_settled(&self) -> (b: bool)
        ensures
            b == (self.frontier().len() == 0),
            b ==> step(marked(self@.cells, self.frontier())) == self@.cells,
    {
        proof {
            use_type_invariant(self);
            if self.frontier().len() == 0 {
                lemma_no_frontier_no_change(self@.cells, self.frontier());
            }
        }
        self.flood_frontier.len() == 0
    }
}

/// With an empty frontier, a tick leaves every cell as it is.
pub proof fn lemma_no_frontier_no_change(cells: Seq<Seq<Cell>>, frontier: Seq<(usize, usize)>)
    requires
        rectangular(cells),
        admits_frontier(cells, frontier),
        frontier.len() == 0,
    ensures
        step(marked(cells, frontier)) == cells,
{
    let m = marked(cells, frontier);
    assert forall|r: int| 0 <= r < cells.len() implies #[trigger] m[r] =~= cells[r] by {}
    assert(m =~= cells);
    assert forall|c: int, r: int| !holds(cells, c, r, Cell::Frontier) by {
        if holds(cells, c, r, Cell::Frontier) {
            assert(frontier.contains(place(c, r)));
        }
    }
    assert forall|r: int| 0 <= r < cells.len() implies #[trigger] step(cells)[r] =~= cells[r] by {
        assert forall|c: int| 0 <= c < cells[r].len() implies step(cells)[r][c] == cells[r][c] by {
            assert(cells[r].len() == cols_of(cells));
            assert(!holds(cells, c, r, Cell::Frontier));
            assert(!holds(cells, c - 1, r - 1, Cell::Frontier));
        }
    }
    assert(step(cells) =~= cells);
}

} // verus!
