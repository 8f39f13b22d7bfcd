//! Laying polygons onto a grid: how many cells span an extent, and whether a
//! cell's centre lies inside a polygon.

use crate::containment::{geo_contains, geo_safe, polygon_contains, ring_geo_safe};
use crate::geometry::{
    all_in_range, in_range, ring_valid, rings_of, Point, Polygon, PolygonView, COORD_MAX,
};
use vstd::prelude::*;

verus! {

/// The number of cells of side `resolution` that it takes to span `extent`:
/// `extent / resolution`, rounded up.
pub open spec fn cells_spanning(extent: int, resolution: int) -> int {
    (extent + resolution - 1) / resolution
}

/// `n` cells of side `resolution` span `extent`, and one fewer do not.
pub open spec fn spans(n: int, extent: int, resolution: int) -> bool {
    (n - 1) * resolution < extent <= n * resolution
}

/// `cells_spanning` is the one count that `spans`.
pub proof fn lemma_cells_spanning(extent: int, resolution: int)
    requires
        resolution > 0,
    ensures
        spans(cells_spanning(extent, resolution), extent, resolution),
        forall|n: int| spans(n, extent, resolution) ==> n == cells_spanning(extent, resolution),
{
    let n = cells_spanning(extent, resolution);
    vstd::arithmetic::div_mod::lemma_fundamental_div_mod(extent + resolution - 1, resolution);
    vstd::arithmetic::div_mod::lemma_mod_bound(extent + resolution - 1, resolution);
    assert((n - 1) * resolution == n * resolution - resolution) by (nonlinear_arith);
    assert(resolution * n == n * resolution) by (nonlinear_arith);
    assert forall|m: int| spans(m, extent, resolution) implies m == n by {
        assert(m == n) by (nonlinear_arith)
            requires
                (m - 1) * resolution < extent <= m * resolution,
                (n - 1) * resolution < extent <= n * resolution,
                resolution > 0,
        ;
    }
}

/// A ring scaled by two about the origin.
pub open spec fn doubled(ring: Seq<Point>) -> Seq<Point> {
    Seq::new(ring.len(), |i: int| Point { x: (2 * ring[i].x) as i64, y: (2 * ring[i].y) as i64 })
}

/// Rings scaled by two about the origin.
pub open spec fn all_doubled(rings: Seq<Seq<Point>>) -> Seq<Seq<Point>> {
    Seq::new(rings.len(), |i: int| doubled(rings[i]))
}

/// The centre of cell `(col, row)` of a grid of cells of side `resolution`,
/// scaled by two about the origin. The centre itself is
/// `((col + 1/2) * resolution, (row + 1/2) * resolution)`, which is no lattice
/// point where `resolution` is odd; twice the centre always is one.
pub open spec fn center_doubled(resolution: int, col: int, row: int) -> Point {
    Point { x: ((2 * col + 1) * resolution) as i64, y: ((2 * row + 1) * resolution) as i64 }
}

/// Twice the centre of cell `(col, row)`.
pub fn center_of_cell_doubled(resolution: i64, col: usize, row: usize) -> (center: Point)
    requires
        1 <= resolution,
        (col + 1) * resolution <= 3 * COORD_MAX,
        (row + 1) * resolution <= 3 * COORD_MAX,
    ensures
        center == center_doubled(resolution as int, col as int, row as int),
        geo_safe(center),
{
    proof {
        assert(0 <= (2 * col + 1) * resolution <= 6 * COORD_MAX && 0 <= (2 * row + 1) * resolution
            <= 6 * COORD_MAX && col <= 3 * COORD_MAX && row <= 3 * COORD_MAX) by (nonlinear_arith)
            requires
                (col + 1) * resolution <= 3 * COORD_MAX,
                (row + 1) * resolution <= 3 * COORD_MAX,
                0 <= col,
                0 <= row,
                1 <= resolution,
        ;
    }
    Point { x: (2 * (col as i64) + 1) * resolution, y: (2 * (row as i64) + 1) * resolution }
}

/// Whether the centre of cell `(col, row)` lies inside the polygon. Both are
/// scaled by two about the origin for the test, which moves neither across
/// the other.
pub open spec fn covers_center(polygon: PolygonView, resolution: int, col: int, row: int) -> bool {
    geo_contains(
        doubled(polygon.exterior),
        all_doubled(polygon.interiors),
        center_doubled(resolution, col, row),
    )
}

/// Whether the centre of cell `(col, row)` lies inside one of the polygons.
pub open spec fn built_on(polygons: Seq<Polygon>, resolution: int, col: int, row: int) -> bool {
    exists|i: int|
        0 <= i < polygons.len() && covers_center((#[trigger] polygons[i])@, resolution, col, row)
}

/// The rings of a polygon, scaled by two about the origin.
pub(crate) struct Outline {
    pub(crate) exterior: Vec<Point>,
    pub(crate) interiors: Vec<Vec<Point>>,
}

impl Outline {
    /// This is `polygon`, scaled by two.
    pub(crate) open spec fn doubles(&self, polygon: PolygonView) -> bool {
        &&& self.exterior@ == doubled(polygon.exterior)
        &&& rings_of(self.interiors@) == all_doubled(polygon.interiors)
        &&& ring_geo_safe(self.exterior@)
        &&& forall|i: int|
            0 <= i < self.interiors@.len() ==> ring_geo_safe((#[trigger] self.interiors@[i])@)
    }
}

/// Scales a ring by two about the origin.
pub(crate) fn double_ring(ring: &Vec<Point>) -> (out: Vec<Point>)
    requires
        all_in_range(ring@),
    ensures
        out@ == doubled(ring@),
        ring_geo_safe(out@),
{
    let mut out: Vec<Point> = Vec::new();
    let mut i: usize = 0;
    while i < ring.len()
        invariant
            all_in_range(ring@),
            i <= ring.len(),
            out@ == doubled(ring@).take(i as int),
        decreases ring.len() - i,
    {
        let p = ring[i];
        proof {
            assert(in_range(ring@[i as int]));
            assert(doubled(ring@).take(i + 1) =~= doubled(ring@).take(i as int).push(
                doubled(ring@)[i as int],
            ));
        }
        out.push(Point { x: 2 * p.x, y: 2 * p.y });
        i += 1;
    }
    proof {
        assert(doubled(ring@).take(ring@.len() as int) =~= doubled(ring@));
        assert forall|k: int| 0 <= k < out@.len() implies geo_safe(#[trigger] out@[k]) by {
            assert(in_range(ring@[k]));
        }
    }
    out
}

/// Scales a polygon by two about the origin.
pub(crate) fn double_polygon(polygon: &Polygon) -> (out: Outline)
    ensures
        out.doubles(polygon@),
{
    proof {
        use_type_invariant(polygon);
    }
    let exterior = double_ring(polygon.exterior());
    let rings = polygon.interiors();
    let mut interiors: Vec<Vec<Point>> = Vec::new();
    let mut i: usize = 0;
    while i < rings.len()
        invariant
            polygon.wf(),
            rings_of(rings@) == polygon@.interiors,
            i <= rings.len(),
            interiors@.len() == i,
            forall|k: int| 0 <= k < i ==> (#[trigger] interiors@[k])@ == doubled(rings@[k]@),
            forall|k: int| 0 <= k < i ==> ring_geo_safe((#[trigger] interiors@[k])@),
        decreases rings.len() - i,
    {
        proof {
            assert(rings_of(rings@)[i as int] == rings@[i as int]@);
            assert(ring_valid(polygon@.interiors[i as int]));
        }
        let ring = double_ring(&rings[i]);
        interiors.push(ring);
        i += 1;
    }
    proof {
        assert(rings_of(interiors@) =~= all_doubled(polygon@.interiors)) by {
            assert forall|k: int| 0 <= k < rings@.len() implies rings_of(interiors@)[k]
                == all_doubled(polygon@.interiors)[k] by {
                assert(rings_of(rings@)[k] == rings@[k]@);
            }
        }
    }
    Outline { exterior, interiors }
}

/// The number of cells of side `resolution` that span `extent`.
pub(crate) fn count_spanning(extent: i64, resolution: i64) -> (n: usize)
    requires
        0 < extent <= 2 * COORD_MAX,
        1 <= resolution <= COORD_MAX,
    ensures
        n == cells_spanning(extent as int, resolution as int),
        1 <= n,
        n * resolution <= 3 * COORD_MAX,
{
    proof {
        lemma_cells_spanning(extent as int, resolution as int);
        let n = cells_spanning(extent as int, resolution as int);
        assert(n >= 1 && n * resolution <= 3 * COORD_MAX) by (nonlinear_arith)
            requires
                (n - 1) * resolution < extent <= n * resolution,
                0 < extent <= 2 * COORD_MAX,
                1 <= resolution <= COORD_MAX,
        ;
        assert(n <= 3 * COORD_MAX) by (nonlinear_arith)
            requires
                n * resolution <= 3 * COORD_MAX,
                1 <= resolution,
                n >= 1,
        ;
    }
    ((extent + resolution - 1) / resolution) as usize
}

/// Whether the point `center` lies inside one of the outlines.
fn any_contains(
    outlines: &Vec<Outline>,
    center: Point,
    Ghost(polygons): Ghost<Seq<Polygon>>,
    Ghost(resolution): Ghost<int>,
    Ghost(col): Ghost<int>,
    Ghost(row): Ghost<int>,
) -> (found: bool)
    requires
        outlines@.len() == polygons.len(),
        forall|i: int| 0 <= i < polygons.len() ==> (#[trigger] outlines@[i]).doubles(polygons[i]@),
        center == center_doubled(resolution, col, row),
        geo_safe(center),
    ensures
        found == built_on(polygons, resolution, col, row),
{
    let mut i: usize = 0;
    while i < outlines.len()
        invariant
            outlines@.len() == polygons.len(),
            forall|k: int|
                0 <= k < polygons.len() ==> (#[trigger] outlines@[k]).doubles(polygons[k]@),
            center == center_doubled(resolution, col, row),
            geo_safe(center),
            i <= outlines.len(),
            forall|k: int|
                0 <= k < i ==> !covers_center((#[trigger] polygons[k])@, resolution, col, row),
        decreases outlines.len() - i,
    {
        proof {
            assert(outlines@[i as int].doubles(polygons[i as int]@));
        }
        if polygon_contains(&outlines[i].exterior, &outlines[i].interiors, center) {
            proof {
                assert(covers_center(polygons[i as int]@, resolution, col, row));
            }
            return true;
        }
        i += 1;
    }
    false
}

/// For each cell of a grid of `rows` rows of `cols` cells, row by row,
/// whether its centre lies inside one of the outlines.
pub(crate) fn coverage(
    outlines: &Vec<Outline>,
    rows: usize,
    cols: usize,
    resolution: i64,
    Ghost(polygons): Ghost<Seq<Polygon>>,
) -> (mask: Vec<bool>)
    requires
        outlines@.len() == polygons.len(),
        forall|i: int| 0 <= i < polygons.len() ==> (#[trigger] outlines@[i]).doubles(polygons[i]@),
        1 <= resolution <= COORD_MAX,
        rows * resolution <= 3 * COORD_MAX,
        cols * resolution <= 3 * COORD_MAX,
        rows * cols <= usize::MAX,
    ensures
        mask@.len() == rows * cols,
        forall|c: int, r: int|
            0 <= c < cols && 0 <= r < rows ==> mask@[r * cols + c] == #[trigger] built_on(
                polygons,
                resolution as int,
                c,
                r,
            ),
{
    let mut mask: Vec<bool> = Vec::new();
    let mut row: usize = 0;
    while row < rows
        invariant
            outlines@.len() == polygons.len(),
            forall|i: int|
                0 <= i < polygons.len() ==> (#[trigger] outlines@[i]).doubles(polygons[i]@),
            1 <= resolution <= COORD_MAX,
            rows * resolution <= 3 * COORD_MAX,
            cols * resolution <= 3 * COORD_MAX,
            row <= rows,
            mask@.len() == row * cols,
            forall|c: int, r: int|
                0 <= c < cols && 0 <= r < row ==> mask@[r * cols + c] == #[trigger] built_on(
                    polygons,
                    resolution as int,
                    c,
                    r,
                ),
        decreases rows - row,
    {
        let mut col: usize = 0;
        while col < cols
            invariant
                outlines@.len() == polygons.len(),
                forall|i: int|
                    0 <= i < polygons.len() ==> (#[trigger] outlines@[i]).doubles(polygons[i]@),
                1 <= resolution <= COORD_MAX,
                rows * resolution <= 3 * COORD_MAX,
                cols * resolution <= 3 * COORD_MAX,
                row < rows,
                col <= cols,
                mask@.len() == row * cols + col,
                forall|c: int, r: int|
                    0 <= c < cols && (0 <= r < row || (r == row && c < col)) ==> mask@[r * cols + c]
                        == #[trigger] built_on(polygons, resolution as int, c, r),
            decreases cols - col,
        {
            proof {
                assert((col + 1) * resolution <= 3 * COORD_MAX && (row + 1) * resolution <= 3
                    * COORD_MAX) by (nonlinear_arith)
                    requires
                        rows * resolution <= 3 * COORD_MAX,
                        cols * resolution <= 3 * COORD_MAX,
                        0 <= col < cols,
                        0 <= row < rows,
                        1 <= resolution,
                ;
            }
            let center = center_of_cell_doubled(resolution, col, row);
            let found = any_contains(
                outlines,
                center,
                Ghost(polygons),
                Ghost(resolution as int),
                Ghost(col as int),
                Ghost(row as int),
            );
            let ghost before = mask@;
            mask.push(found);
            proof {
                assert forall|c: int, r: int|
                    0 <= c < cols && (0 <= r < row || (r == row && c < col + 1)) implies mask@[r
                    * cols + c] == #[trigger] built_on(polygons, resolution as int, c, r) by {
                    if r == row && c == col {
                    } else {
                        lemma_earlier_place(r, c, row as int, col as int, cols as int);
                        assert(mask@[r * cols + c] == before[r * cols + c]);
                    }
                }
            }
            col += 1;
        }
        proof {
            assert((row + 1) * cols == row * cols + cols) by (nonlinear_arith);
        }
        row += 1;
    }
    mask
}

/// A place that comes before another in row order has the smaller number.
proof fn lemma_earlier_place(r: int, c: int, row: int, col: int, cols: int)
    requires
        0 <= c < cols,
        0 <= col <= cols,
        0 <= r,
        r < row || (r == row && c < col),
    ensures
        0 <= r * cols + c < row * cols + col,
{
    assert(0 <= r * cols + c < row * cols + col) by (nonlinear_arith)
        requires
            0 <= c < cols,
            0 <= col <= cols,
            0 <= r,
            r < row || (r == row && c < col),
    ;
}

} // verus!
