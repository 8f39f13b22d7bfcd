//! What an ear-cutting triangulator is handed for a polygon.

use crate::geometry::{
    flattened, lemma_flattened_len, lemma_total_len_grows, rings_of, total_len, Point, Polygon,
    PolygonView,
};
use vstd::prelude::*;

verus! {

/// The coordinates of `points` in one row: x, then y, point after point.
pub open spec fn interleaved(points: Seq<Point>) -> Seq<i64> {
    Seq::new(
        2 * points.len(),
        |i: int| if i % 2 == 0 {
            points[i / 2].x
        } else {
            points[i / 2].y
        },
    )
}

/// For each hole of the polygon, the number of vertices that come before
/// its first in `PolygonView::points`.
pub open spec fn hole_starts(polygon: PolygonView) -> Seq<usize> {
    Seq::new(
        polygon.interiors.len(),
        |i: int| (polygon.exterior.len() + total_len(polygon.interiors.take(i))) as usize,
    )
}

/// The coordinates of two runs of points laid end to end are the
/// coordinates of the first, then those of the second.
pub proof fn lemma_interleaved_concat(a: Seq<Point>, b: Seq<Point>)
    ensures
        interleaved(a + b) == interleaved(a) + interleaved(b),
{
    assert(interleaved(a + b) =~= interleaved(a) + interleaved(b));
}

/// What an ear-cutting triangulator takes for a polygon: all coordinates in
/// one row, and where in that row, counted in vertices, each hole starts.
pub struct EarcutInput {
    pub vertices: Vec<i64>,
    pub interior_indices: Vec<usize>,
}

/// Appends the coordinates of a ring's vertices to `vertices`: x, then y,
/// vertex after vertex.
pub fn flat_line_string_coords_2(line_string: &Vec<Point>, vertices: &mut Vec<i64>)
    ensures
        final(vertices)@ == old(vertices)@ + interleaved(line_string@),
{
    let ghost start = vertices@;
    let mut i: usize = 0;
    while i < line_string.len()
        invariant
            i <= line_string@.len(),
            vertices@ == start + interleaved(line_string@.take(i as int)),
        decreases line_string@.len() - i,
    {
        let coord = line_string[i];
        vertices.push(coord.x);
        vertices.push(coord.y);
        proof {
            let before = line_string@.take(i as int);
            assert(line_string@.take(i + 1) =~= before + seq![coord]);
            lemma_interleaved_concat(before, seq![coord]);
            assert(interleaved(seq![coord]) =~= seq![coord.x, coord.y]);
            assert(vertices@ =~= start + interleaved(line_string@.take(i + 1)));
        }
        i += 1;
    }
    proof {
        assert(line_string@.take(line_string@.len() as int) =~= line_string@);
    }
}

/// The input that an ear-cutting triangulator takes for `polygon`. The
/// triangles it answers with count the vertices as `Polygon::points` lists
/// them.
pub fn polygon_to_earcutr_input(polygon: &Polygon) -> (input: EarcutInput)
    ensures
        input.vertices@ == interleaved(polygon@.points()),
        input.interior_indices@ == hole_starts(polygon@),
{
    let mut vertices: Vec<i64> = Vec::new();
    let mut interior_indices: Vec<usize> = Vec::new();
    flat_line_string_coords_2(polygon.exterior(), &mut vertices);
    let rings = polygon.interiors();
    let mut i: usize = 0;
    proof {
        assert(polygon@.interiors.take(0) =~= Seq::empty());
        assert(polygon@.exterior + flattened(polygon@.interiors.take(0)) =~= polygon@.exterior);
    }
    while i < rings.len()
        invariant
            polygon.wf(),
            rings_of(rings@) == polygon@.interiors,
            i <= rings@.len(),
            vertices@ == interleaved(
                polygon@.exterior + flattened(polygon@.interiors.take(i as int)),
            ),
            interior_indices@ == hole_starts(polygon@).take(i as int),
        decreases rings@.len() - i,
    {
        let ghost so_far = polygon@.exterior + flattened(polygon@.interiors.take(i as int));
        proof {
            lemma_flattened_len(polygon@.interiors.take(i as int));
            lemma_total_len_grows(polygon@.interiors, i as int);
            assert(rings_of(rings@)[i as int] == rings@[i as int]@);
            assert(polygon@.interiors.take(i + 1).drop_last() =~= polygon@.interiors.take(i as int));
            assert(polygon@.interiors.take(i + 1).last() == rings@[i as int]@);
            lemma_interleaved_concat(so_far, rings@[i as int]@);
            assert(polygon@.exterior + flattened(polygon@.interiors.take(i + 1)) =~= so_far
                + rings@[i as int]@);
        }
        interior_indices.push(vertices.len() / 2);
        flat_line_string_coords_2(&rings[i], &mut vertices);
        proof {
            assert(hole_starts(polygon@).take(i + 1) =~= hole_starts(polygon@).take(i as int).push(
                hole_starts(polygon@)[i as int],
            ));
        }
        i += 1;
    }
    proof {
        assert(polygon@.interiors.take(rings@.len() as int) =~= polygon@.interiors);
        assert(hole_starts(polygon@).take(rings@.len() as int) =~= hole_starts(polygon@));
    }
    EarcutInput { vertices, interior_indices }
}

} // verus!
