//! Raising a footprint into a solid: a floor, a ceiling, and a wall over
//! every edge of the exterior ring.

use crate::geometry::{
    all_in_range, in_range, GeometryError, Point, Polygon, PolygonView, COORD_MAX,
};
use crate::mesh::{
    cap_vertices, check_triangulation, cross_product, difference, is_triangulation,
    lemma_extends_chain, lemma_face_extends, lemma_quad_extends, MeshBuilder, MeshView, Vec3,
};
use vstd::prelude::*;

verus! {

/// The direction a floor faces.
pub open spec fn down() -> Vec3 {
    Vec3 { x: 0, y: -1i64, z: 0 }
}

/// The direction a ceiling faces.
pub open spec fn up() -> Vec3 {
    Vec3 { x: 0, y: 1, z: 0 }
}

/// The vertex at which edge `k` of the ring starts.
pub open spec fn edge_start(ring: Seq<Point>, k: int) -> Point {
    ring[k]
}

/// The vertex at which edge `k` of the ring ends: the next vertex, or the
/// first after the last.
pub open spec fn edge_end(ring: Seq<Point>, k: int) -> Point {
    if k + 1 < ring.len() {
        ring[k + 1]
    } else {
        ring[0]
    }
}

/// Whether some edge of the ring starts and ends at one point.
pub open spec fn has_degenerate_edge(ring: Seq<Point>) -> bool {
    exists|k: int| 0 <= k < ring.len() && #[trigger] edge_start(ring, k) == edge_end(ring, k)
}

/// The corners of the wall over edge `k`: the edge's start and end on the
/// ground, then its end and start at `height`.
pub open spec fn wall_corners(ring: Seq<Point>, k: int, height: i64) -> Seq<Vec3> {
    let tail = edge_start(ring, k);
    let tip = edge_end(ring, k);
    seq![
        Vec3 { x: tail.x, y: 0, z: tail.y },
        Vec3 { x: tip.x, y: 0, z: tip.y },
        Vec3 { x: tip.x, y: height, z: tip.y },
        Vec3 { x: tail.x, y: height, z: tail.y },
    ]
}

/// The direction the wall over edge `k` faces: the cross product of the
/// wall's bottom edge, from its first corner to its second, and its rising
/// edge, from its second corner to its third. Its length is the wall's
/// area.
pub open spec fn wall_normal(ring: Seq<Point>, k: int, height: i64) -> Vec3 {
    let corners = wall_corners(ring, k, height);
    cross_product(difference(corners[1], corners[0]), difference(corners[2], corners[1]))
}

/// The mesh with a wall over each of the first `n` edges of the ring.
pub open spec fn with_walls(mesh: MeshView, ring: Seq<Point>, height: i64, n: nat) -> MeshView
    decreases n,
{
    if n == 0 {
        mesh
    } else {
        with_walls(mesh, ring, height, (n - 1) as nat).with_quad(
            wall_corners(ring, n - 1, height),
            wall_normal(ring, n - 1, height),
        )
    }
}

/// The mesh with the solid over `polygon` added: the floor at height zero,
/// facing down; the ceiling at `height`, facing up; and a wall over every
/// edge of the exterior ring. Holes are cut out of floor and ceiling by
/// `triangles`; no wall is raised around them.
pub open spec fn extruded(
    mesh: MeshView,
    polygon: PolygonView,
    height: i64,
    triangles: Seq<usize>,
) -> MeshView {
    with_walls(
        mesh.with_cap(polygon.points(), triangles, 0, down()).with_cap(
            polygon.points(),
            triangles,
            height,
            up(),
        ),
        polygon.exterior,
        height,
        polygon.exterior.len(),
    )
}

/// The number of vertices of the solid over `polygon`: floor and ceiling
/// have one for each vertex of the polygon, and each wall has four.
pub open spec fn solid_vertex_count(polygon: PolygonView) -> nat {
    2 * polygon.vertex_count() + 4 * polygon.exterior.len()
}

/// `n` walls add four vertices and two triangles each.
pub proof fn lemma_walls_count(mesh: MeshView, ring: Seq<Point>, height: i64, n: nat)
    ensures
        with_walls(mesh, ring, height, n).vertices.len() == mesh.vertices.len() + 4 * n,
        with_walls(mesh, ring, height, n).indices.len() == mesh.indices.len() + 6 * n,
    decreases n,
{
    if n > 0 {
        lemma_walls_count(mesh, ring, height, (n - 1) as nat);
    }
}

/// The solid over a polygon has twice the triangles of the polygon's
/// triangulation, for floor and ceiling, and two more for every edge of the
/// exterior ring; it has two vertices for every vertex of the polygon, and
/// four more for every edge of the exterior ring.
pub proof fn lemma_extrusion_counts(
    mesh: MeshView,
    polygon: PolygonView,
    height: i64,
    triangles: Seq<usize>,
)
    requires
        mesh.valid(),
        is_triangulation(triangles, polygon.vertex_count()),
    ensures
        extruded(mesh, polygon, height, triangles).triangle_count() == mesh.triangle_count() + 2 * (
        triangles.len() / 3) + 2 * polygon.exterior.len(),
        extruded(mesh, polygon, height, triangles).indices.len() % 3 == 0,
        extruded(mesh, polygon, height, triangles).vertices.len() == mesh.vertices.len()
            + solid_vertex_count(polygon),
{
    let capped = mesh.with_cap(polygon.points(), triangles, 0, down()).with_cap(
        polygon.points(),
        triangles,
        height,
        up(),
    );
    lemma_walls_count(capped, polygon.exterior, height, polygon.exterior.len());
    crate::geometry::lemma_flattened_len(polygon.interiors);
}

/// No two vertices of the ring are one point.
pub open spec fn all_distinct(ring: Seq<Point>) -> bool {
    forall|i: int, j: int| 0 <= i < j < ring.len() ==> #[trigger] ring[i] != #[trigger] ring[j]
}

/// A solid closes over any footprint of distinct vertices: with an
/// exterior ring of `N` distinct vertices and a triangle list of `T`
/// triangles over the polygon's vertices, `extrude` succeeds and adds
/// `2 * T + 2 * N` triangles, `T` each for floor and ceiling and two for
/// every edge.
pub proof fn lemma_extrusion_closure(
    mesh: MeshView,
    polygon: PolygonView,
    height: i64,
    triangles: Seq<usize>,
)
    requires
        mesh.valid(),
        polygon.exterior.len() >= 2,
        all_distinct(polygon.exterior),
        is_triangulation(triangles, polygon.vertex_count()),
    ensures
        extrusion_outcome(polygon, triangles) == Ok::<(), GeometryError>(()),
        extruded(mesh, polygon, height, triangles).triangle_count() == mesh.triangle_count() + 2 * (
        triangles.len() / 3) + 2 * polygon.exterior.len(),
{
    let ring = polygon.exterior;
    assert forall|k: int| 0 <= k < ring.len() implies #[trigger] edge_start(ring, k) != edge_end(
        ring,
        k,
    ) by {
        if k + 1 < ring.len() {
            assert(ring[k] != ring[k + 1]);
        } else {
            assert(ring[0] != ring[k]);
        }
    }
    lemma_extrusion_counts(mesh, polygon, height, triangles);
}

/// Walls are added to a mesh, never put in place of what it held.
pub proof fn lemma_walls_extend(mesh: MeshView, ring: Seq<Point>, height: i64, n: nat)
    requires
        mesh.vertices.len() + 4 * n <= u32::MAX,
    ensures
        with_walls(mesh, ring, height, n).extends(mesh),
        mesh.valid() ==> with_walls(mesh, ring, height, n).valid(),
    decreases n,
{
    if n > 0 {
        let before = with_walls(mesh, ring, height, (n - 1) as nat);
        lemma_walls_extend(mesh, ring, height, (n - 1) as nat);
        lemma_walls_count(mesh, ring, height, (n - 1) as nat);
        lemma_quad_extends(before, wall_corners(ring, n - 1, height), wall_normal(ring, n - 1, height));
        lemma_extends_chain(with_walls(mesh, ring, height, n), before, mesh);
    }
}

/// A solid is added to a mesh, never put in place of what it held: the
/// vertices and indices the mesh had stay where they were, every index added
/// names a vertex added, and every index names a vertex.
pub proof fn lemma_extruded_extends(
    mesh: MeshView,
    polygon: PolygonView,
    height: i64,
    triangles: Seq<usize>,
)
    requires
        mesh.valid(),
        is_triangulation(triangles, polygon.vertex_count()),
        mesh.vertices.len() + solid_vertex_count(polygon) <= u32::MAX,
    ensures
        extruded(mesh, polygon, height, triangles).extends(mesh),
        extruded(mesh, polygon, height, triangles).valid(),
{
    crate::geometry::lemma_flattened_len(polygon.interiors);
    let points = polygon.points();
    let floor = mesh.with_cap(points, triangles, 0, down());
    let ceiling = floor.with_cap(points, triangles, height, up());
    lemma_face_extends(mesh, cap_vertices(points, 0, down()), triangles);
    lemma_face_extends(floor, cap_vertices(points, height, up()), triangles);
    lemma_extends_chain(ceiling, floor, mesh);
    lemma_walls_extend(ceiling, polygon.exterior, height, polygon.exterior.len());
    lemma_extends_chain(extruded(mesh, polygon, height, triangles), ceiling, mesh);
}

/// The wall over an edge from `tail` to `tip` faces along
/// `(-(tip.y - tail.y) * height, 0, (tip.x - tail.x) * height)`: level, and square
/// to the edge.
pub proof fn lemma_wall_normal_value(ring: Seq<Point>, k: int, height: i64)
    requires
        0 <= k < ring.len(),
        all_in_range(ring),
        0 < height <= COORD_MAX,
    ensures
        wall_normal(ring, k, height).x == -(edge_end(ring, k).y - edge_start(ring, k).y) * height,
        wall_normal(ring, k, height).y == 0,
        wall_normal(ring, k, height).z == (edge_end(ring, k).x - edge_start(ring, k).x) * height,
{
    let tail = edge_start(ring, k);
    let tip = edge_end(ring, k);
    assert(in_range(tail) && in_range(tip));
    let dx = tip.x - tail.x;
    let dz = tip.y - tail.y;
    assert(-40_000_000_000_000_000 <= dx * height <= 40_000_000_000_000_000
        && -40_000_000_000_000_000 <= dz * height <= 40_000_000_000_000_000) by (nonlinear_arith)
        requires
            -200_000_000 <= dx <= 200_000_000,
            -200_000_000 <= dz <= 200_000_000,
            0 < height <= 100_000_000,
    ;
    let corners = wall_corners(ring, k, height);
    let bottom = difference(corners[1], corners[0]);
    let rise = difference(corners[2], corners[1]);
    assert(bottom == Vec3 { x: dx as i64, y: 0, z: dz as i64 });
    assert(rise == Vec3 { x: 0, y: height, z: 0 });
    assert(bottom.y * rise.z - bottom.z * rise.y == -dz * height) by (nonlinear_arith)
        requires
            bottom.y == 0,
            rise.z == 0,
            bottom.z == dz,
            rise.y == height,
    ;
    assert(bottom.z * rise.x - bottom.x * rise.z == 0) by (nonlinear_arith)
        requires
            rise.x == 0,
            rise.z == 0,
    ;
    assert(bottom.x * rise.y - bottom.y * rise.x == dx * height) by (nonlinear_arith)
        requires
            bottom.y == 0,
            rise.x == 0,
            bottom.x == dx,
            rise.y == height,
    ;
}

/// The ring is a square that turns to the left for an eye above it: seen
/// from above, with the y axis of space towards the eye and the x axis to the
/// right, the ground plane's second axis, which is the z axis of space,
/// points down the picture, so that each edge is the one before it turned
/// from x towards minus z.
pub open spec fn is_left_turning_square(ring: Seq<Point>) -> bool {
    let a = ring[1].x - ring[0].x;
    let b = ring[1].y - ring[0].y;
    &&& ring.len() == 4
    &&& (a != 0 || b != 0)
    &&& ring[2].x - ring[1].x == b
    &&& ring[2].y - ring[1].y == -a
    &&& ring[3].x - ring[2].x == -a
    &&& ring[3].y - ring[2].y == -b
}

/// Four times the step from the middle of the footprint to the middle of
/// edge `k`, along x and along z: the step from the centroid of a solid over
/// a four-cornered ring to the centre of its wall over that edge, which are
/// at the same height.
pub open spec fn to_wall_center(ring: Seq<Point>, k: int) -> (int, int) {
    let tail = edge_start(ring, k);
    let tip = edge_end(ring, k);
    (
        2 * (tail.x + tip.x) - (ring[0].x + ring[1].x + ring[2].x + ring[3].x),
        2 * (tail.y + tip.y) - (ring[0].y + ring[1].y + ring[2].y + ring[3].y),
    )
}

/// Eight times the step from the centroid of the solid over a four-cornered
/// ring, which is the mean of the solid's eight corners, to the centre of the
/// wall over edge `k`, which is the mean of the wall's four corners.
pub open spec fn centroid_to_wall(ring: Seq<Point>, k: int, height: i64) -> (int, int, int) {
    let wall = wall_corners(ring, k, height);
    let wall_x = wall[0].x + wall[1].x + wall[2].x + wall[3].x;
    let wall_y = wall[0].y + wall[1].y + wall[2].y + wall[3].y;
    let wall_z = wall[0].z + wall[1].z + wall[2].z + wall[3].z;
    let solid_x = 2 * (ring[0].x + ring[1].x + ring[2].x + ring[3].x);
    let solid_y = 4 * height;
    let solid_z = 2 * (ring[0].y + ring[1].y + ring[2].y + ring[3].y);
    (2 * wall_x - solid_x, 2 * wall_y - solid_y, 2 * wall_z - solid_z)
}

/// Over a square footprint that turns to the left for an eye above it, every
/// wall faces away from the middle: the wall's normal and the step from the
/// solid's centroid to the wall's centre point the same way, their dot
/// product being positive. The normal is the one that `extruded` gives the
/// wall's four vertices.
pub proof fn lemma_square_walls_face_outward(ring: Seq<Point>, height: i64, k: int)
    requires
        is_left_turning_square(ring),
        all_in_range(ring),
        0 < height <= COORD_MAX,
        0 <= k < 4,
    ensures
        wall_normal(ring, k, height).x * centroid_to_wall(ring, k, height).0 + wall_normal(
            ring,
            k,
            height,
        ).y * centroid_to_wall(ring, k, height).1 + wall_normal(ring, k, height).z
            * centroid_to_wall(ring, k, height).2 > 0,
        wall_normal(ring, k, height).x * to_wall_center(ring, k).0 + wall_normal(
            ring,
            k,
            height,
        ).z * to_wall_center(ring, k).1 > 0,
        wall_normal(ring, k, height).y == 0,
{
    lemma_wall_normal_value(ring, k, height);
    assert(centroid_to_wall(ring, k, height).0 == 2 * to_wall_center(ring, k).0);
    assert(centroid_to_wall(ring, k, height).1 == 0);
    assert(centroid_to_wall(ring, k, height).2 == 2 * to_wall_center(ring, k).1);
    assert(wall_normal(ring, k, height).x * (2 * to_wall_center(ring, k).0) + wall_normal(
        ring,
        k,
        height,
    ).y * 0 + wall_normal(ring, k, height).z * (2 * to_wall_center(ring, k).1) == 2 * (
    wall_normal(ring, k, height).x * to_wall_center(ring, k).0 + wall_normal(ring, k, height).z
        * to_wall_center(ring, k).1)) by (nonlinear_arith);
    let a = ring[1].x - ring[0].x;
    let b = ring[1].y - ring[0].y;
    let h = height as int;
    let nx = wall_normal(ring, k, height).x as int;
    let nz = wall_normal(ring, k, height).z as int;
    let tx = to_wall_center(ring, k).0;
    let tz = to_wall_center(ring, k).1;
    assert(a * a + b * b > 0) by (nonlinear_arith)
        requires
            a != 0 || b != 0,
    ;
    if k == 0 {
        assert(nx * tx + nz * tz == 2 * h * (a * a + b * b)) by (nonlinear_arith)
            requires
                nx == -b * h,
                nz == a * h,
                tx == -2 * b,
                tz == 2 * a,
        ;
    } else if k == 1 {
        assert(nx * tx + nz * tz == 2 * h * (a * a + b * b)) by (nonlinear_arith)
            requires
                nx == a * h,
                nz == b * h,
                tx == 2 * a,
                tz == 2 * b,
        ;
    } else if k == 2 {
        assert(nx * tx + nz * tz == 2 * h * (a * a + b * b)) by (nonlinear_arith)
            requires
                nx == b * h,
                nz == -a * h,
                tx == 2 * b,
                tz == -2 * a,
        ;
    } else {
        assert(nx * tx + nz * tz == 2 * h * (a * a + b * b)) by (nonlinear_arith)
            requires
                nx == -a * h,
                nz == -b * h,
                tx == -2 * a,
                tz == -2 * b,
        ;
    }
    assert(2 * h * (a * a + b * b) > 0) by (nonlinear_arith)
        requires
            h > 0,
            a * a + b * b > 0,
    ;
}

/// Decides `has_degenerate_edge`.
pub fn ring_has_degenerate_edge(ring: &Vec<Point>) -> (b: bool)
    ensures
        b == has_degenerate_edge(ring@),
{
    let len: usize = ring.len();
    let mut k: usize = 0;
    while k < len
        invariant
            len == ring@.len(),
            k <= len,
            forall|m: int| 0 <= m < k ==> #[trigger] edge_start(ring@, m) != edge_end(ring@, m),
        decreases len - k,
    {
        let next: usize = if k + 1 < len { k + 1 } else { 0 };
        if ring[k] == ring[next] {
            proof {
                assert(edge_start(ring@, k as int) == edge_end(ring@, k as int));
            }
            return true;
        }
        k += 1;
    }
    false
}

/// Adds to `builder` the solid that stands on `polygon` and is `height`
/// high: the floor, the ceiling, and a wall over every edge of the exterior
/// ring, in that order. `triangles` is a triangulation of the polygon that
/// counts its vertices in the order of `Polygon::points`.
///
/// Fails with `TriangulationFailure` where `triangles` is no list of
/// triangles over the polygon's vertices, and otherwise with
/// `DegenerateEdge` where an edge of the exterior ring has no length. A
/// failed call adds nothing.
pub fn extrude(
    polygon: Polygon,
    height: i64,
    triangles: &Vec<usize>,
    builder: &mut MeshBuilder,
) -> (done: Result<(), GeometryError>)
    requires
        0 < height <= COORD_MAX,
        old(builder)@.vertices.len() + solid_vertex_count(polygon@) <= u32::MAX,
    ensures
        done == extrusion_outcome(polygon@, triangles@),
        done is Ok ==> final(builder)@ == extruded(old(builder)@, polygon@, height, triangles@),
        done is Ok ==> final(builder)@.triangle_count() == old(builder)@.triangle_count() + 2 * (
        triangles@.len() / 3) + 2 * polygon@.exterior.len(),
        done is Ok ==> final(builder)@.vertices.len() == old(builder)@.vertices.len()
            + solid_vertex_count(polygon@),
        done is Err ==> final(builder)@ == old(builder)@,
        final(builder)@.extends(old(builder)@),
        final(builder)@.valid(),
{
    let ghost start = builder@;
    let ghost ring_view = polygon@.exterior;
    proof {
        use_type_invariant(&*builder);
    }
    let count: usize = polygon.vertex_count();
    if !check_triangulation(triangles, count) {
        return Err(GeometryError::TriangulationFailure);
    }
    let ring = polygon.exterior();
    if ring_has_degenerate_edge(ring) {
        return Err(GeometryError::DegenerateEdge);
    }
    let floor_normal = Vec3 { x: 0, y: -1, z: 0 };
    let ceiling_normal = Vec3 { x: 0, y: 1, z: 0 };
    match builder.triangulate_polygon(&polygon, triangles, 0, floor_normal) {
        Ok(()) => {},
        Err(error) => {
            return Err(error);
        },
    }
    proof {
        crate::geometry::lemma_flattened_len(polygon@.interiors);
    }
    match builder.triangulate_polygon(&polygon, triangles, height, ceiling_normal) {
        Ok(()) => {},
        Err(error) => {
            return Err(error);
        },
    }
    let ghost capped = builder@;
    proof {
        assert(capped.vertices.len() == start.vertices.len() + 2 * polygon@.vertex_count());
    }
    let len: usize = ring.len();
    let mut k: usize = 0;
    while k < len
        invariant
            polygon.wf(),
            ring@ == ring_view,
            ring_view == polygon@.exterior,
            len == ring_view.len(),
            0 < height <= COORD_MAX,
            k <= len,
            capped.vertices.len() + 4 * len <= u32::MAX,
            builder@.valid(),
            builder@ == with_walls(capped, ring_view, height, k as nat),
        decreases len - k,
    {
        let next: usize = if k + 1 < len { k + 1 } else { 0 };
        let tail = ring[k];
        let tip = ring[next];
        proof {
            assert(all_in_range(ring_view));
            assert(in_range(ring_view[k as int]) && in_range(ring_view[next as int]));
            assert(tail == edge_start(ring_view, k as int) && tip == edge_end(ring_view, k as int));
            lemma_walls_count(capped, ring_view, height, k as nat);
        }
        let corner1 = Vec3 { x: tail.x, y: 0, z: tail.y };
        let corner2 = Vec3 { x: tip.x, y: 0, z: tip.y };
        let corner3 = Vec3 { x: tip.x, y: height, z: tip.y };
        let corner4 = Vec3 { x: tail.x, y: height, z: tail.y };
        let bottom_line = corner2.minus(corner1);
        let up_line = corner3.minus(corner2);
        let normal = bottom_line.cross(up_line);
        let corners = [corner1, corner2, corner3, corner4];
        proof {
            assert(corners@ =~= wall_corners(ring_view, k as int, height));
            assert(normal == wall_normal(ring_view, k as int, height));
        }
        builder.add_quad(corners, normal);
        k += 1;
    }
    proof {
        lemma_extrusion_counts(start, polygon@, height, triangles@);
        lemma_extruded_extends(start, polygon@, height, triangles@);
    }
    Ok(())
}

/// How `extrude` ends for a polygon and a triangle list.
pub open spec fn extrusion_outcome(polygon: PolygonView, triangles: Seq<usize>) -> Result<
    (),
    GeometryError,
> {
    if !is_triangulation(triangles, polygon.vertex_count()) {
        Err(GeometryError::TriangulationFailure)
    } else if has_degenerate_edge(polygon.exterior) {
        Err(GeometryError::DegenerateEdge)
    } else {
        Ok(())
    }
}

} // verus!
