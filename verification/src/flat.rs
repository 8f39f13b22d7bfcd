//! Footprints drawn flat: one mesh in the plane for any number of polygons.

use crate::geometry::{GeometryError, Point, Polygon};
use crate::mesh::{check_triangulation, is_triangulation, Mesh, MeshBuilder, MeshView, Vec3, Vertex};
use vstd::prelude::*;

verus! {

/// The vertex of a flat drawing over the point `p`: in the plane where z is
/// zero, facing along z.
pub open spec fn flat_vertex(p: Point) -> Vertex {
    Vertex { pos: Vec3 { x: p.x, y: p.y, z: 0 }, normal: Vec3 { x: 0, y: 0, z: 1 } }
}

/// The vertices of a flat drawing over `points`.
pub open spec fn flat_vertices(points: Seq<Point>) -> Seq<Vertex> {
    Seq::new(points.len(), |i: int| flat_vertex(points[i]))
}

/// The flat drawing of the first `n` polygons: for each in turn, a vertex
/// over each vertex of its exterior ring, and its triangles.
pub open spec fn flat_mesh(
    polygons: Seq<Polygon>,
    triangulations: Seq<Vec<usize>>,
    n: nat,
) -> MeshView
    decreases n,
{
    if n == 0 {
        MeshView { vertices: Seq::empty(), indices: Seq::empty() }
    } else {
        flat_mesh(polygons, triangulations, (n - 1) as nat).with_face(
            flat_vertices(polygons[n - 1]@.exterior),
            triangulations[n - 1]@,
        )
    }
}

/// Whether there is a triangle list for each polygon, and each is a list of
/// triangles over the vertices of its polygon's exterior ring.
pub open spec fn are_triangulations(
    polygons: Seq<Polygon>,
    triangulations: Seq<Vec<usize>>,
) -> bool {
    &&& triangulations.len() == polygons.len()
    &&& forall|i: int|
        0 <= i < polygons.len() ==> is_triangulation(
            (#[trigger] triangulations[i])@,
            polygons[i]@.exterior.len(),
        )
}

/// The number of vertices that the exterior rings of the first `n` polygons
/// have together.
pub open spec fn exterior_total(polygons: Seq<Polygon>, n: nat) -> nat
    decreases n,
{
    if n == 0 {
        0
    } else {
        exterior_total(polygons, (n - 1) as nat) + polygons[n - 1]@.exterior.len()
    }
}

/// The exterior rings of the first polygons have no more vertices than
/// those of all of them.
pub proof fn lemma_exterior_total_grows(polygons: Seq<Polygon>, n: nat, m: nat)
    requires
        n <= m,
    ensures
        exterior_total(polygons, n) <= exterior_total(polygons, m),
    decreases m,
{
    if n < m {
        lemma_exterior_total_grows(polygons, n, (m - 1) as nat);
    }
}

/// The flat drawing of the first `n` polygons has a vertex for each vertex
/// of their exterior rings.
pub proof fn lemma_flat_mesh_vertices(
    polygons: Seq<Polygon>,
    triangulations: Seq<Vec<usize>>,
    n: nat,
)
    ensures
        flat_mesh(polygons, triangulations, n).vertices.len() == exterior_total(polygons, n),
    decreases n,
{
    if n > 0 {
        lemma_flat_mesh_vertices(polygons, triangulations, (n - 1) as nat);
    }
}

/// The flat drawing of polygons: one mesh in the plane where z is zero,
/// facing along z, with a vertex for each vertex of each polygon's exterior
/// ring and the triangles of each polygon's triangle list. Holes are not
/// drawn.
///
/// Fails with `TriangulationFailure` unless there is a triangle list for
/// each polygon that is a list of triangles over the vertices of that
/// polygon's exterior ring.
pub fn polygons_to_mesh(polygons: Vec<Polygon>, triangulations: &Vec<Vec<usize>>) -> (made: Result<
    Mesh,
    GeometryError,
>)
    requires
        exterior_total(polygons@, polygons@.len()) <= u32::MAX,
    ensures
        made is Ok <==> are_triangulations(polygons@, triangulations@),
        made matches Ok(mesh) ==> mesh@.valid() && mesh@ == flat_mesh(
            polygons@,
            triangulations@,
            polygons@.len(),
        ),
        made matches Err(error) ==> error == GeometryError::TriangulationFailure,
{
    if triangulations.len() != polygons.len() {
        return Err(GeometryError::TriangulationFailure);
    }
    let mut builder = MeshBuilder::new();
    let mut i: usize = 0;
    proof {
        assert(builder@ =~= flat_mesh(polygons@, triangulations@, 0)) by {
            assert(builder@.vertices =~= Seq::empty());
            assert(builder@.indices =~= Seq::empty());
        }
    }
    while i < polygons.len()
        invariant
            exterior_total(polygons@, polygons@.len()) <= u32::MAX,
            triangulations@.len() == polygons@.len(),
            i <= polygons@.len(),
            builder@ == flat_mesh(polygons@, triangulations@, i as nat),
            forall|k: int|
                0 <= k < i ==> is_triangulation(
                    (#[trigger] triangulations@[k])@,
                    polygons@[k]@.exterior.len(),
                ),
        decreases polygons@.len() - i,
    {
        let ring = polygons[i].exterior();
        if !check_triangulation(&triangulations[i], ring.len()) {
            return Err(GeometryError::TriangulationFailure);
        }
        let ghost flat = flat_vertices(ring@);
        let mut vertices: Vec<Vertex> = Vec::new();
        let mut k: usize = 0;
        while k < ring.len()
            invariant
                flat == flat_vertices(ring@),
                k <= ring@.len(),
                vertices@ == flat.take(k as int),
            decreases ring@.len() - k,
        {
            let p = ring[k];
            vertices.push(
                Vertex { pos: Vec3 { x: p.x, y: p.y, z: 0 }, normal: Vec3 { x: 0, y: 0, z: 1 } },
            );
            proof {
                assert(flat.take(k + 1) =~= flat.take(k as int).push(flat[k as int]));
            }
            k += 1;
        }
        proof {
            assert(flat.take(ring@.len() as int) =~= flat);
            lemma_flat_mesh_vertices(polygons@, triangulations@, i as nat);
            lemma_exterior_total_grows(polygons@, (i + 1) as nat, polygons@.len());
        }
        builder.merge(&vertices, &triangulations[i]);
        i += 1;
    }
    Ok(builder.build())
}

} // verus!
