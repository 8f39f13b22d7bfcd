//! Triangle meshes: vertices with normals, and triangles as index triples.

use crate::geometry::{GeometryError, Point, Polygon};
use vstd::prelude::*;

verus! {

/// Largest magnitude of a component for which `Vec3::cross` and
/// `Vec3::minus` stay within `i64`.
pub const COMPONENT_MAX: i64 = 2_000_000_000;

/// A vector, or a point, of space. The y axis points up.
#[derive(Clone, Copy, Debug, PartialEq, Eq, Structural)]
pub struct Vec3 {
    pub x: i64,
    pub y: i64,
    pub z: i64,
}

/// A corner of a mesh: where it is, and the direction its surface faces.
/// The normal gives a direction only; its length is whatever the step that
/// made it left it.
#[derive(Clone, Copy, Debug, PartialEq, Eq, Structural)]
pub struct Vertex {
    pub pos: Vec3,
    pub normal: Vec3,
}

/// The difference of two vectors.
pub open spec fn difference(a: Vec3, b: Vec3) -> Vec3 {
    Vec3 { x: (a.x - b.x) as i64, y: (a.y - b.y) as i64, z: (a.z - b.z) as i64 }
}

/// The cross product of two vectors.
pub open spec fn cross_product(a: Vec3, b: Vec3) -> Vec3 {
    Vec3 {
        x: (a.y * b.z - a.z * b.y) as i64,
        y: (a.z * b.x - a.x * b.z) as i64,
        z: (a.x * b.y - a.y * b.x) as i64,
    }
}

/// Whether every component is within `limit` of zero.
pub open spec fn within(v: Vec3, limit: int) -> bool {
    &&& -limit <= v.x <= limit
    &&& -limit <= v.y <= limit
    &&& -limit <= v.z <= limit
}

impl Vec3 {
    /// The vector `(x, y, z)`.
    pub fn new(x: i64, y: i64, z: i64) -> (v: Vec3)
        ensures
            v.x == x,
            v.y == y,
            v.z == z,
    {
        Vec3 { x, y, z }
    }

    /// `self - other`.
    pub fn minus(self, other: Vec3) -> (d: Vec3)
        requires
            within(self, COMPONENT_MAX as int),
            within(other, COMPONENT_MAX as int),
        ensures
            d == difference(self, other),
            d.x == self.x - other.x,
            d.y == self.y - other.y,
            d.z == self.z - other.z,
    {
        Vec3 { x: self.x - other.x, y: self.y - other.y, z: self.z - other.z }
    }

    /// `self × other`.
    pub fn cross(self, other: Vec3) -> (c: Vec3)
        requires
            within(self, COMPONENT_MAX as int),
            within(other, COMPONENT_MAX as int),
        ensures
            c == cross_product(self, other),
            c.x == self.y * other.z - self.z * other.y,
            c.y == self.z * other.x - self.x * other.z,
            c.z == self.x * other.y - self.y * other.x,
    {
        proof {
            lemma_product_bound(self.y as int, other.z as int);
            lemma_product_bound(self.z as int, other.y as int);
            lemma_product_bound(self.z as int, other.x as int);
            lemma_product_bound(self.x as int, other.z as int);
            lemma_product_bound(self.x as int, other.y as int);
            lemma_product_bound(self.y as int, other.x as int);
        }
        Vec3 {
            x: self.y * other.z - self.z * other.y,
            y: self.z * other.x - self.x * other.z,
            z: self.x * other.y - self.y * other.x,
        }
    }
}

/// The product of two numbers within `COMPONENT_MAX` of zero is within its
/// square.
proof fn lemma_product_bound(a: int, b: int)
    requires
        -COMPONENT_MAX <= a <= COMPONENT_MAX,
        -COMPONENT_MAX <= b <= COMPONENT_MAX,
    ensures
        -4_000_000_000_000_000_000 <= a * b <= 4_000_000_000_000_000_000,
{
    assert(-4_000_000_000_000_000_000 <= a * b <= 4_000_000_000_000_000_000) by (nonlinear_arith)
        requires
            -2_000_000_000 <= a <= 2_000_000_000,
            -2_000_000_000 <= b <= 2_000_000_000,
    ;
}

/// What a mesh is, to its users: its vertices in the order they were added,
/// and its triangles, three indices each, in the order they were added.
pub struct MeshView {
    pub vertices: Seq<Vertex>,
    pub indices: Seq<u32>,
}

impl MeshView {
    /// The indices come in threes, each names a vertex, and the number of
    /// vertices fits an index.
    pub open spec fn valid(self) -> bool {
        &&& self.indices.len() % 3 == 0
        &&& forall|i: int|
            0 <= i < self.indices.len() ==> (#[trigger] self.indices[i]) < self.vertices.len()
        &&& self.vertices.len() <= u32::MAX
    }

    /// The number of triangles.
    pub open spec fn triangle_count(self) -> int {
        self.indices.len() as int / 3
    }

    /// This mesh with one more vertex.
    pub open spec fn with_vertex(self, vertex: Vertex) -> MeshView {
        MeshView { vertices: self.vertices.push(vertex), indices: self.indices }
    }

    /// This mesh with one more triangle.
    pub open spec fn with_triangle(self, i1: u32, i2: u32, i3: u32) -> MeshView {
        MeshView { vertices: self.vertices, indices: self.indices.push(i1).push(i2).push(i3) }
    }

    /// This mesh with one more quad: four new vertices at `corners`, all
    /// with the normal `normal`, and the two triangles over the first,
    /// second and third and over the first, third and fourth of them.
    pub open spec fn with_quad(self, corners: Seq<Vec3>, normal: Vec3) -> MeshView {
        let base = self.vertices.len();
        MeshView {
            vertices: self.vertices.push(Vertex { pos: corners[0], normal }).push(
                Vertex { pos: corners[1], normal },
            ).push(Vertex { pos: corners[2], normal }).push(Vertex { pos: corners[3], normal }),
            indices: self.indices.push(base as u32).push((base + 1) as u32).push(
                (base + 2) as u32,
            ).push(base as u32).push((base + 2) as u32).push((base + 3) as u32),
        }
    }
}

/// Whether `triangles` is a list of triangles over `vertex_count` vertices:
/// its indices come in threes, and each names one of the vertices.
pub open spec fn is_triangulation(triangles: Seq<usize>, vertex_count: nat) -> bool {
    &&& triangles.len() % 3 == 0
    &&& forall|i: int| 0 <= i < triangles.len() ==> (#[trigger] triangles[i]) < vertex_count
}

/// The vertex that a flat face at height `y` has over the point `p` of the
/// ground plane: the plane's x is the space's x, and the plane's y is the
/// space's z.
pub open spec fn cap_vertex(p: Point, y: i64, normal: Vec3) -> Vertex {
    Vertex { pos: Vec3 { x: p.x, y, z: p.y }, normal }
}

/// The vertices that a flat face at height `y` has over `points`.
pub open spec fn cap_vertices(points: Seq<Point>, y: i64, normal: Vec3) -> Seq<Vertex> {
    Seq::new(points.len(), |i: int| cap_vertex(points[i], y, normal))
}

/// `triangles`, each index counted from `base` instead of zero.
pub open spec fn shifted(triangles: Seq<usize>, base: nat) -> Seq<u32> {
    Seq::new(triangles.len(), |i: int| (base + triangles[i]) as u32)
}

impl MeshView {
    /// This mesh with `vertices` added, and with `triangles`, which count
    /// those vertices from zero, counted from the number of vertices the
    /// mesh had before.
    pub open spec fn with_face(self, vertices: Seq<Vertex>, triangles: Seq<usize>) -> MeshView {
        MeshView {
            vertices: self.vertices + vertices,
            indices: self.indices + shifted(triangles, self.vertices.len()),
        }
    }

    /// This mesh with one more flat face: a vertex over each of `points`,
    /// and `triangles`, which count those vertices from zero, counted from
    /// the number of vertices the mesh had before.
    pub open spec fn with_cap(
        self,
        points: Seq<Point>,
        triangles: Seq<usize>,
        y: i64,
        normal: Vec3,
    ) -> MeshView {
        self.with_face(cap_vertices(points, y, normal), triangles)
    }
}

impl MeshView {
    /// This mesh is `older` grown: what `older` held still stands in place at
    /// the front, every index added since names a vertex added since, and
    /// the indices added since come in threes.
    pub open spec fn extends(self, older: MeshView) -> bool {
        &&& older.vertices.len() <= self.vertices.len()
        &&& forall|i: int|
            0 <= i < older.vertices.len() ==> self.vertices[i] == #[trigger] older.vertices[i]
        &&& older.indices.len() <= self.indices.len()
        &&& forall|i: int|
            0 <= i < older.indices.len() ==> self.indices[i] == #[trigger] older.indices[i]
        &&& forall|i: int|
            older.indices.len() <= i < self.indices.len() ==> older.vertices.len()
                <= #[trigger] self.indices[i]
        &&& (self.indices.len() - older.indices.len()) % 3 == 0
    }
}

/// A mesh grown from a mesh that was grown from a third is grown from the
/// third.
pub proof fn lemma_extends_chain(newest: MeshView, newer: MeshView, older: MeshView)
    requires
        newest.extends(newer),
        newer.extends(older),
    ensures
        newest.extends(older),
{
    assert forall|i: int| 0 <= i < older.vertices.len() implies newest.vertices[i]
        == #[trigger] older.vertices[i] by {
        assert(newest.vertices[i] == newer.vertices[i]);
    }
    assert forall|i: int| 0 <= i < older.indices.len() implies newest.indices[i]
        == #[trigger] older.indices[i] by {
        assert(newest.indices[i] == newer.indices[i]);
    }
    assert forall|i: int| older.indices.len() <= i < newest.indices.len() implies older.vertices.len()
        <= #[trigger] newest.indices[i] by {
        if i < newer.indices.len() {
            assert(newest.indices[i] == newer.indices[i]);
        }
    }
}

/// A mesh with a face merged in is the mesh grown: it has the face's
/// vertices more, every index added lies between the old and the new number
/// of vertices, and a valid mesh stays valid.
pub proof fn lemma_face_extends(mesh: MeshView, vertices: Seq<Vertex>, triangles: Seq<usize>)
    requires
        is_triangulation(triangles, vertices.len()),
        mesh.vertices.len() + vertices.len() <= u32::MAX,
    ensures
        mesh.with_face(vertices, triangles).extends(mesh),
        mesh.with_face(vertices, triangles).vertices.len() == mesh.vertices.len() + vertices.len(),
        mesh.with_face(vertices, triangles).indices.len() == mesh.indices.len() + triangles.len(),
        forall|i: int|
            mesh.indices.len() <= i < mesh.with_face(vertices, triangles).indices.len() ==> (
            #[trigger] mesh.with_face(vertices, triangles).indices[i]) < mesh.with_face(
                vertices,
                triangles,
            ).vertices.len(),
        mesh.valid() ==> mesh.with_face(vertices, triangles).valid(),
{
    let grown = mesh.with_face(vertices, triangles);
    assert forall|i: int| mesh.indices.len() <= i < grown.indices.len() implies mesh.vertices.len()
        <= #[trigger] grown.indices[i] < grown.vertices.len() by {
        let t = triangles[i - mesh.indices.len()];
        assert(grown.indices[i] == shifted(triangles, mesh.vertices.len())[i - mesh.indices.len()]);
    }
    if mesh.valid() {
        assert forall|i: int| 0 <= i < grown.indices.len() implies (#[trigger] grown.indices[i])
            < grown.vertices.len() by {
            if i < mesh.indices.len() {
                assert(grown.indices[i] == mesh.indices[i]);
            }
        }
    }
}

/// A mesh with a quad added is the mesh grown, by four vertices and two
/// triangles over them, and a valid mesh stays valid.
pub proof fn lemma_quad_extends(mesh: MeshView, corners: Seq<Vec3>, normal: Vec3)
    requires
        mesh.vertices.len() + 4 <= u32::MAX,
    ensures
        mesh.with_quad(corners, normal).extends(mesh),
        mesh.with_quad(corners, normal).vertices.len() == mesh.vertices.len() + 4,
        mesh.with_quad(corners, normal).indices.len() == mesh.indices.len() + 6,
        mesh.valid() ==> mesh.with_quad(corners, normal).valid(),
{
    let grown = mesh.with_quad(corners, normal);
    if mesh.valid() {
        assert forall|i: int| 0 <= i < grown.indices.len() implies (#[trigger] grown.indices[i])
            < grown.vertices.len() by {
            if i < mesh.indices.len() {
                assert(grown.indices[i] == mesh.indices[i]);
            }
        }
    }
}

/// Decides `is_triangulation`.
pub fn check_triangulation(triangles: &Vec<usize>, vertex_count: usize) -> (b: bool)
    ensures
        b == is_triangulation(triangles@, vertex_count as nat),
{
    if triangles.len() % 3 != 0 {
        return false;
    }
    let mut i: usize = 0;
    while i < triangles.len()
        invariant
            i <= triangles@.len(),
            forall|k: int| 0 <= k < i ==> (#[trigger] triangles@[k]) < vertex_count,
        decreases triangles@.len() - i,
    {
        if triangles[i] >= vertex_count {
            return false;
        }
        i += 1;
    }
    true
}

/// An accumulator of vertices and triangles. Vertices and triangles are only
/// ever added.
pub struct MeshBuilder {
    vertices: Vec<Vertex>,
    indices: Vec<u32>,
}

impl View for MeshBuilder {
    type V = MeshView;

    closed spec fn view(&self) -> MeshView {
        MeshView { vertices: self.vertices@, indices: self.indices@ }
    }
}

/// A finished mesh: positions and normals, one of each per vertex, and the
/// triangles' indices.
#[derive(Debug)]
pub struct Mesh {
    positions: Vec<Vec3>,
    normals: Vec<Vec3>,
    indices: Vec<u32>,
}

impl View for Mesh {
    type V = MeshView;

    closed spec fn view(&self) -> MeshView {
        MeshView {
            vertices: Seq::new(
                self.positions@.len(),
                |i: int| Vertex { pos: self.positions@[i], normal: self.normals@[i] },
            ),
            indices: self.indices@,
        }
    }
}

impl Mesh {
    /// The mesh is valid, and it has as many normals as positions. Every
    /// mesh is so.
    #[verifier::type_invariant]
    pub closed spec fn wf(&self) -> bool {
        self@.valid() && self.normals@.len() == self.positions@.len()
    }

    /// The number of vertices.
    pub fn vertex_count(&self) -> (n: usize)
        ensures
            n == self@.vertices.len(),
    {
        self.positions.len()
    }

    /// The number of triangles.
    pub fn triangle_count(&self) -> (n: usize)
        ensures
            n == self@.triangle_count(),
            self@.indices.len() == 3 * n,
    {
        proof {
            use_type_invariant(self);
        }
        self.indices.len() / 3
    }

    /// The vertices' positions.
    pub fn positions(&self) -> (out: &Vec<Vec3>)
        ensures
            out@.len() == self@.vertices.len(),
            forall|i: int| 0 <= i < out@.len() ==> #[trigger] out@[i] == self@.vertices[i].pos,
    {
        &self.positions
    }

    /// The vertices' normals, in the order of the positions.
    pub fn normals(&self) -> (out: &Vec<Vec3>)
        ensures
            out@.len() == self@.vertices.len(),
            forall|i: int| 0 <= i < out@.len() ==> #[trigger] out@[i] == self@.vertices[i].normal,
    {
        proof {
            use_type_invariant(self);
        }
        &self.normals
    }

    /// The triangles' indices, three for each triangle. Each of them names
    /// a vertex.
    pub fn indices(&self) -> (out: &Vec<u32>)
        ensures
            out@ == self@.indices,
            self@.valid(),
    {
        proof {
            use_type_invariant(self);
        }
        &self.indices
    }
}

impl MeshBuilder {
    /// The mesh built so far is valid: see `MeshView::valid`. Every builder
    /// is so.
    #[verifier::type_invariant]
    pub open spec fn wf(&self) -> bool {
        self@.valid()
    }

    /// A builder without vertices or triangles.
    pub fn new() -> (builder: MeshBuilder)
        ensures
            builder@.vertices.len() == 0,
            builder@.indices.len() == 0,
            builder@.valid(),
    {
        MeshBuilder { vertices: Vec::new(), indices: Vec::new() }
    }

    /// Takes the vertices and indices out, and leaves the builder without
    /// any.
    fn take(&mut self) -> (parts: (Vec<Vertex>, Vec<u32>))
        ensures
            parts.0@ == old(self)@.vertices,
            parts.1@ == old(self)@.indices,
            old(self)@.valid(),
    {
        proof {
            use_type_invariant(&*self);
        }
        let mut held = MeshBuilder::new();
        core::mem::swap(self, &mut held);
        let MeshBuilder { vertices, indices } = held;
        (vertices, indices)
    }

    /// The number of vertices added so far.
    pub fn vertex_count(&self) -> (n: usize)
        ensures
            n == self@.vertices.len(),
            n <= u32::MAX,
    {
        proof {
            use_type_invariant(self);
        }
        self.vertices.len()
    }

    /// The number of indices added so far: three for each triangle.
    pub fn index_count(&self) -> (n: usize)
        ensures
            n == self@.indices.len(),
            n % 3 == 0,
    {
        proof {
            use_type_invariant(self);
        }
        self.indices.len()
    }

    /// Adds a vertex and returns its index, which is the number of vertices
    /// added before it.
    pub fn add_vertex(&mut self, vert: Vertex) -> (index: u32)
        requires
            old(self)@.vertices.len() < u32::MAX,
        ensures
            index == old(self)@.vertices.len(),
            final(self)@ == old(self)@.with_vertex(vert),
            final(self)@.valid(),
    {
        let (mut vertices, indices) = self.take();
        vertices.push(vert);
        let index = (vertices.len() - 1) as u32;
        *self = MeshBuilder { vertices, indices };
        index
    }

    /// Adds the triangle over three vertices added before.
    pub fn add_triangle(&mut self, i1: u32, i2: u32, i3: u32)
        requires
            i1 < old(self)@.vertices.len(),
            i2 < old(self)@.vertices.len(),
            i3 < old(self)@.vertices.len(),
        ensures
            final(self)@ == old(self)@.with_triangle(i1, i2, i3),
            final(self)@.valid(),
    {
        let (vertices, mut indices) = self.take();
        indices.push(i1);
        indices.push(i2);
        indices.push(i3);
        *self = MeshBuilder { vertices, indices };
    }

    /// Adds a quad: four vertices at the four corners, which share one
    /// normal, and two triangles, over the first, second and third corner
    /// and over the first, third and fourth.
    pub fn add_quad(&mut self, corners: [Vec3; 4], normal: Vec3)
        requires
            old(self)@.vertices.len() + 4 <= u32::MAX,
        ensures
            final(self)@ == old(self)@.with_quad(corners@, normal),
            final(self)@.valid(),
    {
        let first = self.add_vertex(Vertex { pos: corners[0], normal });
        let second = self.add_vertex(Vertex { pos: corners[1], normal });
        let third = self.add_vertex(Vertex { pos: corners[2], normal });
        let fourth = self.add_vertex(Vertex { pos: corners[3], normal });
        self.add_triangle(first, second, third);
        self.add_triangle(first, third, fourth);
    }

    /// Merges in a mesh made elsewhere: adds `vertices`, and `triangles`
    /// over them. `triangles` counts the new vertices from zero; each of its
    /// indices is added raised by the number of vertices the builder held
    /// before.
    pub fn merge(&mut self, vertices: &Vec<Vertex>, triangles: &Vec<usize>)
        requires
            is_triangulation(triangles@, vertices@.len()),
            old(self)@.vertices.len() + vertices@.len() <= u32::MAX,
        ensures
            final(self)@ == old(self)@.with_face(vertices@, triangles@),
            final(self)@.extends(old(self)@),
            final(self)@.valid(),
    {
        let ghost start = self@;
        proof {
            lemma_face_extends(start, vertices@, triangles@);
        }
        let ghost moved = shifted(triangles@, start.vertices.len());
        let (mut held, mut indices) = self.take();
        let offset: u32 = held.len() as u32;
        let mut i: usize = 0;
        proof {
            assert(held@ =~= start.vertices + vertices@.take(0));
        }
        while i < vertices.len()
            invariant
                i <= vertices@.len(),
                held@ == start.vertices + vertices@.take(i as int),
            decreases vertices@.len() - i,
        {
            held.push(vertices[i]);
            proof {
                assert(vertices@.take(i + 1) =~= vertices@.take(i as int).push(vertices@[i as int]));
                assert(held@ =~= start.vertices + vertices@.take(i + 1));
            }
            i += 1;
        }
        proof {
            assert(vertices@.take(vertices@.len() as int) =~= vertices@);
            assert(moved.take(0) =~= Seq::empty());
            assert(indices@ =~= start.indices + moved.take(0));
        }
        let mut k: usize = 0;
        while k < triangles.len()
            invariant
                start.vertices.len() + vertices@.len() <= u32::MAX,
                is_triangulation(triangles@, vertices@.len()),
                moved == shifted(triangles@, start.vertices.len()),
                offset == start.vertices.len(),
                k <= triangles@.len(),
                indices@ == start.indices + moved.take(k as int),
            decreases triangles@.len() - k,
        {
            let index: u32 = offset + triangles[k] as u32;
            indices.push(index);
            proof {
                assert(moved.take(k + 1) =~= moved.take(k as int).push(moved[k as int]));
                assert(indices@ =~= start.indices + moved.take(k + 1));
            }
            k += 1;
        }
        proof {
            assert(moved.take(triangles@.len() as int) =~= moved);
            assert forall|m: int| 0 <= m < indices@.len() implies (#[trigger] indices@[m])
                < held@.len() by {
                if m >= start.indices.len() {
                    assert(indices@[m] == moved[m - start.indices.len()]);
                    let _ = triangles@[m - start.indices.len()];
                } else {
                    assert(indices@[m] == start.indices[m]);
                }
            }
        }
        *self = MeshBuilder { vertices: held, indices };
    }

    /// Adds a flat face at height `y`: a vertex over each of `points`, each
    /// with the normal `normal`, and `triangles` over them.
    fn add_cap(&mut self, points: &Vec<Point>, triangles: &Vec<usize>, y: i64, normal: Vec3)
        requires
            is_triangulation(triangles@, points@.len()),
            old(self)@.vertices.len() + points@.len() <= u32::MAX,
        ensures
            final(self)@ == old(self)@.with_cap(points@, triangles@, y, normal),
            final(self)@.extends(old(self)@),
            final(self)@.valid(),
    {
        let ghost cap = cap_vertices(points@, y, normal);
        let mut vertices: Vec<Vertex> = Vec::new();
        let mut i: usize = 0;
        while i < points.len()
            invariant
                cap == cap_vertices(points@, y, normal),
                i <= points@.len(),
                vertices@ == cap.take(i as int),
            decreases points@.len() - i,
        {
            let p = points[i];
            vertices.push(Vertex { pos: Vec3 { x: p.x, y, z: p.y }, normal });
            proof {
                assert(cap.take(i + 1) =~= cap.take(i as int).push(cap[i as int]));
            }
            i += 1;
        }
        proof {
            assert(cap.take(points@.len() as int) =~= cap);
        }
        self.merge(&vertices, triangles);
    }

    /// Adds the polygon as a flat face at height `y`: a vertex over each of
    /// the polygon's vertices, in the order of `Polygon::points`, each with
    /// the normal `normal`; and the triangles of `triangles`, which is a
    /// triangulation of the polygon that counts its vertices in that order.
    ///
    /// Fails with `TriangulationFailure`, and adds nothing, where
    /// `triangles` is no list of triangles over the polygon's vertices.
    pub fn triangulate_polygon(
        &mut self,
        polygon: &Polygon,
        triangles: &Vec<usize>,
        y: i64,
        normal: Vec3,
    ) -> (done: Result<(), GeometryError>)
        requires
            old(self)@.vertices.len() + polygon@.vertex_count() <= u32::MAX,
        ensures
            done is Ok <==> is_triangulation(triangles@, polygon@.vertex_count()),
            done is Ok ==> final(self)@ == old(self)@.with_cap(
                polygon@.points(),
                triangles@,
                y,
                normal,
            ),
            done is Ok ==> final(self)@.vertices.len() == old(self)@.vertices.len()
                + polygon@.vertex_count() && final(self)@.vertices.len() >= old(
                self,
            )@.vertices.len() + 3,
            done matches Err(error) ==> error == GeometryError::TriangulationFailure,
            done is Err ==> final(self)@ == old(self)@,
            final(self)@.extends(old(self)@),
            final(self)@.valid(),
    {
        proof {
            use_type_invariant(&*self);
            use_type_invariant(polygon);
            crate::geometry::lemma_valid_polygon_has_three_vertices(polygon@);
            crate::geometry::lemma_flattened_len(polygon@.interiors);
        }
        let points = polygon.points();
        if !check_triangulation(triangles, points.len()) {
            return Err(GeometryError::TriangulationFailure);
        }
        self.add_cap(&points, triangles, y, normal);
        Ok(())
    }

    /// The finished mesh: the vertices split into positions and normals, and
    /// the indices as they are.
    pub fn build(self) -> (mesh: Mesh)
        ensures
            mesh@ == self@,
            mesh@.valid(),
    {
        proof {
            use_type_invariant(&self);
        }
        let mut positions: Vec<Vec3> = Vec::new();
        let mut normals: Vec<Vec3> = Vec::new();
        let mut i: usize = 0;
        while i < self.vertices.len()
            invariant
                i <= self.vertices@.len(),
                positions@.len() == i,
                normals@.len() == i,
                forall|k: int| 0 <= k < i ==> #[trigger] positions@[k] == self.vertices@[k].pos,
                forall|k: int| 0 <= k < i ==> #[trigger] normals@[k] == self.vertices@[k].normal,
            decreases self.vertices@.len() - i,
        {
            positions.push(self.vertices[i].pos);
            normals.push(self.vertices[i].normal);
            i += 1;
        }
        proof {
            assert(Seq::new(
                positions@.len(),
                |i: int| Vertex { pos: positions@[i], normal: normals@[i] },
            ) =~= self.vertices@);
        }
        Mesh { positions, normals, indices: self.indices }
    }
}

} // verus!
