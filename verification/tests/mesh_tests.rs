use footprints::buildings::{extrude, ring_has_degenerate_edge};
use footprints::geometry::{GeometryError, Point, Polygon};
use footprints::earcut::{flat_line_string_coords_2, polygon_to_earcutr_input};
use footprints::flat::polygons_to_mesh;
use footprints::mesh::{check_triangulation, MeshBuilder, Vec3, Vertex};

fn pts(coords: &[(i64, i64)]) -> Vec<Point> {
    coords.iter().map(|&(x, y)| Point::new(x, y)).collect()
}

fn square() -> Polygon {
    Polygon::new(pts(&[(0, 0), (10, 0), (10, 10), (0, 10)]), vec![]).unwrap()
}

/// The square as an eye above the ground sees it turn to the left.
fn left_turning_square() -> Polygon {
    Polygon::new(pts(&[(0, 0), (0, 10), (10, 10), (10, 0)]), vec![]).unwrap()
}

/// Ear-cuts the polygon.
fn triangulate(polygon: &Polygon) -> Vec<usize> {
    let input = polygon_to_earcutr_input(polygon);
    let vertices: Vec<f64> = input.vertices.iter().map(|&c| c as f64).collect();
    earcutr::earcut(&vertices, &input.interior_indices, 2).unwrap()
}

fn vertex(x: i64, y: i64, z: i64) -> Vertex {
    Vertex { pos: Vec3::new(x, y, z), normal: Vec3::new(0, 1, 0) }
}

#[test]
fn vertices_are_numbered_as_they_come() {
    let mut builder = MeshBuilder::new();
    assert_eq!(builder.vertex_count(), 0);
    assert_eq!(builder.add_vertex(vertex(1, 2, 3)), 0);
    assert_eq!(builder.add_vertex(vertex(4, 5, 6)), 1);
    assert_eq!(builder.add_vertex(vertex(1, 2, 3)), 2);
    assert_eq!(builder.vertex_count(), 3);
    assert_eq!(builder.index_count(), 0);
}

#[test]
fn triangle_appends_three_indices() {
    let mut builder = MeshBuilder::new();
    for i in 0..4 {
        builder.add_vertex(vertex(i, 0, 0));
    }
    builder.add_triangle(0, 1, 2);
    builder.add_triangle(3, 2, 0);
    assert_eq!(builder.index_count(), 6);
    let mesh = builder.build();
    assert_eq!(mesh.indices(), &vec![0, 1, 2, 3, 2, 0]);
    assert_eq!(mesh.triangle_count(), 2);
    assert_eq!(mesh.vertex_count(), 4);
}

#[test]
fn quad_is_four_vertices_and_two_triangles() {
    let mut builder = MeshBuilder::new();
    builder.add_vertex(vertex(9, 9, 9));
    let corners =
        [Vec3::new(0, 0, 0), Vec3::new(1, 0, 0), Vec3::new(1, 1, 0), Vec3::new(0, 1, 0)];
    builder.add_quad(corners, Vec3::new(0, 0, 7));
    let mesh = builder.build();
    assert_eq!(mesh.indices(), &vec![1, 2, 3, 1, 3, 4]);
    assert_eq!(mesh.positions()[1..], corners);
    assert_eq!(mesh.normals()[1..], [Vec3::new(0, 0, 7); 4]);
    assert_eq!(mesh.normals()[0], Vec3::new(0, 1, 0));
}

#[test]
fn build_splits_positions_and_normals() {
    let mut builder = MeshBuilder::new();
    builder.add_vertex(Vertex { pos: Vec3::new(1, 2, 3), normal: Vec3::new(0, -1, 0) });
    builder.add_vertex(Vertex { pos: Vec3::new(4, 5, 6), normal: Vec3::new(7, 8, 9) });
    let mesh = builder.build();
    assert_eq!(mesh.positions(), &vec![Vec3::new(1, 2, 3), Vec3::new(4, 5, 6)]);
    assert_eq!(mesh.normals(), &vec![Vec3::new(0, -1, 0), Vec3::new(7, 8, 9)]);
    assert!(mesh.indices().is_empty());
}

#[test]
fn cross_and_minus() {
    let a = Vec3::new(1, 2, 3);
    let b = Vec3::new(-4, 5, 6);
    assert_eq!(a.minus(b), Vec3::new(5, -3, -3));
    assert_eq!(a.cross(b), Vec3::new(-3, -18, 13));
    assert_eq!(Vec3::new(1, 0, 0).cross(Vec3::new(0, 1, 0)), Vec3::new(0, 0, 1));
    assert_eq!(b.cross(a), Vec3::new(3, 18, -13));
}

#[test]
fn triangle_list_is_checked() {
    assert!(check_triangulation(&vec![], 0));
    assert!(check_triangulation(&vec![0, 1, 2, 2, 3, 0], 4));
    assert!(!check_triangulation(&vec![0, 1, 2, 2, 3], 4));
    assert!(!check_triangulation(&vec![0, 1, 4], 4));
    assert!(!check_triangulation(&vec![0, 1, 2], 2));
}

#[test]
fn earcut_input_is_flat() {
    let polygon = Polygon::new(
        pts(&[(0, 0), (30, 0), (30, 30), (0, 30)]),
        vec![pts(&[(10, 10), (20, 10), (20, 20)]), pts(&[(1, 1), (2, 1), (2, 2), (1, 2)])],
    )
    .unwrap();
    let input = polygon_to_earcutr_input(&polygon);
    assert_eq!(
        input.vertices,
        vec![0, 0, 30, 0, 30, 30, 0, 30, 10, 10, 20, 10, 20, 20, 1, 1, 2, 1, 2, 2, 1, 2]
    );
    assert_eq!(input.interior_indices, vec![4, 7]);
}

#[test]
fn ring_coordinates_are_appended() {
    let mut row = vec![7];
    flat_line_string_coords_2(&pts(&[(1, 2), (3, 4)]), &mut row);
    assert_eq!(row, vec![7, 1, 2, 3, 4]);
}

#[test]
fn face_indices_are_counted_from_the_vertices_before() {
    let mut builder = MeshBuilder::new();
    builder.add_vertex(vertex(9, 9, 9));
    builder.add_vertex(vertex(8, 8, 8));
    let done = builder.triangulate_polygon(&square(), &vec![0, 1, 2, 2, 3, 0], 7, Vec3::new(0, 1, 0));
    assert_eq!(done, Ok(()));
    let mesh = builder.build();
    assert_eq!(mesh.indices(), &vec![2, 3, 4, 4, 5, 2]);
    assert_eq!(
        mesh.positions()[2..],
        [Vec3::new(0, 7, 0), Vec3::new(10, 7, 0), Vec3::new(10, 7, 10), Vec3::new(0, 7, 10)]
    );
    assert_eq!(mesh.normals()[2..], [Vec3::new(0, 1, 0); 4]);
}

#[test]
fn bad_triangle_list_adds_nothing() {
    let mut builder = MeshBuilder::new();
    builder.add_vertex(vertex(9, 9, 9));
    let done = builder.triangulate_polygon(&square(), &vec![0, 1, 4], 0, Vec3::new(0, 1, 0));
    assert_eq!(done, Err(GeometryError::TriangulationFailure));
    let done = builder.triangulate_polygon(&square(), &vec![0, 1], 0, Vec3::new(0, 1, 0));
    assert_eq!(done, Err(GeometryError::TriangulationFailure));
    assert_eq!(builder.vertex_count(), 1);
    assert_eq!(builder.index_count(), 0);
}

#[test]
fn extruded_square_has_twelve_triangles() {
    let polygon = square();
    let triangles = triangulate(&polygon);
    assert_eq!(triangles.len(), 2 * 3);
    let mut builder = MeshBuilder::new();
    assert_eq!(extrude(polygon, 5, &triangles, &mut builder), Ok(()));
    assert_eq!(builder.index_count(), 12 * 3);
    assert_eq!(builder.vertex_count(), 24);
    let mesh = builder.build();
    assert_eq!(mesh.positions().len(), 24);
    assert_eq!(mesh.normals().len(), 24);
    assert!(mesh.indices().iter().all(|&i| (i as usize) < 24));
}

#[test]
fn extruded_square_is_floor_ceiling_walls() {
    let mut builder = MeshBuilder::new();
    extrude(square(), 5, &vec![0, 1, 2, 2, 3, 0], &mut builder).unwrap();
    let mesh = builder.build();
    let ground = [(0, 0), (10, 0), (10, 10), (0, 10)];
    for (i, &(x, z)) in ground.iter().enumerate() {
        assert_eq!(mesh.positions()[i], Vec3::new(x, 0, z));
        assert_eq!(mesh.normals()[i], Vec3::new(0, -1, 0));
        assert_eq!(mesh.positions()[4 + i], Vec3::new(x, 5, z));
        assert_eq!(mesh.normals()[4 + i], Vec3::new(0, 1, 0));
    }
    assert_eq!(mesh.indices()[..12], [0, 1, 2, 2, 3, 0, 4, 5, 6, 6, 7, 4]);
    for k in 0..4 {
        let (x1, z1) = ground[k];
        let (x2, z2) = ground[(k + 1) % 4];
        let base = 8 + 4 * k;
        assert_eq!(
            mesh.positions()[base..base + 4],
            [Vec3::new(x1, 0, z1), Vec3::new(x2, 0, z2), Vec3::new(x2, 5, z2), Vec3::new(x1, 5, z1)]
        );
        let normal = Vec3::new(-(z2 - z1) * 5, 0, (x2 - x1) * 5);
        assert_eq!(mesh.normals()[base..base + 4], [normal; 4]);
        let b = base as u32;
        assert_eq!(mesh.indices()[12 + 6 * k..18 + 6 * k], [b, b + 1, b + 2, b, b + 2, b + 3]);
    }
}

#[test]
fn extrusion_has_two_triangles_for_every_edge() {
    let polygon =
        Polygon::new(pts(&[(0, 0), (0, 20), (10, 20), (10, 10), (20, 10), (20, 0)]), vec![]).unwrap();
    let triangles = triangulate(&polygon);
    assert_eq!(triangles.len() / 3, 4);
    let mut builder = MeshBuilder::new();
    extrude(polygon, 30, &triangles, &mut builder).unwrap();
    assert_eq!(builder.index_count() / 3, 2 * 4 + 2 * 6);
    assert_eq!(builder.vertex_count(), 2 * 6 + 4 * 6);
}

#[test]
fn extrusion_raises_no_wall_around_a_hole() {
    let polygon = Polygon::new(
        pts(&[(0, 0), (0, 30), (30, 30), (30, 0)]),
        vec![pts(&[(10, 10), (20, 10), (20, 20), (10, 20)])],
    )
    .unwrap();
    let triangles = triangulate(&polygon);
    assert_eq!(triangles.len() / 3, 8);
    let mut builder = MeshBuilder::new();
    extrude(polygon, 30, &triangles, &mut builder).unwrap();
    assert_eq!(builder.index_count() / 3, 2 * 8 + 2 * 4);
    assert_eq!(builder.vertex_count(), 2 * 8 + 4 * 4);
}

#[test]
fn extrusion_appends_to_what_the_builder_holds() {
    let mut builder = MeshBuilder::new();
    extrude(square(), 5, &vec![0, 1, 2, 2, 3, 0], &mut builder).unwrap();
    extrude(left_turning_square(), 8, &vec![0, 1, 2, 2, 3, 0], &mut builder).unwrap();
    assert_eq!(builder.vertex_count(), 48);
    let mesh = builder.build();
    assert_eq!(mesh.indices().len(), 72);
    assert_eq!(mesh.indices()[36..42], [24, 25, 26, 26, 27, 24]);
    assert_eq!(mesh.indices()[66..72], [44, 45, 46, 44, 46, 47]);
    assert_eq!(mesh.positions()[28], Vec3::new(0, 8, 0));
}

#[test]
fn walls_of_a_left_turning_square_face_outward() {
    let mut builder = MeshBuilder::new();
    extrude(left_turning_square(), 5, &vec![0, 1, 2, 2, 3, 0], &mut builder).unwrap();
    let mesh = builder.build();
    let centroid = (5, 5);
    for k in 0..4 {
        let base = 8 + 4 * k;
        let normal = mesh.normals()[base];
        let corners = &mesh.positions()[base..base + 4];
        let twice_centre_x: i64 = corners[0].x + corners[2].x;
        let twice_centre_z: i64 = corners[0].z + corners[2].z;
        let dot = normal.x * (twice_centre_x - 2 * centroid.0)
            + normal.z * (twice_centre_z - 2 * centroid.1);
        assert!(dot > 0, "wall {k}");
        assert_eq!(normal.y, 0);
    }
    assert_eq!(mesh.normals()[8], Vec3::new(-50, 0, 0));
    assert_eq!(mesh.normals()[12], Vec3::new(0, 0, 50));
    assert_eq!(mesh.normals()[16], Vec3::new(50, 0, 0));
    assert_eq!(mesh.normals()[20], Vec3::new(0, 0, -50));
}

#[test]
fn edge_without_length_is_degenerate() {
    let polygon = Polygon::new(pts(&[(0, 0), (10, 0), (10, 0), (10, 10)]), vec![]).unwrap();
    assert!(ring_has_degenerate_edge(polygon.exterior()));
    assert!(!ring_has_degenerate_edge(square().exterior()));
    let mut builder = MeshBuilder::new();
    builder.add_vertex(vertex(1, 1, 1));
    let done = extrude(polygon, 5, &vec![0, 1, 3], &mut builder);
    assert_eq!(done, Err(GeometryError::DegenerateEdge));
    assert_eq!(builder.vertex_count(), 1);
    assert_eq!(builder.index_count(), 0);
}

#[test]
fn closing_edge_without_length_is_degenerate() {
    let polygon = Polygon::new(pts(&[(0, 0), (10, 0), (10, 10), (0, 0), (0, 0)]), vec![]).unwrap();
    assert!(ring_has_degenerate_edge(polygon.exterior()));
    let mut builder = MeshBuilder::new();
    assert_eq!(extrude(polygon, 5, &vec![0, 1, 2], &mut builder), Err(GeometryError::DegenerateEdge));
}

#[test]
fn bad_triangle_list_comes_before_a_degenerate_edge() {
    let polygon = Polygon::new(pts(&[(0, 0), (10, 0), (10, 0), (10, 10)]), vec![]).unwrap();
    let mut builder = MeshBuilder::new();
    let done = extrude(polygon, 5, &vec![0, 1, 4], &mut builder);
    assert_eq!(done, Err(GeometryError::TriangulationFailure));
    assert_eq!(builder.vertex_count(), 0);
}

#[test]
fn flat_mesh_counts_each_polygon_from_the_vertices_before() {
    let polygons = vec![
        square(),
        Polygon::new(
            pts(&[(20, 0), (30, 0), (25, 10)]),
            vec![pts(&[(24, 2), (26, 2), (25, 4)])],
        )
        .unwrap(),
    ];
    let triangulations = vec![vec![0, 1, 2, 2, 3, 0], vec![2, 0, 1]];
    let mesh = polygons_to_mesh(polygons, &triangulations).unwrap();
    assert_eq!(mesh.indices(), &vec![0, 1, 2, 2, 3, 0, 6, 4, 5]);
    assert_eq!(
        mesh.positions(),
        &vec![
            Vec3::new(0, 0, 0),
            Vec3::new(10, 0, 0),
            Vec3::new(10, 10, 0),
            Vec3::new(0, 10, 0),
            Vec3::new(20, 0, 0),
            Vec3::new(30, 0, 0),
            Vec3::new(25, 10, 0)
        ]
    );
    assert_eq!(mesh.normals(), &vec![Vec3::new(0, 0, 1); 7]);
}

#[test]
fn flat_mesh_needs_a_triangle_list_for_each_polygon() {
    let made = polygons_to_mesh(vec![square()], &vec![]);
    assert!(matches!(made, Err(GeometryError::TriangulationFailure)));
    let made = polygons_to_mesh(vec![square()], &vec![vec![0, 1, 2], vec![]]);
    assert!(matches!(made, Err(GeometryError::TriangulationFailure)));
    let made = polygons_to_mesh(vec![square()], &vec![vec![0, 1, 4]]);
    assert!(matches!(made, Err(GeometryError::TriangulationFailure)));
    let made = polygons_to_mesh(vec![], &vec![]).unwrap();
    assert!(made.positions().is_empty());
}

#[test]
fn merged_triangles_are_counted_from_the_vertices_before() {
    let mut builder = MeshBuilder::new();
    builder.add_vertex(vertex(9, 9, 9));
    builder.merge(&vec![vertex(0, 0, 0), vertex(1, 0, 0), vertex(0, 0, 1)], &vec![2, 1, 0]);
    builder.merge(&vec![vertex(5, 0, 0), vertex(6, 0, 0), vertex(5, 0, 1)], &vec![0, 1, 2]);
    builder.merge(&vec![], &vec![]);
    assert_eq!(builder.vertex_count(), 7);
    let mesh = builder.build();
    assert_eq!(mesh.indices(), &vec![3, 2, 1, 4, 5, 6]);
    assert_eq!(mesh.positions()[4], Vec3::new(5, 0, 0));
}
