use footprints::geometry::{GeometryError, Point, Polygon, Rect, COORD_MAX};

fn pts(coords: &[(i64, i64)]) -> Vec<Point> {
    coords.iter().map(|&(x, y)| Point::new(x, y)).collect()
}

#[test]
fn open_ring_is_kept_as_given() {
    let polygon = Polygon::new(pts(&[(0, 0), (10, 0), (10, 10), (0, 10)]), vec![]).unwrap();
    assert_eq!(polygon.exterior(), &pts(&[(0, 0), (10, 0), (10, 10), (0, 10)]));
    assert_eq!(polygon.vertex_count(), 4);
}

#[test]
fn closing_vertex_is_dropped() {
    let polygon = Polygon::new(pts(&[(0, 0), (10, 0), (10, 10), (0, 10), (0, 0)]), vec![]).unwrap();
    assert_eq!(polygon.exterior(), &pts(&[(0, 0), (10, 0), (10, 10), (0, 10)]));
}

#[test]
fn only_one_closing_vertex_is_dropped() {
    let polygon = Polygon::new(pts(&[(0, 0), (10, 0), (10, 10), (0, 0), (0, 0)]), vec![]).unwrap();
    assert_eq!(polygon.exterior(), &pts(&[(0, 0), (10, 0), (10, 10), (0, 0)]));
}

#[test]
fn two_distinct_points_are_no_ring() {
    let made = Polygon::new(pts(&[(0, 0), (1, 1), (0, 0), (1, 1)]), vec![]);
    assert!(matches!(made, Err(GeometryError::InvalidGeometry)));
}

#[test]
fn closed_triangle_of_two_points_is_no_ring() {
    let made = Polygon::new(pts(&[(0, 0), (1, 1), (0, 0)]), vec![]);
    assert!(matches!(made, Err(GeometryError::InvalidGeometry)));
}

#[test]
fn empty_ring_is_no_ring() {
    assert!(matches!(Polygon::new(vec![], vec![]), Err(GeometryError::InvalidGeometry)));
}

#[test]
fn three_distinct_points_late_in_the_ring_are_found() {
    let made = Polygon::new(pts(&[(0, 0), (0, 0), (1, 1), (0, 0), (1, 1), (2, 0)]), vec![]);
    assert!(made.is_ok());
}

#[test]
fn hole_with_two_points_is_rejected() {
    let made = Polygon::new(
        pts(&[(0, 0), (10, 0), (10, 10), (0, 10)]),
        vec![pts(&[(2, 2), (3, 3)])],
    );
    assert!(matches!(made, Err(GeometryError::InvalidGeometry)));
}

#[test]
fn vertex_beyond_the_lattice_is_rejected() {
    let made = Polygon::new(pts(&[(0, 0), (COORD_MAX + 1, 0), (10, 10)]), vec![]);
    assert!(matches!(made, Err(GeometryError::InvalidGeometry)));
    let made = Polygon::new(pts(&[(0, 0), (10, -COORD_MAX - 1), (10, 10)]), vec![]);
    assert!(matches!(made, Err(GeometryError::InvalidGeometry)));
}

#[test]
fn vertex_on_the_lattice_edge_is_accepted() {
    let made = Polygon::new(pts(&[(0, 0), (COORD_MAX, 0), (10, -COORD_MAX)]), vec![]);
    assert!(made.is_ok());
}

#[test]
fn points_list_exterior_then_holes() {
    let polygon = Polygon::new(
        pts(&[(0, 0), (10, 0), (10, 10), (0, 10), (0, 0)]),
        vec![pts(&[(2, 2), (3, 2), (3, 3), (2, 2)]), pts(&[(5, 5), (6, 5), (6, 6)])],
    )
    .unwrap();
    assert_eq!(
        polygon.points(),
        pts(&[(0, 0), (10, 0), (10, 10), (0, 10), (2, 2), (3, 2), (3, 3), (5, 5), (6, 5), (6, 6)])
    );
    assert_eq!(polygon.vertex_count(), 10);
    assert_eq!(polygon.interiors().len(), 2);
    assert_eq!(polygon.interiors()[0], pts(&[(2, 2), (3, 2), (3, 3)]));
}

#[test]
fn rect_orders_its_corners() {
    let rect = Rect::new(Point::new(10, -3), Point::new(-2, 7));
    assert_eq!(rect.min, Point::new(-2, -3));
    assert_eq!(rect.max, Point::new(10, 7));
    assert_eq!(rect.width(), 12);
    assert_eq!(rect.height(), 10);
    assert!(rect.is_bounded());
}

#[test]
fn rect_beyond_the_lattice_is_not_bounded() {
    let rect = Rect::new(Point::new(0, 0), Point::new(COORD_MAX + 1, 7));
    assert!(!rect.is_bounded());
    assert!(Point::new(COORD_MAX, -COORD_MAX).is_in_range());
    assert!(!Point::new(0, COORD_MAX + 1).is_in_range());
}
