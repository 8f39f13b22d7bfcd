use footprints::geometry::{GeometryError, Point, Polygon, Rect, COORD_MAX};
use footprints::grid::Grid;
use footprints::model::Cell;

fn pts(coords: &[(i64, i64)]) -> Vec<Point> {
    coords.iter().map(|&(x, y)| Point::new(x, y)).collect()
}

fn rectangle(x0: i64, y0: i64, x1: i64, y1: i64) -> Polygon {
    Polygon::new(pts(&[(x0, y0), (x1, y0), (x1, y1), (x0, y1)]), vec![]).unwrap()
}

fn bbox(width: i64, height: i64) -> Rect {
    Rect::new(Point::new(0, 0), Point::new(width, height))
}

#[test]
fn unit_square_gives_one_building_cell() {
    let polygons = vec![rectangle(0, 0, 10, 10)];
    let grid = Grid::with_resolution(&polygons, bbox(10, 10), 10).unwrap();
    assert_eq!(grid.rows(), 1);
    assert_eq!(grid.cols(), 1);
    assert_eq!(grid.cell(0, 0), Some(Cell::Building));
    assert_eq!(grid.cell(1, 0), None);
    assert_eq!(grid.cell(0, 1), None);
}

#[test]
fn default_resolution_is_ten() {
    let polygons = vec![rectangle(0, 0, 10, 10)];
    let grid = Grid::from_polygons(&polygons, bbox(25, 31)).unwrap();
    assert_eq!(grid.resolution(), 10);
    assert_eq!(grid.cols(), 3);
    assert_eq!(grid.rows(), 4);
    assert_eq!(grid.cell(0, 0), Some(Cell::Building));
    assert_eq!(grid.cell(1, 0), Some(Cell::Empty));
    assert_eq!(grid.cell(0, 1), Some(Cell::Empty));
    assert_eq!(grid.cell(2, 3), Some(Cell::Empty));
}

#[test]
fn dimensions_round_up() {
    let polygons = vec![rectangle(0, 0, 10, 10)];
    let grid = Grid::with_resolution(&polygons, bbox(21, 20), 7).unwrap();
    assert_eq!(grid.cols(), 3);
    assert_eq!(grid.rows(), 3);
    let grid = Grid::with_resolution(&polygons, bbox(1, 100), 50).unwrap();
    assert_eq!(grid.cols(), 1);
    assert_eq!(grid.rows(), 2);
}

#[test]
fn dimensions_come_from_the_extent_not_the_corner() {
    let polygons = vec![rectangle(0, 0, 10, 10)];
    let rect = Rect::new(Point::new(-15, 5), Point::new(15, 25));
    let grid = Grid::with_resolution(&polygons, rect, 10).unwrap();
    assert_eq!(grid.cols(), 3);
    assert_eq!(grid.rows(), 2);
    assert_eq!(grid.cell(0, 0), Some(Cell::Building));
}

#[test]
fn building_cells_are_those_whose_centre_is_inside() {
    let polygons = vec![rectangle(10, 10, 30, 20), rectangle(40, 0, 50, 30)];
    let grid = Grid::with_resolution(&polygons, bbox(50, 30), 10).unwrap();
    for row in 0..3 {
        for col in 0..5 {
            let built = (row == 1 && (col == 1 || col == 2)) || col == 4;
            let expected = if built { Cell::Building } else { Cell::Empty };
            assert_eq!(grid.cell(col, row), Some(expected), "cell ({col}, {row})");
        }
    }
}

#[test]
fn centre_in_a_hole_is_not_built_on() {
    let polygon = Polygon::new(
        pts(&[(0, 0), (30, 0), (30, 30), (0, 30)]),
        vec![pts(&[(10, 10), (20, 10), (20, 20), (10, 20)])],
    )
    .unwrap();
    let grid = Grid::with_resolution(&[polygon], bbox(30, 30), 10).unwrap();
    assert_eq!(grid.cell(1, 1), Some(Cell::Empty));
    assert_eq!(grid.cell(0, 0), Some(Cell::Building));
    assert_eq!(grid.cell(2, 1), Some(Cell::Building));
    assert_eq!(grid.cell(1, 2), Some(Cell::Building));
}

#[test]
fn centre_on_an_edge_is_not_inside() {
    let polygons = vec![rectangle(0, 0, 5, 10)];
    let grid = Grid::with_resolution(&polygons, bbox(10, 10), 10).unwrap();
    assert_eq!(grid.cell(0, 0), Some(Cell::Empty));
}

#[test]
fn centre_of_an_odd_cell_is_tested_exactly() {
    // The centre of the one cell is (2.5, 2.5): inside the square from (2, 2)
    // to (3, 3), whose corners are the nearest lattice points.
    let polygons = vec![rectangle(2, 2, 3, 3)];
    let grid = Grid::with_resolution(&polygons, bbox(5, 5), 5).unwrap();
    assert_eq!(grid.cell(0, 0), Some(Cell::Building));
    // And outside the square from (0, 0) to (2, 2), which holds (2, 2) on its
    // edge and (1, 1) inside.
    let polygons = vec![rectangle(0, 0, 2, 2)];
    let grid = Grid::with_resolution(&polygons, bbox(5, 5), 5).unwrap();
    assert_eq!(grid.cell(0, 0), Some(Cell::Empty));
}

#[test]
fn no_polygons_is_invalid_geometry() {
    assert!(matches!(Grid::from_polygons(&[], bbox(10, 10)), Err(GeometryError::InvalidGeometry)));
}

#[test]
fn flat_bounding_rectangle_is_invalid_geometry() {
    let polygons = vec![rectangle(0, 0, 10, 10)];
    assert!(matches!(Grid::from_polygons(&polygons, bbox(0, 10)), Err(GeometryError::InvalidGeometry)));
    assert!(matches!(Grid::from_polygons(&polygons, bbox(10, 0)), Err(GeometryError::InvalidGeometry)));
    let inverted = Rect { min: Point::new(10, 10), max: Point::new(0, 0) };
    assert!(matches!(Grid::from_polygons(&polygons, inverted), Err(GeometryError::InvalidGeometry)));
}

#[test]
fn bounding_rectangle_beyond_the_lattice_is_invalid_geometry() {
    let polygons = vec![rectangle(0, 0, 10, 10)];
    let rect = Rect::new(Point::new(0, 0), Point::new(COORD_MAX + 1, 10));
    let made = Grid::with_resolution(&polygons, rect, COORD_MAX);
    assert!(matches!(made, Err(GeometryError::InvalidGeometry)));
}

#[test]
fn largest_extent_and_resolution_are_accepted() {
    let polygons = vec![rectangle(0, 0, COORD_MAX, COORD_MAX)];
    let rect = Rect::new(Point::new(-COORD_MAX, -COORD_MAX), Point::new(COORD_MAX, COORD_MAX));
    let grid = Grid::with_resolution(&polygons, rect, COORD_MAX).unwrap();
    assert_eq!(grid.cols(), 2);
    assert_eq!(grid.rows(), 2);
    assert_eq!(grid.cell(0, 0), Some(Cell::Building));
    assert_eq!(grid.cell(1, 1), Some(Cell::Empty));
}

#[test]
fn world_to_cell_divides_and_rounds_down() {
    let polygons = vec![rectangle(0, 0, 10, 10)];
    let grid = Grid::with_resolution(&polygons, bbox(50, 30), 10).unwrap();
    assert_eq!(grid.world_to_cell(Point::new(0, 0)), Some((0, 0)));
    assert_eq!(grid.world_to_cell(Point::new(9, 9)), Some((0, 0)));
    assert_eq!(grid.world_to_cell(Point::new(10, 9)), Some((1, 0)));
    assert_eq!(grid.world_to_cell(Point::new(49, 29)), Some((4, 2)));
    assert_eq!(grid.world_to_cell(Point::new(27, 13)), Some((2, 1)));
}

#[test]
fn world_to_cell_is_none_outside_the_grid() {
    let polygons = vec![rectangle(0, 0, 10, 10)];
    let grid = Grid::with_resolution(&polygons, bbox(50, 30), 10).unwrap();
    assert_eq!(grid.world_to_cell(Point::new(-1, 5)), None);
    assert_eq!(grid.world_to_cell(Point::new(5, -1)), None);
    assert_eq!(grid.world_to_cell(Point::new(50, 5)), None);
    assert_eq!(grid.world_to_cell(Point::new(5, 30)), None);
    assert_eq!(grid.world_to_cell(Point::new(i64::MAX, i64::MAX)), None);
    assert_eq!(grid.world_to_cell(Point::new(i64::MIN, 0)), None);
}

#[test]
fn centre_of_each_cell_maps_back_to_the_cell() {
    let polygons = vec![rectangle(0, 0, 10, 10)];
    let grid = Grid::with_resolution(&polygons, bbox(70, 50), 10).unwrap();
    for row in 0..grid.rows() {
        for col in 0..grid.cols() {
            let centre = Point::new((col as i64) * 10 + 5, (row as i64) * 10 + 5);
            assert_eq!(grid.world_to_cell(centre), Some((col, row)));
        }
    }
}

#[test]
fn render_lists_cells_row_by_row() {
    let polygons = vec![rectangle(10, 0, 20, 10)];
    let mut grid = Grid::with_resolution(&polygons, bbox(30, 20), 10).unwrap();
    assert_eq!(grid.render_unfilled(), vec![(0, 0), (2, 0), (0, 1), (1, 1), (2, 1)]);
    let overlay = grid.render();
    assert!(overlay.flooded.is_empty());
    assert!(overlay.frontier.is_empty());
    grid.start_flood(2, 1);
    grid.flood();
    let overlay = grid.render();
    assert_eq!(overlay.flooded, vec![(2, 1)]);
    assert_eq!(overlay.frontier, vec![(2, 0), (1, 1)]);
    assert_eq!(grid.render_unfilled(), vec![(0, 0), (0, 1)]);
}

#[test]
fn cells_are_listed_row_by_row() {
    let polygons = vec![rectangle(10, 0, 20, 10)];
    let mut grid = Grid::with_resolution(&polygons, bbox(30, 20), 10).unwrap();
    grid.start_flood(0, 1);
    grid.flood();
    assert_eq!(
        grid.cells(),
        vec![
            Cell::Frontier,
            Cell::Building,
            Cell::Empty,
            Cell::Flooded,
            Cell::Frontier,
            Cell::Empty
        ]
    );
}

#[test]
fn doubled_centre_is_twice_the_centre() {
    let polygons = vec![rectangle(0, 0, 10, 10)];
    let grid = Grid::with_resolution(&polygons, bbox(70, 50), 10).unwrap();
    assert_eq!(grid.center_of_cell_doubled(0, 0), Some(Point::new(10, 10)));
    assert_eq!(grid.center_of_cell_doubled(6, 4), Some(Point::new(130, 90)));
    assert_eq!(grid.center_of_cell_doubled(7, 4), None);
    assert_eq!(grid.center_of_cell_doubled(6, 5), None);
    let odd = Grid::with_resolution(&polygons, bbox(21, 14), 7).unwrap();
    assert_eq!(odd.center_of_cell_doubled(2, 1), Some(Point::new(35, 21)));
    for row in 0..grid.rows() {
        for col in 0..grid.cols() {
            let twice = grid.center_of_cell_doubled(col, row).unwrap();
            let centre = Point::new(twice.x / 2, twice.y / 2);
            assert_eq!(grid.world_to_cell(centre), Some((col, row)));
        }
    }
}

#[test]
fn mask_says_where_the_buildings_are() {
    let mask = vec![true, false, false, false, true, true];
    let grid = Grid::from_mask(2, 3, 25, &mask).unwrap();
    assert_eq!(grid.rows(), 2);
    assert_eq!(grid.cols(), 3);
    assert_eq!(grid.resolution(), 25);
    assert_eq!(
        grid.cells(),
        vec![
            Cell::Building,
            Cell::Empty,
            Cell::Empty,
            Cell::Empty,
            Cell::Building,
            Cell::Building
        ]
    );
    assert_eq!(grid.cell(1, 1), Some(Cell::Building));
    assert_eq!(grid.cell(2, 0), Some(Cell::Empty));
    assert!(grid.is_settled());
}

#[test]
fn mask_must_fit_the_grid() {
    let invalid = |made: Result<Grid, GeometryError>| {
        matches!(made, Err(GeometryError::InvalidGeometry))
    };
    assert!(invalid(Grid::from_mask(2, 3, 10, &vec![false; 5])));
    assert!(invalid(Grid::from_mask(2, 3, 10, &vec![false; 7])));
    assert!(invalid(Grid::from_mask(0, 3, 10, &vec![])));
    assert!(invalid(Grid::from_mask(3, 0, 10, &vec![])));
    assert!(invalid(Grid::from_mask(1, 1, 0, &vec![false])));
    assert!(invalid(Grid::from_mask(1, 1, -5, &vec![false])));
    assert!(invalid(Grid::from_mask(1, 1, COORD_MAX + 1, &vec![false])));
    assert!(invalid(Grid::from_mask(4, 1, COORD_MAX, &vec![false; 4])));
    assert!(invalid(Grid::from_mask(1, 4, COORD_MAX, &vec![false; 4])));
    assert!(invalid(Grid::from_mask(usize::MAX, usize::MAX, 1, &vec![false])));
    assert!(Grid::from_mask(3, 3, COORD_MAX, &vec![false; 9]).is_ok());
    assert!(Grid::from_mask(1, 1, 1, &vec![true]).is_ok());
}

#[test]
fn resolution_must_be_positive_and_on_the_lattice() {
    let polygons = vec![rectangle(0, 0, 10, 10)];
    for resolution in [0, -1, i64::MIN, COORD_MAX + 1, i64::MAX] {
        let made = Grid::with_resolution(&polygons, bbox(10, 10), resolution);
        assert!(matches!(made, Err(GeometryError::InvalidGeometry)), "resolution {resolution}");
    }
    assert!(Grid::with_resolution(&polygons, bbox(10, 10), 1).is_ok());
    assert!(Grid::with_resolution(&polygons, bbox(10, 10), COORD_MAX).is_ok());
}
