use footprints::engine::FloodEngine;
use footprints::geometry::{Point, Polygon, Rect};
use footprints::grid::Grid;
use footprints::model::Cell;

fn rectangle(x0: i64, y0: i64, x1: i64, y1: i64) -> Polygon {
    Polygon::new(
        vec![Point::new(x0, y0), Point::new(x1, y0), Point::new(x1, y1), Point::new(x0, y1)],
        vec![],
    )
    .unwrap()
}

/// A grid of `cols` by `rows` cells of side 10 without buildings: the one
/// polygon lies outside the bounding rectangle.
fn open_ground(cols: i64, rows: i64) -> Grid {
    let far = vec![rectangle(-30, -30, -20, -20)];
    let bbox = Rect::new(Point::new(0, 0), Point::new(cols * 10, rows * 10));
    Grid::with_resolution(&far, bbox, 10).unwrap()
}

fn states(grid: &Grid) -> Vec<Vec<Cell>> {
    (0..grid.rows())
        .map(|row| (0..grid.cols()).map(|col| grid.cell(col, row).unwrap()).collect())
        .collect()
}

fn chebyshev(a: (usize, usize), b: (usize, usize)) -> usize {
    a.0.abs_diff(b.0).max(a.1.abs_diff(b.1))
}

#[test]
fn seed_joins_the_frontier_and_changes_no_cell() {
    let mut grid = open_ground(3, 3);
    assert!(grid.is_settled());
    assert!(grid.frontier_cells().is_empty());
    let before = states(&grid);
    grid.start_flood(1, 1);
    assert_eq!(grid.frontier_cells(), &vec![(1, 1)]);
    assert_eq!(states(&grid), before);
    assert_eq!(grid.cell(1, 1), Some(Cell::Empty));
    assert!(!grid.is_settled());
    assert!(grid.render().frontier.is_empty());
}

#[test]
fn seeds_are_appended_in_the_order_given() {
    let mut grid = open_ground(3, 3);
    grid.start_flood(2, 0);
    grid.start_flood(0, 1);
    grid.start_flood(2, 0);
    assert_eq!(grid.frontier_cells(), &vec![(2, 0), (0, 1), (2, 0)]);
    assert_eq!(states(&grid), vec![vec![Cell::Empty; 3]; 3]);
}

#[test]
fn seed_outside_the_grid_does_nothing() {
    let mut grid = open_ground(3, 2);
    let before = states(&grid);
    grid.start_flood(3, 0);
    grid.start_flood(0, 2);
    grid.start_flood(usize::MAX, usize::MAX);
    assert_eq!(states(&grid), before);
    assert!(grid.frontier_cells().is_empty());
    assert!(grid.is_settled());
}

#[test]
fn seed_on_a_building_does_nothing() {
    let polygons = vec![rectangle(0, 0, 10, 10)];
    let bbox = Rect::new(Point::new(0, 0), Point::new(30, 10));
    let mut grid = Grid::with_resolution(&polygons, bbox, 10).unwrap();
    grid.start_flood(0, 0);
    assert_eq!(grid.cell(0, 0), Some(Cell::Building));
    assert!(grid.frontier_cells().is_empty());
    assert!(grid.is_settled());
    grid.flood();
    assert_eq!(states(&grid), vec![vec![Cell::Building, Cell::Empty, Cell::Empty]]);
}

#[test]
fn seed_on_a_wet_cell_is_listed_and_changes_no_cell() {
    let mut grid = open_ground(3, 1);
    grid.start_flood(0, 0);
    grid.start_flood(0, 0);
    assert_eq!(grid.frontier_cells(), &vec![(0, 0), (0, 0)]);
    grid.flood();
    assert_eq!(states(&grid), vec![vec![Cell::Flooded, Cell::Frontier, Cell::Empty]]);
    assert_eq!(grid.frontier_cells(), &vec![(1, 0)]);
    grid.start_flood(0, 0);
    grid.start_flood(1, 0);
    assert_eq!(grid.frontier_cells(), &vec![(1, 0), (0, 0), (1, 0)]);
    assert_eq!(states(&grid), vec![vec![Cell::Flooded, Cell::Frontier, Cell::Empty]]);
    grid.flood();
    assert_eq!(states(&grid), vec![vec![Cell::Flooded, Cell::Flooded, Cell::Frontier]]);
    assert_eq!(grid.frontier_cells(), &vec![(2, 0)]);
}

#[test]
fn frontier_after_a_tick_lists_the_new_frontier_cells_in_order() {
    let mut grid = open_ground(3, 2);
    grid.start_flood(0, 0);
    grid.start_flood(1, 0);
    grid.flood();
    assert_eq!(
        states(&grid),
        vec![
            vec![Cell::Flooded, Cell::Flooded, Cell::Frontier],
            vec![Cell::Frontier, Cell::Frontier, Cell::Frontier]
        ]
    );
    assert_eq!(grid.frontier_cells(), &vec![(0, 1), (1, 1), (2, 0), (2, 1)]);
    assert_eq!(grid.render().frontier, vec![(2, 0), (0, 1), (1, 1), (2, 1)]);
}

#[test]
fn one_tick_floods_the_seed_and_reaches_its_block() {
    let mut grid = open_ground(5, 5);
    grid.start_flood(2, 2);
    grid.flood();
    for row in 0..5 {
        for col in 0..5 {
            let expected = match chebyshev((col, row), (2, 2)) {
                0 => Cell::Flooded,
                1 => Cell::Frontier,
                _ => Cell::Empty,
            };
            assert_eq!(grid.cell(col, row), Some(expected));
        }
    }
}

#[test]
fn open_ground_floods_by_chebyshev_distance() {
    let seed = (1, 3);
    let mut grid = open_ground(6, 4);
    grid.start_flood(seed.0, seed.1);
    assert_eq!(states(&grid), vec![vec![Cell::Empty; 6]; 4]);
    for tick in 1..8 {
        grid.flood();
        for row in 0..4 {
            for col in 0..6 {
                let distance = chebyshev((col, row), seed);
                let expected = if distance < tick {
                    Cell::Flooded
                } else if distance == tick {
                    Cell::Frontier
                } else {
                    Cell::Empty
                };
                assert_eq!(grid.cell(col, row), Some(expected), "tick {tick}, cell ({col}, {row})");
            }
        }
    }
}

#[test]
fn open_ground_is_reached_after_the_farthest_distance() {
    // The farthest cell from (1, 3) in a grid of 6 by 4 is (5, 0), at
    // distance 4.
    let mut grid = open_ground(6, 4);
    grid.start_flood(1, 3);
    for _ in 0..3 {
        grid.flood();
    }
    assert!(!grid.render_unfilled().is_empty());
    grid.flood();
    assert!(grid.render_unfilled().is_empty());
    assert!(!grid.is_settled());
    assert_eq!(grid.render().flooded.len(), 6 * 4 - 4);
    grid.flood();
    assert!(grid.is_settled());
    assert_eq!(grid.render().flooded.len(), 6 * 4);
}

#[test]
fn single_cell_floods_in_one_tick() {
    let mut grid = open_ground(1, 1);
    grid.start_flood(0, 0);
    assert_eq!(grid.cell(0, 0), Some(Cell::Empty));
    assert!(!grid.is_settled());
    grid.flood();
    assert_eq!(grid.cell(0, 0), Some(Cell::Flooded));
    assert!(grid.is_settled());
}

#[test]
fn settled_flood_does_not_change() {
    let mut grid = open_ground(2, 2);
    grid.start_flood(0, 0);
    grid.flood();
    grid.flood();
    assert!(grid.is_settled());
    let done = states(&grid);
    grid.flood();
    assert_eq!(states(&grid), done);
    assert_eq!(done, vec![vec![Cell::Flooded; 2]; 2]);
}

#[test]
fn tick_without_a_seed_changes_nothing() {
    let mut grid = open_ground(3, 3);
    let before = states(&grid);
    grid.flood();
    assert_eq!(states(&grid), before);
}

#[test]
fn flood_stops_at_a_wall_of_buildings() {
    let wall = vec![rectangle(20, 0, 30, 30)];
    let bbox = Rect::new(Point::new(0, 0), Point::new(50, 30));
    let mut grid = Grid::with_resolution(&wall, bbox, 10).unwrap();
    grid.start_flood(0, 1);
    for _ in 0..10 {
        grid.flood();
    }
    assert!(grid.is_settled());
    for row in 0..3 {
        assert_eq!(grid.cell(0, row), Some(Cell::Flooded));
        assert_eq!(grid.cell(1, row), Some(Cell::Flooded));
        assert_eq!(grid.cell(2, row), Some(Cell::Building));
        assert_eq!(grid.cell(3, row), Some(Cell::Empty));
        assert_eq!(grid.cell(4, row), Some(Cell::Empty));
    }
}

#[test]
fn flood_passes_between_buildings_that_touch_at_a_corner() {
    let blocks = vec![rectangle(10, 0, 20, 10), rectangle(0, 10, 10, 20)];
    let bbox = Rect::new(Point::new(0, 0), Point::new(20, 20));
    let mut grid = Grid::with_resolution(&blocks, bbox, 10).unwrap();
    grid.start_flood(0, 0);
    grid.flood();
    assert_eq!(
        states(&grid),
        vec![vec![Cell::Flooded, Cell::Building], vec![Cell::Building, Cell::Frontier]]
    );
    grid.flood();
    assert_eq!(grid.cell(1, 1), Some(Cell::Flooded));
}

#[test]
fn two_seeds_flood_together() {
    let mut grid = open_ground(7, 1);
    grid.start_flood(0, 0);
    grid.start_flood(6, 0);
    grid.flood();
    grid.flood();
    assert_eq!(
        states(&grid),
        vec![vec![
            Cell::Flooded,
            Cell::Flooded,
            Cell::Frontier,
            Cell::Empty,
            Cell::Frontier,
            Cell::Flooded,
            Cell::Flooded
        ]]
    );
    grid.flood();
    assert_eq!(grid.render().frontier, vec![(3, 0)]);
}

#[test]
fn copy_is_a_grid_of_its_own() {
    let mut grid = open_ground(3, 3);
    let saved = grid.copy();
    grid.start_flood(1, 1);
    grid.flood();
    assert_eq!(states(&saved), vec![vec![Cell::Empty; 3]; 3]);
    assert_eq!(saved.rows(), 3);
    assert_eq!(saved.cols(), 3);
    assert_eq!(saved.resolution(), 10);
    assert_eq!(grid.cell(1, 1), Some(Cell::Flooded));
}

#[test]
fn copy_mid_flood_carries_the_frontier() {
    let mut grid = open_ground(3, 1);
    grid.start_flood(0, 0);
    let mut other = grid.copy();
    other.flood();
    assert_eq!(states(&other), vec![vec![Cell::Flooded, Cell::Frontier, Cell::Empty]]);
    assert_eq!(other.frontier_cells(), &vec![(1, 0)]);
    assert_eq!(states(&grid), vec![vec![Cell::Empty, Cell::Empty, Cell::Empty]]);
    assert_eq!(grid.frontier_cells(), &vec![(0, 0)]);
}

#[test]
fn reset_goes_back_to_the_snapshot() {
    let polygons = vec![rectangle(10, 10, 20, 20)];
    let bbox = Rect::new(Point::new(0, 0), Point::new(30, 30));
    let mut grid = Grid::with_resolution(&polygons, bbox, 10).unwrap();
    let snapshot = grid.copy();
    let fresh = states(&grid);
    grid.start_flood(0, 0);
    grid.flood();
    assert_ne!(states(&grid), fresh);
    grid.reset(&snapshot);
    assert_eq!(states(&grid), fresh);
    assert!(grid.is_settled());
    grid.flood();
    assert_eq!(states(&grid), fresh);
}

#[test]
fn paused_engine_ignores_ticks() {
    let mut engine = FloodEngine::new(open_ground(3, 1));
    engine.seed_at(Point::new(5, 5));
    engine.toggle_pause();
    assert!(engine.is_paused());
    engine.tick();
    assert_eq!(states(engine.grid()), vec![vec![Cell::Empty, Cell::Empty, Cell::Empty]]);
    assert_eq!(engine.grid().frontier_cells(), &vec![(0, 0)]);
    engine.toggle_pause();
    assert!(!engine.is_paused());
    engine.tick();
    assert_eq!(states(engine.grid()), vec![vec![Cell::Flooded, Cell::Frontier, Cell::Empty]]);
}

#[test]
fn engine_seeds_the_cell_under_the_point() {
    let mut engine = FloodEngine::new(open_ground(3, 2));
    engine.seed_at(Point::new(-1, 5));
    engine.seed_at(Point::new(30, 5));
    assert!(engine.grid().is_settled());
    engine.seed_at(Point::new(25, 19));
    assert_eq!(engine.grid().cell(2, 1), Some(Cell::Empty));
    assert_eq!(engine.grid().frontier_cells(), &vec![(2, 1)]);
    engine.tick();
    assert_eq!(engine.grid().cell(2, 1), Some(Cell::Flooded));
}

#[test]
fn engine_reset_restores_the_grid_and_keeps_the_switch() {
    let mut engine = FloodEngine::new(open_ground(2, 2));
    engine.seed_at(Point::new(0, 0));
    engine.tick();
    engine.toggle_pause();
    engine.reset();
    assert_eq!(states(engine.grid()), vec![vec![Cell::Empty; 2]; 2]);
    assert!(engine.is_paused());
    engine.toggle_pause();
    engine.seed_at(Point::new(15, 15));
    engine.tick();
    assert_eq!(engine.grid().cell(1, 1), Some(Cell::Flooded));
    engine.reset();
    assert_eq!(states(engine.grid()), vec![vec![Cell::Empty; 2]; 2]);
}

#[test]
fn clone_is_a_grid_of_its_own() {
    let mut grid = open_ground(2, 1);
    grid.start_flood(0, 0);
    let saved = grid.clone();
    grid.flood();
    assert_eq!(states(&saved), vec![vec![Cell::Empty, Cell::Empty]]);
    assert_eq!(saved.frontier_cells(), &vec![(0, 0)]);
    assert_eq!(states(&grid), vec![vec![Cell::Flooded, Cell::Frontier]]);
}

#[test]
fn reset_mid_flood_restores_the_saved_frontier() {
    let mut grid = open_ground(3, 1);
    grid.start_flood(2, 0);
    let snapshot = grid.copy();
    grid.flood();
    grid.flood();
    grid.reset(&snapshot);
    assert_eq!(states(&grid), vec![vec![Cell::Empty; 3]]);
    assert_eq!(grid.frontier_cells(), &vec![(2, 0)]);
    grid.flood();
    assert_eq!(states(&grid), vec![vec![Cell::Empty, Cell::Frontier, Cell::Flooded]]);
}

#[test]
fn frontier_after_a_tick_goes_entry_by_entry_and_column_by_column() {
    let mut grid = open_ground(4, 3);
    grid.start_flood(2, 1);
    grid.start_flood(0, 0);
    grid.flood();
    assert_eq!(
        grid.frontier_cells(),
        &vec![(1, 0), (1, 1), (1, 2), (2, 0), (2, 2), (3, 0), (3, 1), (3, 2), (0, 1)]
    );
    assert_eq!(grid.cell(2, 1), Some(Cell::Flooded));
    assert_eq!(grid.cell(0, 0), Some(Cell::Flooded));
    assert_eq!(grid.cell(0, 2), Some(Cell::Empty));
}

#[test]
fn flood_ends_within_one_tick_more_than_there_are_empty_cells() {
    let blocks = vec![rectangle(10, 0, 20, 20), rectangle(30, 10, 40, 30)];
    let bbox = Rect::new(Point::new(0, 0), Point::new(50, 30));
    let mut grid = Grid::with_resolution(&blocks, bbox, 10).unwrap();
    let empty = grid.render_unfilled().len();
    grid.start_flood(0, 0);
    grid.start_flood(4, 2);
    let mut ticks = 0;
    let mut left = empty;
    while !grid.is_settled() {
        grid.flood();
        ticks += 1;
        let now = grid.render_unfilled().len();
        assert!(now <= left);
        if !grid.is_settled() {
            assert!(now < left);
        }
        left = now;
    }
    assert!(ticks <= empty + 1);
    assert!(grid.render_unfilled().is_empty());
}
