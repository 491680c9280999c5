use sonar_vision::occupancy::{CellState, OccupancyGrid};

fn cell_of(x: f64, y: f64, width: f64, height: f64, resolution: f64) -> (usize, usize) {
    let col = ((x + width / 2.0) / resolution) as usize;
    let row = ((y + height / 2.0) / resolution) as usize;
    (row, col)
}

fn map_100() -> OccupancyGrid {
    let cols = (100.0f64 / 1.0).max(1.0) as usize;
    let rows = (100.0f64 / 1.0).max(1.0) as usize;
    OccupancyGrid::new(rows, cols)
}

#[test]
fn test_new_map() {
    let grid = map_100();
    assert_eq!(grid.cols(), 100);
    assert_eq!(grid.rows(), 100);
    assert_eq!(grid.get(0, 0), CellState::Unknown);
    assert_eq!(grid.get(99, 99), CellState::Unknown);
}

#[test]
fn grid_obstacle_center_becomes_occupied() {
    let mut grid = map_100();
    let (r, c) = cell_of(10.0, 10.0, 100.0, 100.0, 1.0);
    assert_eq!((r, c), (60, 60));
    grid.set(r, c, CellState::Occupied);
    let cells = grid.window(r as i32, c as i32, 1);
    assert_eq!(cells.len(), 9);
    grid.fill(&cells, CellState::Occupied);
    assert!(grid.is_occupied(r, c));
    assert!(grid.is_occupied(59, 61));
    assert!(!grid.is_occupied(58, 60));
}

#[test]
fn grid_obstacle_removal_frees_its_cells() {
    let mut grid = map_100();
    let (r, c) = cell_of(10.0, 10.0, 100.0, 100.0, 1.0);
    grid.set(r, c, CellState::Occupied);
    let cells = grid.window(r as i32, c as i32, 1);
    grid.fill(&cells, CellState::Occupied);
    grid.fill(&cells, CellState::Free);
    assert!(grid.is_free(r, c));
    assert!(!grid.is_occupied(r, c));
    assert_eq!(grid.get(59, 59), CellState::Free);
    assert_eq!(grid.get(58, 58), CellState::Unknown);
}

#[test]
fn grid_outside_reads_unknown_and_ignores_writes() {
    let mut grid = OccupancyGrid::new(3, 4);
    assert!(grid.in_bounds(2, 3));
    assert!(!grid.in_bounds(3, 0));
    assert!(!grid.in_bounds(0, 4));
    grid.set(3, 0, CellState::Occupied);
    grid.set(0, 4, CellState::Occupied);
    assert_eq!(grid.get(3, 0), CellState::Unknown);
    assert_eq!(grid.explored_cells(), 0);
    grid.set(2, 3, CellState::Free);
    assert_eq!(grid.get(2, 3), CellState::Free);
    assert!(grid.is_free(2, 3));
    assert_eq!(grid.explored_cells(), 1);
}

#[test]
fn grid_clear_resets_every_cell() {
    let mut grid = map_100();
    let cells = grid.window(55, 55, 2);
    grid.fill(&cells, CellState::Occupied);
    assert_eq!(grid.explored_cells(), 25);
    grid.clear();
    assert_eq!(grid.explored_cells(), 0);
    assert!(!grid.is_occupied(55, 55));
    assert_eq!(grid.rows(), 100);
    assert_eq!(grid.cols(), 100);
}

#[test]
fn test_coverage() {
    let mut grid = OccupancyGrid::new((10.0f64 / 1.0).max(1.0) as usize, (10.0f64 / 1.0).max(1.0) as usize);
    let coverage = |g: &OccupancyGrid| g.explored_cells() as f64 / (g.rows() * g.cols()) as f64;
    assert!((coverage(&grid) - 0.0).abs() < 1e-10);
    let (r, c) = cell_of(0.0, 0.0, 10.0, 10.0, 1.0);
    assert_eq!((r, c), (5, 5));
    grid.set(r, c, CellState::Occupied);
    let cells = grid.window(r as i32, c as i32, 1);
    grid.fill(&cells, CellState::Occupied);
    assert!(coverage(&grid) > 0.0);
    assert_eq!(grid.explored_cells(), 9);
    assert!((coverage(&grid) - 0.09).abs() < 1e-12);
}

#[test]
fn grid_mark_free_keeps_occupied_cells() {
    let mut grid = OccupancyGrid::new(5, 5);
    grid.set(2, 2, CellState::Occupied);
    grid.mark_free(2, 2);
    grid.mark_free(2, 3);
    grid.mark_free(9, 9);
    assert_eq!(grid.get(2, 2), CellState::Occupied);
    assert_eq!(grid.get(2, 3), CellState::Free);
    assert_eq!(grid.explored_cells(), 2);
}

#[test]
fn grid_window_is_clipped_and_row_major() {
    let grid = OccupancyGrid::new(4, 5);
    assert_eq!(grid.window(0, 0, 1), vec![(0, 0), (0, 1), (1, 0), (1, 1)]);
    assert_eq!(grid.window(3, 4, 1), vec![(2, 3), (2, 4), (3, 3), (3, 4)]);
    assert_eq!(grid.window(2, 2, 0), vec![(2, 2)]);
    assert_eq!(grid.window(-3, 2, 1), vec![]);
    assert_eq!(grid.window(2, 2, -1), vec![]);
    assert_eq!(grid.window(1, 2, 10).len(), 20);
}

#[test]
fn grid_fill_ignores_cells_outside() {
    let mut grid = OccupancyGrid::new(2, 2);
    grid.fill(&vec![(0, 1), (5, 5), (1, 0)], CellState::Occupied);
    assert_eq!(grid.get(0, 0), CellState::Unknown);
    assert_eq!(grid.get(0, 1), CellState::Occupied);
    assert_eq!(grid.get(1, 0), CellState::Occupied);
    assert_eq!(grid.get(1, 1), CellState::Unknown);
}

#[test]
fn grid_block_state_prefers_occupied_then_free() {
    let mut grid = OccupancyGrid::new(4, 4);
    assert_eq!(grid.block_state(0, 2, 0, 2), CellState::Unknown);
    grid.set(1, 1, CellState::Free);
    assert_eq!(grid.block_state(0, 2, 0, 2), CellState::Free);
    grid.set(0, 0, CellState::Occupied);
    assert_eq!(grid.block_state(0, 2, 0, 2), CellState::Occupied);
    assert_eq!(grid.block_state(2, 4, 2, 4), CellState::Unknown);
    assert_eq!(grid.block_state(1, 9, 1, 9), CellState::Free);
    assert_eq!(grid.block_state(3, 1, 0, 4), CellState::Unknown);
}

#[test]
fn grid_explored_count_never_falls() {
    let mut grid = OccupancyGrid::new(6, 6);
    let mut last = grid.explored_cells();
    let steps: Vec<(usize, usize, CellState)> = vec![
        (1, 1, CellState::Occupied),
        (1, 1, CellState::Free),
        (2, 2, CellState::Free),
        (2, 2, CellState::Occupied),
        (9, 9, CellState::Free),
    ];
    for (r, c, s) in steps {
        grid.set(r, c, s);
        assert!(grid.explored_cells() >= last);
        last = grid.explored_cells();
        grid.mark_free(r + 1, c);
        assert!(grid.explored_cells() >= last);
        last = grid.explored_cells();
    }
    let cells = grid.window(3, 3, 2);
    grid.fill(&cells, CellState::Free);
    assert!(grid.explored_cells() >= last);
    assert_eq!(grid.get(2, 2), CellState::Free);
}
