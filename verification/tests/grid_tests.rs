use astar_grid::{Cell, CellRole, ConstructionError, Grid};

#[test]
fn grids_of_size_zero_and_one_are_rejected() {
    assert_eq!(Grid::new(0).err(), Some(ConstructionError::TooSmall));
    assert_eq!(Grid::new(1).err(), Some(ConstructionError::TooSmall));
    assert_eq!(Grid::with_layout(0, 0, 0, vec![]).err(), Some(ConstructionError::TooSmall));
    assert_eq!(Grid::with_layout(1, 0, 0, vec![]).err(), Some(ConstructionError::TooSmall));
}

#[test]
fn grids_whose_scores_could_overflow_are_rejected() {
    assert_eq!(Grid::new(usize::MAX).err(), Some(ConstructionError::TooLarge));
    assert_eq!(
        Grid::with_layout(usize::MAX / 2, 0, 1, vec![]).err(),
        Some(ConstructionError::TooLarge)
    );
}

#[test]
fn endpoints_and_obstacles_must_lie_on_the_grid() {
    assert_eq!(Grid::with_layout(3, 9, 0, vec![]).err(), Some(ConstructionError::OutOfRange));
    assert_eq!(Grid::with_layout(3, 0, 9, vec![]).err(), Some(ConstructionError::OutOfRange));
    assert_eq!(Grid::with_layout(3, 0, 8, vec![4, 9]).err(), Some(ConstructionError::OutOfRange));
    assert!(Grid::with_layout(3, 0, 8, vec![4, 7]).is_ok());
}

#[test]
fn source_and_goal_must_differ() {
    assert_eq!(Grid::with_layout(3, 4, 4, vec![]).err(), Some(ConstructionError::SameEndpoints));
}

#[test]
fn size_is_looked_at_before_the_layout() {
    assert_eq!(Grid::with_layout(1, 5, 5, vec![7]).err(), Some(ConstructionError::TooSmall));
    assert_eq!(Grid::with_layout(3, 9, 9, vec![]).err(), Some(ConstructionError::OutOfRange));
}

#[test]
fn smallest_grid_has_two_rows() {
    let grid = Grid::with_layout(2, 0, 3, vec![]).unwrap();
    assert_eq!(grid.size(), 2);
    assert_eq!(grid.cells().len(), 4);
}

#[test]
fn cells_are_laid_out_row_by_row() {
    let grid = Grid::with_layout(4, 0, 15, vec![]).unwrap();
    assert_eq!(grid.size(), 4);
    assert_eq!(grid.cells().len(), 16);
    for (idx, cell) in grid.cells().iter().enumerate() {
        assert_eq!(cell.vec_idx, idx);
        assert_eq!(cell.row, idx / 4);
        assert_eq!(cell.col, idx % 4);
    }
    assert_eq!(grid.cells()[6].row, 1);
    assert_eq!(grid.cells()[6].col, 2);
    assert_eq!(grid.cells()[13].row, 3);
    assert_eq!(grid.cells()[13].col, 1);
}

#[test]
fn fresh_cells_have_no_scores() {
    let grid = Grid::with_layout(3, 0, 8, vec![4]).unwrap();
    for cell in grid.cells() {
        assert_eq!(cell.g_score, None);
        assert_eq!(cell.h_score, None);
        assert_eq!(cell.f_score, None);
        assert_eq!(cell.get_parent_cell_idx(), None);
    }
}

#[test]
fn obstacles_on_source_or_goal_are_discarded() {
    let grid = Grid::with_layout(3, 0, 8, vec![0, 4, 8, 4, 2, 8, 0]).unwrap();
    assert_eq!(grid.obstacle_indices(), &vec![4, 4, 2]);
    assert_eq!(grid.source_cell_idx(), 0);
    assert_eq!(grid.goal_cell_idx(), 8);
    assert!(grid.is_obstacle(4));
    assert!(grid.is_obstacle(2));
    assert!(!grid.is_obstacle(0));
    assert!(!grid.is_obstacle(8));
    assert!(!grid.is_obstacle(5));
}

#[test]
fn obstacles_may_all_be_discarded() {
    let grid = Grid::with_layout(2, 1, 2, vec![1, 2, 2, 1]).unwrap();
    assert!(grid.obstacle_indices().is_empty());
}

#[test]
fn roles_before_a_search() {
    let grid = Grid::with_layout(3, 2, 6, vec![4, 5]).unwrap();
    assert_eq!(grid.role_of(2), CellRole::Source);
    assert_eq!(grid.role_of(6), CellRole::Goal);
    assert_eq!(grid.role_of(4), CellRole::Obstacle);
    assert_eq!(grid.role_of(5), CellRole::Obstacle);
    assert_eq!(grid.role_of(0), CellRole::Free);
    assert_eq!(grid.role_of(8), CellRole::Free);
}

fn check_random_layout(grid: &Grid, n: usize) {
    let count = n * n;
    assert_eq!(grid.size(), n);
    assert_eq!(grid.cells().len(), count);
    assert!(grid.source_cell_idx() < count);
    assert!(grid.goal_cell_idx() < count);
    assert_ne!(grid.source_cell_idx(), grid.goal_cell_idx());
    assert!(grid.obstacle_indices().len() <= count / 2);
    for &obstacle in grid.obstacle_indices() {
        assert!(obstacle < count);
        assert_ne!(obstacle, grid.source_cell_idx());
        assert_ne!(obstacle, grid.goal_cell_idx());
    }
    for (idx, cell) in grid.cells().iter().enumerate() {
        assert_eq!(cell.vec_idx, idx);
        assert_eq!(cell.row, idx / n);
        assert_eq!(cell.col, idx % n);
        assert_eq!(cell.g_score, None);
        assert_eq!(cell.get_parent_cell_idx(), None);
    }
}

#[test]
fn random_grids_are_well_formed() {
    for _ in 0..200 {
        let grid = Grid::new(20).unwrap();
        check_random_layout(&grid, 20);
    }
}

#[test]
fn random_grids_of_the_smallest_size_are_well_formed() {
    for _ in 0..200 {
        let grid = Grid::new(2).unwrap();
        check_random_layout(&grid, 2);
    }
}

#[test]
fn random_draws_spread_over_the_grid() {
    // A source that were always the same cell would show a stuck generator.
    let mut sources = Vec::new();
    for _ in 0..100 {
        let grid = Grid::new(20).unwrap();
        if !sources.contains(&grid.source_cell_idx()) {
            sources.push(grid.source_cell_idx());
        }
    }
    assert!(sources.len() > 1);
}

#[test]
fn reset_places_everything_anew() {
    let mut grid = Grid::with_layout(5, 0, 24, vec![7, 7, 12]).unwrap();
    for _ in 0..50 {
        grid.reset();
        check_random_layout(&grid, 5);
    }
}

#[test]
fn make_cells_gives_fresh_cells_and_leaves_the_grid() {
    let mut grid = Grid::with_layout(3, 1, 7, vec![4]).unwrap();
    let cells = grid.make_cells();
    assert_eq!(cells.len(), 9);
    for (idx, cell) in cells.iter().enumerate() {
        assert_eq!(cell.vec_idx, idx);
        assert_eq!(cell.row, idx / 3);
        assert_eq!(cell.col, idx % 3);
        assert_eq!(cell.g_score, None);
        assert_eq!(cell.h_score, None);
        assert_eq!(cell.f_score, None);
        assert_eq!(cell.parent_cell_idx, None);
    }
    assert_eq!(grid.source_cell_idx(), 1);
    assert_eq!(grid.goal_cell_idx(), 7);
    assert_eq!(grid.obstacle_indices(), &vec![4]);
}

#[test]
fn cell_scores_are_set_and_read() {
    let mut cell = Cell::new(7, 2, 1);
    assert_eq!(cell.vec_idx, 7);
    assert_eq!(cell.row, 2);
    assert_eq!(cell.col, 1);
    assert_eq!(cell.get_parent_cell_idx(), None);
    cell.set_g_score(3);
    cell.set_h_score(4);
    cell.set_f_score(7);
    cell.set_parent_cell_idx(Some(5));
    assert_eq!(cell.get_g_score(), 3);
    assert_eq!(cell.get_h_score(), 4);
    assert_eq!(cell.get_f_score(), 7);
    assert_eq!(cell.get_parent_cell_idx(), Some(5));
    cell.set_parent_cell_idx(None);
    assert_eq!(cell.get_parent_cell_idx(), None);
    assert_eq!(cell.get_g_score(), 3);
}

#[test]
fn cells_are_equal_by_index_alone() {
    let plain = Cell::new(7, 2, 1);
    let mut scored = Cell::new(7, 2, 1);
    scored.set_g_score(3);
    scored.set_parent_cell_idx(Some(4));
    assert!(plain == scored);
    let other = Cell::new(8, 2, 2);
    assert!(plain != other);
}
