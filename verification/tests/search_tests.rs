use astar_grid::lists::discard_endpoints;
use astar_grid::{AStar, CellRole, Grid, Notification, SearchOutcome, Step};

fn engine(n: usize, source: usize, goal: usize, obstacles: Vec<usize>) -> AStar {
    AStar::new(Grid::with_layout(n, source, goal, obstacles).unwrap())
}

fn one_move_apart(n: usize, a: usize, b: usize) -> bool {
    let (row_a, col_a) = (a / n, a % n);
    let (row_b, col_b) = (b / n, b % n);
    a != b && row_a.abs_diff(row_b) <= 1 && col_a.abs_diff(col_b) <= 1
}

#[test]
fn initial_state_has_only_the_source_scored_and_open() {
    let a_star = engine(3, 0, 8, vec![]);
    assert_eq!(a_star.open_list(), &vec![0]);
    assert!(a_star.closed_list().is_empty());
    let cells = a_star.grid().cells();
    assert_eq!(cells[0].get_g_score(), 0);
    assert_eq!(cells[0].get_h_score(), 2);
    assert_eq!(cells[0].get_f_score(), 2);
    assert_eq!(cells[0].get_parent_cell_idx(), None);
    for cell in &cells[1..] {
        assert_eq!(cell.g_score, None);
        assert_eq!(cell.h_score, None);
        assert_eq!(cell.f_score, None);
        assert_eq!(cell.parent_cell_idx, None);
    }
}

#[test]
fn diagonal_route_is_preferred_on_the_open_three_by_three() {
    let mut a_star = engine(3, 0, 8, vec![]);
    let outcome = a_star.search();
    assert_eq!(outcome, SearchOutcome::Found { path: vec![8, 4, 0] });
    match outcome {
        SearchOutcome::Found { path } => assert_eq!(path.len(), 3),
        SearchOutcome::Exhausted => panic!("the goal can be reached"),
    }
}

#[test]
fn state_after_the_search_on_the_open_three_by_three() {
    let mut a_star = engine(3, 0, 8, vec![]);
    a_star.search();
    assert_eq!(a_star.closed_list(), &vec![0, 4]);
    assert_eq!(a_star.open_list(), &vec![1, 3, 6, 2, 5, 8, 7]);
    let cells = a_star.grid().cells();
    let scores: Vec<(usize, usize, usize, Option<usize>)> = cells
        .iter()
        .map(|c| (c.get_g_score(), c.get_h_score(), c.get_f_score(), c.get_parent_cell_idx()))
        .collect();
    assert_eq!(
        scores,
        vec![
            (0, 2, 2, None),
            (1, 2, 3, Some(0)),
            (2, 2, 4, Some(4)),
            (1, 2, 3, Some(0)),
            (1, 1, 2, Some(0)),
            (2, 1, 3, Some(4)),
            (2, 2, 4, Some(4)),
            (2, 1, 3, Some(4)),
            (2, 0, 2, Some(4)),
        ]
    );
}

#[test]
fn walled_in_source_exhausts_the_search() {
    let mut a_star = engine(3, 0, 8, vec![1, 2, 3, 4, 5, 6, 7]);
    assert_eq!(a_star.search(), SearchOutcome::Exhausted);
    assert_eq!(a_star.closed_list(), &vec![0]);
    assert!(a_star.open_list().is_empty());
    assert_eq!(a_star.grid().cells()[8].g_score, None);
    assert_eq!(a_star.grid().cells()[8].parent_cell_idx, None);
}

#[test]
fn walled_in_but_adjacent_goal_is_found() {
    let mut a_star = engine(3, 0, 4, vec![1, 2, 3, 5, 6, 7, 8]);
    assert_eq!(a_star.search(), SearchOutcome::Found { path: vec![4, 0] });
}

#[test]
fn wall_between_source_and_goal_exhausts_the_search() {
    // Column 1 is blocked from top to bottom.
    let mut a_star = engine(4, 0, 3, vec![1, 5, 9, 13]);
    assert_eq!(a_star.search(), SearchOutcome::Exhausted);
    assert_eq!(a_star.closed_list(), &vec![0, 4, 8, 12]);
    assert!(a_star.open_list().is_empty());
}

#[test]
fn route_round_a_wall() {
    // S X G
    // . X .
    // . . .
    let mut a_star = engine(3, 0, 2, vec![1, 4]);
    assert_eq!(a_star.search(), SearchOutcome::Found { path: vec![2, 5, 7, 3, 0] });
    assert_eq!(a_star.closed_list(), &vec![0, 3, 7, 6, 5]);
    assert_eq!(a_star.open_list(), &vec![8, 2]);
    let cells = a_star.grid().cells();
    assert_eq!(cells[2].get_g_score(), 4);
    assert_eq!(cells[5].get_g_score(), 3);
    assert_eq!(cells[7].get_g_score(), 2);
    assert_eq!(cells[3].get_g_score(), 1);
    assert_eq!(cells[0].get_g_score(), 0);
    assert_eq!(cells[8].get_g_score(), 3);
    assert_eq!(cells[8].get_f_score(), 5);
    assert_eq!(cells[1].g_score, None);
    assert_eq!(cells[4].g_score, None);
}

#[test]
fn visited_and_path_cells_leave_out_source_and_goal() {
    let mut a_star = engine(3, 0, 2, vec![1, 4]);
    let outcome = a_star.search();
    let source = a_star.grid().source_cell_idx();
    let goal = a_star.grid().goal_cell_idx();
    assert_eq!(discard_endpoints(a_star.closed_list(), source, goal), vec![3, 7, 6, 5]);
    match outcome {
        SearchOutcome::Found { path } => {
            assert_eq!(discard_endpoints(&path, source, goal), vec![5, 7, 3]);
        },
        SearchOutcome::Exhausted => panic!("the goal can be reached"),
    }
}

#[test]
fn steps_of_the_search_one_by_one() {
    let mut a_star = engine(3, 0, 8, vec![]);
    assert_eq!(a_star.step(), Step::Expanded { cell_idx: 0 });
    assert_eq!(a_star.open_list(), &vec![1, 4, 3]);
    assert_eq!(a_star.closed_list(), &vec![0]);
    assert_eq!(a_star.step(), Step::Expanded { cell_idx: 4 });
    assert_eq!(a_star.open_list(), &vec![1, 3, 6, 2, 5, 8, 7]);
    assert_eq!(a_star.closed_list(), &vec![0, 4]);
    assert_eq!(a_star.step(), Step::Found);
    assert_eq!(a_star.step(), Step::Found);
    assert_eq!(a_star.open_list(), &vec![1, 3, 6, 2, 5, 8, 7]);
    assert_eq!(a_star.closed_list(), &vec![0, 4]);
    assert_eq!(a_star.reconstruct_path(8), vec![8, 4, 0]);
}

#[test]
fn steps_after_exhaustion_change_nothing() {
    let mut a_star = engine(2, 0, 3, vec![1, 2]);
    assert_eq!(a_star.step(), Step::Expanded { cell_idx: 0 });
    assert_eq!(a_star.step(), Step::Found);
    let mut blocked = engine(3, 0, 8, vec![1, 3, 4]);
    assert_eq!(blocked.step(), Step::Expanded { cell_idx: 0 });
    assert_eq!(blocked.step(), Step::Exhausted);
    assert_eq!(blocked.step(), Step::Exhausted);
    assert_eq!(blocked.closed_list(), &vec![0]);
}

#[test]
fn search_twice_gives_the_same_result() {
    let mut a_star = engine(3, 0, 2, vec![1, 4]);
    let first = a_star.search();
    let second = a_star.search();
    assert_eq!(first, second);
    assert_eq!(a_star.closed_list(), &vec![0, 3, 7, 6, 5]);
}

#[test]
fn lowest_f_score_wins_and_ties_go_to_the_first() {
    let mut a_star = engine(3, 0, 2, vec![1, 4]);
    a_star.step();
    a_star.step();
    // Both open cells have the f-score 4.
    assert_eq!(a_star.open_list(), &vec![7, 6]);
    let open = a_star.open_list().clone();
    assert_eq!(a_star.get_cell_with_lowest_f_score(&open).vec_idx, 7);
    assert_eq!(a_star.get_cell_with_lowest_f_score(&vec![6, 7]).vec_idx, 6);
    assert_eq!(a_star.get_cell_with_lowest_f_score(&vec![6]).vec_idx, 6);
    // The source has the f-score 2, the cell 3 the f-score 3.
    assert_eq!(a_star.get_cell_with_lowest_f_score(&vec![7, 3, 0, 6]).vec_idx, 0);
    assert_eq!(a_star.get_cell_with_lowest_f_score(&vec![7, 3, 6]).vec_idx, 3);
}

#[test]
fn neighbours_come_in_the_order_in_which_they_are_formed() {
    let a_star = engine(3, 0, 8, vec![]);
    assert_eq!(a_star.get_neighbour_indices(4), vec![0, 3, 6, 2, 5, 8, 1, 7]);
    assert_eq!(a_star.get_neighbour_indices(0), vec![1, 4, 3]);
    assert_eq!(a_star.get_neighbour_indices(2), vec![1, 4, 5]);
    assert_eq!(a_star.get_neighbour_indices(6), vec![4, 7, 3]);
    assert_eq!(a_star.get_neighbour_indices(8), vec![4, 7, 5]);
    assert_eq!(a_star.get_neighbour_indices(1), vec![0, 3, 2, 5, 4]);
    assert_eq!(a_star.get_neighbour_indices(3), vec![1, 4, 7, 0, 6]);
    assert_eq!(a_star.get_neighbour_indices(5), vec![1, 4, 7, 2, 8]);
    assert_eq!(a_star.get_neighbour_indices(7), vec![3, 6, 5, 8, 4]);
}

#[test]
fn neighbours_do_not_wrap_round_the_edges() {
    let a_star = engine(4, 0, 15, vec![]);
    // The cell 3 ends the first row, the cell 4 begins the second.
    assert_eq!(a_star.get_neighbour_indices(3), vec![2, 6, 7]);
    assert_eq!(a_star.get_neighbour_indices(4), vec![1, 5, 9, 0, 8]);
    assert_eq!(a_star.get_neighbour_indices(12), vec![9, 13, 8]);
    assert_eq!(a_star.get_neighbour_indices(15), vec![10, 14, 11]);
    for idx in 0..16 {
        for neighbour in a_star.get_neighbour_indices(idx) {
            assert!(one_move_apart(4, idx, neighbour));
        }
    }
}

#[test]
fn neighbours_on_the_smallest_grid() {
    let a_star = engine(2, 0, 3, vec![]);
    assert_eq!(a_star.get_neighbour_indices(0), vec![1, 3, 2]);
    assert_eq!(a_star.get_neighbour_indices(1), vec![0, 2, 3]);
    assert_eq!(a_star.get_neighbour_indices(2), vec![1, 3, 0]);
    assert_eq!(a_star.get_neighbour_indices(3), vec![0, 2, 1]);
}

#[test]
fn obstacles_are_no_neighbours() {
    let a_star = engine(3, 0, 8, vec![1, 5, 5]);
    assert_eq!(a_star.get_neighbour_indices(4), vec![0, 3, 6, 2, 8, 7]);
    assert_eq!(a_star.get_neighbour_indices(0), vec![4, 3]);
    // An obstacle still has neighbours of its own.
    assert_eq!(a_star.get_neighbour_indices(1), vec![0, 3, 2, 4]);
}

#[test]
fn neighbour_cells_are_those_of_the_grid() {
    let mut a_star = engine(3, 0, 8, vec![5]);
    a_star.step();
    let centre = a_star.grid().cells()[4];
    let neighbours = a_star.get_neighbours(centre);
    let indices: Vec<usize> = neighbours.iter().map(|c| c.vec_idx).collect();
    assert_eq!(indices, vec![0, 3, 6, 2, 8, 1, 7]);
    assert_eq!(neighbours[0].get_g_score(), 0);
    assert_eq!(neighbours[1].get_g_score(), 1);
    assert_eq!(neighbours[1].get_parent_cell_idx(), Some(0));
    assert_eq!(neighbours[2].g_score, None);
    assert_eq!(neighbours[2].row, 2);
    assert_eq!(neighbours[2].col, 0);
}

#[test]
fn path_to_an_open_cell_follows_the_parents() {
    let mut a_star = engine(3, 0, 2, vec![1, 4]);
    a_star.search();
    assert_eq!(a_star.reconstruct_path(8), vec![8, 7, 3, 0]);
    assert_eq!(a_star.reconstruct_path(6), vec![6, 3, 0]);
    assert_eq!(a_star.reconstruct_path(0), vec![0]);
    // The search never came to the obstacles: they have no parents.
    assert_eq!(a_star.reconstruct_path(1), vec![1]);
    assert_eq!(a_star.reconstruct_path(4), vec![4]);
}

fn check_search(n: usize, source: usize, goal: usize, obstacles: Vec<usize>) -> bool {
    let mut a_star = engine(n, source, goal, obstacles);
    let outcome = a_star.search();
    let closed = a_star.closed_list().clone();
    // Fewer cells are closed than the grid has, none twice, and never the goal.
    assert!(closed.len() < n * n);
    for (i, cell) in closed.iter().enumerate() {
        assert!(!closed[..i].contains(cell));
        assert_ne!(*cell, goal);
    }
    assert_eq!(closed[0], source);
    let cells = a_star.grid().cells();
    match outcome {
        SearchOutcome::Found { path } => {
            assert_eq!(path[0], goal);
            assert_eq!(path[path.len() - 1], source);
            for (i, cell) in path.iter().enumerate() {
                assert!(!path[..i].contains(cell));
                assert!(!a_star.grid().is_obstacle(*cell));
                assert_eq!(cells[*cell].get_g_score(), path.len() - 1 - i);
                assert_eq!(
                    cells[*cell].get_f_score(),
                    cells[*cell].get_g_score() + cells[*cell].get_h_score()
                );
            }
            for pair in path.windows(2) {
                assert!(one_move_apart(n, pair[0], pair[1]));
                assert!(a_star.get_neighbour_indices(pair[0]).contains(&pair[1]));
                assert!(a_star.get_neighbour_indices(pair[1]).contains(&pair[0]));
                assert_eq!(cells[pair[0]].get_parent_cell_idx(), Some(pair[1]));
                assert!(cells[pair[0]].get_g_score() >= cells[pair[1]].get_g_score());
            }
            true
        },
        SearchOutcome::Exhausted => {
            assert!(a_star.open_list().is_empty());
            assert_eq!(cells[goal].g_score, None);
            // Every neighbour of a closed cell is closed: the goal is cut off.
            for cell in &closed {
                for neighbour in a_star.get_neighbour_indices(*cell) {
                    assert!(closed.contains(&neighbour));
                }
            }
            false
        },
    }
}

#[test]
fn paths_on_open_grids_are_routes_from_goal_to_source() {
    for n in 2usize..7 {
        for source in 0..n * n {
            for goal in 0..n * n {
                if source != goal {
                    assert!(check_search(n, source, goal, vec![]));
                }
            }
        }
    }
}

#[test]
fn paths_on_grids_with_obstacles_are_routes_or_the_goal_is_cut_off() {
    // Diagonal bands of obstacles with gaps.
    for n in 3usize..8 {
        for shift in 0..n {
            let mut obstacles = Vec::new();
            for row in 0..n {
                let col = (row + shift) % n;
                if row % 3 != 2 {
                    obstacles.push(row * n + col);
                }
            }
            check_search(n, 0, n * n - 1, obstacles.clone());
            check_search(n, n - 1, n * (n - 1), obstacles);
        }
    }
}

#[test]
fn searches_on_random_grids_end_within_as_many_iterations_as_cells() {
    for _ in 0..100 {
        let grid = Grid::new(20).unwrap();
        let source = grid.source_cell_idx();
        let goal = grid.goal_cell_idx();
        let obstacles = grid.obstacle_indices().clone();
        let mut a_star = AStar::new(grid);
        let mut iterations = 0;
        loop {
            iterations += 1;
            match a_star.step() {
                Step::Expanded { cell_idx } => {
                    assert_eq!(a_star.closed_list().len(), iterations);
                    assert_eq!(a_star.closed_list()[iterations - 1], cell_idx);
                },
                Step::Found | Step::Exhausted => break,
            }
        }
        assert!(iterations <= 400);
        check_search(20, source, goal, obstacles);
    }
}

#[test]
fn heuristic_may_lead_the_search_off_the_shortest_route() {
    // The search is no proof of the shortest route; it still ends at the goal.
    assert!(check_search(6, 0, 35, vec![7, 14, 21, 28]));
}

fn visited(cell_idx: usize) -> Notification {
    Notification { cell_idx, role: CellRole::Visited }
}

fn on_path(cell_idx: usize) -> Notification {
    Notification { cell_idx, role: CellRole::Path }
}

#[test]
fn notifications_tell_of_visited_cells_then_of_the_path() {
    let mut a_star = engine(3, 0, 2, vec![1, 4]);
    let outcome = a_star.search();
    assert_eq!(
        a_star.notifications(&outcome),
        vec![visited(3), visited(7), visited(6), visited(5), on_path(5), on_path(7), on_path(3)]
    );
}

#[test]
fn notifications_of_a_route_of_one_step_are_empty() {
    let mut a_star = engine(3, 0, 4, vec![]);
    let outcome = a_star.search();
    assert_eq!(outcome, SearchOutcome::Found { path: vec![4, 0] });
    assert_eq!(a_star.notifications(&outcome), vec![]);
}

#[test]
fn notifications_of_an_exhausted_search_tell_of_visited_cells_only() {
    let mut a_star = engine(4, 0, 3, vec![1, 5, 9, 13]);
    let outcome = a_star.search();
    assert_eq!(outcome, SearchOutcome::Exhausted);
    assert_eq!(a_star.notifications(&outcome), vec![visited(4), visited(8), visited(12)]);
}

#[test]
fn notifications_never_name_source_or_goal() {
    for _ in 0..50 {
        let grid = Grid::new(20).unwrap();
        let source = grid.source_cell_idx();
        let goal = grid.goal_cell_idx();
        let mut a_star = AStar::new(grid);
        let outcome = a_star.search();
        let events = a_star.notifications(&outcome);
        let mut path_began = false;
        for event in events {
            assert_ne!(event.cell_idx, source);
            assert_ne!(event.cell_idx, goal);
            match event.role {
                CellRole::Visited => assert!(!path_began),
                CellRole::Path => path_began = true,
                _ => panic!("a search tells of visited cells and of the path only"),
            }
        }
    }
}

#[test]
fn a_grid_that_was_searched_is_cleared_for_the_next_search() {
    let mut a_star = engine(3, 0, 2, vec![1, 4]);
    let first = a_star.search();
    let used = a_star.into_grid();
    assert_eq!(used.cells()[5].get_g_score(), 3);
    assert_eq!(used.cells()[5].get_parent_cell_idx(), Some(7));
    let mut again = AStar::new(used);
    assert_eq!(again.open_list(), &vec![0]);
    assert!(again.closed_list().is_empty());
    assert_eq!(again.grid().cells()[5].g_score, None);
    assert_eq!(again.grid().cells()[5].parent_cell_idx, None);
    assert_eq!(again.grid().cells()[0].get_g_score(), 0);
    assert_eq!(again.search(), first);
}

#[test]
fn clear_scores_takes_every_score_and_parent_off() {
    let mut a_star = engine(3, 0, 8, vec![]);
    a_star.search();
    let mut grid = a_star.into_grid();
    grid.clear_scores();
    for (idx, cell) in grid.cells().iter().enumerate() {
        assert_eq!(cell.vec_idx, idx);
        assert_eq!(cell.row, idx / 3);
        assert_eq!(cell.col, idx % 3);
        assert_eq!(cell.g_score, None);
        assert_eq!(cell.h_score, None);
        assert_eq!(cell.f_score, None);
        assert_eq!(cell.parent_cell_idx, None);
    }
    assert_eq!(grid.source_cell_idx(), 0);
    assert_eq!(grid.goal_cell_idx(), 8);
}
