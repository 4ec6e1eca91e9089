//! The grid: its cells, the source and the goal of the search, and the
//! obstacles between them.

use vstd::prelude::*;
use crate::cell::Cell;
use crate::geometry::{in_grid, lemma_index_of, lemma_row_col};
use crate::lists::{
    all_below, contains_index, discard_endpoints, lemma_discard_endpoints, not_endpoint,
};
use crate::random::uniform_index;

verus! {

/// Why no grid was made.
#[derive(Clone, Copy, Debug, PartialEq, Eq, Structural)]
pub enum ConstructionError {
    /// A grid with fewer than two rows has no room for a source and a goal
    /// apart from it.
    TooSmall,
    /// The scores on a grid of this size could pass the largest `usize`.
    TooLarge,
    /// The source, the goal or an obstacle lies outside the grid.
    OutOfRange,
    /// The source and the goal are the same cell.
    SameEndpoints,
}

/// The part that a cell plays on the grid and in a search.
#[derive(Clone, Copy, Debug, PartialEq, Eq, Structural)]
pub enum CellRole {
    /// The cell from which the search sets out.
    Source,
    /// The cell that the search is to reach.
    Goal,
    /// A cell that no route may pass.
    Obstacle,
    /// A cell that a route may pass, and that no search has closed.
    Free,
    /// A cell that the search has closed.
    Visited,
    /// A cell on the route that the search has found.
    Path,
}

/// A grid as contracts see it.
pub struct GridView {
    /// The number of rows, which is also the number of columns.
    pub n: int,
    /// The cells, row by row.
    pub cells: Seq<Cell>,
    /// The flat index of the source.
    pub source: int,
    /// The flat index of the goal.
    pub goal: int,
    /// The flat indices of the obstacles. One may occur more than once.
    pub obstacles: Seq<usize>,
}

/// The cell with flat index `idx` on a grid of `n` columns, before any
/// search.
pub open spec fn fresh_cell(n: int, idx: int) -> Cell {
    Cell {
        vec_idx: idx as usize,
        row: (idx / n) as usize,
        col: (idx % n) as usize,
        g_score: None,
        h_score: None,
        f_score: None,
        parent_cell_idx: None,
    }
}

/// The cells of a grid of `n` rows and columns, before any search.
pub open spec fn fresh_cells(n: int) -> Seq<Cell> {
    Seq::new((n * n) as nat, |idx: int| fresh_cell(n, idx))
}

/// Why a grid of `n` rows and columns cannot be made, if it cannot.
pub open spec fn size_error(n: int) -> Option<ConstructionError> {
    if n < 2 {
        Some(ConstructionError::TooSmall)
    } else if 2 * (n * n) > usize::MAX {
        Some(ConstructionError::TooLarge)
    } else {
        None
    }
}

/// Why a grid with this source, goal and obstacles cannot be made, if it
/// cannot. The size is looked at first, then whether all indices lie on the
/// grid, then whether source and goal differ.
pub open spec fn layout_error(n: int, source: int, goal: int, obstacles: Seq<usize>) -> Option<
    ConstructionError,
> {
    if size_error(n) is Some {
        size_error(n)
    } else if !in_grid(n, source) || !in_grid(n, goal) || !(forall|k: int|
        0 <= k < obstacles.len() ==> obstacles[k] < n * n) {
        Some(ConstructionError::OutOfRange)
    } else if source == goal {
        Some(ConstructionError::SameEndpoints)
    } else {
        None
    }
}

/// `obstacles` is what is left of `n * n / 2` draws from `count` cells when
/// the draws that hit `source` or `goal` are taken out.
pub open spec fn is_obstacle_draw(
    n: int,
    count: int,
    source: usize,
    goal: usize,
    obstacles: Seq<usize>,
) -> bool {
    exists|draws: Seq<usize>|
        {
            &&& draws.len() == (n * n) / 2
            &&& forall|k: int| 0 <= k < draws.len() ==> draws[k] < count
            &&& #[trigger] draws.filter(not_endpoint(source, goal)) == obstacles
        }
}

/// Obstacles that were drawn lie on the grid, off the source and the goal,
/// and are no more than the draws.
pub proof fn lemma_obstacle_draw(
    n: int,
    count: int,
    source: usize,
    goal: usize,
    obstacles: Seq<usize>,
)
    requires
        is_obstacle_draw(n, count, source, goal, obstacles),
    ensures
        obstacles.len() <= (n * n) / 2,
        forall|k: int|
            0 <= k < obstacles.len() ==> {
                let obstacle = #[trigger] obstacles[k];
                obstacle < count && obstacle != source && obstacle != goal
            },
{
    let draws = choose|draws: Seq<usize>|
        {
            &&& draws.len() == (n * n) / 2
            &&& forall|k: int| 0 <= k < draws.len() ==> draws[k] < count
            &&& #[trigger] draws.filter(not_endpoint(source, goal)) == obstacles
        };
    lemma_discard_endpoints(draws, source, goal);
    assert forall|k: int| 0 <= k < obstacles.len() implies {
        let obstacle = #[trigger] obstacles[k];
        obstacle < count && obstacle != source && obstacle != goal
    } by {
        assert(obstacles.contains(obstacles[k]));
    }
}

impl GridView {
    /// The obstacles are what is left of draws from the cells of the grid,
    /// half as many as it has cells, without those that hit the source or the
    /// goal.
    pub open spec fn obstacles_drawn(self) -> bool {
        is_obstacle_draw(
            self.n,
            self.n * self.n,
            self.source as usize,
            self.goal as usize,
            self.obstacles,
        )
    }

    /// The grid has room for its source and goal, its cells sit where their
    /// indices say, and no obstacle lies on the source, on the goal or
    /// outside the grid.
    pub open spec fn wf(self) -> bool {
        &&& size_error(self.n) is None
        &&& self.cells.len() == self.n * self.n
        &&& forall|i: int|
            0 <= i < self.cells.len() ==> (#[trigger] self.cells[i]).sits_at(self.n, i)
        &&& in_grid(self.n, self.source)
        &&& in_grid(self.n, self.goal)
        &&& self.source != self.goal
        &&& forall|k: int|
            0 <= k < self.obstacles.len() ==> {
                let obstacle = #[trigger] self.obstacles[k];
                obstacle < self.n * self.n && obstacle != self.source && obstacle != self.goal
            }
    }

    /// An obstacle lies on the cell `idx`.
    pub open spec fn is_obstacle(self, idx: int) -> bool {
        0 <= idx <= usize::MAX && self.obstacles.contains(idx as usize)
    }

    /// The part that the cell `idx` plays before a search.
    pub open spec fn role_of(self, idx: int) -> CellRole {
        if idx == self.source {
            CellRole::Source
        } else if idx == self.goal {
            CellRole::Goal
        } else if self.is_obstacle(idx) {
            CellRole::Obstacle
        } else {
            CellRole::Free
        }
    }
}

/// The cells of a fresh grid sit where their indices say, without scores.
pub proof fn lemma_fresh_cells(n: int)
    requires
        n > 0,
        n * n <= usize::MAX,
    ensures
        fresh_cells(n).len() == n * n,
        forall|i: int|
            0 <= i < n * n ==> (#[trigger] fresh_cells(n)[i]).sits_at(n, i) && fresh_cells(
                n,
            )[i].is_fresh(),
{
    assert forall|i: int| 0 <= i < n * n implies (#[trigger] fresh_cells(n)[i]).sits_at(n, i)
        && fresh_cells(n)[i].is_fresh() by {
        lemma_row_col(n, i);
    }
}

/// A square grid with a source, a goal and obstacles.
pub struct Grid {
    n_rows_and_cols: usize,
    cells: Vec<Cell>,
    source_cell_idx: usize,
    goal_cell_idx: usize,
    obstacle_indices: Vec<usize>,
}

impl View for Grid {
    type V = GridView;

    closed spec fn view(&self) -> GridView {
        GridView {
            n: self.n_rows_and_cols as int,
            cells: self.cells@,
            source: self.source_cell_idx as int,
            goal: self.goal_cell_idx as int,
            obstacles: self.obstacle_indices@,
        }
    }
}

/// The number of cells of a grid of `n` rows and columns, or why there is no
/// such grid.
fn check_size(n: usize) -> (checked: Result<usize, ConstructionError>)
    ensures
        match checked {
            Ok(count) => size_error(n as int) is None && count == n * n,
            Err(error) => size_error(n as int) == Some(error),
        },
{
    if n < 2 {
        return Err(ConstructionError::TooSmall);
    }
    match n.checked_mul(n) {
        None => {
            assert(2 * (n * n) > usize::MAX);
            Err(ConstructionError::TooLarge)
        },
        Some(count) => match count.checked_mul(2) {
            None => Err(ConstructionError::TooLarge),
            Some(_) => Ok(count),
        },
    }
}

impl Grid {
    /// See [`GridView::wf`].
    pub open spec fn wf(&self) -> bool {
        self@.wf()
    }

    /// A grid of `n_rows_and_cols` rows and as many columns, with source, goal
    /// and obstacles placed at random. The source is drawn from all cells, the
    /// goal from all cells but the source. For the obstacles, half as many
    /// cells as the grid has are drawn, and the draws that hit the source or
    /// the goal are left out: the grid may have fewer obstacles than that,
    /// down to none, and they may part the goal from the source.
    pub fn new(n_rows_and_cols: usize) -> (made: Result<Grid, ConstructionError>)
        ensures
            match made {
                Ok(grid) => {
                    &&& size_error(n_rows_and_cols as int) is None
                    &&& grid.wf()
                    &&& grid@.n == n_rows_and_cols
                    &&& grid@.cells == fresh_cells(n_rows_and_cols as int)
                    &&& grid@.obstacles_drawn()
                },
                Err(error) => size_error(n_rows_and_cols as int) == Some(error),
            },
    {
        match check_size(n_rows_and_cols) {
            Ok(_) => {},
            Err(error) => {
                return Err(error);
            },
        }
        let mut grid = Grid {
            n_rows_and_cols,
            cells: Vec::new(),
            source_cell_idx: 0,
            goal_cell_idx: 0,
            obstacle_indices: Vec::new(),
        };
        grid.cells = grid.make_cells();
        proof {
            lemma_fresh_cells(n_rows_and_cols as int);
            assert(n_rows_and_cols * n_rows_and_cols >= 4) by (nonlinear_arith)
                requires
                    n_rows_and_cols >= 2,
            ;
        }
        grid.source_cell_idx = grid.gen_rand_source_idx();
        grid.goal_cell_idx = grid.gen_rand_goal_idx();
        grid.obstacle_indices = grid.gen_rand_obstacle_indices();
        proof {
            lemma_obstacle_draw(
                n_rows_and_cols as int,
                grid.cells@.len() as int,
                grid.source_cell_idx,
                grid.goal_cell_idx,
                grid.obstacle_indices@,
            );
        }
        Ok(grid)
    }

    /// Places source, goal and obstacles anew, as [`Grid::new`] does, and
    /// takes every score and parent off the cells.
    pub fn reset(&mut self)
        requires
            old(self).wf(),
        ensures
            final(self).wf(),
            final(self)@.n == old(self)@.n,
            final(self)@.cells == fresh_cells(old(self)@.n),
            final(self)@.obstacles_drawn(),
    {
        self.cells = self.make_cells();
        proof {
            lemma_fresh_cells(self.n_rows_and_cols as int);
            assert(self.n_rows_and_cols * self.n_rows_and_cols >= 4) by (nonlinear_arith)
                requires
                    self.n_rows_and_cols >= 2,
            ;
        }
        self.source_cell_idx = self.gen_rand_source_idx();
        self.goal_cell_idx = self.gen_rand_goal_idx();
        self.obstacle_indices = self.gen_rand_obstacle_indices();
        proof {
            lemma_obstacle_draw(
                self.n_rows_and_cols as int,
                self.cells@.len() as int,
                self.source_cell_idx,
                self.goal_cell_idx,
                self.obstacle_indices@,
            );
        }
    }

    /// A cell drawn at random for the source.
    fn gen_rand_source_idx(&self) -> (idx: usize)
        requires
            self.cells@.len() > 0,
        ensures
            idx < self.cells@.len(),
    {
        let mut rng = rand::thread_rng();
        uniform_index(&mut rng, self.cells.len())
    }

    /// A cell drawn at random for the goal: cells are drawn until one is not
    /// the source. The draws are counted, so that the loop has an end: should
    /// as many draws as a `usize` can count all hit the source, the cell
    /// after the source is taken, or the first cell where the source is the
    /// last.
    fn gen_rand_goal_idx(&self) -> (idx: usize)
        requires
            self.cells@.len() > 1,
            self.source_cell_idx < self.cells@.len(),
        ensures
            idx < self.cells@.len(),
            idx != self.source_cell_idx,
    {
        let mut rng = rand::thread_rng();
        let mut draws: usize = 0;
        while draws < usize::MAX
            invariant
                self.cells@.len() > 1,
                self.source_cell_idx < self.cells@.len(),
            decreases usize::MAX - draws,
        {
            let idx = uniform_index(&mut rng, self.cells.len());
            if idx != self.source_cell_idx {
                return idx;
            }
            draws += 1;
        }
        if self.source_cell_idx < self.cells.len() - 1 {
            self.source_cell_idx + 1
        } else {
            0
        }
    }

    /// Obstacles drawn at random: half as many draws as the grid has cells,
    /// without those that hit the source or the goal.
    fn gen_rand_obstacle_indices(&self) -> (obstacles: Vec<usize>)
        requires
            self.cells@.len() > 0,
            self.n_rows_and_cols * self.n_rows_and_cols <= usize::MAX,
        ensures
            is_obstacle_draw(
                self.n_rows_and_cols as int,
                self.cells@.len() as int,
                self.source_cell_idx,
                self.goal_cell_idx,
                obstacles@,
            ),
    {
        let n_obstacles = (self.n_rows_and_cols * self.n_rows_and_cols) / 2;
        let mut rng = rand::thread_rng();
        let mut indices: Vec<usize> = Vec::new();
        let mut drawn: usize = 0;
        while drawn < n_obstacles
            invariant
                drawn <= n_obstacles,
                self.cells@.len() > 0,
                indices@.len() == drawn,
                forall|k: int| 0 <= k < indices@.len() ==> indices@[k] < self.cells@.len(),
            decreases n_obstacles - drawn,
        {
            let idx = uniform_index(&mut rng, self.cells.len());
            indices.push(idx);
            drawn += 1;
        }
        discard_endpoints(&indices, self.source_cell_idx, self.goal_cell_idx)
    }

    /// A grid of `n_rows_and_cols` rows and as many columns with the given
    /// source and goal. Of `obstacles`, those that lie on the source or on
    /// the goal are left out; the others stay in their order.
    pub fn with_layout(
        n_rows_and_cols: usize,
        source_cell_idx: usize,
        goal_cell_idx: usize,
        obstacles: Vec<usize>,
    ) -> (made: Result<Grid, ConstructionError>)
        ensures
            match made {
                Ok(grid) => {
                    &&& layout_error(
                        n_rows_and_cols as int,
                        source_cell_idx as int,
                        goal_cell_idx as int,
                        obstacles@,
                    ) is None
                    &&& grid.wf()
                    &&& grid@ == (GridView {
                        n: n_rows_and_cols as int,
                        cells: fresh_cells(n_rows_and_cols as int),
                        source: source_cell_idx as int,
                        goal: goal_cell_idx as int,
                        obstacles: obstacles@.filter(not_endpoint(source_cell_idx, goal_cell_idx)),
                    })
                },
                Err(error) => layout_error(
                    n_rows_and_cols as int,
                    source_cell_idx as int,
                    goal_cell_idx as int,
                    obstacles@,
                ) == Some(error),
            },
    {
        let count = match check_size(n_rows_and_cols) {
            Ok(count) => count,
            Err(error) => {
                return Err(error);
            },
        };
        if source_cell_idx >= count || goal_cell_idx >= count || !all_below(&obstacles, count) {
            return Err(ConstructionError::OutOfRange);
        }
        if source_cell_idx == goal_cell_idx {
            return Err(ConstructionError::SameEndpoints);
        }
        let mut grid = Grid {
            n_rows_and_cols,
            cells: Vec::new(),
            source_cell_idx,
            goal_cell_idx,
            obstacle_indices: Vec::new(),
        };
        grid.cells = grid.make_cells();
        grid.obstacle_indices = discard_endpoints(&obstacles, source_cell_idx, goal_cell_idx);
        proof {
            lemma_fresh_cells(n_rows_and_cols as int);
            lemma_discard_endpoints(obstacles@, source_cell_idx, goal_cell_idx);
            let kept = grid.obstacle_indices@;
            assert forall|k: int| 0 <= k < kept.len() implies {
                let obstacle = #[trigger] kept[k];
                obstacle < count && obstacle != source_cell_idx && obstacle != goal_cell_idx
            } by {
                assert(kept.contains(kept[k]));
            }
        }
        Ok(grid)
    }

    /// The cells of a grid of this size, row by row, none with a score or a
    /// parent. The grid stays as it is.
    pub fn make_cells(&mut self) -> (cells: Vec<Cell>)
        requires
            old(self)@.n * old(self)@.n <= usize::MAX,
        ensures
            *final(self) == *old(self),
            cells@ == fresh_cells(old(self)@.n),
    {
        let n = self.n_rows_and_cols;
        let mut cells: Vec<Cell> = Vec::new();
        let mut row: usize = 0;
        assert(0 * n == 0) by (nonlinear_arith);
        while row < n
            invariant
                row <= n,
                n * n <= usize::MAX,
                cells@.len() == row * n,
                forall|i: int| 0 <= i < cells@.len() ==> cells@[i] == fresh_cell(n as int, i),
            decreases n - row,
        {
            let mut col: usize = 0;
            while col < n
                invariant
                    row < n,
                    col <= n,
                    n * n <= usize::MAX,
                    cells@.len() == row * n + col,
                    forall|i: int| 0 <= i < cells@.len() ==> cells@[i] == fresh_cell(n as int, i),
                decreases n - col,
            {
                proof {
                    lemma_index_of(n as int, row as int, col as int);
                    assert(row * n >= 0) by (nonlinear_arith)
                        requires
                            row >= 0,
                            n >= 0,
                    ;
                }
                cells.push(Cell::new(row * n + col, row, col));
                col += 1;
            }
            assert((row + 1) * n == row * n + n) by (nonlinear_arith);
            row += 1;
        }
        assert(cells@ =~= fresh_cells(n as int));
        cells
    }

    /// Takes every score and parent off the cells.
    pub fn clear_scores(&mut self)
        ensures
            final(self)@ == (GridView {
                cells: Seq::new(old(self)@.cells.len(), |idx: int| old(self)@.cells[idx].cleared()),
                ..old(self)@
            }),
    {
        let mut idx: usize = 0;
        while idx < self.cells.len()
            invariant
                idx <= self.cells@.len(),
                self.cells@.len() == old(self).cells@.len(),
                self.n_rows_and_cols == old(self).n_rows_and_cols,
                self.source_cell_idx == old(self).source_cell_idx,
                self.goal_cell_idx == old(self).goal_cell_idx,
                self.obstacle_indices == old(self).obstacle_indices,
                forall|k: int| 0 <= k < idx ==> self.cells@[k] == old(self).cells@[k].cleared(),
                forall|k: int|
                    idx <= k < self.cells@.len() ==> self.cells@[k] == old(self).cells@[k],
            decreases self.cells@.len() - idx,
        {
            let cell = self.cells[idx];
            self.cells.set(idx, Cell::new(cell.vec_idx, cell.row, cell.col));
            idx += 1;
        }
        assert(self.cells@ =~= Seq::new(
            old(self)@.cells.len(),
            |idx: int| old(self)@.cells[idx].cleared(),
        ));
    }

    /// Puts `cell` in the place of the cell `idx`.
    pub(crate) fn set_cell(&mut self, idx: usize, cell: Cell)
        requires
            idx < old(self)@.cells.len(),
        ensures
            final(self)@ == (GridView {
                cells: old(self)@.cells.update(idx as int, cell),
                ..old(self)@
            }),
    {
        self.cells.set(idx, cell);
    }

    /// The number of rows, which is also the number of columns.
    pub fn size(&self) -> (n: usize)
        ensures
            n == self@.n,
    {
        self.n_rows_and_cols
    }

    /// The cells, row by row.
    pub fn cells(&self) -> (cells: &Vec<Cell>)
        ensures
            cells@ == self@.cells,
    {
        &self.cells
    }

    /// The flat index of the source.
    pub fn source_cell_idx(&self) -> (idx: usize)
        ensures
            idx == self@.source,
    {
        self.source_cell_idx
    }

    /// The flat index of the goal.
    pub fn goal_cell_idx(&self) -> (idx: usize)
        ensures
            idx == self@.goal,
    {
        self.goal_cell_idx
    }

    /// The flat indices of the obstacles.
    pub fn obstacle_indices(&self) -> (obstacles: &Vec<usize>)
        ensures
            obstacles@ == self@.obstacles,
    {
        &self.obstacle_indices
    }

    /// Whether an obstacle lies on the cell `idx`.
    pub fn is_obstacle(&self, idx: usize) -> (blocked: bool)
        ensures
            blocked == self@.is_obstacle(idx as int),
    {
        contains_index(&self.obstacle_indices, idx)
    }

    /// The part that the cell `idx` plays before a search: how it is to be
    /// drawn.
    pub fn role_of(&self, idx: usize) -> (role: CellRole)
        ensures
            role == self@.role_of(idx as int),
    {
        if idx == self.source_cell_idx {
            CellRole::Source
        } else if idx == self.goal_cell_idx {
            CellRole::Goal
        } else if self.is_obstacle(idx) {
            CellRole::Obstacle
        } else {
            CellRole::Free
        }
    }
}

} // verus!
