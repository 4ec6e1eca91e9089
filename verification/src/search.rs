//! The search engine: A* over the open and the closed list.

use vstd::prelude::*;
use crate::cell::Cell;
use crate::distance::euclidean_distance;
use crate::geometry::{heuristic, lemma_heuristic_bound};
use crate::grid::{CellRole, Grid};
use crate::invariants::{
    lemma_close, lemma_closed_bound, lemma_discovered_cell, lemma_discovered_source,
    lemma_expanding_grid, lemma_initial_inv, lemma_open_scored, lemma_relax_all,
    lemma_relax_ready, lemma_selected, lemma_step_inv, lemma_undiscovered_cell,
};
use crate::lists::{contains_index, discard_endpoints, not_endpoint};
use crate::neighbours::{
    is_neighbour, keep_candidate, left_neighbours, lemma_neighbours_are_king_moves,
    neighbour_indices, right_neighbours,
};
use crate::routes::{
    is_clear, is_connected, is_parent_chain, lemma_found_iff_reachable, lemma_parent_chain,
    link_at, reachable, scores_count_steps, scores_fall,
};
use crate::state::{
    f_at, is_first_lowest, lemma_first_lowest_unique, lemma_run_add, lemma_run_over,
    selected_position, SearchState,
};

verus! {

/// What one iteration of the search did.
#[derive(Clone, Copy, Debug, PartialEq, Eq, Structural)]
pub enum Step {
    /// The cell was selected, closed and expanded.
    Expanded { cell_idx: usize },
    /// The goal was selected: the search has found it.
    Found,
    /// No cell was left to select: no route leads to the goal.
    Exhausted,
}

/// How a search ended.
#[derive(Debug, PartialEq, Eq)]
pub enum SearchOutcome {
    /// The goal was found. The path leads from the goal back to the source,
    /// both included.
    Found { path: Vec<usize> },
    /// The open list ran empty: no route leads from the source to the goal.
    Exhausted,
}

/// What the renderer is told about a cell in the course of a search.
#[derive(Clone, Copy, Debug, PartialEq, Eq, Structural)]
pub struct Notification {
    /// The flat index of the cell.
    pub cell_idx: usize,
    /// The part that the cell plays from now on.
    pub role: CellRole,
}

/// The notification that a cell plays the part `role`.
pub open spec fn notify(role: CellRole) -> spec_fn(usize) -> Notification {
    |cell_idx: usize| Notification { cell_idx, role }
}

impl SearchState {
    /// What the renderer is told of a search that ended in this state and
    /// found `path`, in this order: that each closed cell was visited, then
    /// that each cell of the path is on the path, which takes the place of
    /// what was said of the cell before. Of the source and the goal nothing
    /// is said: they keep the parts that they have.
    pub open spec fn notifications(self, path: Seq<usize>) -> Seq<Notification> {
        let keep = not_endpoint(self.grid.source as usize, self.grid.goal as usize);
        self.closed.filter(keep).map_values(notify(CellRole::Visited)) + path.filter(
            keep,
        ).map_values(notify(CellRole::Path))
    }
}

/// The path that an outcome holds; none where the search was exhausted.
pub open spec fn path_of(outcome: SearchOutcome) -> Seq<usize> {
    match outcome {
        SearchOutcome::Found { path } => path@,
        SearchOutcome::Exhausted => Seq::empty(),
    }
}

/// Adds to `events` that each of `cells` plays the part `role`.
fn notify_all(events: &mut Vec<Notification>, cells: &Vec<usize>, role: CellRole)
    ensures
        final(events)@ == old(events)@ + cells@.map_values(notify(role)),
{
    let mut k: usize = 0;
    assert(events@ =~= old(events)@ + cells@.take(0).map_values(notify(role)));
    while k < cells.len()
        invariant
            k <= cells@.len(),
            events@ == old(events)@ + cells@.take(k as int).map_values(notify(role)),
        decreases cells@.len() - k,
    {
        events.push(Notification { cell_idx: cells[k], role });
        k += 1;
        assert(events@ =~= old(events)@ + cells@.take(k as int).map_values(notify(role)));
    }
    assert(cells@.take(cells@.len() as int) =~= cells@);
}

/// The number of iterations that lead from the state `before` to the state
/// `after`, in which the search is over: one for each cell that was closed
/// on the way, and the one that found the goal, or found no cell to select.
pub open spec fn iterations(before: SearchState, after: SearchState) -> int {
    after.closed.len() - before.closed.len() + 1
}

/// A search on a grid.
pub struct AStar {
    grid: Grid,
    open_list: Vec<usize>,
    closed_list: Vec<usize>,
}

impl View for AStar {
    type V = SearchState;

    closed spec fn view(&self) -> SearchState {
        SearchState { grid: self.grid@, open: self.open_list@, closed: self.closed_list@ }
    }
}

impl AStar {
    /// The engine is in a state of a search on a well-formed grid: see
    /// [`SearchState::inv`].
    pub open spec fn wf(&self) -> bool {
        self@.grid.wf() && self@.inv()
    }

    /// A search on `grid`, before its first iteration: the cells are
    /// cleared, the source has its scores, and it alone is open.
    pub fn new(grid: Grid) -> (engine: AStar)
        requires
            grid.wf(),
        ensures
            engine.wf(),
            engine@ == SearchState::initial(grid@),
    {
        let mut grid = grid;
        let ghost given = grid@;
        grid.clear_scores();
        let source_idx = grid.source_cell_idx();
        let goal_idx = grid.goal_cell_idx();
        let mut source_cell = grid.cells()[source_idx];
        let goal_cell = grid.cells()[goal_idx];
        proof {
            lemma_heuristic_bound(given.n, given.source, given.goal);
        }
        source_cell.set_g_score(0);
        source_cell.set_h_score(
            euclidean_distance(source_cell.col, goal_cell.col, source_cell.row, goal_cell.row),
        );
        source_cell.set_f_score(source_cell.get_g_score() + source_cell.get_h_score());
        source_cell.set_parent_cell_idx(None);
        grid.set_cell(source_idx, source_cell);
        let mut open_list: Vec<usize> = Vec::new();
        open_list.push(source_idx);
        let engine = AStar { grid, open_list, closed_list: Vec::new() };
        proof {
            lemma_initial_inv(given);
            assert(engine@.open =~= SearchState::initial(given).open);
            assert(engine@.closed =~= SearchState::initial(given).closed);
            assert(engine@.grid.cells =~= SearchState::initial(given).grid.cells);
        }
        engine
    }

    /// The grid, with the scores and parents that the search has set.
    pub fn grid(&self) -> (grid: &Grid)
        ensures
            grid@ == self@.grid,
    {
        &self.grid
    }

    /// Ends the search and hands the grid back, with the scores and parents
    /// that the search has set.
    pub fn into_grid(self) -> (grid: Grid)
        requires
            self.wf(),
        ensures
            grid@ == self@.grid,
            grid.wf(),
    {
        self.grid
    }

    /// The cells that wait to be expanded, in the order in which they came.
    pub fn open_list(&self) -> (open: &Vec<usize>)
        ensures
            open@ == self@.open,
    {
        &self.open_list
    }

    /// The cells that were expanded, in the order in which they were.
    pub fn closed_list(&self) -> (closed: &Vec<usize>)
        ensures
            closed@ == self@.closed,
    {
        &self.closed_list
    }

    /// What the renderer is to be told of the search, which ended with
    /// `outcome`: see [`SearchState::notifications`].
    pub fn notifications(&self, outcome: &SearchOutcome) -> (events: Vec<Notification>)
        ensures
            events@ == self@.notifications(path_of(*outcome)),
    {
        let source = self.grid.source_cell_idx();
        let goal = self.grid.goal_cell_idx();
        let mut events: Vec<Notification> = Vec::new();
        let visited = discard_endpoints(&self.closed_list, source, goal);
        notify_all(&mut events, &visited, CellRole::Visited);
        assert(events@ =~= visited@.map_values(notify(CellRole::Visited)));
        match outcome {
            SearchOutcome::Found { path } => {
                let marked = discard_endpoints(path, source, goal);
                notify_all(&mut events, &marked, CellRole::Path);
            },
            SearchOutcome::Exhausted => {
                proof {
                    reveal(Seq::filter);
                    let none = Seq::<usize>::empty();
                    assert(none.filter(not_endpoint(source, goal)).map_values(
                        notify(CellRole::Path),
                    ) =~= Seq::empty());
                    assert(events@ =~= events@ + Seq::<Notification>::empty());
                }
            },
        }
        events
    }

    /// The heuristic between two cells of the grid, which is also the cost
    /// of a step from one to the other.
    fn distance_between(&self, from: usize, to: usize) -> (cost: usize)
        requires
            self@.grid.wf(),
            from < self@.count(),
            to < self@.count(),
        ensures
            cost == heuristic(self@.grid.n, from as int, to as int),
    {
        let cells = self.grid.cells();
        proof {
            lemma_heuristic_bound(self@.grid.n, from as int, to as int);
        }
        euclidean_distance(cells[from].col, cells[to].col, cells[from].row, cells[to].row)
    }

    /// The position in `open_list` of the first cell among those with the
    /// lowest f-score.
    fn lowest_f_position(&self, open_list: &Vec<usize>) -> (pos: usize)
        requires
            open_list@.len() > 0,
            forall|i: int|
                0 <= i < open_list@.len() ==> #[trigger] open_list@[i] < self@.count()
                    && self@.grid.cells[open_list@[i] as int].f_score is Some,
        ensures
            is_first_lowest(self@.grid.cells, open_list@, pos as int),
            pos == selected_position(self@.grid.cells, open_list@),
    {
        let cells = self.grid.cells();
        let mut pos: usize = 0;
        let mut lowest_f_score = cells[open_list[0]].get_f_score();
        let mut i: usize = 1;
        while i < open_list.len()
            invariant
                1 <= i <= open_list@.len(),
                cells@ == self@.grid.cells,
                forall|k: int|
                    0 <= k < open_list@.len() ==> #[trigger] open_list@[k] < self@.count()
                        && self@.grid.cells[open_list@[k] as int].f_score is Some,
                pos < i,
                lowest_f_score == f_at(cells@, open_list@, pos as int),
                forall|other: int|
                    0 <= other < i ==> lowest_f_score <= #[trigger] f_at(cells@, open_list@, other),
                forall|other: int|
                    0 <= other < pos ==> lowest_f_score < #[trigger] f_at(
                        cells@,
                        open_list@,
                        other,
                    ),
            decreases open_list@.len() - i,
        {
            let f_score = cells[open_list[i]].get_f_score();
            if f_score < lowest_f_score {
                lowest_f_score = f_score;
                pos = i;
            }
            i += 1;
        }
        proof {
            lemma_first_lowest_unique(cells@, open_list@, pos as int);
        }
        pos
    }

    /// The cell of `open_list` with the lowest f-score; among several, the
    /// first of them in the list.
    pub fn get_cell_with_lowest_f_score(&self, open_list: &Vec<usize>) -> (cell: Cell)
        requires
            open_list@.len() > 0,
            forall|i: int|
                0 <= i < open_list@.len() ==> #[trigger] open_list@[i] < self@.count()
                    && self@.grid.cells[open_list@[i] as int].f_score is Some,
        ensures
            is_first_lowest(
                self@.grid.cells,
                open_list@,
                selected_position(self@.grid.cells, open_list@),
            ),
            cell == self@.grid.cells[open_list@[selected_position(
                self@.grid.cells,
                open_list@,
            )] as int],
    {
        let pos = self.lowest_f_position(open_list);
        self.grid.cells()[open_list[pos]]
    }

    /// Adds `candidate` to `indices` if it lies on the grid and no obstacle
    /// lies on it. Whether it lies on the grid is looked at first.
    fn push_candidate(&self, indices: &mut Vec<usize>, candidate: i128)
        requires
            self@.grid.wf(),
        ensures
            final(indices)@ == old(indices)@ + keep_candidate(
                self@.grid.n,
                self@.grid.obstacles,
                candidate as int,
            ),
    {
        if candidate >= 0 && candidate < self.grid.cells().len() as i128 {
            let idx = candidate as usize;
            if !self.grid.is_obstacle(idx) {
                indices.push(idx);
                assert(indices@ =~= old(indices)@ + seq![idx]);
                return ;
            }
        }
        assert(indices@ =~= old(indices)@ + Seq::<usize>::empty());
    }

    /// The neighbours of the cell `cell_idx`: see [`neighbour_indices`].
    pub fn get_neighbour_indices(&self, cell_idx: usize) -> (indices: Vec<usize>)
        requires
            self@.grid.wf(),
            cell_idx < self@.count(),
        ensures
            indices@ == self@.neighbours_of(cell_idx),
    {
        let n = self.grid.size() as i128;
        let idx = cell_idx as i128;
        let col = self.grid.cells()[cell_idx].col;
        let ghost layout = self@.grid;
        let ghost left = left_neighbours(layout.n, layout.obstacles, cell_idx as int);
        let ghost right = right_neighbours(layout.n, layout.obstacles, cell_idx as int);
        let mut indices: Vec<usize> = Vec::new();
        if col != 0 {
            self.push_candidate(&mut indices, idx - n - 1);
            self.push_candidate(&mut indices, idx - 1);
            self.push_candidate(&mut indices, idx + n - 1);
        }
        assert(indices@ =~= left);
        if col != self.grid.size() - 1 {
            self.push_candidate(&mut indices, idx - n + 1);
            let ghost first = indices@;
            self.push_candidate(&mut indices, idx + 1);
            let ghost second = indices@;
            self.push_candidate(&mut indices, idx + n + 1);
            assert(indices@ =~= left + right) by {
                let k4 = keep_candidate(layout.n, layout.obstacles, cell_idx - n + 1);
                let k5 = keep_candidate(layout.n, layout.obstacles, cell_idx + 1);
                let k6 = keep_candidate(layout.n, layout.obstacles, cell_idx + n + 1);
                assert(first == left + k4);
                assert(second == left + k4 + k5);
                assert(indices@ == left + k4 + k5 + k6);
                assert(right == k4 + k5 + k6);
            }
        }
        assert(indices@ =~= left + right);
        self.push_candidate(&mut indices, idx - n);
        self.push_candidate(&mut indices, idx + n);
        proof {
            reveal(neighbour_indices);
        }
        indices
    }

    /// The neighbours of `cell`, as the grid holds them now.
    pub fn get_neighbours(&self, cell: Cell) -> (neighbours: Vec<Cell>)
        requires
            self@.grid.wf(),
            cell.vec_idx < self@.count(),
        ensures
            neighbours@.len() == self@.neighbours_of(cell.vec_idx).len(),
            forall|k: int|
                0 <= k < neighbours@.len() ==> #[trigger] self@.neighbours_of(cell.vec_idx)[k]
                    < self@.count(),
            forall|k: int|
                0 <= k < neighbours@.len() ==> #[trigger] neighbours@[k]
                    == self@.grid.cells[self@.neighbours_of(cell.vec_idx)[k] as int],
    {
        let indices = self.get_neighbour_indices(cell.vec_idx);
        let mut neighbours: Vec<Cell> = Vec::new();
        let mut k: usize = 0;
        while k < indices.len()
            invariant
                k <= indices@.len(),
                self@.grid.wf(),
                cell.vec_idx < self@.count(),
                indices@ == self@.neighbours_of(cell.vec_idx),
                neighbours@.len() == k,
                forall|j: int| 0 <= j < k ==> #[trigger] indices@[j] < self@.count(),
                forall|j: int|
                    0 <= j < k ==> #[trigger] neighbours@[j]
                        == self@.grid.cells[indices@[j] as int],
            decreases indices@.len() - k,
        {
            let idx = indices[k];
            proof {
                assert(is_neighbour(self@.grid.n, self@.grid.obstacles, cell.vec_idx, idx));
                lemma_neighbours_are_king_moves(
                    self@.grid.n,
                    self@.grid.obstacles,
                    cell.vec_idx,
                    idx,
                );
            }
            neighbours.push(self.grid.cells()[idx]);
            k += 1;
        }
        neighbours
    }

    /// Looks at the neighbour `neighbour` of the cell `current`, which is
    /// being expanded: see [`SearchState::relax_one`].
    fn relax_neighbour(&mut self, current: usize, neighbour: usize, Ghost(done): Ghost<Seq<usize>>)
        requires
            old(self)@.expanding(current, done),
            is_neighbour(old(self)@.grid.n, old(self)@.grid.obstacles, current, neighbour),
        ensures
            final(self)@ == old(self)@.relax_one(current, neighbour),
    {
        proof {
            lemma_relax_ready(self@, current, done, neighbour);
        }
        if contains_index(&self.closed_list, neighbour) {
            return ;
        }
        let current_cell = self.grid.cells()[current];
        let mut neighbour_cell = self.grid.cells()[neighbour];
        let tentative_g = current_cell.get_g_score() + self.distance_between(current, neighbour);
        if !contains_index(&self.open_list, neighbour) {
            self.open_list.push(neighbour);
        } else if tentative_g >= neighbour_cell.get_g_score() {
            return ;
        }
        let goal = self.grid.goal_cell_idx();
        neighbour_cell.set_parent_cell_idx(Some(current));
        neighbour_cell.set_g_score(tentative_g);
        neighbour_cell.set_h_score(self.distance_between(neighbour, goal));
        neighbour_cell.set_f_score(neighbour_cell.get_g_score() + neighbour_cell.get_h_score());
        self.grid.set_cell(neighbour, neighbour_cell);
    }

    /// One iteration of the search: see [`SearchState::step`]. The first
    /// open cell among those with the lowest f-score is selected. If it is
    /// the goal, the search has found it, and nothing changes. Otherwise the
    /// cell is closed and its neighbours are relaxed. With no open cell the
    /// search is exhausted, and nothing changes.
    pub fn step(&mut self) -> (outcome: Step)
        requires
            old(self).wf(),
        ensures
            final(self).wf(),
            final(self)@ == old(self)@.step(),
            match outcome {
                Step::Exhausted => old(self)@.is_exhausted(),
                Step::Found => old(self)@.is_found(),
                Step::Expanded { cell_idx } => !old(self)@.is_terminal() && cell_idx == old(
                    self,
                )@.selected(),
            },
    {
        if self.open_list.len() == 0 {
            return Step::Exhausted;
        }
        proof {
            lemma_open_scored(self@);
        }
        let pos = self.lowest_f_position(&self.open_list);
        let current = self.open_list[pos];
        if current == self.grid.goal_cell_idx() {
            return Step::Found;
        }
        let ghost before = self@;
        self.open_list.remove(pos);
        self.closed_list.push(current);
        proof {
            lemma_close(before, pos as int);
            assert(self@ == before.close(pos as int));
            lemma_expanding_grid(self@, current, Seq::empty());
        }
        let neighbours = self.get_neighbour_indices(current);
        let ghost closed = self@;
        proof {
            assert(neighbours@.take(0) =~= Seq::empty());
            assert forall|j: int| 0 <= j < neighbours@.len() implies is_neighbour(
                closed.grid.n,
                closed.grid.obstacles,
                current,
                #[trigger] neighbours@[j],
            ) by {}
        }
        let mut k: usize = 0;
        while k < neighbours.len()
            invariant
                k <= neighbours@.len(),
                neighbours@ == closed.neighbours_of(current),
                closed.expanding(current, Seq::empty()),
                forall|j: int|
                    0 <= j < neighbours@.len() ==> is_neighbour(
                        closed.grid.n,
                        closed.grid.obstacles,
                        current,
                        #[trigger] neighbours@[j],
                    ),
                self@ == closed.relax_all(current, neighbours@.take(k as int)),
            decreases neighbours@.len() - k,
        {
            let ghost done = neighbours@.take(k as int);
            proof {
                lemma_relax_all(closed, current, done);
                assert(neighbours@.take(k + 1).drop_last() =~= done);
            }
            self.relax_neighbour(current, neighbours[k], Ghost(done));
            k += 1;
        }
        proof {
            assert(neighbours@.take(neighbours@.len() as int) =~= neighbours@);
            lemma_step_inv(before);
            lemma_open_scored(self@);
        }
        Step::Expanded { cell_idx: current }
    }

    /// The chain of parents from the cell `cell_idx` to a cell without
    /// parent. From a cell that the search has come to, the chain leads back
    /// to the source: it is the route by which the search reached the cell,
    /// last step first. A cell that the search has not come to has no
    /// parent, and the chain is the cell alone.
    pub fn reconstruct_path(&self, cell_idx: usize) -> (path: Vec<usize>)
        requires
            self.wf(),
            cell_idx < self@.count(),
        ensures
            is_parent_chain(self@.grid.cells, path@),
            path@[0] == cell_idx,
            !self@.discovered(cell_idx) ==> path@.len() == 1,
            self@.discovered(cell_idx) ==> {
                &&& path@.last() == self@.grid.source
                &&& path@.no_duplicates()
                &&& is_connected(self@.grid, path@)
                &&& is_clear(self@.grid, path@)
                &&& scores_count_steps(self@, path@)
                &&& scores_fall(self@, path@)
            },
    {
        let mut path: Vec<usize> = Vec::new();
        let mut cell: Option<usize> = Some(cell_idx);
        while cell.is_some()
            invariant
                self.wf(),
                cell_idx < self@.count(),
                cell matches Some(idx) ==> idx < self@.count() && (self@.discovered(idx)
                    || path@.len() == 0),
                path@.len() == 0 ==> cell == Some(cell_idx),
                path@.len() > 0 ==> path@[0] == cell_idx,
                path@.len() > 0 ==> self@.grid.cells[path@.last() as int].parent_cell_idx == cell,
                path@.len() > 0 && !self@.discovered(cell_idx) ==> cell is None && path@.len() == 1,
                forall|i: int| 0 <= i < path@.len() ==> #[trigger] path@[i] < self@.count(),
                forall|i: int|
                    0 <= i < path@.len() - 1 ==> #[trigger] link_at(self@.grid.cells, path@, i),
            decreases
                    (match cell {
                        Some(idx) => self@.g_of(idx as int) + 1,
                        None => 0,
                    }),
        {
            let idx = cell.unwrap();
            let ghost so_far = path@;
            path.push(idx);
            cell = self.grid.cells()[idx].get_parent_cell_idx();
            proof {
                if self@.discovered(idx) {
                    lemma_discovered_source(self@);
                    if cell is Some {
                        lemma_discovered_cell(self@, idx);
                    }
                } else {
                    lemma_undiscovered_cell(self@, idx);
                }
                assert forall|i: int| 0 <= i < path@.len() - 1 implies #[trigger] link_at(
                    self@.grid.cells,
                    path@,
                    i,
                ) by {
                    if i < so_far.len() - 1 {
                        assert(link_at(self@.grid.cells, so_far, i));
                    }
                }
            }
        }
        proof {
            if self@.discovered(cell_idx) {
                lemma_parent_chain(self@, path@);
            }
        }
        path
    }

    /// Runs the search to its end: iterations follow each other until one
    /// selects the goal or finds the open list empty.
    ///
    /// The goal is found if and only if some walk leads to it from the
    /// source. The path then leads from the goal back to the source along
    /// the parents: it holds no cell twice, each cell and the next are
    /// neighbours of each other, and the g-score falls by one from cell to
    /// cell. Each iteration but the last closes one cell, and fewer cells
    /// are closed than the grid has: there are never more iterations than
    /// cells.
    pub fn search(&mut self) -> (outcome: SearchOutcome)
        requires
            old(self).wf(),
        ensures
            final(self).wf(),
            final(self)@.same_layout(old(self)@),
            final(self)@.is_terminal(),
            final(self)@.closed.len() >= old(self)@.closed.len(),
            final(self)@ == old(self)@.run(
                (final(self)@.closed.len() - old(self)@.closed.len()) as nat,
            ),
            final(self)@ == old(self)@.run((old(self)@.grid.n * old(self)@.grid.n) as nat),
            final(self)@.closed.len() < final(self)@.grid.n * final(self)@.grid.n,
            iterations(old(self)@, final(self)@) <= final(self)@.grid.n * final(self)@.grid.n,
            outcome is Found <==> final(self)@.is_found(),
            outcome is Found <==> reachable(final(self)@.grid),
            outcome matches SearchOutcome::Found { path } ==> {
                &&& is_parent_chain(final(self)@.grid.cells, path@)
                &&& path@[0] == final(self)@.grid.goal
                &&& path@.last() == final(self)@.grid.source
                &&& path@.no_duplicates()
                &&& is_connected(final(self)@.grid, path@)
                &&& is_clear(final(self)@.grid, path@)
                &&& scores_count_steps(final(self)@, path@)
                &&& scores_fall(final(self)@, path@)
            },
    {
        let ghost start = self@;
        loop
            invariant
                start == old(self)@,
                self.wf(),
                self@.same_layout(start),
                self@.closed.len() >= start.closed.len(),
                self@ == start.run((self@.closed.len() - start.closed.len()) as nat),
            decreases self@.grid.n * self@.grid.n - self@.closed.len(),
        {
            let ghost before = self@;
            let ghost steps = (before.closed.len() - start.closed.len()) as nat;
            proof {
                lemma_step_inv(before);
                lemma_closed_bound(before);
            }
            match self.step() {
                Step::Expanded { cell_idx } => {
                    proof {
                        reveal_with_fuel(SearchState::run, 2);
                        lemma_run_add(start, steps, 1);
                        lemma_closed_bound(self@);
                    }
                },
                Step::Found => {
                    let goal = self.grid.goal_cell_idx();
                    proof {
                        lemma_selected(self@);
                        lemma_found_iff_reachable(self@);
                        lemma_run_over(start, steps, self@);
                        lemma_open_scored(self@);
                    }
                    let path = self.reconstruct_path(goal);
                    return SearchOutcome::Found { path };
                },
                Step::Exhausted => {
                    proof {
                        lemma_found_iff_reachable(self@);
                        lemma_run_over(start, steps, self@);
                    }
                    return SearchOutcome::Exhausted;
                },
            }
        }
    }
}

} // verus!
