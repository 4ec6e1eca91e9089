//! The search as contracts see it: its state, and what one iteration makes
//! of a state.
//!
//! A state holds the grid with the scores and parents of its cells, the open
//! list and the closed list. An iteration selects the first cell of the open
//! list among those with the lowest f-score. If that cell is the goal, the
//! search has found it. Otherwise the cell moves to the closed list and its
//! neighbours are relaxed one after the other.

use vstd::prelude::*;
use crate::cell::Cell;
use crate::geometry::heuristic;
use crate::grid::GridView;
use crate::neighbours::neighbour_indices;

verus! {

/// The value of a score; a score that is not set counts as zero.
pub open spec fn score(value: Option<usize>) -> int {
    match value {
        Some(points) => points as int,
        None => 0,
    }
}

/// The f-score of the cell at position `pos` of the list `open`.
pub open spec fn f_at(cells: Seq<Cell>, open: Seq<usize>, pos: int) -> int {
    score(cells[open[pos] as int].f_score)
}

/// `pos` is the first position of `open` among those whose cells have the
/// lowest f-score.
pub open spec fn is_first_lowest(cells: Seq<Cell>, open: Seq<usize>, pos: int) -> bool {
    &&& 0 <= pos < open.len()
    &&& forall|other: int|
        0 <= other < open.len() ==> f_at(cells, open, pos) <= #[trigger] f_at(cells, open, other)
    &&& forall|other: int|
        0 <= other < pos ==> f_at(cells, open, pos) < #[trigger] f_at(cells, open, other)
}

/// The position of `open` that the search selects.
pub open spec fn selected_position(cells: Seq<Cell>, open: Seq<usize>) -> int {
    choose|pos: int| is_first_lowest(cells, open, pos)
}

/// Only one position is the first with the lowest f-score.
pub proof fn lemma_first_lowest_unique(cells: Seq<Cell>, open: Seq<usize>, pos: int)
    requires
        is_first_lowest(cells, open, pos),
    ensures
        selected_position(cells, open) == pos,
{
    let chosen = selected_position(cells, open);
    assert(is_first_lowest(cells, open, chosen));
    if chosen < pos {
        assert(f_at(cells, open, pos) < f_at(cells, open, chosen));
        assert(f_at(cells, open, chosen) <= f_at(cells, open, pos));
    }
    if pos < chosen {
        assert(f_at(cells, open, chosen) < f_at(cells, open, pos));
        assert(f_at(cells, open, pos) <= f_at(cells, open, chosen));
    }
}

/// The state of a search.
pub struct SearchState {
    /// The grid, with the scores and parents of its cells.
    pub grid: GridView,
    /// The cells that wait to be expanded, in the order in which they came.
    pub open: Seq<usize>,
    /// The cells that were expanded, in the order in which they were.
    pub closed: Seq<usize>,
}

impl SearchState {
    /// The state before the first iteration: no cell has a score but the
    /// source, which alone is open.
    pub open spec fn initial(grid: GridView) -> SearchState {
        let reach = heuristic(grid.n, grid.source, grid.goal);
        let cleared = Seq::new(grid.cells.len(), |idx: int| grid.cells[idx].cleared());
        let source = Cell {
            g_score: Some(0),
            h_score: Some(reach as usize),
            f_score: Some(reach as usize),
            parent_cell_idx: None,
            ..cleared[grid.source]
        };
        SearchState {
            grid: GridView { cells: cleared.update(grid.source, source), ..grid },
            open: seq![grid.source as usize],
            closed: Seq::empty(),
        }
    }

    /// The g-score of the cell `idx`.
    pub open spec fn g_of(self, idx: int) -> int {
        score(self.grid.cells[idx].g_score)
    }

    /// The cell `idx` is in the open or in the closed list.
    pub open spec fn discovered(self, idx: usize) -> bool {
        self.open.contains(idx) || self.closed.contains(idx)
    }

    /// The neighbours of the cell `idx`, in the order in which the search
    /// looks at them.
    pub open spec fn neighbours_of(self, idx: usize) -> Seq<usize> {
        neighbour_indices(self.grid.n, self.grid.obstacles, idx as int)
    }

    /// The open list is empty: no cell is left to expand.
    pub open spec fn is_exhausted(self) -> bool {
        self.open.len() == 0
    }

    /// The cell that the next iteration selects.
    pub open spec fn selected(self) -> usize {
        self.open[selected_position(self.grid.cells, self.open)]
    }

    /// The next iteration selects the goal.
    pub open spec fn is_found(self) -> bool {
        !self.is_exhausted() && self.selected() == self.grid.goal
    }

    /// The search is over, one way or the other.
    pub open spec fn is_terminal(self) -> bool {
        self.is_exhausted() || self.is_found()
    }

    /// The cost of the route to `to` that comes through `from`.
    pub open spec fn tentative_g(self, from: usize, to: usize) -> int {
        self.g_of(from as int) + heuristic(self.grid.n, from as int, to as int)
    }

    /// The cell `to` with `from` as its parent and the scores that follow
    /// from that.
    pub open spec fn relaxed(self, from: usize, to: usize) -> Cell {
        let g = self.tentative_g(from, to);
        let h = heuristic(self.grid.n, to as int, self.grid.goal);
        Cell {
            g_score: Some(g as usize),
            h_score: Some(h as usize),
            f_score: Some((g + h) as usize),
            parent_cell_idx: Some(from),
            ..self.grid.cells[to as int]
        }
    }

    /// The state with `cell` in place of the cell `idx`.
    pub open spec fn with_cell(self, idx: usize, cell: Cell) -> SearchState {
        SearchState {
            grid: GridView { cells: self.grid.cells.update(idx as int, cell), ..self.grid },
            ..self
        }
    }

    /// The state with the cell at position `pos` of the open list moved to
    /// the end of the closed list.
    pub open spec fn close(self, pos: int) -> SearchState {
        SearchState {
            open: self.open.remove(pos),
            closed: self.closed.push(self.open[pos]),
            ..self
        }
    }

    /// What becomes of the state when the neighbour `to` of the cell `from`
    /// is looked at. A closed neighbour is passed over. A neighbour that is
    /// not open becomes open and is relaxed. An open neighbour is relaxed if
    /// the route through `from` costs less than the one it has.
    pub open spec fn relax_one(self, from: usize, to: usize) -> SearchState {
        if self.closed.contains(to) {
            self
        } else if !self.open.contains(to) {
            SearchState { open: self.open.push(to), ..self.with_cell(to, self.relaxed(from, to)) }
        } else if self.tentative_g(from, to) >= self.g_of(to as int) {
            self
        } else {
            self.with_cell(to, self.relaxed(from, to))
        }
    }

    /// What becomes of the state when the neighbours `to` of the cell `from`
    /// are looked at one after the other.
    pub open spec fn relax_all(self, from: usize, to: Seq<usize>) -> SearchState
        decreases to.len(),
    {
        if to.len() == 0 {
            self
        } else {
            self.relax_all(from, to.drop_last()).relax_one(from, to.last())
        }
    }

    /// What one iteration makes of the state. A state in which the search is
    /// over stays as it is.
    pub open spec fn step(self) -> SearchState {
        if self.is_terminal() {
            self
        } else {
            let current = self.selected();
            self.close(selected_position(self.grid.cells, self.open)).relax_all(
                current,
                self.neighbours_of(current),
            )
        }
    }

    /// What `steps` iterations make of the state.
    pub open spec fn run(self, steps: nat) -> SearchState
        decreases steps,
    {
        if steps == 0 {
            self
        } else {
            self.step().run((steps - 1) as nat)
        }
    }
}

/// Iterations add up: `more` iterations after `steps` are `steps + more`.
pub proof fn lemma_run_add(state: SearchState, steps: nat, more: nat)
    ensures
        state.run(steps).run(more) == state.run(steps + more),
    decreases steps,
{
    if steps > 0 {
        lemma_run_add(state.step(), (steps - 1) as nat, more);
    }
}

/// Once the search is over, further iterations change nothing.
pub proof fn lemma_run_terminal(state: SearchState, steps: nat)
    requires
        state.is_terminal(),
    ensures
        state.run(steps) == state,
    decreases steps,
{
    if steps > 0 {
        lemma_run_terminal(state, (steps - 1) as nat);
    }
}

/// A search that is over after `steps` iterations is in the same state
/// after any greater number of them.
pub proof fn lemma_run_over(state: SearchState, steps: nat, last: SearchState)
    requires
        state.run(steps) == last,
        last.is_terminal(),
    ensures
        forall|more: nat| steps <= more ==> #[trigger] state.run(more) == last,
{
    assert forall|more: nat| steps <= more implies #[trigger] state.run(more) == last by {
        lemma_run_add(state, steps, (more - steps) as nat);
        lemma_run_terminal(last, (more - steps) as nat);
    }
}

} // verus!
