//! What holds of every state of a search, from the first to the last.

use vstd::prelude::*;
use crate::cell::Cell;
use crate::geometry::{heuristic, in_grid, lemma_heuristic_bound, lemma_step_cost};
use crate::grid::GridView;
use crate::neighbours::{is_neighbour, lemma_neighbours_are_king_moves, neighbour_indices};
use crate::seqs::{
    lemma_distinct_below, lemma_push_contains, lemma_push_distinct, lemma_remove_contains,
};
use crate::state::{f_at, is_first_lowest, score, selected_position, SearchState};

verus! {

impl SearchState {
    /// The number of cells of the grid.
    pub open spec fn count(self) -> int {
        self.grid.cells.len() as int
    }

    /// The lists hold cells of the grid, none twice and none in both lists.
    /// The goal is not closed. The source was closed first, or else it alone
    /// is open.
    pub open spec fn lists_wf(self) -> bool {
        &&& forall|i: int| 0 <= i < self.open.len() ==> #[trigger] self.open[i] < self.count()
        &&& forall|i: int| 0 <= i < self.closed.len() ==> #[trigger] self.closed[i] < self.count()
        &&& self.open.no_duplicates()
        &&& self.closed.no_duplicates()
        &&& forall|idx: usize| !(#[trigger] self.open.contains(idx) && self.closed.contains(idx))
        &&& !self.closed.contains(self.grid.goal as usize)
        &&& self.closed.len() <= self.count()
        &&& self.closed.len() == 0 ==> self.open == seq![self.grid.source as usize]
        &&& self.closed.len() > 0 ==> self.closed[0] == self.grid.source
    }

    /// The scores and the parent of the cell `idx` are those of a cell that
    /// the search has come to. The h-score is the heuristic to the goal, the
    /// f-score the sum of the other two. The source has no parent and the
    /// g-score zero. Any other cell has a closed parent of which it is a
    /// neighbour, and its g-score is the parent's and the cost of the step
    /// from it. No g-score is above the number of closed cells.
    pub open spec fn scored(self, idx: usize) -> bool {
        let cell = self.grid.cells[idx as int];
        &&& cell.g_score is Some
        &&& cell.h_score is Some
        &&& cell.f_score is Some
        &&& score(cell.h_score) == heuristic(self.grid.n, idx as int, self.grid.goal)
        &&& score(cell.f_score) == score(cell.g_score) + score(cell.h_score)
        &&& score(cell.g_score) <= self.closed.len()
        &&& if idx == self.grid.source {
            cell.parent_cell_idx is None && score(cell.g_score) == 0
        } else {
            &&& cell.parent_cell_idx matches Some(parent)
            &&& self.closed.contains(parent)
            &&& is_neighbour(self.grid.n, self.grid.obstacles, parent, idx)
            &&& score(cell.g_score) == self.tentative_g(parent, idx)
        }
    }

    /// The cell `idx` has no score and no parent.
    pub open spec fn untouched(self, idx: usize) -> bool {
        self.grid.cells[idx as int].is_fresh()
    }

    /// Every cell that the search has come to is scored, and no other cell
    /// has a score or a parent.
    pub open spec fn cells_wf(self) -> bool {
        &&& forall|idx: usize|
            idx < self.count() && #[trigger] self.discovered(idx) ==> self.scored(idx)
        &&& forall|idx: usize|
            idx < self.count() && !#[trigger] self.discovered(idx) ==> self.untouched(idx)
    }

    /// The two states are of searches on one grid: they differ at most in
    /// the lists and in the scores and parents of the cells.
    pub open spec fn same_layout(self, other: SearchState) -> bool {
        &&& self.grid.n == other.grid.n
        &&& self.grid.source == other.grid.source
        &&& self.grid.goal == other.grid.goal
        &&& self.grid.obstacles == other.grid.obstacles
        &&& self.grid.cells.len() == other.grid.cells.len()
    }

    /// What holds before and after every iteration: grid, lists and cells
    /// are well formed, and every neighbour of a closed cell is open or
    /// closed.
    #[verifier::opaque]
    pub open spec fn inv(self) -> bool {
        &&& self.grid.wf()
        &&& self.lists_wf()
        &&& self.cells_wf()
        &&& forall|from: usize, to: usize|
            self.closed.contains(from) && #[trigger] is_neighbour(
                self.grid.n,
                self.grid.obstacles,
                from,
                to,
            ) ==> self.discovered(to)
    }

    /// What holds within an iteration, while the neighbours of the cell
    /// `current` are relaxed and those in `done` have been: as `inv`, but
    /// that of the neighbours of `current` only those in `done` need be open
    /// or closed.
    #[verifier::opaque]
    pub open spec fn expanding(self, current: usize, done: Seq<usize>) -> bool {
        &&& self.grid.wf()
        &&& self.lists_wf()
        &&& self.cells_wf()
        &&& self.closed.contains(current)
        &&& self.g_of(current as int) < self.closed.len()
        &&& forall|from: usize, to: usize|
            self.closed.contains(from) && from != current && #[trigger] is_neighbour(
                self.grid.n,
                self.grid.obstacles,
                from,
                to,
            ) ==> self.discovered(to)
        &&& forall|k: int| 0 <= k < done.len() ==> self.discovered(#[trigger] done[k])
    }
}

/// A list that is not empty has a first position with the lowest f-score.
pub proof fn lemma_first_lowest_exists(cells: Seq<Cell>, open: Seq<usize>)
    requires
        open.len() > 0,
    ensures
        is_first_lowest(cells, open, selected_position(cells, open)),
    decreases open.len(),
{
    if open.len() == 1 {
        assert(is_first_lowest(cells, open, 0));
    } else {
        let shorter = open.drop_last();
        lemma_first_lowest_exists(cells, shorter);
        let before = selected_position(cells, shorter);
        let last = open.len() - 1;
        assert forall|other: int| 0 <= other < shorter.len() implies f_at(cells, shorter, other)
            == f_at(cells, open, other) by {}
        if f_at(cells, open, last) < f_at(cells, open, before) {
            assert forall|other: int| 0 <= other < open.len() implies f_at(cells, open, last)
                <= #[trigger] f_at(cells, open, other) by {
                if other < last {
                    assert(f_at(cells, shorter, before) <= f_at(cells, shorter, other));
                }
            }
            assert forall|other: int| 0 <= other < last implies f_at(cells, open, last)
                < #[trigger] f_at(cells, open, other) by {
                assert(f_at(cells, shorter, before) <= f_at(cells, shorter, other));
            }
            assert(is_first_lowest(cells, open, last));
        } else {
            assert forall|other: int| 0 <= other < open.len() implies f_at(cells, open, before)
                <= #[trigger] f_at(cells, open, other) by {
                if other < last {
                    assert(f_at(cells, shorter, before) <= f_at(cells, shorter, other));
                }
            }
            assert forall|other: int| 0 <= other < before implies f_at(cells, open, before)
                < #[trigger] f_at(cells, open, other) by {
                assert(f_at(cells, shorter, before) < f_at(cells, shorter, other));
            }
            assert(is_first_lowest(cells, open, before));
        }
    }
}

/// The state before the first iteration is as every state of a search is.
pub proof fn lemma_initial_inv(grid: GridView)
    requires
        grid.wf(),
    ensures
        SearchState::initial(grid).inv(),
{
    reveal(SearchState::inv);
    let state = SearchState::initial(grid);
    let source = grid.source as usize;
    lemma_heuristic_bound(grid.n, grid.source, grid.goal);
    assert(2 * grid.n <= grid.n * grid.n) by (nonlinear_arith)
        requires
            grid.n >= 2,
    ;
    assert(state.open[0] == source);
    assert forall|idx: usize|
        idx < state.count() && #[trigger] state.discovered(idx) implies state.scored(idx) by {
        assert(idx == source);
    }
    assert forall|idx: usize|
        idx < state.count() && !#[trigger] state.discovered(idx) implies state.untouched(idx) by {
        assert(idx != source);
    }
}

/// Closing the selected cell: when it has moved from the open list to the
/// closed one, the state is as it must be while the cell is expanded.
pub proof fn lemma_close(state: SearchState, pos: int)
    requires
        state.inv(),
        is_first_lowest(state.grid.cells, state.open, pos),
        state.open[pos] != state.grid.goal,
    ensures
        state.close(pos).expanding(state.open[pos], Seq::empty()),
{
    reveal(SearchState::inv);
    reveal(SearchState::expanding);
    let current = state.open[pos];
    let next = state.close(pos);
    assert(state.open.contains(current));
    assert(state.discovered(current));
    assert(state.scored(current));
    assert forall|idx: usize| #[trigger]
        next.open.contains(idx) <==> state.open.contains(idx) && idx != current by {
        lemma_remove_contains(state.open, pos, idx);
    }
    assert forall|idx: usize| #[trigger]
        next.closed.contains(idx) <==> state.closed.contains(idx) || idx == current by {
        lemma_push_contains(state.closed, current, idx);
    }
    assert forall|idx: usize| #[trigger] next.discovered(idx) <==> state.discovered(idx) by {
        assert(next.open.contains(idx) <==> state.open.contains(idx) && idx != current);
        assert(next.closed.contains(idx) <==> state.closed.contains(idx) || idx == current);
    }
    assert(next.lists_wf()) by {
        lemma_remove_contains(state.open, pos, current);
        lemma_push_distinct(state.closed, current);
        assert forall|i: int| 0 <= i < next.open.len() implies #[trigger] next.open[i]
            < next.count() by {
            assert(next.open.contains(next.open[i]));
            let k = choose|k: int| 0 <= k < state.open.len() && state.open[k] == next.open[i];
            assert(state.open[k] < state.count());
        }
        assert forall|i: int| 0 <= i < next.closed.len() implies #[trigger] next.closed[i]
            < next.count() by {
            if i < state.closed.len() {
                assert(state.closed[i] < state.count());
            }
        }
        lemma_distinct_below(next.closed, next.count());
        if state.closed.len() == 0 {
            assert(state.open[0] == state.grid.source);
            assert(pos == 0);
        } else {
            assert(next.closed[0] == state.closed[0]);
        }
    }
    assert forall|idx: usize|
        idx < next.count() && #[trigger] next.discovered(idx) implies next.scored(idx) by {
        assert(state.discovered(idx));
        assert(state.scored(idx));
    }
    assert forall|idx: usize|
        idx < next.count() && !#[trigger] next.discovered(idx) implies next.untouched(idx) by {
        assert(!state.discovered(idx));
        assert(state.untouched(idx));
    }
}

/// Relaxing one neighbour of the cell that is expanded keeps the state as
/// it must be while the cell is expanded, and the neighbour is then open or
/// closed.
pub proof fn lemma_relax_one(state: SearchState, current: usize, done: Seq<usize>, to: usize)
    requires
        state.expanding(current, done),
        is_neighbour(state.grid.n, state.grid.obstacles, current, to),
    ensures
        state.relax_one(current, to).expanding(current, done.push(to)),
        state.relax_one(current, to).same_layout(state),
        state.relax_one(current, to).closed == state.closed,
{
    reveal(SearchState::expanding);
    let next = state.relax_one(current, to);
    let n = state.grid.n;
    let current_at = choose|k: int| 0 <= k < state.closed.len() && state.closed[k] == current;
    assert(state.closed[current_at] < state.count());
    lemma_neighbours_are_king_moves(n, state.grid.obstacles, current, to);
    lemma_step_cost(n, current as int, to as int);
    lemma_heuristic_bound(n, to as int, state.grid.goal);
    assert(2 * n <= n * n) by (nonlinear_arith)
        requires
            n >= 2,
    ;
    assert(state.closed[0] == state.grid.source);
    assert(state.closed.contains(state.grid.source as usize));
    assert forall|idx: usize| #[trigger]
        next.open.contains(idx) <==> state.open.contains(idx) || (idx == to
            && !state.closed.contains(to)) by {
        lemma_push_contains(state.open, to, idx);
    }
    assert forall|idx: usize| #[trigger]
        next.discovered(idx) <==> state.discovered(idx) || idx == to by {
        assert(next.open.contains(idx) <==> state.open.contains(idx) || (idx == to
            && !state.closed.contains(to)));
    }
    if !state.closed.contains(to) {
        assert(to != state.grid.source);
        assert(to != current);
    }
    assert(next.lists_wf()) by {
        if !state.closed.contains(to) && !state.open.contains(to) {
            lemma_push_distinct(state.open, to);
            assert forall|i: int| 0 <= i < next.open.len() implies #[trigger] next.open[i]
                < next.count() by {
                if i < state.open.len() {
                    assert(state.open[i] < state.count());
                }
            }
        }
    }
    assert forall|idx: usize|
        idx < next.count() && #[trigger] next.discovered(idx) implies next.scored(idx) by {
        if idx == to && next != state {
            assert(next.grid.cells[idx as int] == state.relaxed(current, to));
            assert(next.g_of(current as int) == state.g_of(current as int));
        } else {
            assert(state.discovered(idx));
            assert(state.scored(idx));
            assert(next.grid.cells[idx as int] == state.grid.cells[idx as int]);
            if idx != state.grid.source {
                let parent = state.grid.cells[idx as int].parent_cell_idx->0;
                assert(state.closed.contains(parent));
                assert(next.grid.cells[parent as int] == state.grid.cells[parent as int]);
            }
        }
    }
    assert forall|idx: usize|
        idx < next.count() && !#[trigger] next.discovered(idx) implies next.untouched(idx) by {
        assert(!state.discovered(idx));
        assert(state.untouched(idx));
    }
    assert forall|k: int| 0 <= k < done.push(to).len() implies next.discovered(
        #[trigger] done.push(to)[k],
    ) by {
        if k < done.len() {
            assert(state.discovered(done[k]));
        }
    }
    assert forall|from: usize, other: usize|
        next.closed.contains(from) && from != current && #[trigger] is_neighbour(
            next.grid.n,
            next.grid.obstacles,
            from,
            other,
        ) implies next.discovered(other) by {
        assert(state.discovered(other));
    }
}

/// Relaxing neighbours of the cell that is expanded, one after the other,
/// keeps the state as it must be while the cell is expanded.
pub proof fn lemma_relax_all(state: SearchState, current: usize, to: Seq<usize>)
    requires
        state.expanding(current, Seq::empty()),
        forall|k: int|
            0 <= k < to.len() ==> is_neighbour(
                state.grid.n,
                state.grid.obstacles,
                current,
                #[trigger] to[k],
            ),
    ensures
        state.relax_all(current, to).expanding(current, to),
        state.relax_all(current, to).same_layout(state),
        state.relax_all(current, to).closed == state.closed,
    decreases to.len(),
{
    if to.len() == 0 {
        assert(to =~= Seq::empty());
    } else {
        let before = to.drop_last();
        assert forall|k: int| 0 <= k < before.len() implies is_neighbour(
            state.grid.n,
            state.grid.obstacles,
            current,
            #[trigger] before[k],
        ) by {
            assert(before[k] == to[k]);
        }
        lemma_relax_all(state, current, before);
        assert(is_neighbour(state.grid.n, state.grid.obstacles, current, to[to.len() - 1]));
        lemma_relax_one(state.relax_all(current, before), current, before, to.last());
        assert(before.push(to.last()) =~= to);
    }
}

/// When all neighbours of the cell that was expanded have been relaxed, the
/// state is again as it is between iterations.
pub proof fn lemma_expanded(state: SearchState, current: usize)
    requires
        state.expanding(
            current,
            neighbour_indices(state.grid.n, state.grid.obstacles, current as int),
        ),
    ensures
        state.inv(),
{
    reveal(SearchState::inv);
    reveal(SearchState::expanding);
    let list = neighbour_indices(state.grid.n, state.grid.obstacles, current as int);
    assert forall|from: usize, to: usize|
        state.closed.contains(from) && #[trigger] is_neighbour(
            state.grid.n,
            state.grid.obstacles,
            from,
            to,
        ) implies state.discovered(to) by {
        if from == current {
            let k = choose|k: int| 0 <= k < list.len() && list[k] == to;
            assert(state.discovered(list[k]));
        }
    }
}

/// An iteration keeps what holds of every state of a search.
pub proof fn lemma_step_inv(state: SearchState)
    requires
        state.inv(),
    ensures
        state.step().inv(),
        state.step().same_layout(state),
        state.is_terminal() ==> state.step() == state,
        !state.is_terminal() ==> state.step().closed == state.closed.push(state.selected()),
{
    if !state.is_terminal() {
        assert(state.grid.wf() && state.lists_wf()) by {
            reveal(SearchState::inv);
        }
        lemma_first_lowest_exists(state.grid.cells, state.open);
        let pos = selected_position(state.grid.cells, state.open);
        let current = state.open[pos];
        lemma_close(state, pos);
        let list = neighbour_indices(state.grid.n, state.grid.obstacles, current as int);
        lemma_relax_all(state.close(pos), current, list);
        lemma_expanded(state.step(), current);
    }
}

/// What every state of a search says of a cell that the search has come to,
/// other than the source: it has a closed parent, the two are neighbours of
/// each other, and its g-score is one above the parent's.
pub proof fn lemma_discovered_cell(state: SearchState, idx: usize)
    requires
        state.inv(),
        state.discovered(idx),
        idx != state.grid.source,
    ensures
        idx < state.count(),
        state.grid.cells[idx as int].parent_cell_idx matches Some(parent) && {
            &&& parent < state.count()
            &&& state.closed.contains(parent)
            &&& is_neighbour(state.grid.n, state.grid.obstacles, parent, idx)
            &&& is_neighbour(state.grid.n, state.grid.obstacles, idx, parent)
            &&& state.g_of(idx as int) == state.g_of(parent as int) + 1
        },
{
    reveal(SearchState::inv);
    lemma_in_lists(state, idx);
    assert(state.scored(idx));
    let parent = state.grid.cells[idx as int].parent_cell_idx->0;
    lemma_in_lists(state, parent);
    lemma_neighbours_are_king_moves(state.grid.n, state.grid.obstacles, parent, idx);
    lemma_step_cost(state.grid.n, parent as int, idx as int);
    lemma_free(state, parent);
    lemma_neighbours_are_king_moves(state.grid.n, state.grid.obstacles, idx, parent);
}

/// What every state of a search says of the source: it is open or closed,
/// has no parent and the g-score zero; and it is the only cell that the
/// search has come to without a parent.
pub proof fn lemma_discovered_source(state: SearchState)
    requires
        state.inv(),
    ensures
        state.discovered(state.grid.source as usize),
        state.grid.cells[state.grid.source].parent_cell_idx is None,
        state.g_of(state.grid.source) == 0,
        forall|idx: usize|
            #[trigger] state.discovered(idx) && state.grid.cells[idx as int].parent_cell_idx is None
                ==> idx == state.grid.source,
{
    reveal(SearchState::inv);
    let source = state.grid.source as usize;
    if state.closed.len() == 0 {
        assert(state.open[0] == source);
        assert(state.open.contains(source));
    } else {
        assert(state.closed[0] == source);
        assert(state.closed.contains(source));
    }
    assert(state.discovered(source));
    lemma_in_lists(state, source);
    assert(state.scored(source));
    assert forall|idx: usize|
        #[trigger] state.discovered(idx)
            && state.grid.cells[idx as int].parent_cell_idx is None implies idx
        == state.grid.source by {
        lemma_in_lists(state, idx);
        assert(state.scored(idx));
    }
}

/// A cell in one of the lists is a cell of the grid.
proof fn lemma_in_lists(state: SearchState, idx: usize)
    requires
        state.lists_wf(),
        state.discovered(idx),
    ensures
        idx < state.count(),
{
    if state.open.contains(idx) {
        let k = choose|k: int| 0 <= k < state.open.len() && state.open[k] == idx;
        assert(state.open[k] < state.count());
    } else {
        let k = choose|k: int| 0 <= k < state.closed.len() && state.closed[k] == idx;
        assert(state.closed[k] < state.count());
    }
}

/// A cell that the search has come to holds no obstacle.
proof fn lemma_free(state: SearchState, idx: usize)
    requires
        state.grid.wf(),
        state.lists_wf(),
        state.cells_wf(),
        state.discovered(idx),
    ensures
        !state.grid.obstacles.contains(idx),
{
    lemma_in_lists(state, idx);
    assert(state.scored(idx));
    if idx == state.grid.source {
        if state.grid.obstacles.contains(idx) {
            let k = choose|k: int|
                0 <= k < state.grid.obstacles.len() && state.grid.obstacles[k] == idx;
            assert(state.grid.obstacles[k] != state.grid.source);
        }
    } else {
        let parent = state.grid.cells[idx as int].parent_cell_idx->0;
        lemma_in_lists(state, parent);
        lemma_neighbours_are_king_moves(state.grid.n, state.grid.obstacles, parent, idx);
    }
}

/// Every neighbour of a closed cell is open or closed.
pub proof fn lemma_closed_neighbours(state: SearchState, from: usize, to: usize)
    requires
        state.inv(),
        state.closed.contains(from),
        is_neighbour(state.grid.n, state.grid.obstacles, from, to),
    ensures
        state.discovered(to),
{
    reveal(SearchState::inv);
}

/// The goal is never closed, so that fewer cells are closed than the grid
/// has.
pub proof fn lemma_closed_bound(state: SearchState)
    requires
        state.inv(),
    ensures
        !state.closed.contains(state.grid.goal as usize),
        state.closed.len() < state.grid.n * state.grid.n,
{
    reveal(SearchState::inv);
    let goal = state.grid.goal as usize;
    let with_goal = state.closed.push(goal);
    lemma_push_distinct(state.closed, goal);
    assert forall|i: int| 0 <= i < with_goal.len() implies #[trigger] with_goal[i]
        < state.count() by {
        if i < state.closed.len() {
            assert(state.closed[i] < state.count());
        }
    }
    lemma_distinct_below(with_goal, state.count());
}

/// While the open list is not empty, the cell that the next iteration
/// selects is in it.
pub proof fn lemma_selected(state: SearchState)
    requires
        !state.is_exhausted(),
    ensures
        is_first_lowest(
            state.grid.cells,
            state.open,
            selected_position(state.grid.cells, state.open),
        ),
        state.open.contains(state.selected()),
        state.discovered(state.selected()),
{
    lemma_first_lowest_exists(state.grid.cells, state.open);
    let pos = selected_position(state.grid.cells, state.open);
    assert(state.open[pos] == state.selected());
}

/// What relaxing a neighbour of the cell that is expanded may rely on: both
/// are cells of the grid, the step between them costs one, the scores that
/// are read are set, and those that are written fit.
pub(crate) proof fn lemma_relax_ready(
    state: SearchState,
    current: usize,
    done: Seq<usize>,
    to: usize,
)
    requires
        state.expanding(current, done),
        is_neighbour(state.grid.n, state.grid.obstacles, current, to),
    ensures
        state.grid.wf(),
        current < state.count(),
        to < state.count(),
        state.grid.goal < state.count(),
        state.grid.cells[current as int].g_score is Some,
        state.open.contains(to) ==> state.grid.cells[to as int].g_score is Some,
        heuristic(state.grid.n, current as int, to as int) == 1,
        state.tentative_g(current, to) + heuristic(state.grid.n, to as int, state.grid.goal)
            <= usize::MAX,
{
    reveal(SearchState::expanding);
    let n = state.grid.n;
    lemma_in_lists(state, current);
    assert(state.discovered(current));
    assert(state.scored(current));
    lemma_neighbours_are_king_moves(n, state.grid.obstacles, current, to);
    lemma_step_cost(n, current as int, to as int);
    lemma_heuristic_bound(n, to as int, state.grid.goal);
    assert(2 * n <= n * n) by (nonlinear_arith)
        requires
            n >= 2,
    ;
    if state.open.contains(to) {
        assert(state.discovered(to));
        assert(state.scored(to));
    }
}

/// Every open cell is a cell of the grid and has its f-score.
pub proof fn lemma_open_scored(state: SearchState)
    requires
        state.inv(),
    ensures
        state.grid.wf(),
        forall|i: int|
            0 <= i < state.open.len() ==> #[trigger] state.open[i] < state.count()
                && state.grid.cells[state.open[i] as int].f_score is Some,
{
    reveal(SearchState::inv);
    assert forall|i: int| 0 <= i < state.open.len() implies #[trigger] state.open[i] < state.count()
        && state.grid.cells[state.open[i] as int].f_score is Some by {
        assert(state.open.contains(state.open[i]));
        assert(state.discovered(state.open[i]));
        assert(state.scored(state.open[i]));
    }
}

/// While a cell is expanded, the grid is well formed and the cell is one of
/// its cells.
pub(crate) proof fn lemma_expanding_grid(state: SearchState, current: usize, done: Seq<usize>)
    requires
        state.expanding(current, done),
    ensures
        state.grid.wf(),
        current < state.count(),
        state.expanding(current, Seq::empty()),
{
    reveal(SearchState::expanding);
    lemma_in_lists(state, current);
}

/// A cell that the search has come to lies on the grid and holds no
/// obstacle.
pub proof fn lemma_discovered_free(state: SearchState, idx: usize)
    requires
        state.inv(),
        state.discovered(idx),
    ensures
        in_grid(state.grid.n, idx as int),
        !state.grid.is_obstacle(idx as int),
{
    reveal(SearchState::inv);
    lemma_in_lists(state, idx);
    lemma_free(state, idx);
}

/// A cell that the search has not come to has no score and no parent.
pub proof fn lemma_undiscovered_cell(state: SearchState, idx: usize)
    requires
        state.inv(),
        idx < state.count(),
        !state.discovered(idx),
    ensures
        state.grid.cells[idx as int].is_fresh(),
{
    reveal(SearchState::inv);
}

} // verus!
