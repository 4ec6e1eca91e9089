//! Walks over the grid and the routes that a search lays down: whether the
//! goal can be reached at all, and what holds of the chain of parents that
//! leads from a cell back to the source.

use vstd::prelude::*;
use crate::cell::Cell;
use crate::geometry::{in_grid, king_adjacent};
use crate::grid::GridView;
use crate::invariants::{
    lemma_closed_bound, lemma_closed_neighbours, lemma_discovered_cell, lemma_discovered_free,
    lemma_discovered_source, lemma_open_scored, lemma_selected,
};
use crate::neighbours::{is_neighbour, lemma_neighbours_are_king_moves};
use crate::state::SearchState;

verus! {

/// The search may step from the cell at position `i` of `walk` to the next.
pub open spec fn step_at(grid: GridView, walk: Seq<usize>, i: int) -> bool {
    is_neighbour(grid.n, grid.obstacles, walk[i], walk[i + 1])
}

/// `walk` is a sequence of cells, each a neighbour of the one before it.
pub open spec fn is_walk(grid: GridView, walk: Seq<usize>) -> bool {
    &&& walk.len() >= 1
    &&& forall|i: int| 0 <= i < walk.len() - 1 ==> #[trigger] step_at(grid, walk, i)
}

/// Some walk leads from the source to the cell `idx`.
pub open spec fn reachable_cell(grid: GridView, idx: usize) -> bool {
    exists|walk: Seq<usize>| #[trigger]
        is_walk(grid, walk) && walk.first() == grid.source && walk.last() == idx
}

/// Some walk leads from the source to the goal.
pub open spec fn reachable(grid: GridView) -> bool {
    reachable_cell(grid, grid.goal as usize)
}

/// The cell at position `i` of `chain` has the next cell as its parent.
pub open spec fn link_at(cells: Seq<Cell>, chain: Seq<usize>, i: int) -> bool {
    cells[chain[i] as int].parent_cell_idx == Some(chain[i + 1])
}

/// `chain` follows the parents from its first cell to a cell without one.
pub open spec fn is_parent_chain(cells: Seq<Cell>, chain: Seq<usize>) -> bool {
    &&& chain.len() >= 1
    &&& forall|i: int| 0 <= i < chain.len() ==> #[trigger] chain[i] < cells.len()
    &&& forall|i: int| 0 <= i < chain.len() - 1 ==> #[trigger] link_at(cells, chain, i)
    &&& cells[chain.last() as int].parent_cell_idx is None
}

/// The cell at position `i` of `chain` and the next are neighbours of each
/// other: the search may step from either to the other.
pub open spec fn mutual_at(grid: GridView, chain: Seq<usize>, i: int) -> bool {
    &&& is_neighbour(grid.n, grid.obstacles, chain[i + 1], chain[i])
    &&& is_neighbour(grid.n, grid.obstacles, chain[i], chain[i + 1])
}

/// Each cell of `chain` and the next are neighbours of each other.
pub open spec fn is_connected(grid: GridView, chain: Seq<usize>) -> bool {
    forall|i: int| 0 <= i < chain.len() - 1 ==> #[trigger] mutual_at(grid, chain, i)
}

/// Every cell of `chain` lies on the grid and holds no obstacle.
pub open spec fn is_clear(grid: GridView, chain: Seq<usize>) -> bool {
    forall|i: int|
        0 <= i < chain.len() ==> in_grid(grid.n, #[trigger] chain[i] as int) && !grid.is_obstacle(
            chain[i] as int,
        )
}

/// Along `chain` the g-score never rises: read from the end to the front,
/// it never falls.
pub open spec fn scores_fall(state: SearchState, chain: Seq<usize>) -> bool {
    forall|i: int, j: int|
        0 <= i <= j < chain.len() ==> state.g_of(#[trigger] chain[i] as int) >= state.g_of(
            #[trigger] chain[j] as int,
        )
}

/// The g-score of the cell at position `i` of `chain` is the number of
/// steps from there to the end of the chain.
pub open spec fn scores_count_steps(state: SearchState, chain: Seq<usize>) -> bool {
    forall|i: int|
        0 <= i < chain.len() ==> state.g_of(#[trigger] chain[i] as int) == chain.len() - 1 - i
}

/// What holds of the chain of parents from a cell that the search has come
/// to. The chain ends at the source. Towards the source the g-score falls by
/// one from cell to cell, so that the g-score of the first cell is the
/// number of steps of the chain, and no cell occurs twice. Each cell and its
/// parent are neighbours of each other, and every cell of the chain lies on
/// the grid and holds no obstacle.
pub proof fn lemma_parent_chain(state: SearchState, chain: Seq<usize>)
    requires
        state.inv(),
        is_parent_chain(state.grid.cells, chain),
        state.discovered(chain[0]),
    ensures
        chain.last() == state.grid.source,
        forall|i: int| 0 <= i < chain.len() ==> state.discovered(#[trigger] chain[i]),
        scores_count_steps(state, chain),
        scores_fall(state, chain),
        chain.no_duplicates(),
        is_connected(state.grid, chain),
        is_clear(state.grid, chain),
{
    assert forall|i: int| 0 <= i < chain.len() implies in_grid(
        state.grid.n,
        #[trigger] chain[i] as int,
    ) && !state.grid.is_obstacle(chain[i] as int) by {
        lemma_chain_discovered(state, chain, i);
        lemma_discovered_free(state, chain[i]);
    }
    assert forall|i: int| 0 <= i < chain.len() implies state.discovered(#[trigger] chain[i]) by {
        lemma_chain_discovered(state, chain, i);
    }
    lemma_discovered_source(state);
    assert(state.discovered(chain[chain.len() - 1]));
    assert forall|i: int| 0 <= i < chain.len() implies state.g_of(#[trigger] chain[i] as int)
        == chain.len() - 1 - i by {
        lemma_chain_score(state, chain, i);
    }
    assert forall|i: int, j: int|
        0 <= i < chain.len() && 0 <= j < chain.len() && i != j implies chain[i] != chain[j] by {
        assert(state.g_of(chain[i] as int) != state.g_of(chain[j] as int));
    }
    assert forall|i: int| 0 <= i < chain.len() - 1 implies #[trigger] mutual_at(
        state.grid,
        chain,
        i,
    ) by {
        assert(state.discovered(chain[i]));
        assert(link_at(state.grid.cells, chain, i));
        lemma_discovered_cell(state, chain[i]);
    }
}

/// The cell at position `at` of a chain of parents is one that the search
/// has come to.
proof fn lemma_chain_discovered(state: SearchState, chain: Seq<usize>, at: int)
    requires
        state.inv(),
        is_parent_chain(state.grid.cells, chain),
        state.discovered(chain[0]),
        0 <= at < chain.len(),
    ensures
        state.discovered(chain[at]),
    decreases at,
{
    if at > 0 {
        lemma_chain_discovered(state, chain, at - 1);
        assert(link_at(state.grid.cells, chain, at - 1));
        lemma_discovered_source(state);
        lemma_discovered_cell(state, chain[at - 1]);
    }
}

/// The g-score at position `at` of a chain of parents counts the steps that
/// are left to the end of the chain.
proof fn lemma_chain_score(state: SearchState, chain: Seq<usize>, at: int)
    requires
        state.inv(),
        is_parent_chain(state.grid.cells, chain),
        state.discovered(chain[0]),
        0 <= at < chain.len(),
    ensures
        state.g_of(chain[at] as int) == chain.len() - 1 - at,
    decreases chain.len() - at,
{
    lemma_chain_discovered(state, chain, at);
    lemma_discovered_source(state);
    if at < chain.len() - 1 {
        lemma_chain_score(state, chain, at + 1);
        assert(link_at(state.grid.cells, chain, at));
        lemma_discovered_cell(state, chain[at]);
    }
}

/// A walk leads from the source to every cell that the search has come to.
pub proof fn lemma_discovered_reachable(state: SearchState, idx: usize)
    requires
        state.inv(),
        state.discovered(idx),
    ensures
        reachable_cell(state.grid, idx),
    decreases state.g_of(idx as int),
{
    if idx == state.grid.source {
        let walk = seq![idx];
        assert(is_walk(state.grid, walk));
        assert(walk.first() == state.grid.source && walk.last() == idx);
    } else {
        lemma_discovered_cell(state, idx);
        let parent = state.grid.cells[idx as int].parent_cell_idx->0;
        lemma_discovered_reachable(state, parent);
        let before = choose|walk: Seq<usize>| #[trigger]
            is_walk(state.grid, walk) && walk.first() == state.grid.source && walk.last() == parent;
        let walk = before.push(idx);
        assert forall|i: int| 0 <= i < walk.len() - 1 implies #[trigger] step_at(
            state.grid,
            walk,
            i,
        ) by {
            if i < before.len() - 1 {
                assert(step_at(state.grid, before, i));
            }
        }
        assert(is_walk(state.grid, walk));
        assert(walk.first() == state.grid.source && walk.last() == idx);
    }
}

/// Once the open list is empty, every cell to which a walk leads from the
/// source is closed.
proof fn lemma_walk_closed(state: SearchState, walk: Seq<usize>, at: int)
    requires
        state.inv(),
        state.is_exhausted(),
        is_walk(state.grid, walk),
        walk.first() == state.grid.source,
        0 <= at < walk.len(),
    ensures
        state.closed.contains(walk[at]),
    decreases at,
{
    if at == 0 {
        lemma_discovered_source(state);
        if state.open.contains(walk[0]) {
            let k = choose|k: int| 0 <= k < state.open.len() && state.open[k] == walk[0];
        }
    } else {
        lemma_walk_closed(state, walk, at - 1);
        assert(step_at(state.grid, walk, at - 1));
        lemma_closed_neighbours(state, walk[at - 1], walk[at]);
        if state.open.contains(walk[at]) {
            let k = choose|k: int| 0 <= k < state.open.len() && state.open[k] == walk[at];
        }
    }
}

/// When the open list has run empty, the closed cells are the cells to
/// which a walk leads from the source: the search has been everywhere it
/// could go.
pub proof fn lemma_exhausted_closed(state: SearchState, idx: usize)
    requires
        state.inv(),
        state.is_exhausted(),
    ensures
        state.closed.contains(idx) <==> reachable_cell(state.grid, idx),
{
    if state.closed.contains(idx) {
        lemma_discovered_reachable(state, idx);
    }
    if reachable_cell(state.grid, idx) {
        let walk = choose|walk: Seq<usize>| #[trigger]
            is_walk(state.grid, walk) && walk.first() == state.grid.source && walk.last() == idx;
        lemma_walk_closed(state, walk, walk.len() - 1);
    }
}

/// When the open list has run empty, no walk leads from the source to the
/// goal.
pub proof fn lemma_exhausted_unreachable(state: SearchState)
    requires
        state.inv(),
        state.is_exhausted(),
    ensures
        !reachable(state.grid),
{
    lemma_exhausted_closed(state, state.grid.goal as usize);
    lemma_closed_bound(state);
}

/// A search that is over has found the goal if and only if a walk leads to
/// it from the source: then, and only then, the open list has not run
/// empty.
pub proof fn lemma_found_iff_reachable(state: SearchState)
    requires
        state.inv(),
        state.is_terminal(),
    ensures
        state.is_found() <==> reachable(state.grid),
        state.is_exhausted() <==> !reachable(state.grid),
{
    if state.is_exhausted() {
        lemma_exhausted_unreachable(state);
    } else {
        lemma_selected(state);
        lemma_discovered_reachable(state, state.selected());
    }
}

/// Obstacles lie on every cell of the grid but the source and the goal, and
/// the goal is not one move away from the source.
pub open spec fn is_walled_in(grid: GridView) -> bool {
    &&& forall|idx: int|
        in_grid(grid.n, idx) && idx != grid.source && idx != grid.goal
            ==> #[trigger] grid.is_obstacle(idx)
    &&& !king_adjacent(grid.n, grid.source, grid.goal)
}

/// Where the source is walled in, a search ends exhausted: it never finds
/// the goal, and so lays down no path.
pub proof fn lemma_walled_in_exhausts(state: SearchState)
    requires
        state.inv(),
        state.is_terminal(),
        is_walled_in(state.grid),
    ensures
        state.is_exhausted(),
        !state.is_found(),
{
    lemma_open_scored(state);
    lemma_walled_in_unreachable(state.grid);
    lemma_found_iff_reachable(state);
}

/// Where the source is walled in, no walk leads from the source to the
/// goal.
pub proof fn lemma_walled_in_unreachable(grid: GridView)
    requires
        grid.wf(),
        is_walled_in(grid),
    ensures
        !reachable(grid),
{
    if reachable(grid) {
        let walk = choose|walk: Seq<usize>| #[trigger]
            is_walk(grid, walk) && walk.first() == grid.source && walk.last() == grid.goal as usize;
        assert(walk.len() >= 2);
        assert(step_at(grid, walk, 0));
        lemma_neighbours_are_king_moves(grid.n, grid.obstacles, walk[0], walk[1]);
        assert(!grid.is_obstacle(walk[1] as int));
    }
}

} // verus!
