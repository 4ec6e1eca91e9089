//! Rows, columns and moves on a square grid held row-major, and the
//! heuristic that the search uses on it.

use vstd::prelude::*;
use crate::distance::{
    floor_sqrt, gap, lemma_floor_sqrt_bounds, lemma_floor_sqrt_unique, squared_distance,
};

verus! {

/// `idx` names a cell of the grid with `n` rows and `n` columns.
pub open spec fn in_grid(n: int, idx: int) -> bool {
    0 <= idx < n * n
}

/// The row of the cell with flat index `idx`.
pub open spec fn row_of(n: int, idx: int) -> int {
    idx / n
}

/// The column of the cell with flat index `idx`.
pub open spec fn col_of(n: int, idx: int) -> int {
    idx % n
}

/// The heuristic: the straight-line distance between the cells `a` and `b`,
/// truncated. It is also what a step from `a` to `b` costs.
pub open spec fn heuristic(n: int, a: int, b: int) -> nat {
    floor_sqrt(squared_distance(col_of(n, a), col_of(n, b), row_of(n, a), row_of(n, b)))
}

/// `b` is one move away from `a` in one of the eight directions.
pub open spec fn king_adjacent(n: int, a: int, b: int) -> bool {
    &&& a != b
    &&& gap(row_of(n, a), row_of(n, b)) <= 1
    &&& gap(col_of(n, a), col_of(n, b)) <= 1
}

/// The move from `a` to `b` changes both the row and the column.
pub open spec fn is_diagonal(n: int, a: int, b: int) -> bool {
    row_of(n, a) != row_of(n, b) && col_of(n, a) != col_of(n, b)
}

/// The cell at position `i + 1` of `walk` is one move away from the cell at
/// position `i`.
pub open spec fn king_step_at(n: int, walk: Seq<int>, i: int) -> bool {
    king_adjacent(n, walk[i], walk[i + 1])
}

/// `walk` is a sequence of cells of the grid, each one move away from the
/// one before it, whatever the cells hold.
pub open spec fn is_king_walk(n: int, walk: Seq<int>) -> bool {
    &&& walk.len() >= 1
    &&& forall|i: int| 0 <= i < walk.len() ==> in_grid(n, #[trigger] walk[i])
    &&& forall|i: int| 0 <= i < walk.len() - 1 ==> #[trigger] king_step_at(n, walk, i)
}

/// The number of diagonal moves of `walk`.
pub open spec fn diagonal_steps(n: int, walk: Seq<int>) -> nat
    decreases walk.len(),
{
    if walk.len() <= 1 {
        0
    } else {
        let before = diagonal_steps(n, walk.drop_last());
        if is_diagonal(n, walk[walk.len() - 2], walk[walk.len() - 1]) {
            before + 1
        } else {
            before
        }
    }
}

/// The number of moves of `walk` along a row or a column.
pub open spec fn straight_steps(n: int, walk: Seq<int>) -> nat
    decreases walk.len(),
{
    if walk.len() <= 1 {
        0
    } else {
        let before = straight_steps(n, walk.drop_last());
        if is_diagonal(n, walk[walk.len() - 2], walk[walk.len() - 1]) {
            before
        } else {
            before + 1
        }
    }
}

/// A flat index and its row and column determine each other.
pub proof fn lemma_row_col(n: int, idx: int)
    requires
        n > 0,
        in_grid(n, idx),
    ensures
        0 <= row_of(n, idx) < n,
        0 <= col_of(n, idx) < n,
        idx == row_of(n, idx) * n + col_of(n, idx),
{
    vstd::arithmetic::div_mod::lemma_fundamental_div_mod(idx, n);
    vstd::arithmetic::div_mod::lemma_mod_pos_bound(idx, n);
    let r = idx / n;
    let c = idx % n;
    assert(n * r == r * n) by (nonlinear_arith);
    assert(0 <= r < n) by (nonlinear_arith)
        requires
            n > 0,
            0 <= c < n,
            0 <= r * n + c < n * n,
    ;
}

/// The cell in row `r` and column `c` has the flat index `r * n + c`.
pub proof fn lemma_index_of(n: int, r: int, c: int)
    requires
        0 <= r < n,
        0 <= c < n,
    ensures
        in_grid(n, r * n + c),
        row_of(n, r * n + c) == r,
        col_of(n, r * n + c) == c,
{
    vstd::arithmetic::div_mod::lemma_fundamental_div_mod_converse(r * n + c, n, r, c);
    assert(0 <= r * n + c < n * n) by (nonlinear_arith)
        requires
            0 <= r < n,
            0 <= c < n,
    ;
}

/// A step to a neighbouring cell costs one, along a line or diagonal.
pub proof fn lemma_step_cost(n: int, a: int, b: int)
    requires
        n > 0,
        in_grid(n, a),
        in_grid(n, b),
        king_adjacent(n, a, b),
    ensures
        heuristic(n, a, b) == 1,
{
    lemma_row_col(n, a);
    lemma_row_col(n, b);
    let dx = gap(col_of(n, a), col_of(n, b));
    let dy = gap(row_of(n, a), row_of(n, b));
    assert(dx + dy >= 1);
    let v = squared_distance(col_of(n, a), col_of(n, b), row_of(n, a), row_of(n, b));
    assert(1 <= v <= 2) by (nonlinear_arith)
        requires
            v == dx * dx + dy * dy,
            dx <= 1,
            dy <= 1,
            dx + dy >= 1,
    ;
    assert(1nat * 1nat == 1 && (1nat + 1) * (1nat + 1) == 4) by (nonlinear_arith);
    lemma_floor_sqrt_unique(v, 1);
}

/// The heuristic between two cells of the grid stays below twice its side.
pub proof fn lemma_heuristic_bound(n: int, a: int, b: int)
    requires
        n > 0,
        in_grid(n, a),
        in_grid(n, b),
    ensures
        heuristic(n, a, b) < 2 * n,
        squared_distance(col_of(n, a), col_of(n, b), row_of(n, a), row_of(n, b)) <= 2 * (n * n),
{
    lemma_row_col(n, a);
    lemma_row_col(n, b);
    let dx = gap(col_of(n, a), col_of(n, b));
    let dy = gap(row_of(n, a), row_of(n, b));
    let v = squared_distance(col_of(n, a), col_of(n, b), row_of(n, a), row_of(n, b));
    let h = heuristic(n, a, b);
    lemma_floor_sqrt_bounds(v);
    assert(v <= 2 * (n * n)) by (nonlinear_arith)
        requires
            v == dx * dx + dy * dy,
            dx < n,
            dy < n,
    ;
    assert(h < 2 * n) by (nonlinear_arith)
        requires
            h * h <= v,
            v <= 2 * (n * n),
            n > 0,
    {
        if h >= 2 * n {
            assert(h * h >= (2 * n) * (2 * n));
        }
    }
}

/// Along a walk, the columns and rows of its ends lie no further apart than
/// its moves allow: a straight move changes one of the two by one, a
/// diagonal move both.
proof fn lemma_walk_span(n: int, walk: Seq<int>)
    requires
        n > 0,
        is_king_walk(n, walk),
    ensures
        ({
            let dx = gap(col_of(n, walk.first()), col_of(n, walk.last()));
            let dy = gap(row_of(n, walk.first()), row_of(n, walk.last()));
            let k = straight_steps(n, walk);
            let m = diagonal_steps(n, walk);
            &&& dx <= k + m
            &&& dy <= k + m
            &&& dx + dy <= k + 2 * m
        }),
    decreases walk.len(),
{
    if walk.len() > 1 {
        let shorter = walk.drop_last();
        assert forall|i: int| 0 <= i < shorter.len() - 1 implies #[trigger] king_step_at(
            n,
            shorter,
            i,
        ) by {
            assert(king_step_at(n, walk, i));
        }
        assert forall|i: int| 0 <= i < shorter.len() implies in_grid(n, #[trigger] shorter[i]) by {
            assert(in_grid(n, walk[i]));
        }
        lemma_walk_span(n, shorter);
        assert(king_step_at(n, walk, walk.len() - 2));
        assert(shorter.last() == walk[walk.len() - 2]);
        assert(shorter.first() == walk.first());
    }
}

/// The heuristic is admissible: it never exceeds the length of a walk
/// between the two cells, in whichever of the eight directions the walk
/// moves and whatever lies on the grid. The length of a walk of `k` straight
/// and `m` diagonal moves is `k + m * sqrt(2)`; over whole numbers, that `h`
/// is at most this length reads `h <= k` or `(h - k) * (h - k) <= 2 * m * m`.
pub proof fn lemma_heuristic_admissible(n: int, walk: Seq<int>)
    requires
        n > 0,
        is_king_walk(n, walk),
    ensures
        ({
            let h = heuristic(n, walk.first(), walk.last());
            let k = straight_steps(n, walk);
            let m = diagonal_steps(n, walk);
            h <= k || (h - k) * (h - k) <= 2 * m * m
        }),
        // It follows that the heuristic is at most `sqrt(2)` times the moves.
        ({
            let h = heuristic(n, walk.first(), walk.last());
            let moves = straight_steps(n, walk) + diagonal_steps(n, walk);
            h * h <= 2 * moves * moves
        }),
{
    lemma_walk_span(n, walk);
    let dx = gap(col_of(n, walk.first()), col_of(n, walk.last()));
    let dy = gap(row_of(n, walk.first()), row_of(n, walk.last()));
    let k = straight_steps(n, walk);
    let m = diagonal_steps(n, walk);
    let h = heuristic(n, walk.first(), walk.last());
    let v = dx * dx + dy * dy;
    lemma_floor_sqrt_bounds(v);
    let reach = k + m;
    // The squared distance is largest where one span is `k + m` and the other `m`.
    assert(v <= reach * reach + m * m) by (nonlinear_arith)
        requires
            v == dx * dx + dy * dy,
            dx <= reach,
            dy <= reach,
            dx + dy <= reach + m,
            m <= reach,
    {
        if dx <= m {
            assert(dx * dx <= m * m);
            assert(dy * dy <= reach * reach);
        } else {
            let rest = reach + m - dx;
            assert(dy * dy <= rest * rest);
            assert(reach * reach + m * m - dx * dx - rest * rest == 2 * ((reach - dx) * (dx - m)));
            assert((reach - dx) * (dx - m) >= 0);
        }
    }
    assert(h * h <= 2 * reach * reach) by (nonlinear_arith)
        requires
            h * h <= v,
            v <= reach * reach + m * m,
            0 <= m <= reach,
    {
        assert(m * m <= reach * reach);
    }
    if h > k {
        let t = h - k;
        assert(t * t <= 2 * m * m) by (nonlinear_arith)
            requires
                t > 0,
                m >= 0,
                k >= 0,
                (k + t) * (k + t) <= (k + m) * (k + m) + m * m,
        {
            if t * t > 2 * m * m {
                if t <= m {
                    assert(t * t <= m * m);
                } else {
                    assert(k * t >= k * m);
                    assert((k + t) * (k + t) == k * k + 2 * (k * t) + t * t);
                    assert((k + m) * (k + m) == k * k + 2 * (k * m) + m * m);
                }
            }
        }
    }
}

/// What the search pays for `walk`: the sum over its moves of the cost of
/// the move, which is the heuristic between the two cells of the move.
pub open spec fn walk_cost(n: int, walk: Seq<int>) -> nat
    decreases walk.len(),
{
    if walk.len() <= 1 {
        0
    } else {
        walk_cost(n, walk.drop_last()) + heuristic(
            n,
            walk[walk.len() - 2],
            walk[walk.len() - 1],
        )
    }
}

/// The larger of the distances between the rows and between the columns of
/// `a` and `b`: the least number of moves from one to the other.
pub open spec fn long_gap(n: int, a: int, b: int) -> nat {
    let dx = gap(col_of(n, a), col_of(n, b));
    let dy = gap(row_of(n, a), row_of(n, b));
    if dx >= dy {
        dx
    } else {
        dy
    }
}

/// The smaller of the distances between the rows and between the columns of
/// `a` and `b`.
pub open spec fn short_gap(n: int, a: int, b: int) -> nat {
    let dx = gap(col_of(n, a), col_of(n, b));
    let dy = gap(row_of(n, a), row_of(n, b));
    if dx >= dy {
        dy
    } else {
        dx
    }
}

/// The search pays one for each move: a walk costs as much as it has moves,
/// and no walk has fewer moves than the rows or the columns of its ends lie
/// apart.
pub proof fn lemma_walk_cost(n: int, walk: Seq<int>)
    requires
        n > 0,
        is_king_walk(n, walk),
    ensures
        walk_cost(n, walk) == walk.len() - 1,
        walk_cost(n, walk) == straight_steps(n, walk) + diagonal_steps(n, walk),
        long_gap(n, walk.first(), walk.last()) <= walk_cost(n, walk),
    decreases walk.len(),
{
    lemma_walk_span(n, walk);
    if walk.len() > 1 {
        let shorter = walk.drop_last();
        assert forall|i: int| 0 <= i < shorter.len() - 1 implies #[trigger] king_step_at(
            n,
            shorter,
            i,
        ) by {
            assert(king_step_at(n, walk, i));
        }
        assert forall|i: int| 0 <= i < shorter.len() implies in_grid(n, #[trigger] shorter[i]) by {
            assert(in_grid(n, walk[i]));
        }
        lemma_walk_cost(n, shorter);
        assert(king_step_at(n, walk, walk.len() - 2));
        assert(in_grid(n, walk[walk.len() - 2]) && in_grid(n, walk[walk.len() - 1]));
        lemma_step_cost(n, walk[walk.len() - 2], walk[walk.len() - 1]);
    }
}

/// Against what the search itself pays for a walk, one for each move, the
/// heuristic is admissible between cells whose smaller gap, squared, is at
/// most twice the larger: between them it never exceeds the cost of a walk
/// from one to the other.
pub proof fn lemma_heuristic_within_cost(n: int, walk: Seq<int>)
    requires
        n > 0,
        is_king_walk(n, walk),
        short_gap(n, walk.first(), walk.last()) * short_gap(n, walk.first(), walk.last()) <= 2
            * long_gap(n, walk.first(), walk.last()),
    ensures
        heuristic(n, walk.first(), walk.last()) <= walk_cost(n, walk),
{
    lemma_walk_cost(n, walk);
    let long = long_gap(n, walk.first(), walk.last());
    let short = short_gap(n, walk.first(), walk.last());
    let h = heuristic(n, walk.first(), walk.last());
    let v = squared_distance(
        col_of(n, walk.first()),
        col_of(n, walk.last()),
        row_of(n, walk.first()),
        row_of(n, walk.last()),
    );
    lemma_floor_sqrt_bounds(v);
    assert(v == long * long + short * short) by (nonlinear_arith)
        requires
            v == squared_distance(
                col_of(n, walk.first()),
                col_of(n, walk.last()),
                row_of(n, walk.first()),
                row_of(n, walk.last()),
            ),
            long == long_gap(n, walk.first(), walk.last()),
            short == short_gap(n, walk.first(), walk.last()),
    ;
    assert(h <= long) by (nonlinear_arith)
        requires
            h * h <= v,
            v == long * long + short * short,
            short * short <= 2 * long,
    {
        if h > long {
            assert(h * h >= (long + 1) * (long + 1));
        }
    }
}

/// Between all other cells the heuristic does exceed what the search pays
/// for the shortest walk, which has as many moves as the larger gap: there
/// the search may settle for a walk that is not the shortest.
pub proof fn lemma_heuristic_beyond_cost(n: int, a: int, b: int)
    requires
        short_gap(n, a, b) * short_gap(n, a, b) > 2 * long_gap(n, a, b),
    ensures
        heuristic(n, a, b) > long_gap(n, a, b),
{
    let long = long_gap(n, a, b);
    let short = short_gap(n, a, b);
    let h = heuristic(n, a, b);
    let v = squared_distance(col_of(n, a), col_of(n, b), row_of(n, a), row_of(n, b));
    lemma_floor_sqrt_bounds(v);
    assert(v == long * long + short * short) by (nonlinear_arith)
        requires
            v == squared_distance(col_of(n, a), col_of(n, b), row_of(n, a), row_of(n, b)),
            long == long_gap(n, a, b),
            short == short_gap(n, a, b),
    ;
    assert(h > long) by (nonlinear_arith)
        requires
            v < (h + 1) * (h + 1),
            v == long * long + short * short,
            short * short > 2 * long,
    {
        if h <= long {
            assert((h + 1) * (h + 1) <= (long + 1) * (long + 1));
        }
    }
}

} // verus!
