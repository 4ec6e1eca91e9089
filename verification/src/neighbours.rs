//! The cells that a search may step to from a cell.
//!
//! Candidates are formed in the space of flat indices: three to the left
//! unless the cell is in the first column, three to the right unless it is
//! in the last column, then the one above and the one below. A candidate
//! that falls off the grid or on an obstacle is dropped afterwards.

use vstd::prelude::*;
use crate::geometry::{col_of, in_grid, king_adjacent, lemma_row_col, row_of};

verus! {

/// The candidate alone if it lies on the grid and off the obstacles, else
/// nothing.
pub open spec fn keep_candidate(n: int, obstacles: Seq<usize>, candidate: int) -> Seq<usize> {
    if in_grid(n, candidate) && !obstacles.contains(candidate as usize) {
        seq![candidate as usize]
    } else {
        Seq::empty()
    }
}

/// The neighbours to the left of the cell `idx`: upper left, left, lower
/// left. A cell in the first column has none.
pub open spec fn left_neighbours(n: int, obstacles: Seq<usize>, idx: int) -> Seq<usize> {
    if col_of(n, idx) != 0 {
        keep_candidate(n, obstacles, idx - n - 1) + keep_candidate(n, obstacles, idx - 1)
            + keep_candidate(n, obstacles, idx + n - 1)
    } else {
        Seq::empty()
    }
}

/// The neighbours to the right of the cell `idx`: upper right, right, lower
/// right. A cell in the last column has none.
pub open spec fn right_neighbours(n: int, obstacles: Seq<usize>, idx: int) -> Seq<usize> {
    if col_of(n, idx) != n - 1 {
        keep_candidate(n, obstacles, idx - n + 1) + keep_candidate(n, obstacles, idx + 1)
            + keep_candidate(n, obstacles, idx + n + 1)
    } else {
        Seq::empty()
    }
}

/// The neighbours of the cell `idx`, in the order in which they are formed:
/// those to the left, those to the right, the one above, the one below.
#[verifier::opaque]
pub open spec fn neighbour_indices(n: int, obstacles: Seq<usize>, idx: int) -> Seq<usize> {
    left_neighbours(n, obstacles, idx) + right_neighbours(n, obstacles, idx) + keep_candidate(
        n,
        obstacles,
        idx - n,
    ) + keep_candidate(n, obstacles, idx + n)
}

/// `candidate` is one of the indices formed for the cell `idx`.
pub open spec fn is_candidate(n: int, idx: int, candidate: int) -> bool {
    ||| col_of(n, idx) != 0 && (candidate == idx - n - 1 || candidate == idx - 1 || candidate == idx
        + n - 1)
    ||| col_of(n, idx) != n - 1 && (candidate == idx - n + 1 || candidate == idx + 1 || candidate
        == idx + n + 1)
    ||| candidate == idx - n
    ||| candidate == idx + n
}

/// The search may step from the cell `from` to the cell `to`.
pub open spec fn is_neighbour(n: int, obstacles: Seq<usize>, from: usize, to: usize) -> bool {
    neighbour_indices(n, obstacles, from as int).contains(to)
}

/// Two lists joined hold what either holds.
proof fn lemma_concat_contains(a: Seq<usize>, b: Seq<usize>, x: usize)
    ensures
        (a + b).contains(x) <==> a.contains(x) || b.contains(x),
{
    if a.contains(x) {
        let i = choose|i: int| 0 <= i < a.len() && a[i] == x;
        assert((a + b)[i] == x);
    }
    if b.contains(x) {
        let i = choose|i: int| 0 <= i < b.len() && b[i] == x;
        assert((a + b)[a.len() + i] == x);
    }
    if (a + b).contains(x) {
        let i = choose|i: int| 0 <= i < (a + b).len() && (a + b)[i] == x;
        if i < a.len() {
            assert(a[i] == x);
        } else {
            assert(b[i - a.len()] == x);
        }
    }
}

/// What is kept of a candidate holds the candidate, if it holds anything.
proof fn lemma_keep_contains(n: int, obstacles: Seq<usize>, candidate: int, x: usize)
    requires
        n * n <= usize::MAX,
    ensures
        keep_candidate(n, obstacles, candidate).contains(x) <==> x == candidate && in_grid(
            n,
            candidate,
        ) && !obstacles.contains(x),
{
    let kept = keep_candidate(n, obstacles, candidate);
    if in_grid(n, candidate) && !obstacles.contains(candidate as usize) {
        assert(kept[0] == candidate as usize);
    }
}

/// The neighbours of a cell are the candidates formed for it that lie on
/// the grid and off the obstacles.
pub proof fn lemma_neighbours_are_candidates(n: int, obstacles: Seq<usize>, idx: usize, x: usize)
    requires
        n * n <= usize::MAX,
    ensures
        is_neighbour(n, obstacles, idx, x) <==> is_candidate(n, idx as int, x as int) && in_grid(
            n,
            x as int,
        ) && !obstacles.contains(x),
{
    reveal(neighbour_indices);
    let idx = idx as int;
    let k1 = keep_candidate(n, obstacles, idx - n - 1);
    let k2 = keep_candidate(n, obstacles, idx - 1);
    let k3 = keep_candidate(n, obstacles, idx + n - 1);
    let k4 = keep_candidate(n, obstacles, idx - n + 1);
    let k5 = keep_candidate(n, obstacles, idx + 1);
    let k6 = keep_candidate(n, obstacles, idx + n + 1);
    let k7 = keep_candidate(n, obstacles, idx - n);
    let k8 = keep_candidate(n, obstacles, idx + n);
    lemma_keep_contains(n, obstacles, idx - n - 1, x);
    lemma_keep_contains(n, obstacles, idx - 1, x);
    lemma_keep_contains(n, obstacles, idx + n - 1, x);
    lemma_keep_contains(n, obstacles, idx - n + 1, x);
    lemma_keep_contains(n, obstacles, idx + 1, x);
    lemma_keep_contains(n, obstacles, idx + n + 1, x);
    lemma_keep_contains(n, obstacles, idx - n, x);
    lemma_keep_contains(n, obstacles, idx + n, x);
    let none = Seq::<usize>::empty();
    let left = left_neighbours(n, obstacles, idx);
    let right = right_neighbours(n, obstacles, idx);
    lemma_concat_contains(k1, k2, x);
    lemma_concat_contains(k1 + k2, k3, x);
    lemma_concat_contains(k4, k5, x);
    lemma_concat_contains(k4 + k5, k6, x);
    lemma_concat_contains(left, right, x);
    lemma_concat_contains(left + right, k7, x);
    lemma_concat_contains(left + right + k7, k8, x);
    assert(!none.contains(x));
}

/// On the grid, the candidates formed for a cell are the cells one move away
/// from it in the eight directions: no candidate wraps round an edge of the
/// grid, and none of the eight is missed.
pub proof fn lemma_candidates_are_king_moves(n: int, idx: int, other: int)
    requires
        n >= 2,
        in_grid(n, idx),
        in_grid(n, other),
    ensures
        is_candidate(n, idx, other) <==> king_adjacent(n, idx, other),
{
    lemma_row_col(n, idx);
    lemma_row_col(n, other);
    let r = row_of(n, idx);
    let c = col_of(n, idx);
    let r2 = row_of(n, other);
    let c2 = col_of(n, other);
    assert((r - 1) * n == r * n - n) by (nonlinear_arith);
    assert((r + 1) * n == r * n + n) by (nonlinear_arith);
    if is_candidate(n, idx, other) {
        // Each candidate is the cell in a row and a column next to those of `idx`.
        let left = c != 0 && (other == idx - n - 1 || other == idx - 1 || other == idx + n - 1);
        let right = !left && c != n - 1 && (other == idx - n + 1 || other == idx + 1 || other
            == idx + n + 1);
        let dc = if left {
            -1int
        } else if right {
            1int
        } else {
            0int
        };
        let shift = other - idx - dc;
        let dr = if shift == -n {
            -1int
        } else if shift == 0 {
            0int
        } else {
            1int
        };
        assert(shift == -n || shift == 0 || shift == n);
        assert(dr * n == shift) by (nonlinear_arith)
            requires
                dr == -1 && shift == -n || dr == 0 && shift == 0 || dr == 1 && shift == n,
        ;
        assert((r + dr) * n == r * n + dr * n) by (nonlinear_arith);
        assert(other == (r + dr) * n + (c + dc));
        vstd::arithmetic::div_mod::lemma_fundamental_div_mod_converse(other, n, r + dr, c + dc);
    }
    if king_adjacent(n, idx, other) {
        assert(other - idx == (r2 - r) * n + (c2 - c)) by (nonlinear_arith)
            requires
                other == r2 * n + c2,
                idx == r * n + c,
        ;
        assert(-1 <= r2 - r <= 1);
        assert(-1 <= c2 - c <= 1);
        if r2 - r == -1 {
            assert((r2 - r) * n == -n);
        } else if r2 - r == 0 {
            assert((r2 - r) * n == 0);
        } else {
            assert((r2 - r) * n == n);
        }
    }
}

/// The search may step from a cell of the grid to exactly the cells that are
/// one move away from it in the eight directions, lie on the grid and hold
/// no obstacle.
pub proof fn lemma_neighbours_are_king_moves(
    n: int,
    obstacles: Seq<usize>,
    idx: usize,
    other: usize,
)
    requires
        n >= 2,
        n * n <= usize::MAX,
        in_grid(n, idx as int),
    ensures
        is_neighbour(n, obstacles, idx, other) <==> in_grid(n, other as int) && !obstacles.contains(
            other,
        ) && king_adjacent(n, idx as int, other as int),
{
    lemma_neighbours_are_candidates(n, obstacles, idx, other);
    if in_grid(n, other as int) {
        lemma_candidates_are_king_moves(n, idx as int, other as int);
    }
}

} // verus!
