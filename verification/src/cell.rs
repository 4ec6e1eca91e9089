//! One cell of the grid: where it sits, and what a search has found out
//! about it.

use vstd::prelude::*;
use vstd::std_specs::cmp::PartialEqSpecImpl;

verus! {

/// A cell of the grid. Its flat index is its identity: two cells are equal
/// when their indices are, whatever scores they carry.
#[derive(Clone, Copy, Debug)]
pub struct Cell {
    /// The flat index of the cell, counted row by row.
    pub vec_idx: usize,
    /// The row of the cell.
    pub row: usize,
    /// The column of the cell.
    pub col: usize,
    /// The cost of the best route known from the source to the cell.
    pub g_score: Option<usize>,
    /// The estimated cost from the cell to the goal.
    pub h_score: Option<usize>,
    /// The sum of the two scores above: the priority of the cell.
    pub f_score: Option<usize>,
    /// The cell before this one on the best route known from the source.
    pub parent_cell_idx: Option<usize>,
}

impl PartialEq for Cell {
    fn eq(&self, other: &Self) -> (same: bool) {
        self.vec_idx == other.vec_idx
    }
}

impl PartialEqSpecImpl for Cell {
    open spec fn obeys_eq_spec() -> bool {
        true
    }

    open spec fn eq_spec(&self, other: &Self) -> bool {
        self.vec_idx == other.vec_idx
    }
}

impl Cell {
    /// No search has touched the cell: it has no score and no parent.
    pub open spec fn is_fresh(&self) -> bool {
        &&& self.g_score is None
        &&& self.h_score is None
        &&& self.f_score is None
        &&& self.parent_cell_idx is None
    }

    /// The cell sits where its flat index `idx` puts it on a grid with `n`
    /// columns.
    pub open spec fn sits_at(&self, n: int, idx: int) -> bool {
        &&& self.vec_idx == idx
        &&& self.row == idx / n
        &&& self.col == idx % n
    }

    /// The cell as it is, without scores and parent.
    pub open spec fn cleared(&self) -> Cell {
        Cell {
            vec_idx: self.vec_idx,
            row: self.row,
            col: self.col,
            g_score: None,
            h_score: None,
            f_score: None,
            parent_cell_idx: None,
        }
    }

    /// A cell that no search has touched yet.
    pub fn new(vec_idx: usize, row: usize, col: usize) -> (cell: Cell)
        ensures
            cell.vec_idx == vec_idx,
            cell.row == row,
            cell.col == col,
            cell.is_fresh(),
    {
        Cell {
            vec_idx,
            row,
            col,
            g_score: None,
            h_score: None,
            f_score: None,
            parent_cell_idx: None,
        }
    }

    /// Sets the g-score and nothing else.
    pub fn set_g_score(&mut self, g: usize)
        ensures
            *final(self) == (Cell { g_score: Some(g), ..*old(self) }),
    {
        self.g_score = Some(g);
    }

    /// The g-score of a cell that has one.
    pub fn get_g_score(&self) -> (g: usize)
        requires
            self.g_score is Some,
        ensures
            self.g_score == Some(g),
    {
        self.g_score.unwrap()
    }

    /// Sets the h-score and nothing else.
    pub fn set_h_score(&mut self, h: usize)
        ensures
            *final(self) == (Cell { h_score: Some(h), ..*old(self) }),
    {
        self.h_score = Some(h);
    }

    /// The h-score of a cell that has one.
    pub fn get_h_score(&self) -> (h: usize)
        requires
            self.h_score is Some,
        ensures
            self.h_score == Some(h),
    {
        self.h_score.unwrap()
    }

    /// Sets the f-score and nothing else.
    pub fn set_f_score(&mut self, f: usize)
        ensures
            *final(self) == (Cell { f_score: Some(f), ..*old(self) }),
    {
        self.f_score = Some(f);
    }

    /// The f-score of a cell that has one.
    pub fn get_f_score(&self) -> (f: usize)
        requires
            self.f_score is Some,
        ensures
            self.f_score == Some(f),
    {
        self.f_score.unwrap()
    }

    /// Sets the parent, or takes it away, and changes nothing else.
    pub fn set_parent_cell_idx(&mut self, parent_cell_idx: Option<usize>)
        ensures
            *final(self) == (Cell { parent_cell_idx, ..*old(self) }),
    {
        self.parent_cell_idx = parent_cell_idx;
    }

    /// The parent of the cell, if it has one.
    pub fn get_parent_cell_idx(&self) -> (parent: Option<usize>)
        ensures
            parent == self.parent_cell_idx,
    {
        self.parent_cell_idx
    }
}

} // verus!
