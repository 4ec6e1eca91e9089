//! A* path search on a square grid of cells with obstacles.
//!
//! The grid is held row-major: the cell with flat index `i` sits in row
//! `i / n` and column `i % n`. Distances between cells are Euclidean and
//! truncated to whole numbers; the same distance serves as the heuristic and
//! as the cost of a step between neighbouring cells.
//!
//! * [`distance`], [`geometry`]: the truncated distance, rows, columns and
//!   moves, and how far the heuristic can be trusted.
//! * [`cell`], [`grid`], [`neighbours`]: the cells, the grid with its source,
//!   goal and obstacles, and the cells that a search may step to.
//! * [`state`], [`invariants`], [`routes`]: the search as contracts see it,
//!   what holds of each of its states, and what follows for the routes that
//!   it finds.
//! * [`search`]: the engine.
//! * [`driver`]: the order of the rounds of a demonstration.
//! * [`lists`], [`seqs`]: lists of cell indices.

pub mod distance;
pub mod geometry;
pub mod cell;
mod random;
pub mod lists;
pub mod seqs;
pub mod grid;
pub mod neighbours;
pub mod state;
pub mod invariants;
pub mod routes;
pub mod search;
pub mod driver;

pub use cell::Cell;
pub use grid::{CellRole, ConstructionError, Grid};
pub use search::{AStar, Notification, SearchOutcome, Step};
