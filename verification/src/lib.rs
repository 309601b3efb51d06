//! A 9x9 Sudoku solving engine.
//!
//! The board is a sequence of 81 cells holding values 0..=9, where 0 marks an
//! unassigned cell. Solving proceeds in two phases: deterministic constraint
//! propagation (naked and hidden singles) repeated to a fixpoint, and, when
//! propagation stalls, a best-first branch-and-bound search over snapshots of
//! the board. The crate also provides the run-length coordinate-list encoding
//! of a board and its base64 wrapping, used to pass boards around as text.

pub mod grid;
pub mod propagate;
pub mod search;
pub mod solver;
pub mod codec;
