//! Monte Carlo occupancy estimation for a hidden-fleet board puzzle.
//!
//! A fleet of ships (lengths 1 to 4) is placed on a 10x10 grid under the rule
//! that ships may never touch, not even diagonally.  The library provides a
//! readable cell-level board, a bit-packed board supporting O(1) placement and
//! word-level legal-anchor computation, a uniform sampler over the legal
//! anchors of one ship, and a mergeable per-cell occupancy tally.

use vstd::prelude::*;

pub mod bit_board;
pub mod bits;
pub mod board;
pub mod cell_grid;
pub mod ship;
pub mod ship_counts;
pub mod sim;

verus! {

/// Side length of the square board.
pub const SIZE: usize = 10;

/// Number of counters kept per board: the 100 cells padded up to a whole
/// number of 64-bit words.
pub const BOARD_SIZE: usize = 128;

} // verus!
