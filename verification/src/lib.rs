//! A sliding-tile puzzle: the board, the search for the nearest empty cell,
//! the shift of a run of tiles into it, and the test for the solved order.

use vstd::prelude::*;

pub mod app;
pub mod complete;
pub mod deal;
pub mod grid;
pub mod search;
pub mod shift;
pub mod shuffle;
pub mod traverse;

pub use app::{App, Command};
pub use grid::{Grid, TileValue};
pub use traverse::{GridIterator, GridTile};

verus! {

/// The side of the board of a game.
pub const GRID_SIZE: usize = 4;

} // verus!
