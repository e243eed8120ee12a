//! A game in play: the board, the tile that the player points at, and how
//! the player's commands change the two.

use crate::grid::{Grid, TileValue};
use crate::GRID_SIZE;
use vstd::prelude::*;

verus! {

/// What a key of the player asks for.
#[derive(Clone, Copy, Debug, PartialEq, Eq)]
pub enum Command {
    /// Start a new game.
    Reset,
    /// Shift the tiles at the active tile.
    Shift,
    /// Move the active tile one cell to the left.
    Left,
    /// Move the active tile one cell down.
    Down,
    /// Move the active tile one cell up.
    Up,
    /// Move the active tile one cell to the right.
    Right,
}

impl Command {
    /// The step by which the command moves the active tile, if it moves it.
    pub open spec fn step(self) -> Option<(int, int)> {
        match self {
            Command::Left => Some((-1, 0)),
            Command::Down => Some((0, 1)),
            Command::Up => Some((0, -1)),
            Command::Right => Some((1, 0)),
            _ => None,
        }
    }
}

/// A game in play.
pub struct App {
    grid: Grid<GRID_SIZE>,
    active_tile: Option<(usize, usize)>,
    using_keyboard: bool,
}

/// What a game in play consists of.
pub struct AppView {
    /// The cells of the board, row by row.
    pub grid: Seq<TileValue>,
    /// The cell that the player points at, as column and row.
    pub active_tile: Option<(usize, usize)>,
    /// Whether the player's last input came from the keyboard.
    pub using_keyboard: bool,
}

impl View for App {
    type V = AppView;

    closed spec fn view(&self) -> AppView {
        AppView {
            grid: self.grid@,
            active_tile: self.active_tile,
            using_keyboard: self.using_keyboard,
        }
    }
}

/// The active tile after a step by `(dx, dy)`: the first cell where there
/// was none; the cell that the step leads to where that is on the board;
/// and else the cell it was.
pub open spec fn navigated(active: Option<(usize, usize)>, dx: int, dy: int) -> Option<
    (usize, usize),
> {
    match active {
        None => Some((0, 0)),
        Some((x, y)) => if 0 <= x + dx < GRID_SIZE && 0 <= y + dy < GRID_SIZE {
            Some(((x + dx) as usize, (y + dy) as usize))
        } else {
            active
        },
    }
}

impl App {
    /// The board of the game.
    pub closed spec fn board(&self) -> Grid<GRID_SIZE> {
        self.grid
    }

    /// The board is the one whose cells the view shows.
    pub proof fn lemma_board(&self)
        ensures
            self.board()@ == self@.grid,
    {
    }

    /// A new game: a board in random order, no active tile, and the pointer
    /// as the input.
    pub fn new() -> (app: Self)
        ensures
            app.board().is_arrangement(),
            app@.active_tile is None,
            !app@.using_keyboard,
    {
        Self { grid: Grid::new(), active_tile: None, using_keyboard: false }
    }

    /// Starts a new game in place of this one.
    pub fn reset(&mut self)
        ensures
            final(self).board().is_arrangement(),
            final(self)@.active_tile is None,
            !final(self)@.using_keyboard,
    {
        *self = Self::new()
    }

    /// The board.
    pub fn grid(&self) -> (grid: &Grid<GRID_SIZE>)
        ensures
            *grid == self.board(),
    {
        &self.grid
    }

    /// The cell that the player points at.
    pub fn active_tile(&self) -> (active: Option<(usize, usize)>)
        ensures
            active == self@.active_tile,
    {
        self.active_tile
    }

    /// Whether the player's last input came from the keyboard.
    pub fn using_keyboard(&self) -> (keyboard: bool)
        ensures
            keyboard == self@.using_keyboard,
    {
        self.using_keyboard
    }

    /// Moves the active tile by `(dx, dy)` if that leads to a cell of the
    /// board, and makes the first cell active where none was.
    pub fn navigate_active_tile(&mut self, dx: isize, dy: isize)
        ensures
            final(self)@.active_tile == navigated(old(self)@.active_tile, dx as int, dy as int),
            final(self)@.grid == old(self)@.grid,
            final(self)@.using_keyboard == old(self)@.using_keyboard,
    {
        let active = match self.active_tile {
            Some(active) => active,
            None => {
                self.active_tile = Some((0, 0));
                return ;
            },
        };

        let x = active.0 as i128 + dx as i128;
        let y = active.1 as i128 + dy as i128;

        let size = GRID_SIZE as i128;

        if 0 <= x && x < size && 0 <= y && y < size {
            self.active_tile = Some((x as usize, y as usize))
        };
    }

    /// Shifts the tiles at the active tile, if there is one.
    pub fn move_tile(&mut self)
        ensures
            final(self)@.grid == match old(self)@.active_tile {
                Some((x, y)) => old(self).board().shifted(x as int, y as int),
                None => old(self)@.grid,
            },
            old(self).board().is_arrangement() ==> final(self).board().is_arrangement(),
            final(self)@.active_tile == old(self)@.active_tile,
            final(self)@.using_keyboard == old(self)@.using_keyboard,
    {
        if let Some((x, y)) = self.active_tile {
            self.grid.shift_tiles(x, y);
        }
    }

    /// Takes note of where the pointer is: over the cell `tile`, or off the
    /// board.
    pub fn point_at(&mut self, tile: Option<(usize, usize)>)
        ensures
            final(self)@.active_tile == tile,
            !final(self)@.using_keyboard,
            final(self)@.grid == old(self)@.grid,
    {
        self.using_keyboard = false;
        self.active_tile = tile;
    }

    /// Takes note of a key press, and does what the key asks for, if
    /// anything.
    pub fn key_down_event(&mut self, command: Option<Command>)
        ensures
            match command {
                Some(Command::Reset) => {
                    &&& final(self).board().is_arrangement()
                    &&& final(self)@.active_tile is None
                    &&& !final(self)@.using_keyboard
                },
                Some(Command::Shift) => {
                    &&& final(self)@.grid == match old(self)@.active_tile {
                        Some((x, y)) => old(self).board().shifted(x as int, y as int),
                        None => old(self)@.grid,
                    }
                    &&& final(self)@.active_tile == old(self)@.active_tile
                    &&& final(self)@.using_keyboard
                },
                Some(moving) => {
                    &&& final(self)@.grid == old(self)@.grid
                    &&& final(self)@.active_tile == navigated(
                        old(self)@.active_tile,
                        moving.step().unwrap().0,
                        moving.step().unwrap().1,
                    )
                    &&& final(self)@.using_keyboard
                },
                None => {
                    &&& final(self)@.grid == old(self)@.grid
                    &&& final(self)@.active_tile == old(self)@.active_tile
                    &&& final(self)@.using_keyboard
                },
            },
    {
        self.using_keyboard = true;

        match command {
            // Reset game
            Some(Command::Reset) => self.reset(),
            // Move tiles
            Some(Command::Shift) => self.move_tile(),
            // Navigate
            Some(Command::Left) => self.navigate_active_tile(-1, 0),
            Some(Command::Down) => self.navigate_active_tile(0, 1),
            Some(Command::Up) => self.navigate_active_tile(0, -1),
            Some(Command::Right) => self.navigate_active_tile(1, 0),
            None => (),
        }
    }

    /// One tick of the game: shifts the tiles at the active tile if the
    /// player has clicked, and tells whether the board is solved after that.
    pub fn update(&mut self, clicked: bool) -> (solved: bool)
        ensures
            final(self)@.grid == match old(self)@.active_tile {
                Some((x, y)) if clicked => old(self).board().shifted(x as int, y as int),
                _ => old(self)@.grid,
            },
            final(self)@.active_tile == old(self)@.active_tile,
            final(self)@.using_keyboard == old(self)@.using_keyboard,
            solved == final(self).board().is_solved(),
    {
        if clicked {
            self.move_tile();
        }
        self.grid.is_complete()
    }
}

} // verus!
