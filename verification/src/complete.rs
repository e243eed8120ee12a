//! The test for the solved board: the tiles in the order of their numbers,
//! and the empty cell last.

use crate::grid::Grid;
use crate::traverse::GridTile;
use vstd::prelude::*;

verus! {

impl<const N: usize> Grid<N> {
    /// Whether the board is solved: read row by row, the cells hold the
    /// tiles 1, 2, and so on up to `N * N - 1`, and the last cell is empty.
    pub open spec fn is_solved(&self) -> bool {
        forall|k: int|
            0 <= k < N * N ==> match #[trigger] self@[k] {
                Some(value) => value == k + 1 && k + 1 < N * N,
                None => k + 1 == N * N,
            }
    }

    /// On a solved board, and on no other, each cell `(x, y)` but the last
    /// of the last row holds the tile `y * N + x + 1`, and that last cell is
    /// empty.
    pub proof fn lemma_solved_cells(&self)
        ensures
            self.is_solved() <==> forall|x: int, y: int|
                Self::on_board(x, y) ==> match #[trigger] self.cell(x, y) {
                    Some(value) => value == y * N + x + 1 && !(x == N - 1 && y == N - 1),
                    None => x == N - 1 && y == N - 1,
                },
    {
        let by_cell = forall|x: int, y: int|
            Self::on_board(x, y) ==> match #[trigger] self.cell(x, y) {
                Some(value) => value == y * N + x + 1 && !(x == N - 1 && y == N - 1),
                None => x == N - 1 && y == N - 1,
            };
        assert forall|x: int, y: int| Self::on_board(x, y) implies (Self::offset(x, y) + 1 == N
            * N <==> x == N - 1 && y == N - 1) by {
            Self::lemma_offset(x, y);
            assert((N - 1) * N + (N - 1) + 1 == N * N) by (nonlinear_arith);
            assert(y < N - 1 ==> y * N + x + 1 < N * N) by (nonlinear_arith)
                requires
                    0 <= x < N,
                    0 <= y,
            ;
        }
        if self.is_solved() {
            assert forall|x: int, y: int| Self::on_board(x, y) implies match #[trigger] self.cell(
                x,
                y,
            ) {
                Some(value) => value == y * N + x + 1 && !(x == N - 1 && y == N - 1),
                None => x == N - 1 && y == N - 1,
            } by {
                Self::lemma_offset(x, y);
                assert(self.cell(x, y) == self@[Self::offset(x, y)]);
            }
        }
        if by_cell {
            assert forall|k: int| 0 <= k < N * N implies match #[trigger] self@[k] {
                Some(value) => value == k + 1 && k + 1 < N * N,
                None => k + 1 == N * N,
            } by {
                Self::lemma_coords(k);
                assert(self@[k] == self.cell(k % (N as int), k / (N as int)));
            }
        }
    }

    /// A solved board with two of its cells exchanged is not solved.
    pub proof fn lemma_swap_unsolves(&self, swapped: &Self, a: int, b: int)
        requires
            self.is_solved(),
            0 <= a < N * N,
            0 <= b < N * N,
            a != b,
            swapped@ == self@.update(a, self@[b]).update(b, self@[a]),
        ensures
            !swapped.is_solved(),
    {
        self.lemma_len();
        assert(swapped@[a] == self@[b]);
    }

    /// Whether the board is solved.
    pub fn is_complete(&self) -> (complete: bool)
        ensures
            complete == self.is_solved(),
    {
        proof {
            use_type_invariant(self);
            self.lemma_len();
        }
        let mut tiles = self.iter();
        loop
            invariant
                tiles.grid() == *self,
                N * N <= usize::MAX,
                self@.len() == N * N,
                0 <= tiles.position() <= N * N,
                forall|k: int|
                    0 <= k < tiles.position() ==> match #[trigger] self@[k] {
                        Some(value) => value == k + 1 && k + 1 < N * N,
                        None => k + 1 == N * N,
                    },
            decreases N * N - tiles.position(),
        {
            let ghost k = tiles.position();
            let GridTile { x, y, tile } = match tiles.next() {
                Some(tile) => tile,
                None => {
                    return true;
                },
            };
            proof {
                Self::lemma_coords(k);
                assert(x == k % (N as int) && y == k / (N as int) && *tile == self@[k]);
                assert(0 <= y * N) by (nonlinear_arith)
                    requires
                        0 <= y,
                        0 <= N,
                ;
            }
            let expected_value = y * N + x + 1;

            let expected_tile = if expected_value >= N * N {
                None
            } else {
                match u32::try_from(expected_value) {
                    Ok(value) => Some(value),
                    // No tile has a number that large
                    Err(_) => {
                        return false;
                    },
                }
            };

            if *tile != expected_tile {
                return false;
            }
        }
    }
}

} // verus!
