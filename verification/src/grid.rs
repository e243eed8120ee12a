//! The board: an `N`×`N` matrix of cells, modelled as the sequence of its
//! cells in row-major order.

use vstd::arithmetic::div_mod::{
    lemma_fundamental_div_mod, lemma_fundamental_div_mod_converse, lemma_mod_bound,
};
use vstd::prelude::*;

verus! {

/// What a cell holds: a numbered tile, or nothing.
pub type TileValue = Option<u32>;

/// An `N`×`N` board. The cell `(x, y)` stands in column `x` of row `y`.
///
/// The view of a board is the sequence of its `N * N` cells, row 0 from left
/// to right, then row 1, and so on.
pub struct Grid<const N: usize>([[TileValue; N]; N]);

/// The cell in column `x` of row `y` of `rows`, borrowed for writing.
fn slot<const N: usize>(rows: &mut [[TileValue; N]; N], x: usize, y: usize) -> (tile:
    &mut TileValue)
    requires
        x < N,
        y < N,
    ensures
        *tile == old(rows)@[y as int]@[x as int],
        final(rows)@[y as int]@ == old(rows)@[y as int]@.update(x as int, *final(tile)),
        forall|j: int| 0 <= j < N && j != y ==> final(rows)@[j] == old(rows)@[j],
    no_unwind
{
    &mut rows[y][x]
}

impl<const N: usize> View for Grid<N> {
    type V = Seq<TileValue>;

    closed spec fn view(&self) -> Seq<TileValue> {
        Seq::new((N * N) as nat, |k: int| self.0@[k / (N as int)]@[k % (N as int)])
    }
}

impl<const N: usize> Grid<N> {
    /// Every board that exists has a number of cells that a `usize` can hold.
    #[verifier::type_invariant]
    pub open spec fn size_fits(&self) -> bool {
        N * N <= usize::MAX
    }

    /// Whether `(x, y)` names a cell of the board.
    pub open spec fn on_board(x: int, y: int) -> bool {
        0 <= x < N && 0 <= y < N
    }

    /// The place of the cell `(x, y)` in the row-major sequence of cells.
    pub open spec fn offset(x: int, y: int) -> int {
        y * N + x
    }

    /// What the cell `(x, y)` holds; meaningful on the board only.
    pub open spec fn cell(&self, x: int, y: int) -> TileValue {
        self@[Self::offset(x, y)]
    }

    /// Whether `(x, y)` is a cell of the board that holds a tile.
    pub open spec fn is_tile_at(&self, x: int, y: int) -> bool {
        Self::on_board(x, y) && self.cell(x, y) is Some
    }

    /// Whether `(x, y)` is a cell of the board that holds nothing.
    pub open spec fn is_empty_at(&self, x: int, y: int) -> bool {
        Self::on_board(x, y) && self.cell(x, y) is None
    }

    /// A board has `N * N` cells.
    pub proof fn lemma_len(&self)
        ensures
            self@.len() == N * N,
    {
    }

    /// The row-major offset of a cell of the board is in range, and gives the
    /// cell's coordinates back.
    pub proof fn lemma_offset(x: int, y: int)
        requires
            Self::on_board(x, y),
        ensures
            0 <= Self::offset(x, y) < N * N,
            Self::offset(x, y) / (N as int) == y,
            Self::offset(x, y) % (N as int) == x,
    {
        lemma_fundamental_div_mod_converse(y * N + x, N as int, y, x);
        assert(0 <= y * N && y * N + x < N * N) by (nonlinear_arith)
            requires
                0 <= x < N,
                0 <= y < N,
        ;
    }

    /// Every offset in range is the offset of exactly the cell in column
    /// `k % N` of row `k / N`.
    pub proof fn lemma_coords(k: int)
        requires
            0 <= k < N * N,
        ensures
            Self::on_board(k % (N as int), k / (N as int)),
            Self::offset(k % (N as int), k / (N as int)) == k,
    {
        let q = k / (N as int);
        let r = k % (N as int);
        lemma_fundamental_div_mod(k, N as int);
        lemma_mod_bound(k, N as int);
        assert(0 <= q < N && q * N == N * q) by (nonlinear_arith)
            requires
                0 <= k < N * N,
                k == N * q + r,
                0 <= r < N,
        ;
    }

    /// Two cells of the board with the same offset are the same cell.
    pub proof fn lemma_offset_injective(x1: int, y1: int, x2: int, y2: int)
        requires
            Self::on_board(x1, y1),
            Self::on_board(x2, y2),
        ensures
            Self::offset(x1, y1) == Self::offset(x2, y2) ==> x1 == x2 && y1 == y2,
    {
        Self::lemma_offset(x1, y1);
        Self::lemma_offset(x2, y2);
    }

    /// Boards with the same cells are the same board.
    pub proof fn lemma_same_cells(&self, other: &Self)
        requires
            self@ == other@,
        ensures
            self == other,
    {
        assert forall|y: int| 0 <= y < N implies self.0@[y] == other.0@[y] by {
            assert forall|x: int| 0 <= x < N implies self.0@[y]@[x] == other.0@[y]@[x] by {
                Self::lemma_offset(x, y);
                assert(self@[Self::offset(x, y)] == other@[Self::offset(x, y)]);
            }
            assert(self.0@[y] =~= other.0@[y]);
        }
        assert(self.0 =~= other.0);
    }

    /// Writing `v` into the cell `(x, y)` of the rows updates the view at that
    /// cell's offset and nowhere else.
    proof fn lemma_write(before: Self, after: Self, x: int, y: int, v: TileValue)
        requires
            Self::on_board(x, y),
            after.0@[y]@ == before.0@[y]@.update(x, v),
            forall|j: int| 0 <= j < N && j != y ==> after.0@[j] == before.0@[j],
        ensures
            after@ == before@.update(Self::offset(x, y), v),
    {
        Self::lemma_offset(x, y);
        assert forall|k: int| 0 <= k < N * N implies after@[k] == before@.update(
            Self::offset(x, y),
            v,
        )[k] by {
            Self::lemma_coords(k);
        }
        assert(after@ =~= before@.update(Self::offset(x, y), v));
    }

    /// A board with nothing on it.
    pub(crate) fn blank() -> (grid: Self)
        requires
            N * N <= usize::MAX,
        ensures
            forall|k: int| 0 <= k < N * N ==> grid@[k] is None,
    {
        let row: [TileValue; N] = [None; N];
        let grid = Grid([row; N]);
        proof {
            assert forall|k: int| 0 <= k < N * N implies grid@[k] is None by {
                Self::lemma_coords(k);
            }
        }
        grid
    }

    /// The cell at `pos`, given as `(x, y)`, or `None` off the board.
    pub(crate) fn get(&self, pos: (usize, usize)) -> (tile: Option<&TileValue>)
        ensures
            match tile {
                Some(t) => Self::on_board(pos.0 as int, pos.1 as int) && *t == self.cell(
                    pos.0 as int,
                    pos.1 as int,
                ),
                None => !Self::on_board(pos.0 as int, pos.1 as int),
            },
    {
        let (x, y) = pos;
        if x < N && y < N {
            proof {
                Self::lemma_offset(x as int, y as int);
            }
            Some(&self.0[y][x])
        } else {
            None
        }
    }

    /// The cell at `pos`, given as `(x, y)`, borrowed for writing, or `None`
    /// off the board. Whatever is written through the borrow lands in that
    /// cell, and every other cell keeps what it held.
    pub(crate) fn get_mut(&mut self, pos: (usize, usize)) -> (tile: Option<&mut TileValue>)
        ensures
            match tile {
                Some(t) => Self::on_board(pos.0 as int, pos.1 as int) && *t == old(self).cell(
                    pos.0 as int,
                    pos.1 as int,
                ) && final(self)@ == old(self)@.update(
                    Self::offset(pos.0 as int, pos.1 as int),
                    *final(t),
                ),
                None => !Self::on_board(pos.0 as int, pos.1 as int) && final(self)@ == old(self)@,
            },
    {
        let (x, y) = pos;
        if x < N && y < N {
            proof {
                use_type_invariant(&*self);
                Self::lemma_offset(x as int, y as int);
                let before = *old(self);
                assert forall|after: Self|
                    #![trigger after@]
                    after.0@[y as int]@ == before.0@[y as int]@.update(
                        x as int,
                        after.0@[y as int]@[x as int],
                    ) && (forall|j: int| 0 <= j < N && j != y ==> after.0@[j] == before.0@[j])
                    implies after@ == before@.update(
                    Self::offset(x as int, y as int),
                    after.0@[y as int]@[x as int],
                ) by {
                    Self::lemma_write(before, after, x as int, y as int, after.0@[y as int]@[x as int]);
                }
            }
            Some(slot(&mut self.0, x, y))
        } else {
            None
        }
    }
}

} // verus!
