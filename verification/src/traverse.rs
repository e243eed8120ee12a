//! Reading a board: the traversal of its cells in row-major order, and the
//! way back from what a traversal yields to the board.

use crate::grid::{Grid, TileValue};
use vstd::prelude::*;

verus! {

/// A cell as a traversal yields it: what it holds, and where it stands.
pub struct GridTile<'a> {
    pub tile: &'a TileValue,
    pub x: usize,
    pub y: usize,
}

impl<'a> View for GridTile<'a> {
    type V = (int, int, TileValue);

    /// The cell as the triple of its column, its row and what it holds.
    open spec fn view(&self) -> (int, int, TileValue) {
        (self.x as int, self.y as int, *self.tile)
    }
}

/// The triples of the cells in `tiles`, in their order.
pub open spec fn triples(tiles: Seq<GridTile>) -> Seq<(int, int, TileValue)> {
    Seq::new(tiles.len(), |k: int| tiles[k]@)
}

/// A traversal of a board that has yielded some of its cells.
pub struct GridIterator<'a, const N: usize> {
    grid: &'a Grid<N>,
    row: usize,
    col: usize,
}

impl<'a, const N: usize> GridIterator<'a, N> {
    /// The next cell to yield is on the board, or all rows are done.
    #[verifier::type_invariant]
    spec fn in_step(&self) -> bool {
        if self.row < N {
            self.col < N
        } else {
            self.row == N && self.col == 0
        }
    }

    /// The board that is traversed.
    pub closed spec fn grid(&self) -> Grid<N> {
        *self.grid
    }

    /// The number of cells yielded so far.
    pub closed spec fn position(&self) -> int {
        self.row * N + self.col
    }

    /// The next cell of the traversal, or `None` once every cell of the
    /// board has been yielded.
    pub fn next(&mut self) -> (item: Option<GridTile<'a>>)
        ensures
            final(self).grid() == old(self).grid(),
            0 <= old(self).position() <= N * N,
            match item {
                Some(tile) => {
                    &&& old(self).position() < N * N
                    &&& tile@ == old(self).grid().traversal()[old(self).position()]
                    &&& final(self).position() == old(self).position() + 1
                },
                None => old(self).position() == N * N && final(self).position() == N * N,
            },
    {
        proof {
            use_type_invariant(&*self);
            assert(0 <= self.row * N <= N * N && (self.row < N ==> (self.row + 1) * N <= N * N)
                && (self.row + 1) * N == self.row * N + N) by (nonlinear_arith)
                requires
                    0 <= self.row <= N,
            ;
        }
        if self.row < N {
            let x = self.col;
            let y = self.row;
            proof {
                Grid::<N>::lemma_offset(x as int, y as int);
            }
            let grid: &'a Grid<N> = self.grid;
            let tile = grid.get((x, y)).expect("tile should exist");

            let (row, col) = if x + 1 == N {
                (y + 1, 0)
            } else {
                (y, x + 1)
            };
            *self = GridIterator { grid, row, col };

            Some(GridTile { tile, x, y })
        } else {
            None
        }
    }
}

impl<const N: usize> Grid<N> {
    /// What a traversal of the board yields: for each cell its column, its
    /// row and what it holds, row 0 from left to right, then row 1, and so on.
    pub open spec fn traversal(&self) -> Seq<(int, int, TileValue)> {
        Seq::new((N * N) as nat, |k: int| (k % (N as int), k / (N as int), self@[k]))
    }

    /// Whether `rebuilt` is what rebuilding a board from `cells` gives: the
    /// board whose traversal yields `cells`, or `None` where no board has
    /// that traversal.
    pub open spec fn rebuilds(cells: Seq<(int, int, TileValue)>, rebuilt: Option<Self>) -> bool {
        match rebuilt {
            Some(grid) => grid.traversal() == cells,
            None => forall|grid: Self| #[trigger] grid.traversal() != cells,
        }
    }

    /// Boards with the same traversal are the same board.
    pub proof fn lemma_traversal_injective(&self, other: &Self)
        requires
            self.traversal() == other.traversal(),
        ensures
            self == other,
    {
        self.lemma_len();
        other.lemma_len();
        assert forall|k: int| 0 <= k < N * N implies self@[k] == other@[k] by {
            assert(self.traversal()[k] == other.traversal()[k]);
        }
        assert(self@ =~= other@);
        self.lemma_same_cells(other);
    }

    /// Rebuilding a board from what its traversal yields gives the board
    /// back.
    pub proof fn lemma_round_trip(&self, rebuilt: Option<Self>)
        requires
            Self::rebuilds(self.traversal(), rebuilt),
        ensures
            rebuilt == Some(*self),
    {
        match rebuilt {
            Some(grid) => {
                grid.lemma_traversal_injective(self);
            },
            None => {
                assert(self.traversal() != self.traversal());
            },
        }
    }

    /// A traversal of the board, at its first cell. It can be started anew
    /// at any time, and leaves the board as it is.
    pub fn iter(&self) -> (cursor: GridIterator<'_, N>)
        ensures
            cursor.grid() == *self,
            cursor.position() == 0,
    {
        GridIterator { grid: self, row: 0, col: 0 }
    }

    /// The board whose traversal yields `tiles`, or `None` where there is
    /// no such board: where `tiles` are not as many as the cells, or one of
    /// them does not stand where the traversal comes to it.
    pub fn from_tiles(tiles: &Vec<GridTile>) -> (rebuilt: Option<Self>)
        ensures
            Self::rebuilds(triples(tiles@), rebuilt),
    {
        let given = tiles.len();
        let cells = match N.checked_mul(N) {
            Some(cells) if cells == given => cells,
            _ => {
                proof {
                    assert forall|grid: Self| #[trigger] grid.traversal() != triples(tiles@) by {
                        assert(grid.traversal().len() != triples(tiles@).len());
                    }
                }
                return None;
            },
        };
        let mut grid = Self::blank();
        proof {
            grid.lemma_len();
        }
        let mut y: usize = 0;
        while y < N
            invariant
                y <= N,
                N * N == tiles@.len(),
                N * N <= usize::MAX,
                grid@.len() == N * N,
                forall|k: int| 0 <= k < y * N ==> triples(tiles@)[k] == grid.traversal()[k],
            decreases N - y,
        {
            let mut x: usize = 0;
            while x < N
                invariant
                    y < N,
                    x <= N,
                    N * N == tiles@.len(),
                    N * N <= usize::MAX,
                    grid@.len() == N * N,
                    forall|k: int|
                        0 <= k < y * N + x ==> triples(tiles@)[k] == grid.traversal()[k],
                decreases N - x,
            {
                proof {
                    Self::lemma_offset(x as int, y as int);
                }
                let tile = &tiles[y * N + x];
                if tile.x != x || tile.y != y {
                    proof {
                        let k = y * N + x;
                        assert forall|other: Self| #[trigger]
                            other.traversal() != triples(tiles@) by {
                            assert(other.traversal()[k] != triples(tiles@)[k]);
                        }
                    }
                    return None;
                }
                let ghost before = grid;
                *grid.get_mut((x, y)).expect("tile should exist") = *tile.tile;
                proof {
                    assert forall|k: int| 0 <= k < y * N + x + 1 implies triples(tiles@)[k]
                        == grid.traversal()[k] by {
                        assert(grid@[k] == if k == y * N + x {
                            *tile.tile
                        } else {
                            before@[k]
                        });
                        if k < y * N + x {
                            assert(triples(tiles@)[k] == before.traversal()[k]);
                        }
                    }
                }
                x += 1;
            }
            proof {
                assert((y + 1) * N == y * N + N) by (nonlinear_arith);
            }
            y += 1;
        }
        proof {
            assert(grid.traversal() =~= triples(tiles@));
        }
        Some(grid)
    }
}

} // verus!
