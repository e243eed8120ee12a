//! The move of the puzzle: the run of tiles between a chosen tile and the
//! nearest empty cell slides one cell toward the empty cell, which leaves
//! the chosen cell empty.

use crate::grid::{Grid, TileValue};
use vstd::prelude::*;
use vstd::seq_lib::to_multiset_update;

verus! {

/// The number of steps from `(x, y)` to `(ex, ey)` along rows and columns.
spec fn run_len(x: int, y: int, ex: int, ey: int) -> int {
    (if ex < x {
        x - ex
    } else {
        ex - x
    }) + (if ey < y {
        y - ey
    } else {
        ey - y
    })
}

/// The cell `t` steps from `(x, y)` toward `(ex, ey)`.
spec fn run_point(x: int, y: int, ex: int, ey: int, t: int) -> (int, int) {
    (
        if ex < x {
            x - t
        } else if ex > x {
            x + t
        } else {
            x
        },
        if ey < y {
            y - t
        } else if ey > y {
            y + t
        } else {
            y
        },
    )
}

/// Whether `(i, j)` lies on the straight run that starts next to `(x, y)`
/// and ends at `(ex, ey)`.
pub open spec fn on_run(x: int, y: int, ex: int, ey: int, i: int, j: int) -> bool {
    ||| i == x && ex == x && (ey <= j < y || y < j <= ey)
    ||| j == y && ey == y && (ex <= i < x || x < i <= ex)
}

/// The neighbour of `(i, j)` that is one step nearer to `(x, y)`.
pub open spec fn toward(x: int, y: int, i: int, j: int) -> (int, int) {
    (
        if i < x {
            i + 1
        } else if i > x {
            i - 1
        } else {
            i
        },
        if j < y {
            j + 1
        } else if j > y {
            j - 1
        } else {
            j
        },
    )
}

/// A pair of indices as a pair of integers.
spec fn point_of(pos: (usize, usize)) -> (int, int) {
    (pos.0 as int, pos.1 as int)
}

/// Whether `moves` are the single moves that slide the run from `(x, y)`
/// into `(ex, ey)`: one for each step of the run, the first into `(ex, ey)`,
/// each from the cell one step nearer to `(x, y)` than the cell it fills, and
/// each filling the cell that the one before it took from.
spec fn slides_run(
    moves: Seq<((usize, usize), (usize, usize))>,
    x: int,
    y: int,
    ex: int,
    ey: int,
) -> bool {
    &&& moves.len() == run_len(x, y, ex, ey)
    &&& forall|k: int|
        0 <= k < moves.len() ==> point_of((#[trigger] moves[k]).0) == run_point(
            x,
            y,
            ex,
            ey,
            moves.len() - 1 - k,
        ) && point_of(moves[k].1) == run_point(x, y, ex, ey, moves.len() - k)
}

/// The single moves that slide the run from `(x, y)` into the empty cell
/// `(nx, ny)`, each as the cell to take a value from and the cell to put it
/// in. They start at the empty cell and end at `(x, y)`, so that no value is
/// overwritten before it has been taken.
fn run_moves(x: usize, y: usize, nx: usize, ny: usize) -> (moves: Vec<
    ((usize, usize), (usize, usize)),
>)
    requires
        (nx == x) != (ny == y),
    ensures
        slides_run(moves@, x as int, y as int, nx as int, ny as int),
{
    let mut moves: Vec<((usize, usize), (usize, usize))> = Vec::new();
    if ny < y {
        // Up: from the empty cell down to the chosen one
        let mut j: usize = ny;
        while j < y
            invariant
                nx == x,
                ny <= j <= y,
                moves@.len() == j - ny,
                forall|k: int|
                    0 <= k < moves@.len() ==> #[trigger] moves@[k] == (
                        (x, (ny + k + 1) as usize),
                        (x, (ny + k) as usize),
                    ),
            decreases y - j,
        {
            moves.push(((x, j + 1), (x, j)));
            j += 1;
        }
    } else if nx > x {
        // Right: from the empty cell leftward to the chosen one
        let mut i: usize = nx;
        while i > x
            invariant
                ny == y,
                x <= i <= nx,
                moves@.len() == nx - i,
                forall|k: int|
                    0 <= k < moves@.len() ==> #[trigger] moves@[k] == (
                        ((nx - k - 1) as usize, y),
                        ((nx - k) as usize, y),
                    ),
            decreases i - x,
        {
            i -= 1;
            moves.push(((i, y), (i + 1, y)));
        }
    } else if ny > y {
        // Down: from the empty cell up to the chosen one
        let mut j: usize = ny;
        while j > y
            invariant
                nx == x,
                y <= j <= ny,
                moves@.len() == ny - j,
                forall|k: int|
                    0 <= k < moves@.len() ==> #[trigger] moves@[k] == (
                        (x, (ny - k - 1) as usize),
                        (x, (ny - k) as usize),
                    ),
            decreases j - y,
        {
            j -= 1;
            moves.push(((x, j), (x, j + 1)));
        }
    } else {
        // Left: from the empty cell rightward to the chosen one
        let mut i: usize = nx;
        while i < x
            invariant
                ny == y,
                nx <= i <= x,
                moves@.len() == i - nx,
                forall|k: int|
                    0 <= k < moves@.len() ==> #[trigger] moves@[k] == (
                        ((nx + k + 1) as usize, y),
                        ((nx + k) as usize, y),
                    ),
            decreases x - i,
        {
            moves.push(((i + 1, y), (i, y)));
            i += 1;
        }
    }
    moves
}

impl<const N: usize> Grid<N> {
    /// What the cell `(i, j)` holds once the run from `(x, y)` has slid into
    /// the empty cell `(ex, ey)`: nothing at `(x, y)`; on the run, what the
    /// neighbour nearer to `(x, y)` held; elsewhere, what it held before.
    pub open spec fn slid_cell(&self, x: int, y: int, ex: int, ey: int, i: int, j: int) -> TileValue {
        if i == x && j == y {
            None
        } else if on_run(x, y, ex, ey, i, j) {
            self.cell(toward(x, y, i, j).0, toward(x, y, i, j).1)
        } else {
            self.cell(i, j)
        }
    }

    /// The cells of the board once the run from `(x, y)` has slid into the
    /// empty cell `(ex, ey)`.
    pub open spec fn slid(&self, x: int, y: int, ex: int, ey: int) -> Seq<TileValue> {
        Seq::new(
            (N * N) as nat,
            |k: int| self.slid_cell(x, y, ex, ey, k % (N as int), k / (N as int)),
        )
    }

    /// The cells of the board after a shift at `(x, y)`: as they were where
    /// the search from `(x, y)` finds no empty cell, and else with the run
    /// from `(x, y)` slid into the empty cell found.
    pub open spec fn shifted(&self, x: int, y: int) -> Seq<TileValue> {
        match self.nearest_empty(x, y) {
            Some((ex, ey)) => self.slid(x, y, ex, ey),
            None => self@,
        }
    }

    /// The state of a slide after `done` single moves: the cells of the run
    /// farther than `len - done` steps from `(x, y)` hold what their
    /// neighbour held, the others what they held, and with the cell that is
    /// next to be overwritten taken as empty no value is lost or doubled.
    #[verifier::opaque]
    spec fn sliding(&self, from: &Self, x: int, y: int, ex: int, ey: int, done: int) -> bool {
        let len = run_len(x, y, ex, ey);
        let next = run_point(x, y, ex, ey, len - done);
        &&& forall|i: int, j: int|
            Self::on_board(i, j) ==> #[trigger] self.cell(i, j) == if on_run(x, y, ex, ey, i, j)
                && run_len(x, y, i, j) > len - done {
                from.cell(toward(x, y, i, j).0, toward(x, y, i, j).1)
            } else {
                from.cell(i, j)
            }
        &&& self@.to_multiset().insert(None) == from@.to_multiset().insert(
            self.cell(next.0, next.1),
        )
    }

    /// A slide that has made no move yet.
    proof fn lemma_slide_start(&self, x: int, y: int, ex: int, ey: int)
        requires
            self.is_empty_at(ex, ey),
            (ex == x) != (ey == y),
        ensures
            self.sliding(self, x, y, ex, ey, 0),
    {
        reveal(Grid::sliding);
    }

    /// One more single move of a slide.
    proof fn lemma_slide_step(
        &self,
        from: &Self,
        after: &Self,
        x: int,
        y: int,
        ex: int,
        ey: int,
        done: int,
    )
        requires
            Self::on_board(x, y),
            Self::on_board(ex, ey),
            (ex == x) != (ey == y),
            0 <= done < run_len(x, y, ex, ey),
            self.sliding(from, x, y, ex, ey, done),
            ({
                let len = run_len(x, y, ex, ey);
                let src = run_point(x, y, ex, ey, len - 1 - done);
                let dst = run_point(x, y, ex, ey, len - done);
                after@ == self@.update(Self::offset(dst.0, dst.1), self.cell(src.0, src.1))
            }),
        ensures
            after.sliding(from, x, y, ex, ey, done + 1),
    {
        reveal(Grid::sliding);
        let len = run_len(x, y, ex, ey);
        let src = run_point(x, y, ex, ey, len - 1 - done);
        let dst = run_point(x, y, ex, ey, len - done);
        let v = self.cell(src.0, src.1);
        self.lemma_len();
        Self::lemma_offset(dst.0, dst.1);
        Self::lemma_offset(src.0, src.1);
        Self::lemma_offset_injective(src.0, src.1, dst.0, dst.1);
        assert forall|i: int, j: int| Self::on_board(i, j) implies #[trigger] after.cell(i, j)
            == if on_run(x, y, ex, ey, i, j) && run_len(x, y, i, j) > len - (done + 1) {
            from.cell(toward(x, y, i, j).0, toward(x, y, i, j).1)
        } else {
            from.cell(i, j)
        } by {
            Self::lemma_offset(i, j);
            if i == dst.0 && j == dst.1 {
                assert(toward(x, y, i, j) == src);
                assert(self.cell(src.0, src.1) == from.cell(src.0, src.1));
            } else {
                Self::lemma_offset_injective(i, j, dst.0, dst.1);
                assert(after.cell(i, j) == self.cell(i, j));
            }
        }
        to_multiset_update(self@, Self::offset(dst.0, dst.1), v);
        assert(after.cell(src.0, src.1) == v);
        assert(self@.to_multiset().count(self.cell(dst.0, dst.1)) > 0) by {
            vstd::seq_lib::to_multiset_contains(self@, self.cell(dst.0, dst.1));
            assert(self@.contains(self@[Self::offset(dst.0, dst.1)]));
        }
        assert(after@.to_multiset().insert(None) =~= from@.to_multiset().insert(v)) by {
            let c = self.cell(dst.0, dst.1);
            assert(after@.to_multiset() == self@.to_multiset().insert(v).remove(c));
            assert forall|e: TileValue|
                after@.to_multiset().insert(None).count(e) == from@.to_multiset().insert(
                    v,
                ).count(e) by {
                assert(self@.to_multiset().insert(None).count(e) == from@.to_multiset().insert(
                    c,
                ).count(e));
            }
        }
    }

    /// The last move of a slide: the chosen cell is emptied.
    proof fn lemma_slide_end(&self, from: &Self, after: &Self, x: int, y: int, ex: int, ey: int)
        requires
            Self::on_board(x, y),
            Self::on_board(ex, ey),
            (ex == x) != (ey == y),
            self.sliding(from, x, y, ex, ey, run_len(x, y, ex, ey)),
            after@ == self@.update(Self::offset(x, y), None),
        ensures
            after@ == from.slid(x, y, ex, ey),
            after@.to_multiset() == from@.to_multiset(),
    {
        reveal(Grid::sliding);
        self.lemma_len();
        after.lemma_len();
        Self::lemma_offset(x, y);
        let c = self.cell(x, y);
        assert forall|k: int| 0 <= k < N * N implies after@[k] == from.slid(x, y, ex, ey)[k] by {
            Self::lemma_coords(k);
            let i = k % (N as int);
            let j = k / (N as int);
            if !(i == x && j == y) {
                Self::lemma_offset_injective(i, j, x, y);
                assert(after@[k] == self.cell(i, j));
            }
        }
        assert(after@ =~= from.slid(x, y, ex, ey));
        to_multiset_update(self@, Self::offset(x, y), None);
        assert(self@.to_multiset().count(c) > 0) by {
            vstd::seq_lib::to_multiset_contains(self@, c);
            assert(self@.contains(self@[Self::offset(x, y)]));
        }
        assert(after@.to_multiset() =~= from@.to_multiset()) by {
            assert forall|e: TileValue|
                after@.to_multiset().count(e) == from@.to_multiset().count(e) by {
                assert(self@.to_multiset().insert(None).count(e) == from@.to_multiset().insert(
                    c,
                ).count(e));
            }
        }
    }

    /// Slides the tiles between `(x, y)` and the nearest empty cell one cell
    /// toward that cell, and leaves `(x, y)` empty.
    ///
    /// Where the search from `(x, y)` finds no empty cell (the cell is empty
    /// or off the board, or no empty cell lies on its row or column), the
    /// board stays as it is.
    pub fn shift_tiles(&mut self, x: usize, y: usize)
        ensures
            final(self)@ == old(self).shifted(x as int, y as int),
            final(self)@.to_multiset() == old(self)@.to_multiset(),
            old(self).is_arrangement() ==> final(self).is_arrangement(),
            old(self).nearest_empty(x as int, y as int) is Some ==> final(self).is_empty_at(
                x as int,
                y as int,
            ),
            !old(self).is_tile_at(x as int, y as int) ==> final(self)@ == old(self)@,
    {
        let (nx, ny) = match self.find_empty(x, y) {
            Some(found) => found,
            None => {
                return ;
            },
        };

        // The moves, each as (cell to take the value from, cell to put it in).
        // Their order matters, because a move changes what the next one reads.
        let tiles = run_moves(x, y, nx, ny);

        proof {
            use_type_invariant(&*self);
            self.lemma_slide_start(x as int, y as int, nx as int, ny as int);
        }
        let mut k: usize = 0;
        while k < tiles.len()
            invariant
                k <= tiles@.len(),
                self.size_fits(),
                Self::on_board(x as int, y as int),
                Self::on_board(nx as int, ny as int),
                (nx == x) != (ny == y),
                slides_run(tiles@, x as int, y as int, nx as int, ny as int),
                self.sliding(old(self), x as int, y as int, nx as int, ny as int, k as int),
            decreases tiles@.len() - k,
        {
            let (pos_future_value, pos_tile) = tiles[k];
            let ghost mid = *self;
            let future_value = *self.get(pos_future_value).expect("tile should exist");
            let tile = self.get_mut(pos_tile).expect("tile should exist");
            *tile = future_value;
            proof {
                mid.lemma_slide_step(
                    old(self),
                    &*self,
                    x as int,
                    y as int,
                    nx as int,
                    ny as int,
                    k as int,
                );
            }
            k += 1;
        }

        // The chosen cell gives its tile away
        let ghost mid = *self;
        *self.get_mut((x, y)).expect("tile should exist") = None;
        proof {
            mid.lemma_len();
            Self::lemma_offset(x as int, y as int);
            mid.lemma_slide_end(old(self), &*self, x as int, y as int, nx as int, ny as int);
        }
    }
}

} // verus!
