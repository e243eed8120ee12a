//! How a board comes to be: the pool of tiles, its shuffle, and the deal of
//! the shuffled values onto the cells.

use crate::grid::{Grid, TileValue};
use crate::shuffle::shuffle;
use vstd::prelude::*;

verus! {

/// The values that a board of `count` cells is dealt from: nothing, then the
/// tiles 1, 2, and so on up to `count - 1`.
pub open spec fn pool(count: nat) -> Seq<TileValue> {
    Seq::new(
        count,
        |i: int|
            if i == 0 {
                None
            } else {
                Some(i as u32)
            },
    )
}

/// In a pool whose tile numbers fit in a `u32`, nothing occurs once and so
/// does each tile from 1 to `count - 1`; no other tile occurs.
pub proof fn lemma_pool_counts(count: nat)
    requires
        0 < count <= u32::MAX + 1,
    ensures
        pool(count).to_multiset().count(None) == 1,
        forall|v: u32|
            #[trigger] pool(count).to_multiset().count(Some(v)) == if 1 <= v < count {
                1nat
            } else {
                0nat
            },
{
    let p = pool(count);
    assert(p.no_duplicates());
    p.lemma_multiset_has_no_duplicates();
    vstd::seq_lib::to_multiset_contains(p, None);
    assert(p[0] == None::<u32>);
    assert(p.contains(None));
    assert forall|v: u32| #[trigger] p.to_multiset().count(Some(v)) == if 1 <= v < count {
        1nat
    } else {
        0nat
    } by {
        vstd::seq_lib::to_multiset_contains(p, Some(v));
        if 1 <= v < count {
            assert(p[v as int] == Some(v));
            assert(p.contains(Some(v)));
        } else {
            assert(!p.contains(Some(v)));
        }
    }
}

impl<const N: usize> Grid<N> {
    /// Whether the board is an arrangement of the puzzle: exactly one cell is
    /// empty, and each tile from 1 to `N * N - 1` stands on exactly one cell,
    /// with no other tile on the board.
    pub open spec fn is_arrangement(&self) -> bool {
        &&& self@.to_multiset().count(None) == 1
        &&& forall|v: u32|
            #[trigger] self@.to_multiset().count(Some(v)) == if 1 <= v < N * N {
                1nat
            } else {
                0nat
            }
    }

    /// The cells of the board that `values` are dealt onto: the last value
    /// goes to the first cell of the first row, the one before it to the next
    /// cell, and so on through the rows.
    pub open spec fn dealt(values: Seq<TileValue>) -> Seq<TileValue> {
        Seq::new((N * N) as nat, |k: int| values[values.len() - 1 - k])
    }

    /// A board dealt from exactly `N * N` values holds those values, each as
    /// often as it was among them.
    pub proof fn lemma_dealt_keeps_values(values: Seq<TileValue>)
        requires
            values.len() == N * N,
        ensures
            Self::dealt(values).to_multiset() == values.to_multiset(),
    {
        assert(Self::dealt(values) =~= values.reverse());
        values.lemma_reverse_to_multiset();
    }

    /// Deals `values` onto a new board, from the last value to the first.
    fn fill(values: Vec<TileValue>) -> (grid: Self)
        requires
            N * N <= values@.len(),
            N * N <= usize::MAX,
        ensures
            grid@ == Self::dealt(values@),
    {
        let ghost given = values@;
        let mut values = values;
        let mut grid = Self::blank();
        proof {
            grid.lemma_len();
        }
        let mut y: usize = 0;
        while y < N
            invariant
                y <= N,
                N * N <= given.len(),
                grid@.len() == N * N,
                values@.len() == given.len() - y * N,
                values@ == given.take(values@.len() as int),
                forall|k: int| 0 <= k < y * N ==> grid@[k] == given[given.len() - 1 - k],
            decreases N - y,
        {
            let mut x: usize = 0;
            while x < N
                invariant
                    y < N,
                    x <= N,
                    N * N <= given.len(),
                    grid@.len() == N * N,
                    values@.len() == given.len() - (y * N + x),
                    values@ == given.take(values@.len() as int),
                    forall|k: int| 0 <= k < y * N + x ==> grid@[k] == given[given.len() - 1 - k],
                decreases N - x,
            {
                proof {
                    Self::lemma_offset(x as int, y as int);
                }
                let value = values.pop().expect(
                    "grid size is larger than amount of generated values",
                );
                let tile = grid.get_mut((x, y)).expect("tile should exist");
                *tile = value;
                proof {
                    assert(values@ =~= given.take(values@.len() as int));
                }
                x += 1;
            }
            proof {
                assert((y + 1) * N == y * N + N) by (nonlinear_arith);
            }
            y += 1;
        }
        proof {
            assert(grid@ =~= Self::dealt(given));
        }
        grid
    }

    /// A board dealt from `values`, or `None` where they are fewer than its
    /// cells: the last value goes to the first cell of the first row, the one
    /// before it to the next cell, and so on through the rows.
    pub fn from_values(values: Vec<TileValue>) -> (dealt: Option<Self>)
        ensures
            match dealt {
                Some(grid) => N * N <= values@.len() && grid@ == Self::dealt(values@),
                None => values@.len() < N * N,
            },
    {
        let given = values.len();
        match N.checked_mul(N) {
            Some(cells) if cells <= given => Some(Self::fill(values)),
            _ => None,
        }
    }

    /// A board for a new game: the empty cell and the tiles 1 to `N * N - 1`
    /// in an order drawn at random.
    ///
    /// No board is ruled out, so the puzzle that comes out may be one that no
    /// sequence of shifts solves.
    pub fn new() -> (grid: Self)
        requires
            N * N <= u32::MAX,
        ensures
            grid@.to_multiset() == pool((N * N) as nat).to_multiset(),
            0 < N ==> grid.is_arrangement(),
    {
        // All tile values, the empty one first
        let count = (N * N) as u32;
        let mut values: Vec<TileValue> = Vec::new();
        let mut value: u32 = 0;
        while value < count
            invariant
                value <= count,
                values@ == pool(value as nat),
            decreases count - value,
        {
            values.push(
                if value == 0 {
                    None
                } else {
                    Some(value)
                },
            );
            proof {
                assert(values@ =~= pool((value + 1) as nat));
            }
            value += 1;
        }

        // Shuffle them
        let mut rng = rand::thread_rng();
        shuffle(&mut values, &mut rng);

        proof {
            vstd::seq_lib::to_multiset_len(values@);
            vstd::seq_lib::to_multiset_len(pool(count as nat));
            Self::lemma_dealt_keeps_values(values@);
            if 0 < N {
                assert(0 < N * N) by (nonlinear_arith)
                    requires
                        0 < N,
                ;
                lemma_pool_counts(count as nat);
            }
        }
        Self::fill(values)
    }
}

} // verus!
