//! The search for the empty cell nearest to a tile: rings of growing
//! distance, and within a ring the four directions clockwise from up.

use crate::grid::Grid;
use vstd::prelude::*;

verus! {

/// The coordinate that lies `dist` steps from `(x, y)` in direction `dir`:
/// 0 is up, 1 right, 2 down, 3 left.
pub open spec fn probe(x: int, y: int, dist: int, dir: int) -> (int, int) {
    if dir == 0 {
        (x, y - dist)
    } else if dir == 1 {
        (x + dist, y)
    } else if dir == 2 {
        (x, y + dist)
    } else {
        (x - dist, y)
    }
}

/// The order in which the search probes: the probe at ring `d1`, direction
/// `r1`, comes before the one at ring `d2`, direction `r2`.
pub open spec fn probed_before(d1: int, r1: int, d2: int, r2: int) -> bool {
    d1 < d2 || (d1 == d2 && r1 < r2)
}

/// Both coordinates as indices, or `None` where one is negative.
pub fn isize_to_usize_pairs(x: isize, y: isize) -> (pair: Option<(usize, usize)>)
    ensures
        match pair {
            Some(p) => 0 <= x && 0 <= y && p.0 == x && p.1 == y,
            None => x < 0 || y < 0,
        },
{
    let x: usize = x.try_into().ok()?;
    let y: usize = y.try_into().ok()?;
    Some((x, y))
}

/// A side whose square a `usize` holds can be doubled within an `isize`.
proof fn lemma_side_is_small(n: int)
    requires
        0 <= n,
        n * n <= usize::MAX,
    ensures
        2 * n <= isize::MAX,
{
    assert(usize::MAX == 2 * isize::MAX + 1);
    assert(2 * n <= isize::MAX) by (nonlinear_arith)
        requires
            0 <= n,
            n * n <= 2 * isize::MAX + 1,
            isize::MAX >= 0x7fff_ffff,
    ;
}

impl<const N: usize> Grid<N> {
    /// Whether the probe at ring `dist`, direction `dir`, from `(x, y)` is
    /// one the search makes and lands on an empty cell of the board.
    pub open spec fn hit(&self, x: int, y: int, dist: int, dir: int) -> bool {
        &&& 0 <= dist < N
        &&& 0 <= dir < 4
        &&& self.is_empty_at(probe(x, y, dist, dir).0, probe(x, y, dist, dir).1)
    }

    /// Whether the probe at ring `dist`, direction `dir`, is the first of the
    /// search from `(x, y)` to land on an empty cell.
    pub open spec fn first_hit(&self, x: int, y: int, dist: int, dir: int) -> bool {
        &&& self.hit(x, y, dist, dir)
        &&& forall|d: int, r: int|
            probed_before(d, r, dist, dir) ==> !#[trigger] self.hit(x, y, d, r)
    }

    /// The empty cell that the search from `(x, y)` finds: none unless
    /// `(x, y)` holds a tile, and else where the first probe to land on an
    /// empty cell landed, if any did.
    pub open spec fn nearest_empty(&self, x: int, y: int) -> Option<(int, int)> {
        if self.is_tile_at(x, y) && exists|dist: int, dir: int| self.first_hit(x, y, dist, dir) {
            let (dist, dir) = choose|dist: int, dir: int| self.first_hit(x, y, dist, dir);
            Some(probe(x, y, dist, dir))
        } else {
            None
        }
    }

    /// Whether `(i, j)` lies strictly between `(x, y)` and `(ex, ey)` on a row
    /// or a column that holds both.
    pub open spec fn between(x: int, y: int, ex: int, ey: int, i: int, j: int) -> bool {
        ||| i == x && ex == x && (ey < j < y || y < j < ey)
        ||| j == y && ey == y && (ex < i < x || x < i < ex)
    }

    /// At most one probe is the first to land on an empty cell, so the search
    /// from a tile finds where that probe landed.
    pub proof fn lemma_first_hit_found(&self, x: int, y: int, dist: int, dir: int)
        requires
            self.is_tile_at(x, y),
            self.first_hit(x, y, dist, dir),
        ensures
            self.nearest_empty(x, y) == Some(probe(x, y, dist, dir)),
    {
        let (d, r) = choose|d: int, r: int| self.first_hit(x, y, d, r);
        assert(self.first_hit(x, y, d, r));
        if probed_before(d, r, dist, dir) {
            assert(!self.hit(x, y, d, r));
        }
        if probed_before(dist, dir, d, r) {
            assert(!self.hit(x, y, dist, dir));
        }
    }

    /// Where two empty cells lie at the same distance from a tile, in the
    /// directions `dir` and `other`, and no empty cell lies nearer on its row
    /// or column nor at that distance in a direction before `dir`, the search
    /// finds the one whose direction comes first clockwise from up; so of one
    /// straight above and any other, it finds the one above.
    pub proof fn lemma_direction_priority(&self, x: int, y: int, dist: int, dir: int, other: int)
        requires
            self.is_tile_at(x, y),
            self.hit(x, y, dist, dir),
            self.hit(x, y, dist, other),
            dir < other,
            forall|r: int| 0 <= r < dir ==> !self.hit(x, y, dist, r),
            forall|d: int, r: int| 0 <= d < dist ==> !#[trigger] self.hit(x, y, d, r),
        ensures
            self.nearest_empty(x, y) == Some(probe(x, y, dist, dir)),
            dir == 0 ==> self.nearest_empty(x, y) == Some((x, y - dist)),
    {
        self.lemma_first_hit_found(x, y, dist, dir);
    }

    /// What the search finds is an empty cell of the board, on the row or the
    /// column of the tile it started from, with nothing but tiles between the
    /// two.
    pub proof fn lemma_nearest_empty(&self, x: int, y: int)
        requires
            self.nearest_empty(x, y) is Some,
        ensures
            self.is_tile_at(x, y),
            ({
                let (ex, ey) = self.nearest_empty(x, y).unwrap();
                &&& self.is_empty_at(ex, ey)
                &&& (ex == x) != (ey == y)
                &&& forall|i: int, j: int|
                    Self::between(x, y, ex, ey, i, j) ==> #[trigger] self.is_tile_at(i, j)
            }),
    {
        let (dist, dir) = choose|dist: int, dir: int| self.first_hit(x, y, dist, dir);
        let (ex, ey) = probe(x, y, dist, dir);
        assert(self.first_hit(x, y, dist, dir));
        assert(dist != 0);
        assert forall|i: int, j: int| Self::between(x, y, ex, ey, i, j) implies self.is_tile_at(
            i,
            j,
        ) by {
            let d = if i == x {
                if j < y {
                    y - j
                } else {
                    j - y
                }
            } else {
                if i < x {
                    x - i
                } else {
                    i - x
                }
            };
            assert(probe(x, y, d, dir) == (i, j));
            assert(probed_before(d, dir, dist, dir));
            assert(!self.hit(x, y, d, dir));
        }
    }

    /// A search that does not start from a tile of the board finds nothing.
    pub proof fn lemma_no_tile_no_search(&self, x: int, y: int)
        requires
            !self.is_tile_at(x, y),
        ensures
            self.nearest_empty(x, y) is None,
    {
    }

    /// The empty cell nearest to the tile at `(x, y)` on its row and column.
    ///
    /// Nothing is found from a cell that is empty or off the board. From a
    /// tile, the rings of distance 0 to `N - 1` are probed in turn, each of
    /// them up, right, down and left; probes off the board are passed over,
    /// and the first probed cell that is empty is the result.
    pub fn find_empty(&self, x: usize, y: usize) -> (found: Option<(usize, usize)>)
        ensures
            self.nearest_empty(x as int, y as int) == match found {
                Some(p) => Some((p.0 as int, p.1 as int)),
                None => None,
            },
            found matches Some(p) ==> self.is_tile_at(x as int, y as int) && self.is_empty_at(
                p.0 as int,
                p.1 as int,
            ) && (p.0 == x) != (p.1 == y),
    {
        // The starting cell must be on the board and hold a tile
        match self.get((x, y)) {
            Some(tile) => {
                if tile.is_none() {
                    return None;
                }
            },
            None => {
                return None;
            },
        }

        proof {
            use_type_invariant(self);
            lemma_side_is_small(N as int);
        }
        let (start_x, start_y) = (x as isize, y as isize);

        // Cardinal directions, clockwise from the top
        let directions: [(isize, isize); 4] = [(0, -1), (1, 0), (0, 1), (-1, 0)];

        // Search ring by ring, up to the length of the board
        let size = N as isize;
        let mut dist: isize = 0;
        while dist < size
            invariant
                0 <= dist <= size,
                size == N,
                start_x == x,
                start_y == y,
                2 * N <= isize::MAX,
                directions[0] == (0isize, -1isize),
                directions[1] == (1isize, 0isize),
                directions[2] == (0isize, 1isize),
                directions[3] == (-1isize, 0isize),
                self.is_tile_at(x as int, y as int),
                forall|d: int, r: int| d < dist ==> !#[trigger] self.hit(x as int, y as int, d, r),
            decreases size - dist,
        {
            let mut dir: usize = 0;
            while dir < 4
                invariant
                    0 <= dist < size,
                    size == N,
                    dir <= 4,
                    start_x == x,
                    start_y == y,
                    2 * N <= isize::MAX,
                    directions[0] == (0isize, -1isize),
                    directions[1] == (1isize, 0isize),
                    directions[2] == (0isize, 1isize),
                    directions[3] == (-1isize, 0isize),
                    self.is_tile_at(x as int, y as int),
                    forall|d: int, r: int|
                        d < dist ==> !#[trigger] self.hit(x as int, y as int, d, r),
                    forall|r: int| r < dir ==> !#[trigger] self.hit(x as int, y as int, dist as int, r),
                decreases 4 - dir,
            {
                let (dx, dy) = directions[dir];
                assert(dx * dist == if dx == 0 {
                    0
                } else if dx == 1 {
                    dist as int
                } else {
                    -dist
                } && dy * dist == if dy == 0 {
                    0
                } else if dy == 1 {
                    dist as int
                } else {
                    -dist
                }) by (nonlinear_arith)
                    requires
                        dx == 0 || dx == 1 || dx == -1,
                        dy == 0 || dy == 1 || dy == -1,
                ;
                let (px, py) = (start_x + dx * dist, start_y + dy * dist);
                assert((px as int, py as int) == probe(x as int, y as int, dist as int, dir as int));

                // Probes off the board are passed over
                if let Some((px, py)) = isize_to_usize_pairs(px, py) {
                    if let Some(tile) = self.get((px, py)) {
                        if tile.is_none() {
                            proof {
                                assert(self.hit(x as int, y as int, dist as int, dir as int));
                                self.lemma_first_hit_found(
                                    x as int,
                                    y as int,
                                    dist as int,
                                    dir as int,
                                );
                            }
                            return Some((px, py));
                        }
                    }
                }
                dir += 1;
            }
            dist += 1;
        }

        None
    }
}

} // verus!
