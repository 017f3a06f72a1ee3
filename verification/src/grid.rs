//! The sparse grid: the authoritative store of all cells the simulation
//! tracks — live cells plus every cell adjacent to a live cell (the
//! "penumbra").  Entries are kept strictly sorted by row-major coordinate
//! order, which makes tracked coordinates unique and gives rendering a
//! deterministic iteration order.

use vstd::prelude::*;
use crate::model::{in_core, live_neighbor_count, Point};

verus! {

/// The state of one tracked cell.  A cell absent from the grid is
/// implicitly Dead.
#[derive(Clone, Copy, PartialEq, Eq, Structural, Debug)]
pub enum CellState {
    Alive,
    Dead,
}

impl CellState {
    /// Pure negation of a cell state.
    pub fn flip(self) -> (r: CellState)
        ensures
            (r is Alive) == (self is Dead),
    {
        match self {
            CellState::Alive => CellState::Dead,
            CellState::Dead => CellState::Alive,
        }
    }

    /// A human-readable name for the state.
    pub fn name(self) -> (r: &'static str)
        ensures
            self is Alive ==> r@ == "Alive"@,
            self is Dead ==> r@ == "Dead"@,
    {
        match self {
            CellState::Alive => "Alive",
            CellState::Dead => "Dead",
        }
    }
}

/// A lattice coordinate: an ordered pair of signed integers.
#[derive(Clone, Copy, PartialEq, Eq, Structural, Debug)]
pub struct Coord {
    pub x: i32,
    pub y: i32,
}

/// The largest coordinate magnitude the grid may track.  Keeping every
/// tracked cell within this core leaves ample room for the +/-1 neighbor
/// arithmetic of stepping and activation in `i32`.
pub const COORD_LIMIT: i32 = 0x4000_0000;

/// Row-major rank of a coordinate: cells are ordered by `y` first, then
/// by `x`.  Since `x` spans fewer than 2^32 values, the rank is injective
/// and its numeric order is exactly the lexicographic `(y, x)` order.
pub open spec fn coord_key(c: Coord) -> int {
    (c.y as int) * 0x1_0000_0000 + (c.x as int)
}

/// The rank order agrees with the lexicographic `(y, x)` order, and equal
/// ranks mean equal coordinates.
pub proof fn lemma_key_order(a: Coord, b: Coord)
    ensures
        (coord_key(a) < coord_key(b)) == (a.y < b.y || (a.y == b.y && a.x < b.x)),
        (coord_key(a) == coord_key(b)) == (a.x == b.x && a.y == b.y),
{
}

impl Coord {
    /// Whether `self` comes strictly before `other` in the row-major
    /// iteration order: compare `y` first, then `x`.
    pub fn precedes(self, other: Coord) -> (r: bool)
        ensures
            r == (coord_key(self) < coord_key(other)),
    {
        proof {
            lemma_key_order(self, other);
        }
        self.y < other.y || (self.y == other.y && self.x < other.x)
    }
}

/// One tracked cell: a coordinate and its stored state.
#[derive(Clone, Copy)]
pub struct Entry {
    pub coord: Coord,
    pub state: CellState,
}

/// Whether some entry of `s` is at `(x, y)`.
pub open spec fn seq_tracked(s: Seq<Entry>, x: int, y: int) -> bool {
    exists|i: int|
        0 <= i < s.len() && s[i].coord.x as int == x && s[i].coord.y as int == y
}

/// Whether some entry of `s` is at `(x, y)` and Alive.
pub open spec fn seq_live(s: Seq<Entry>, x: int, y: int) -> bool {
    exists|i: int|
        0 <= i < s.len() && s[i].coord.x as int == x && s[i].coord.y as int == y && s[i].state
            is Alive
}

/// Entries strictly sorted by row-major rank (hence coordinates unique).
pub open spec fn seq_sorted(s: Seq<Entry>) -> bool {
    forall|i: int, j: int|
        0 <= i < j < s.len() ==> coord_key(#[trigger] s[i].coord) < coord_key(#[trigger] s[j].coord)
}

/// Every entry lies within the coordinate core.
pub open spec fn seq_in_core(s: Seq<Entry>) -> bool {
    forall|i: int|
        0 <= i < s.len() ==> in_core(
            (#[trigger] s[i]).coord.x as int,
            s[i].coord.y as int,
            COORD_LIMIT as int,
        )
}

/// Two entries at the same coordinate are the same entry.
pub proof fn lemma_unique_index(s: Seq<Entry>, i: int, j: int)
    requires
        seq_sorted(s),
        0 <= i < s.len(),
        0 <= j < s.len(),
        s[i].coord.x == s[j].coord.x,
        s[i].coord.y == s[j].coord.y,
    ensures
        i == j,
{
    lemma_key_order(s[i].coord, s[j].coord);
    if i < j {
        assert(false);
    }
    if j < i {
        assert(false);
    }
}

/// An entry found at `(x, y)` settles both trackedness and liveness of
/// that cell.
pub proof fn lemma_found_state(s: Seq<Entry>, i: int, x: int, y: int)
    requires
        seq_sorted(s),
        0 <= i < s.len(),
        s[i].coord.x as int == x,
        s[i].coord.y as int == y,
    ensures
        seq_tracked(s, x, y),
        seq_live(s, x, y) == (s[i].state is Alive),
{
    if seq_live(s, x, y) {
        let j = choose|j: int|
            0 <= j < s.len() && s[j].coord.x as int == x && s[j].coord.y as int == y && s[j].state
                is Alive;
        lemma_unique_index(s, i, j);
    }
}

/// Overwriting the entry at index `i` with one at the same coordinate
/// changes the liveness of that coordinate alone.
pub proof fn lemma_update_effect(s: Seq<Entry>, i: int, e: Entry)
    requires
        seq_sorted(s),
        0 <= i < s.len(),
        s[i].coord.x == e.coord.x,
        s[i].coord.y == e.coord.y,
    ensures
        seq_sorted(s.update(i, e)),
        seq_in_core(s) && in_core(e.coord.x as int, e.coord.y as int, COORD_LIMIT as int)
            ==> seq_in_core(s.update(i, e)),
        forall|x: int, y: int| seq_tracked(s.update(i, e), x, y) == seq_tracked(s, x, y),
        forall|x: int, y: int|
            seq_live(s.update(i, e), x, y) == (if x == e.coord.x as int && y == e.coord.y as int {
                e.state is Alive
            } else {
                seq_live(s, x, y)
            }),
{
    let t = s.update(i, e);
    assert(e.coord == s[i].coord);
    assert forall|k: int| 0 <= k < t.len() implies #[trigger] t[k].coord == s[k].coord by {
        if k != i {
            assert(t[k] == s[k]);
        }
    }
    assert forall|x: int, y: int| seq_tracked(t, x, y) == seq_tracked(s, x, y) by {
        if seq_tracked(s, x, y) {
            let k = choose|k: int|
                0 <= k < s.len() && s[k].coord.x as int == x && s[k].coord.y as int == y;
            assert(t[k].coord == s[k].coord);
            assert(seq_tracked(t, x, y));
        }
        if seq_tracked(t, x, y) {
            let k = choose|k: int|
                0 <= k < t.len() && t[k].coord.x as int == x && t[k].coord.y as int == y;
            assert(t[k].coord == s[k].coord);
            assert(seq_tracked(s, x, y));
        }
    }
    assert forall|x: int, y: int|
        seq_live(t, x, y) == (if x == e.coord.x as int && y == e.coord.y as int {
            e.state is Alive
        } else {
            seq_live(s, x, y)
        }) by {
        if x == e.coord.x as int && y == e.coord.y as int {
            assert(t[i] == e);
            if e.state is Alive {
                assert(seq_live(t, x, y));
            }
            if seq_live(t, x, y) {
                let k = choose|k: int|
                    0 <= k < t.len() && t[k].coord.x as int == x && t[k].coord.y as int == y
                        && t[k].state is Alive;
                lemma_unique_index(t, i, k);
            }
        } else {
            if seq_live(s, x, y) {
                let k = choose|k: int|
                    0 <= k < s.len() && s[k].coord.x as int == x && s[k].coord.y as int == y
                        && s[k].state is Alive;
                assert(k != i);
                assert(t[k] == s[k]);
                assert(seq_live(t, x, y));
            }
            if seq_live(t, x, y) {
                let k = choose|k: int|
                    0 <= k < t.len() && t[k].coord.x as int == x && t[k].coord.y as int == y
                        && t[k].state is Alive;
                assert(k != i);
                assert(t[k] == s[k]);
                assert(seq_live(s, x, y));
            }
        }
    }
}

/// Inserting an entry at its sorted position keeps the order and adds
/// exactly that coordinate to the tracked set.
pub proof fn lemma_insert_effect(s: Seq<Entry>, i: int, e: Entry)
    requires
        seq_sorted(s),
        0 <= i <= s.len(),
        forall|k: int| 0 <= k < i ==> coord_key(#[trigger] s[k].coord) < coord_key(e.coord),
        forall|k: int| i <= k < s.len() ==> coord_key(#[trigger] s[k].coord) > coord_key(e.coord),
    ensures
        seq_sorted(s.insert(i, e)),
        seq_in_core(s) && in_core(e.coord.x as int, e.coord.y as int, COORD_LIMIT as int)
            ==> seq_in_core(s.insert(i, e)),
        !seq_tracked(s, e.coord.x as int, e.coord.y as int),
        forall|x: int, y: int|
            seq_tracked(s.insert(i, e), x, y) == (seq_tracked(s, x, y) || (x == e.coord.x as int
                && y == e.coord.y as int)),
        forall|x: int, y: int|
            seq_live(s.insert(i, e), x, y) == (if x == e.coord.x as int && y == e.coord.y as int {
                e.state is Alive
            } else {
                seq_live(s, x, y)
            }),
{
    let t = s.insert(i, e);
    s.insert_ensures(i, e);
    assert forall|k: int| 0 <= k < s.len() implies coord_key(#[trigger] s[k].coord) != coord_key(
        e.coord,
    ) by {
        if k < i {
        } else {
        }
    }
    if seq_tracked(s, e.coord.x as int, e.coord.y as int) {
        let k = choose|k: int|
            0 <= k < s.len() && s[k].coord.x as int == e.coord.x as int && s[k].coord.y as int
                == e.coord.y as int;
        lemma_key_order(s[k].coord, e.coord);
        assert(false);
    }
    assert forall|k1: int, k2: int| 0 <= k1 < k2 < t.len() implies coord_key(
        #[trigger] t[k1].coord,
    ) < coord_key(#[trigger] t[k2].coord) by {
        if k1 < i {
            assert(t[k1] == s[k1]);
        } else if k1 == i {
            assert(t[k1] == e);
        } else {
            assert(t[k1] == s[k1 - 1]);
        }
        if k2 < i {
            assert(t[k2] == s[k2]);
        } else if k2 == i {
            assert(t[k2] == e);
        } else {
            assert(t[k2] == s[k2 - 1]);
        }
    }
    assert forall|x: int, y: int|
        seq_tracked(t, x, y) == (seq_tracked(s, x, y) || (x == e.coord.x as int && y
            == e.coord.y as int)) by {
        if seq_tracked(s, x, y) {
            let k = choose|k: int|
                0 <= k < s.len() && s[k].coord.x as int == x && s[k].coord.y as int == y;
            if k < i {
                assert(t[k] == s[k]);
            } else {
                assert(t[k + 1] == s[k]);
            }
            assert(seq_tracked(t, x, y));
        }
        if x == e.coord.x as int && y == e.coord.y as int {
            assert(t[i] == e);
            assert(seq_tracked(t, x, y));
        }
        if seq_tracked(t, x, y) {
            let k = choose|k: int|
                0 <= k < t.len() && t[k].coord.x as int == x && t[k].coord.y as int == y;
            if k < i {
                assert(t[k] == s[k]);
                assert(seq_tracked(s, x, y));
            } else if k == i {
                assert(t[k] == e);
            } else {
                assert(t[k] == s[k - 1]);
                assert(seq_tracked(s, x, y));
            }
        }
    }
    assert forall|x: int, y: int|
        seq_live(t, x, y) == (if x == e.coord.x as int && y == e.coord.y as int {
            e.state is Alive
        } else {
            seq_live(s, x, y)
        }) by {
        if x == e.coord.x as int && y == e.coord.y as int {
            assert(t[i] == e);
            if e.state is Alive {
                assert(seq_live(t, x, y));
            }
            if seq_live(t, x, y) {
                let k = choose|k: int|
                    0 <= k < t.len() && t[k].coord.x as int == x && t[k].coord.y as int == y
                        && t[k].state is Alive;
                if k < i {
                    assert(t[k] == s[k]);
                    lemma_key_order(s[k].coord, e.coord);
                    assert(false);
                } else if k > i {
                    assert(t[k] == s[k - 1]);
                    lemma_key_order(s[k - 1].coord, e.coord);
                    assert(false);
                }
                assert(t[i].state is Alive);
            }
        } else {
            if seq_live(s, x, y) {
                let k = choose|k: int|
                    0 <= k < s.len() && s[k].coord.x as int == x && s[k].coord.y as int == y
                        && s[k].state is Alive;
                if k < i {
                    assert(t[k] == s[k]);
                } else {
                    assert(t[k + 1] == s[k]);
                }
                assert(seq_live(t, x, y));
            }
            if seq_live(t, x, y) {
                let k = choose|k: int|
                    0 <= k < t.len() && t[k].coord.x as int == x && t[k].coord.y as int == y
                        && t[k].state is Alive;
                if k < i {
                    assert(t[k] == s[k]);
                    assert(seq_live(s, x, y));
                } else if k == i {
                    assert(t[k] == e);
                } else {
                    assert(t[k] == s[k - 1]);
                    assert(seq_live(s, x, y));
                }
            }
        }
    }
}

/// Removing the entry at index `i` removes exactly that coordinate from
/// the tracked set.
pub proof fn lemma_remove_effect(s: Seq<Entry>, i: int)
    requires
        seq_sorted(s),
        0 <= i < s.len(),
    ensures
        seq_sorted(s.remove(i)),
        seq_in_core(s) ==> seq_in_core(s.remove(i)),
        forall|x: int, y: int|
            seq_tracked(s.remove(i), x, y) == (seq_tracked(s, x, y) && !(x == s[i].coord.x as int
                && y == s[i].coord.y as int)),
        forall|x: int, y: int|
            seq_live(s.remove(i), x, y) == (seq_live(s, x, y) && !(x == s[i].coord.x as int && y
                == s[i].coord.y as int)),
{
    let t = s.remove(i);
    s.remove_ensures(i);
    assert forall|x: int, y: int|
        seq_tracked(t, x, y) == (seq_tracked(s, x, y) && !(x == s[i].coord.x as int && y
            == s[i].coord.y as int)) by {
        if seq_tracked(t, x, y) {
            let k = choose|k: int|
                0 <= k < t.len() && t[k].coord.x as int == x && t[k].coord.y as int == y;
            if k < i {
                assert(t[k] == s[k]);
                assert(seq_tracked(s, x, y));
                if x == s[i].coord.x as int && y == s[i].coord.y as int {
                    lemma_unique_index(s, k, i);
                }
            } else {
                assert(t[k] == s[k + 1]);
                assert(seq_tracked(s, x, y));
                if x == s[i].coord.x as int && y == s[i].coord.y as int {
                    lemma_unique_index(s, k + 1, i);
                }
            }
        }
        if seq_tracked(s, x, y) && !(x == s[i].coord.x as int && y == s[i].coord.y as int) {
            let k = choose|k: int|
                0 <= k < s.len() && s[k].coord.x as int == x && s[k].coord.y as int == y;
            assert(k != i);
            if k < i {
                assert(t[k] == s[k]);
            } else {
                assert(t[k - 1] == s[k]);
            }
            assert(seq_tracked(t, x, y));
        }
    }
    assert forall|x: int, y: int|
        seq_live(t, x, y) == (seq_live(s, x, y) && !(x == s[i].coord.x as int && y
            == s[i].coord.y as int)) by {
        if seq_live(t, x, y) {
            let k = choose|k: int|
                0 <= k < t.len() && t[k].coord.x as int == x && t[k].coord.y as int == y
                    && t[k].state is Alive;
            if k < i {
                assert(t[k] == s[k]);
                assert(seq_live(s, x, y));
                if x == s[i].coord.x as int && y == s[i].coord.y as int {
                    lemma_unique_index(s, k, i);
                }
            } else {
                assert(t[k] == s[k + 1]);
                assert(seq_live(s, x, y));
                if x == s[i].coord.x as int && y == s[i].coord.y as int {
                    lemma_unique_index(s, k + 1, i);
                }
            }
        }
        if seq_live(s, x, y) && !(x == s[i].coord.x as int && y == s[i].coord.y as int) {
            let k = choose|k: int|
                0 <= k < s.len() && s[k].coord.x as int == x && s[k].coord.y as int == y
                    && s[k].state is Alive;
            assert(k != i);
            if k < i {
                assert(t[k] == s[k]);
            } else {
                assert(t[k - 1] == s[k]);
            }
            assert(seq_live(t, x, y));
        }
    }
}

/// Whether some point of the seed sequence equals `(x, y)`.
pub open spec fn seed_contains(pts: Seq<Coord>, x: int, y: int) -> bool {
    exists|k: int| 0 <= k < pts.len() && pts[k].x as int == x && pts[k].y as int == y
}

/// Whether `(x, y)` lies in the 3x3 block of some point of the seed
/// sequence: exactly the cells that seeding may add to the tracked set.
pub open spec fn seed_blocks(pts: Seq<Coord>, x: int, y: int) -> bool {
    exists|k: int|
        0 <= k < pts.len() && -1 <= x - (#[trigger] pts[k]).x as int <= 1 && -1 <= y
            - pts[k].y as int <= 1
}

/// Extending the scanned prefix of a seed by one point adds exactly that
/// point's coordinate.
proof fn lemma_seed_take_step(pts: Seq<Coord>, k: int)
    requires
        0 <= k < pts.len(),
    ensures
        forall|x: int, y: int|
            seed_contains(pts.take(k + 1), x, y) == (seed_contains(pts.take(k), x, y) || (
            pts[k].x as int == x && pts[k].y as int == y)),
{
    assert forall|x: int, y: int|
        seed_contains(pts.take(k + 1), x, y) == (seed_contains(pts.take(k), x, y) || (
        pts[k].x as int == x && pts[k].y as int == y)) by {
        let a = pts.take(k);
        let b = pts.take(k + 1);
        if seed_contains(b, x, y) {
            let j = choose|j: int|
                0 <= j < b.len() && (#[trigger] b[j]).x as int == x && b[j].y as int == y;
            if j < k {
                assert(a[j] == pts[j]);
                assert(b[j] == pts[j]);
                assert(seed_contains(a, x, y));
            } else {
                assert(b[j] == pts[k]);
            }
        }
        if seed_contains(a, x, y) {
            let j = choose|j: int|
                0 <= j < a.len() && (#[trigger] a[j]).x as int == x && a[j].y as int == y;
            assert(a[j] == pts[j]);
            assert(b[j] == pts[j]);
            assert(seed_contains(b, x, y));
        }
        if pts[k].x as int == x && pts[k].y as int == y {
            assert(b[k] == pts[k]);
            assert(seed_contains(b, x, y));
        }
    }
}

/// Extending the scanned prefix of a seed by one point adds exactly that
/// point's 3x3 block to the blocks predicate.
proof fn lemma_blocks_take_step(pts: Seq<Coord>, k: int)
    requires
        0 <= k < pts.len(),
    ensures
        forall|x: int, y: int|
            seed_blocks(pts.take(k + 1), x, y) == (seed_blocks(pts.take(k), x, y) || (-1 <= x
                - pts[k].x as int <= 1 && -1 <= y - pts[k].y as int <= 1)),
{
    assert forall|x: int, y: int|
        seed_blocks(pts.take(k + 1), x, y) == (seed_blocks(pts.take(k), x, y) || (-1 <= x
            - pts[k].x as int <= 1 && -1 <= y - pts[k].y as int <= 1)) by {
        let a = pts.take(k);
        let b = pts.take(k + 1);
        if seed_blocks(b, x, y) {
            let j = choose|j: int|
                0 <= j < b.len() && -1 <= x - (#[trigger] b[j]).x as int <= 1 && -1 <= y
                    - b[j].y as int <= 1;
            if j < k {
                assert(a[j] == pts[j]);
                assert(b[j] == pts[j]);
                assert(seed_blocks(a, x, y));
            } else {
                assert(b[j] == pts[k]);
            }
        }
        if seed_blocks(a, x, y) {
            let j = choose|j: int|
                0 <= j < a.len() && -1 <= x - (#[trigger] a[j]).x as int <= 1 && -1 <= y
                    - a[j].y as int <= 1;
            assert(a[j] == pts[j]);
            assert(b[j] == pts[j]);
            assert(seed_blocks(b, x, y));
        }
        if -1 <= x - pts[k].x as int <= 1 && -1 <= y - pts[k].y as int <= 1 {
            assert(b[k] == pts[k]);
            assert(seed_blocks(b, x, y));
        }
    }
}

/// A sparse, effectively infinite Life grid: finitely many tracked cells,
/// strictly sorted by row-major coordinate order.  Any cell not tracked
/// is Dead.
pub struct SparseGrid {
    cells: Vec<Entry>,
}

impl SparseGrid {
    /// The tracked entries, in iteration order.
    pub closed spec fn entries(self) -> Seq<Entry> {
        self.cells@
    }

    /// Well-formed: entries strictly sorted by row-major rank (hence the
    /// tracked coordinates are unique) and within the coordinate core.
    pub open spec fn wf(self) -> bool {
        seq_sorted(self.entries()) && seq_in_core(self.entries())
    }

    /// Whether `(x, y)` is present in the tracking map.
    pub open spec fn tracked_at(self, x: int, y: int) -> bool {
        seq_tracked(self.entries(), x, y)
    }

    /// Whether `(x, y)` is a live cell.
    pub open spec fn live_at(self, x: int, y: int) -> bool {
        seq_live(self.entries(), x, y)
    }

    /// The set of live cells, as a subset of the infinite lattice.
    pub open spec fn live_set(self) -> Set<Point> {
        Set::new(|p: Point| self.live_at(p.0, p.1))
    }

    /// The tracked coordinates, in iteration order.
    pub open spec fn coord_seq(self) -> Seq<Point> {
        Seq::new(
            self.entries().len(),
            |i: int| (self.entries()[i].coord.x as int, self.entries()[i].coord.y as int),
        )
    }

    /// The penumbra invariant: every cell adjacent to a live cell is
    /// tracked, so the next generation can be computed by visiting
    /// tracked cells alone.
    pub open spec fn penumbra_ok(self) -> bool {
        forall|x: int, y: int| #[trigger]
            self.live_at(x, y) ==> self.tracked_at(x - 1, y - 1) && self.tracked_at(x, y - 1)
                && self.tracked_at(x + 1, y - 1) && self.tracked_at(x - 1, y) && self.tracked_at(
                x + 1,
                y,
            ) && self.tracked_at(x - 1, y + 1) && self.tracked_at(x, y + 1) && self.tracked_at(
                x + 1,
                y + 1,
            )
    }

    /// Every live cell lies within `|x| <= b`, `|y| <= b`.
    pub open spec fn live_bounded(self, b: int) -> bool {
        forall|x: int, y: int| #[trigger] self.live_at(x, y) ==> in_core(x, y, b)
    }

    /// The whole 3x3 block centered on `(cx, cy)` is tracked.
    pub open spec fn block_tracked(self, cx: int, cy: int) -> bool {
        self.tracked_at(cx - 1, cy - 1) && self.tracked_at(cx, cy - 1) && self.tracked_at(
            cx + 1,
            cy - 1,
        ) && self.tracked_at(cx - 1, cy) && self.tracked_at(cx, cy) && self.tracked_at(cx + 1, cy)
            && self.tracked_at(cx - 1, cy + 1) && self.tracked_at(cx, cy + 1) && self.tracked_at(
            cx + 1,
            cy + 1,
        )
    }

    /// An empty grid: nothing tracked, everything Dead.
    pub fn new() -> (g: SparseGrid)
        ensures
            g.wf(),
            forall|x: int, y: int| !(#[trigger] g.tracked_at(x, y)),
            forall|x: int, y: int| !(#[trigger] g.live_at(x, y)),
            g.penumbra_ok(),
    {
        let g = SparseGrid { cells: Vec::new() };
        proof {
            assert(g.entries().len() == 0);
        }
        g
    }

    /// The number of tracked cells.
    pub fn len(&self) -> (n: usize)
        ensures
            n == self.entries().len(),
    {
        self.cells.len()
    }

    /// The `i`-th tracked cell in iteration order (row-major).
    pub fn entry_at(&self, i: usize) -> (r: (Coord, CellState))
        requires
            self.wf(),
            i < self.entries().len(),
        ensures
            r.0 == self.entries()[i as int].coord,
            r.1 == self.entries()[i as int].state,
            (r.0.x as int, r.0.y as int) == self.coord_seq()[i as int],
            self.tracked_at(r.0.x as int, r.0.y as int),
            (r.1 is Alive) == self.live_at(r.0.x as int, r.0.y as int),
            forall|j: int|
                0 <= j < i ==> coord_key(#[trigger] self.entries()[j].coord) < coord_key(r.0),
    {
        let e = self.cells[i];
        proof {
            lemma_found_state(self.entries(), i as int, e.coord.x as int, e.coord.y as int);
        }
        (e.coord, e.state)
    }

    /// The index of the entry at `c`, if `c` is tracked.
    fn find(&self, c: Coord) -> (r: Option<usize>)
        requires
            self.wf(),
        ensures
            match r {
                Some(i) => i < self.entries().len() && self.entries()[i as int].coord.x == c.x
                    && self.entries()[i as int].coord.y == c.y,
                None => !self.tracked_at(c.x as int, c.y as int),
            },
    {
        let mut i: usize = 0;
        while i < self.cells.len()
            invariant
                self.wf(),
                i <= self.entries().len(),
                forall|k: int|
                    0 <= k < i ==> !((#[trigger] self.entries()[k]).coord.x == c.x
                        && self.entries()[k].coord.y == c.y),
            decreases self.entries().len() - i,
        {
            let e = self.cells[i];
            if e.coord.x == c.x && e.coord.y == c.y {
                return Some(i);
            }
            i = i + 1;
        }
        proof {
            if self.tracked_at(c.x as int, c.y as int) {
                let k = choose|k: int|
                    0 <= k < self.entries().len() && self.entries()[k].coord.x as int == c.x as int
                        && self.entries()[k].coord.y as int == c.y as int;
                assert(false);
            }
        }
        None
    }

    /// The state of any lattice cell: the stored state if tracked, Dead
    /// otherwise.  Total over all coordinates.
    pub fn get(&self, c: Coord) -> (r: CellState)
        requires
            self.wf(),
        ensures
            (r is Alive) == self.live_at(c.x as int, c.y as int),
    {
        match self.find(c) {
            Some(i) => {
                proof {
                    lemma_found_state(self.entries(), i as int, c.x as int, c.y as int);
                }
                self.cells[i].state
            },
            None => {
                proof {
                    if self.live_at(c.x as int, c.y as int) {
                        let k = choose|k: int|
                            0 <= k < self.entries().len() && self.entries()[k].coord.x as int
                                == c.x as int && self.entries()[k].coord.y as int == c.y as int
                                && self.entries()[k].state is Alive;
                        assert(self.tracked_at(c.x as int, c.y as int));
                    }
                }
                CellState::Dead
            },
        }
    }

    /// Whether `c` is present in the tracking map (as Alive or Dead).
    pub fn is_tracked(&self, c: Coord) -> (r: bool)
        requires
            self.wf(),
        ensures
            r == self.tracked_at(c.x as int, c.y as int),
    {
        match self.find(c) {
            Some(i) => {
                proof {
                    lemma_found_state(self.entries(), i as int, c.x as int, c.y as int);
                }
                true
            },
            None => false,
        }
    }

    /// The sorted position of `c`: all earlier entries rank strictly
    /// below `c`, and the entry at the returned index (if any) ranks at
    /// or above `c`.
    fn locate(&self, c: Coord) -> (i: usize)
        requires
            self.wf(),
        ensures
            i <= self.entries().len(),
            forall|k: int| 0 <= k < i ==> coord_key(#[trigger] self.entries()[k].coord) < coord_key(c),
            i < self.entries().len() ==> coord_key(self.entries()[i as int].coord) >= coord_key(c),
    {
        let mut i: usize = 0;
        while i < self.cells.len()
            invariant
                self.wf(),
                i <= self.entries().len(),
                forall|k: int|
                    0 <= k < i ==> coord_key(#[trigger] self.entries()[k].coord) < coord_key(c),
            decreases self.entries().len() - i,
        {
            let e = self.cells[i];
            if !e.coord.precedes(c) {
                return i;
            }
            i = i + 1;
        }
        i
    }

    /// Insert or overwrite the entry for `c`.  Afterwards `c` is tracked,
    /// and live exactly when `s` is Alive; no other cell changes.
    pub fn set(&mut self, c: Coord, s: CellState)
        requires
            old(self).wf(),
            in_core(c.x as int, c.y as int, COORD_LIMIT as int),
        ensures
            final(self).wf(),
            forall|x: int, y: int|
                final(self).tracked_at(x, y) == (old(self).tracked_at(x, y) || (x == c.x as int && y
                    == c.y as int)),
            forall|x: int, y: int|
                final(self).live_at(x, y) == (if x == c.x as int && y == c.y as int {
                    s is Alive
                } else {
                    old(self).live_at(x, y)
                }),
    {
        let i = self.locate(c);
        let e = Entry { coord: c, state: s };
        if i < self.cells.len() && self.cells[i].coord.x == c.x && self.cells[i].coord.y == c.y {
            proof {
                lemma_update_effect(self.entries(), i as int, e);
                lemma_found_state(self.entries(), i as int, c.x as int, c.y as int);
            }
            self.cells[i] = e;
        } else {
            proof {
                assert forall|k: int| i <= k < self.entries().len() implies coord_key(
                    #[trigger] self.entries()[k].coord,
                ) > coord_key(e.coord) by {
                    lemma_key_order(self.entries()[i as int].coord, c);
                    if k > i {
                        assert(coord_key(self.entries()[i as int].coord) < coord_key(
                            self.entries()[k].coord,
                        ));
                    }
                }
                lemma_insert_effect(self.entries(), i as int, e);
            }
            self.cells.insert(i, e);
        }
    }

    /// Remove `c` from the tracking map, if present; `c` then reads as
    /// Dead and no other cell changes.
    pub fn remove(&mut self, c: Coord)
        requires
            old(self).wf(),
        ensures
            final(self).wf(),
            forall|x: int, y: int|
                final(self).tracked_at(x, y) == (old(self).tracked_at(x, y) && !(x == c.x as int && y
                    == c.y as int)),
            forall|x: int, y: int|
                final(self).live_at(x, y) == (old(self).live_at(x, y) && !(x == c.x as int && y
                    == c.y as int)),
    {
        match self.find(c) {
            Some(i) => {
                proof {
                    lemma_remove_effect(self.entries(), i as int);
                }
                self.cells.remove(i);
            },
            None => {
                proof {
                    assert forall|x: int, y: int|
                        self.live_at(x, y) == (self.live_at(x, y) && !(x == c.x as int && y
                            == c.y as int)) by {
                        if self.live_at(x, y) && x == c.x as int && y == c.y as int {
                            let k = choose|k: int|
                                0 <= k < self.entries().len() && self.entries()[k].coord.x as int
                                    == x && self.entries()[k].coord.y as int == y
                                    && self.entries()[k].state is Alive;
                            assert(self.tracked_at(x, y));
                        }
                    }
                }
            },
        }
    }

    /// Whether the cell at `(x, y)` is Alive.
    pub fn is_alive(&self, x: i32, y: i32) -> (r: bool)
        requires
            self.wf(),
        ensures
            r == self.live_at(x as int, y as int),
    {
        match self.get(Coord { x, y }) {
            CellState::Alive => true,
            CellState::Dead => false,
        }
    }

    /// The number of live cells among the 8 neighbors of `c` (`c` itself
    /// is never counted): the sole quantity the life rule depends on.
    pub fn neighbor_alive_count(&self, c: Coord) -> (n: u32)
        requires
            self.wf(),
            in_core(c.x as int, c.y as int, COORD_LIMIT as int),
        ensures
            n == live_neighbor_count(self.live_set(), c.x as int, c.y as int),
            n <= 8,
    {
        let mut n: u32 = 0;
        if self.is_alive(c.x - 1, c.y - 1) {
            n = n + 1;
        }
        if self.is_alive(c.x, c.y - 1) {
            n = n + 1;
        }
        if self.is_alive(c.x + 1, c.y - 1) {
            n = n + 1;
        }
        if self.is_alive(c.x - 1, c.y) {
            n = n + 1;
        }
        if self.is_alive(c.x + 1, c.y) {
            n = n + 1;
        }
        if self.is_alive(c.x - 1, c.y + 1) {
            n = n + 1;
        }
        if self.is_alive(c.x, c.y + 1) {
            n = n + 1;
        }
        if self.is_alive(c.x + 1, c.y + 1) {
            n = n + 1;
        }
        n
    }

    /// Track `c` as Dead if it is absent; leave it untouched otherwise.
    fn ensure_tracked(&mut self, c: Coord)
        requires
            old(self).wf(),
            in_core(c.x as int, c.y as int, COORD_LIMIT as int),
        ensures
            final(self).wf(),
            forall|x: int, y: int|
                final(self).tracked_at(x, y) == (old(self).tracked_at(x, y) || (x == c.x as int && y
                    == c.y as int)),
            forall|x: int, y: int| final(self).live_at(x, y) == old(self).live_at(x, y),
    {
        let i = self.locate(c);
        if i < self.cells.len() && self.cells[i].coord.x == c.x && self.cells[i].coord.y == c.y {
            proof {
                lemma_found_state(self.entries(), i as int, c.x as int, c.y as int);
            }
        } else {
            let e = Entry { coord: c, state: CellState::Dead };
            proof {
                assert forall|k: int| i <= k < self.entries().len() implies coord_key(
                    #[trigger] self.entries()[k].coord,
                ) > coord_key(e.coord) by {
                    lemma_key_order(self.entries()[i as int].coord, c);
                    if k > i {
                        assert(coord_key(self.entries()[i as int].coord) < coord_key(
                            self.entries()[k].coord,
                        ));
                    }
                }
                lemma_insert_effect(self.entries(), i as int, e);
                if seq_live(self.entries(), c.x as int, c.y as int) {
                    let k = choose|k: int|
                        0 <= k < self.entries().len() && self.entries()[k].coord.x as int
                            == c.x as int && self.entries()[k].coord.y as int == c.y as int
                            && self.entries()[k].state is Alive;
                    assert(seq_tracked(self.entries(), c.x as int, c.y as int));
                }
            }
            self.cells.insert(i, e);
        }
    }

    /// Ensure every cell of the 3x3 block centered on `c` (9 cells,
    /// including `c` itself) is tracked, inserting Dead entries for the
    /// absent ones.  No cell's life state changes.  This is the mechanism
    /// that maintains the penumbra invariant whenever a cell goes Alive.
    pub fn activate_neighbors(&mut self, c: Coord)
        requires
            old(self).wf(),
            in_core(c.x as int, c.y as int, COORD_LIMIT as int - 1),
        ensures
            final(self).wf(),
            forall|x: int, y: int| final(self).live_at(x, y) == old(self).live_at(x, y),
            forall|x: int, y: int|
                final(self).tracked_at(x, y) == (old(self).tracked_at(x, y) || (-1 <= x - c.x as int
                    <= 1 && -1 <= y - c.y as int <= 1)),
    {
        self.ensure_tracked(Coord { x: c.x - 1, y: c.y - 1 });
        self.ensure_tracked(Coord { x: c.x, y: c.y - 1 });
        self.ensure_tracked(Coord { x: c.x + 1, y: c.y - 1 });
        self.ensure_tracked(Coord { x: c.x - 1, y: c.y });
        self.ensure_tracked(Coord { x: c.x, y: c.y });
        self.ensure_tracked(Coord { x: c.x + 1, y: c.y });
        self.ensure_tracked(Coord { x: c.x - 1, y: c.y + 1 });
        self.ensure_tracked(Coord { x: c.x, y: c.y + 1 });
        self.ensure_tracked(Coord { x: c.x + 1, y: c.y + 1 });
    }

    /// Mark every seed point Alive and activate its 3x3 neighborhood:
    /// the startup seeding.  Cells that were already live stay live, the
    /// tracked set only grows, and the penumbra invariant is preserved.
    pub fn set_alive(&mut self, pts: &Vec<Coord>)
        requires
            old(self).wf(),
            forall|k: int|
                0 <= k < pts@.len() ==> in_core(
                    (#[trigger] pts@[k]).x as int,
                    pts@[k].y as int,
                    COORD_LIMIT as int - 1,
                ),
        ensures
            final(self).wf(),
            forall|x: int, y: int|
                final(self).live_at(x, y) == (old(self).live_at(x, y) || seed_contains(pts@, x, y)),
            forall|x: int, y: int|
                final(self).tracked_at(x, y) == (old(self).tracked_at(x, y) || seed_blocks(
                    pts@,
                    x,
                    y,
                )),
            old(self).penumbra_ok() ==> final(self).penumbra_ok(),
    {
        let n = pts.len();
        let mut k: usize = 0;
        while k < n
            invariant
                self.wf(),
                n == pts@.len(),
                k <= n,
                forall|j: int|
                    0 <= j < pts@.len() ==> in_core(
                        (#[trigger] pts@[j]).x as int,
                        pts@[j].y as int,
                        COORD_LIMIT as int - 1,
                    ),
                forall|x: int, y: int|
                    self.live_at(x, y) == (old(self).live_at(x, y) || seed_contains(
                        pts@.take(k as int),
                        x,
                        y,
                    )),
                forall|x: int, y: int|
                    self.tracked_at(x, y) == (old(self).tracked_at(x, y) || seed_contains(
                        pts@.take(k as int),
                        x,
                        y,
                    )),
            decreases n - k,
        {
            proof {
                lemma_seed_take_step(pts@, k as int);
            }
            self.set(pts[k], CellState::Alive);
            k = k + 1;
        }
        proof {
            assert(pts@.take(n as int) =~= pts@);
        }
        let ghost mid = *self;
        let mut k: usize = 0;
        while k < n
            invariant
                self.wf(),
                n == pts@.len(),
                k <= n,
                forall|j: int|
                    0 <= j < pts@.len() ==> in_core(
                        (#[trigger] pts@[j]).x as int,
                        pts@[j].y as int,
                        COORD_LIMIT as int - 1,
                    ),
                forall|x: int, y: int| #[trigger] self.live_at(x, y) == mid.live_at(x, y),
                forall|x: int, y: int| #[trigger]
                    self.tracked_at(x, y) == (mid.tracked_at(x, y) || seed_blocks(
                        pts@.take(k as int),
                        x,
                        y,
                    )),
            decreases n - k,
        {
            proof {
                lemma_blocks_take_step(pts@, k as int);
            }
            let ghost before = *self;
            self.activate_neighbors(pts[k]);
            proof {
                assert forall|x: int, y: int|
                    self.tracked_at(x, y) == (mid.tracked_at(x, y) || seed_blocks(
                        pts@.take(k as int + 1),
                        x,
                        y,
                    )) by {
                    assert(self.tracked_at(x, y) == (before.tracked_at(x, y) || (-1 <= x
                        - pts@[k as int].x as int <= 1 && -1 <= y - pts@[k as int].y as int <= 1)));
                    assert(before.tracked_at(x, y) == (mid.tracked_at(x, y) || seed_blocks(
                        pts@.take(k as int),
                        x,
                        y,
                    )));
                    assert(seed_blocks(pts@.take(k as int + 1), x, y) == (seed_blocks(
                        pts@.take(k as int),
                        x,
                        y,
                    ) || (-1 <= x - pts@[k as int].x as int <= 1 && -1 <= y - pts@[k as int].y as int
                        <= 1)));
                }
            }
            k = k + 1;
        }
        proof {
            assert(pts@.take(n as int) =~= pts@);
            // A seed point lies in its own 3x3 block, so the two loops
            // together add exactly the seeds' blocks to the tracked set.
            assert forall|x: int, y: int|
                seed_contains(pts@, x, y) implies seed_blocks(pts@, x, y) by {
                let j = choose|j: int|
                    0 <= j < pts@.len() && (#[trigger] pts@[j]).x as int == x && pts@[j].y as int
                        == y;
                assert(-1 <= x - pts@[j].x as int <= 1 && -1 <= y - pts@[j].y as int <= 1);
            }
            assert forall|x: int, y: int|
                self.tracked_at(x, y) == (old(self).tracked_at(x, y) || seed_blocks(
                    pts@,
                    x,
                    y,
                )) by {
                assert(self.tracked_at(x, y) == (mid.tracked_at(x, y) || seed_blocks(
                    pts@.take(n as int),
                    x,
                    y,
                )));
                assert(seed_blocks(pts@.take(n as int), x, y) == seed_blocks(pts@, x, y));
                assert(mid.tracked_at(x, y) == (old(self).tracked_at(x, y) || seed_contains(
                    pts@.take(n as int),
                    x,
                    y,
                )));
                assert(seed_contains(pts@.take(n as int), x, y) == seed_contains(pts@, x, y));
            }
            if old(self).penumbra_ok() {
                assert forall|x: int, y: int| #[trigger] self.live_at(x, y) implies self.tracked_at(
                    x - 1,
                    y - 1,
                ) && self.tracked_at(x, y - 1) && self.tracked_at(x + 1, y - 1) && self.tracked_at(
                    x - 1,
                    y,
                ) && self.tracked_at(x + 1, y) && self.tracked_at(x - 1, y + 1) && self.tracked_at(
                    x,
                    y + 1,
                ) && self.tracked_at(x + 1, y + 1) by {
                    if old(self).live_at(x, y) {
                        assert(old(self).tracked_at(x - 1, y - 1));
                        assert(old(self).tracked_at(x + 1, y + 1));
                    } else {
                        let j = choose|j: int|
                            0 <= j < pts@.len() && (#[trigger] pts@[j]).x as int == x
                                && pts@[j].y as int == y;
                        assert(seed_blocks(pts@, x - 1, y - 1));
                        assert(seed_blocks(pts@, x, y - 1));
                        assert(seed_blocks(pts@, x + 1, y - 1));
                        assert(seed_blocks(pts@, x - 1, y));
                        assert(seed_blocks(pts@, x + 1, y));
                        assert(seed_blocks(pts@, x - 1, y + 1));
                        assert(seed_blocks(pts@, x, y + 1));
                        assert(seed_blocks(pts@, x + 1, y + 1));
                    }
                }
            }
        }
    }

    /// A copy of the grid, used to seed the next-generation buffer.
    pub fn duplicate(&self) -> (g: SparseGrid)
        ensures
            g.entries() == self.entries(),
    {
        let mut v: Vec<Entry> = Vec::new();
        let mut i: usize = 0;
        while i < self.cells.len()
            invariant
                i <= self.cells@.len(),
                v@ == self.cells@.take(i as int),
            decreases self.cells@.len() - i,
        {
            v.push(self.cells[i]);
            proof {
                assert(v@ =~= self.cells@.take(i as int + 1));
            }
            i = i + 1;
        }
        proof {
            assert(v@ =~= self.cells@);
        }
        SparseGrid { cells: v }
    }
}

} // verus!
