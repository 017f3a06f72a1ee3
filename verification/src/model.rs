//! The mathematical model of the simulation: a generation is the set of
//! live cells, a subset of the infinite integer lattice.  The executable
//! grid and engine state their contracts against these functions.

use vstd::prelude::*;

verus! {

/// One lattice point, as a pair of mathematical integers `(x, y)`.
pub type Point = (int, int);

/// Whether `p` and `q` are distinct cells at Chebyshev distance 1, i.e.
/// `q` is one of the 8 neighbors of `p`.
pub open spec fn adjacent(p: Point, q: Point) -> bool {
    p != q && -1 <= p.0 - q.0 <= 1 && -1 <= p.1 - q.1 <= 1
}

/// Indicator of membership of `(x, y)` in the live set `s`.
pub open spec fn ind(s: Set<Point>, x: int, y: int) -> int {
    if s.contains((x, y)) {
        1
    } else {
        0
    }
}

/// The number of live cells among the 8 neighbors of `(x, y)`; the cell
/// itself is never counted.  This is the sole quantity the rule reads.
pub open spec fn live_neighbor_count(s: Set<Point>, x: int, y: int) -> int {
    ind(s, x - 1, y - 1) + ind(s, x, y - 1) + ind(s, x + 1, y - 1) + ind(s, x - 1, y) + ind(
        s,
        x + 1,
        y,
    ) + ind(s, x - 1, y + 1) + ind(s, x, y + 1) + ind(s, x + 1, y + 1)
}

/// The classic B3/S23 rule: a live cell survives with 2 or 3 live
/// neighbors, a dead cell is born with exactly 3, everything else dies or
/// stays dead.
pub open spec fn life_rule(s: Set<Point>, x: int, y: int) -> bool {
    if s.contains((x, y)) {
        live_neighbor_count(s, x, y) == 2 || live_neighbor_count(s, x, y) == 3
    } else {
        live_neighbor_count(s, x, y) == 3
    }
}

/// One synchronous generation over the whole infinite lattice.
pub open spec fn next_gen(s: Set<Point>) -> Set<Point> {
    Set::new(|p: Point| life_rule(s, p.0, p.1))
}

/// The live set after flipping the state of the single cell `(x, y)`.
pub open spec fn toggle_live(s: Set<Point>, x: int, y: int) -> Set<Point> {
    if s.contains((x, y)) {
        s.remove((x, y))
    } else {
        s.insert((x, y))
    }
}

/// Whether `(x, y)` lies in the square `|x| <= b`, `|y| <= b`.
pub open spec fn in_core(x: int, y: int, b: int) -> bool {
    -b <= x <= b && -b <= y <= b
}

/// If a cell has at least one live neighbor, some live cell is adjacent
/// to it.
pub proof fn lemma_count_pos_witness(s: Set<Point>, x: int, y: int)
    requires
        live_neighbor_count(s, x, y) >= 1,
    ensures
        exists|p: Point| s.contains(p) && adjacent(p, (x, y)),
{
    if s.contains((x - 1, y - 1)) {
        assert(s.contains((x - 1, y - 1)) && adjacent((x - 1, y - 1), (x, y)));
    } else if s.contains((x, y - 1)) {
        assert(s.contains((x, y - 1)) && adjacent((x, y - 1), (x, y)));
    } else if s.contains((x + 1, y - 1)) {
        assert(s.contains((x + 1, y - 1)) && adjacent((x + 1, y - 1), (x, y)));
    } else if s.contains((x - 1, y)) {
        assert(s.contains((x - 1, y)) && adjacent((x - 1, y), (x, y)));
    } else if s.contains((x + 1, y)) {
        assert(s.contains((x + 1, y)) && adjacent((x + 1, y), (x, y)));
    } else if s.contains((x - 1, y + 1)) {
        assert(s.contains((x - 1, y + 1)) && adjacent((x - 1, y + 1), (x, y)));
    } else if s.contains((x, y + 1)) {
        assert(s.contains((x, y + 1)) && adjacent((x, y + 1), (x, y)));
    } else if s.contains((x + 1, y + 1)) {
        assert(s.contains((x + 1, y + 1)) && adjacent((x + 1, y + 1), (x, y)));
    } else {
        assert(live_neighbor_count(s, x, y) == 0);
    }
}

/// A live cell adjacent to `(x, y)` makes the neighbor count of `(x, y)`
/// positive.
pub proof fn lemma_adjacent_live_count(s: Set<Point>, p: Point, x: int, y: int)
    requires
        s.contains(p),
        adjacent(p, (x, y)),
    ensures
        live_neighbor_count(s, x, y) >= 1,
{
    assert(p == (p.0, p.1));
}

/// Law: toggling the same cell twice in succession restores the original
/// live set exactly — the toggled cell returns to its prior state and no
/// other cell's state changes.
pub proof fn lemma_toggle_twice(s: Set<Point>, x: int, y: int)
    ensures
        toggle_live(toggle_live(s, x, y), x, y) == s,
{
    if s.contains((x, y)) {
        assert(toggle_live(toggle_live(s, x, y), x, y) =~= s);
    } else {
        assert(toggle_live(toggle_live(s, x, y), x, y) =~= s);
    }
}

/// Law: a pattern in which every live cell has 2 or 3 live neighbors and
/// no dead cell has exactly 3 is a still life — one generation (and hence
/// any number of generations) leaves it unchanged.  The 2x2 block is the
/// classic instance: each of its cells has exactly 3 live neighbors and
/// each surrounding empty cell has at most 2.
pub proof fn lemma_still_life(s: Set<Point>)
    requires
        forall|p: Point| #[trigger]
            s.contains(p) ==> live_neighbor_count(s, p.0, p.1) == 2 || live_neighbor_count(
                s,
                p.0,
                p.1,
            ) == 3,
        forall|p: Point|
            !(#[trigger] s.contains(p)) ==> live_neighbor_count(s, p.0, p.1) != 3,
    ensures
        next_gen(s) == s,
{
    assert forall|q: Point| next_gen(s).contains(q) == s.contains(q) by {
        assert(q == (q.0, q.1));
    }
    assert(next_gen(s) =~= s);
}

} // verus!
