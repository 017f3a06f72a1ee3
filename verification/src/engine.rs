//! The simulation engine: owns the current generation and a scratch
//! buffer, advances one generation per `step`, and applies interactive
//! `toggle` edits.  Its central contract: after a `step`, the live-cell
//! set equals `next_gen` of the previous live-cell set — the B3/S23 rule
//! applied over the whole infinite lattice — which the penumbra invariant
//! makes possible while visiting only tracked cells.

use vstd::prelude::*;
use crate::grid::{
    coord_key, lemma_unique_index, seed_blocks, seed_contains, CellState, Coord, SparseGrid,
    COORD_LIMIT,
};
use crate::model::{
    adjacent, in_core, lemma_count_pos_witness, life_rule, live_neighbor_count, next_gen,
    toggle_live, Point,
};

verus! {

/// Whether one of the first `n` points of `cs` is `(x, y)`.
pub open spec fn visited(cs: Seq<Point>, n: int, x: int, y: int) -> bool {
    exists|k: int| 0 <= k < n && cs[k] == (x, y)
}

/// Apply the life/death decision for the single cell `c` to the
/// next-generation buffer.  `st` is the cell's state in `current`; the
/// decision reads `current` and writes `next` at `c` alone.
fn apply_rule(current: &SparseGrid, next: &mut SparseGrid, c: Coord, st: CellState)
    requires
        current.wf(),
        current.live_bounded(COORD_LIMIT as int - 2),
        old(next).wf(),
        old(next).penumbra_ok(),
        in_core(c.x as int, c.y as int, COORD_LIMIT as int),
        (st is Alive) == current.live_at(c.x as int, c.y as int),
    ensures
        final(next).wf(),
        final(next).penumbra_ok(),
        forall|x: int, y: int|
            !(x == c.x as int && y == c.y as int) ==> final(next).live_at(x, y) == old(next).live_at(
                x,
                y,
            ),
        life_rule(current.live_set(), c.x as int, c.y as int) ==> final(next).live_at(
            c.x as int,
            c.y as int,
        ),
        !life_rule(current.live_set(), c.x as int, c.y as int) && (st is Alive) ==> !final(next).live_at(
            c.x as int,
            c.y as int,
        ),
        !life_rule(current.live_set(), c.x as int, c.y as int) && (st is Dead) ==> final(next).live_at(
            c.x as int,
            c.y as int,
        ) == old(next).live_at(c.x as int, c.y as int),
{
    let n = current.neighbor_alive_count(c);
    let alive = match st {
        CellState::Alive => true,
        CellState::Dead => false,
    };
    if alive && (n == 2 || n == 3) {
        // Survival: keep the cell and make sure its penumbra is tracked.
        next.activate_neighbors(c);
        next.set(c, CellState::Alive);
        proof {
            lemma_penumbra_after_birth(*old(next), *next, c);
        }
    } else if alive {
        let m = next.neighbor_alive_count(c);
        if m == 0 {
            // Death of an isolated cell: prune it from the tracked set
            // instead of keeping a stale Dead record.
            let ghost before = *next;
            next.remove(c);
            proof {
                assert forall|x: int, y: int| #[trigger] next.live_at(x, y) implies next.tracked_at(
                    x - 1,
                    y - 1,
                ) && next.tracked_at(x, y - 1) && next.tracked_at(x + 1, y - 1) && next.tracked_at(
                    x - 1,
                    y,
                ) && next.tracked_at(x + 1, y) && next.tracked_at(x - 1, y + 1) && next.tracked_at(
                    x,
                    y + 1,
                ) && next.tracked_at(x + 1, y + 1) by {
                    assert(before.live_at(x, y));
                    // No live cell of `before` is adjacent to `c` (its
                    // neighbor count there is 0), so removing `c` cannot
                    // untrack any live cell's neighbor.
                    if adjacent((x, y), (c.x as int, c.y as int)) {
                        crate::model::lemma_adjacent_live_count(
                            before.live_set(),
                            (x, y),
                            c.x as int,
                            c.y as int,
                        );
                        assert(false);
                    }
                }
            }
        } else {
            // Death, but live activity remains nearby: keep a Dead entry.
            next.set(c, CellState::Dead);
        }
    } else if n == 3 {
        // Birth: the cell has a live neighbor, so it sits strictly inside
        // the coordinate core and its neighborhood can be activated.
        proof {
            lemma_count_pos_witness(current.live_set(), c.x as int, c.y as int);
            let p = choose|p: Point|
                current.live_set().contains(p) && adjacent(p, (c.x as int, c.y as int));
            assert(current.live_at(p.0, p.1));
        }
        next.activate_neighbors(c);
        next.set(c, CellState::Alive);
        proof {
            lemma_penumbra_after_birth(*old(next), *next, c);
        }
    } else {
        // Dead with no birth: the carried-over entry is left unchanged.
    }
}

/// After activating the 3x3 block of `c` and setting `c` Alive, the
/// penumbra invariant still holds: the one new live cell has its whole
/// neighborhood tracked, and tracking is monotone.
proof fn lemma_penumbra_after_birth(before: SparseGrid, after: SparseGrid, c: Coord)
    requires
        before.penumbra_ok(),
        forall|x: int, y: int|
            after.live_at(x, y) == (if x == c.x as int && y == c.y as int {
                true
            } else {
                before.live_at(x, y)
            }),
        forall|x: int, y: int|
            after.tracked_at(x, y) == (before.tracked_at(x, y) || (-1 <= x - c.x as int <= 1 && -1
                <= y - c.y as int <= 1)),
    ensures
        after.penumbra_ok(),
{
    assert forall|x: int, y: int| #[trigger] after.live_at(x, y) implies after.tracked_at(
        x - 1,
        y - 1,
    ) && after.tracked_at(x, y - 1) && after.tracked_at(x + 1, y - 1) && after.tracked_at(
        x - 1,
        y,
    ) && after.tracked_at(x + 1, y) && after.tracked_at(x - 1, y + 1) && after.tracked_at(
        x,
        y + 1,
    ) && after.tracked_at(x + 1, y + 1) by {
        if !(x == c.x as int && y == c.y as int) {
            assert(before.live_at(x, y));
        }
    }
}

/// The simulation engine: the current generation, and a second buffer
/// reused as scratch space while the next generation is built.
pub struct SimulationEngine {
    current: SparseGrid,
    next: SparseGrid,
}

impl SimulationEngine {
    /// Well-formed: both buffers well-formed, and the current generation
    /// obeying the penumbra invariant.
    pub closed spec fn wf(self) -> bool {
        self.current.wf() && self.next.wf() && self.current.penumbra_ok()
    }

    /// The current generation's grid.
    pub closed spec fn grid(self) -> SparseGrid {
        self.current
    }

    /// Whether `(x, y)` is live in the current generation.
    #[verifier::inline]
    pub open spec fn live_at(self, x: int, y: int) -> bool {
        self.grid().live_at(x, y)
    }

    /// Whether `(x, y)` is tracked in the current generation.
    #[verifier::inline]
    pub open spec fn tracked_at(self, x: int, y: int) -> bool {
        self.grid().tracked_at(x, y)
    }

    /// The current generation's live-cell set.
    #[verifier::inline]
    pub open spec fn live_set(self) -> Set<Point> {
        self.grid().live_set()
    }

    /// A new engine holding exactly the seed pattern: each seed cell is
    /// Alive with its 3x3 neighborhood activated, nothing else lives,
    /// and nothing outside the seeds' 3x3 blocks is tracked.
    pub fn new(seed: &Vec<Coord>) -> (e: SimulationEngine)
        requires
            forall|k: int|
                0 <= k < seed@.len() ==> in_core(
                    (#[trigger] seed@[k]).x as int,
                    seed@[k].y as int,
                    COORD_LIMIT as int - 1,
                ),
        ensures
            e.wf(),
            forall|x: int, y: int| e.live_at(x, y) == seed_contains(seed@, x, y),
            forall|x: int, y: int| e.tracked_at(x, y) == seed_blocks(seed@, x, y),
    {
        let mut g = SparseGrid::new();
        g.set_alive(seed);
        SimulationEngine { current: g, next: SparseGrid::new() }
    }

    /// The state of any cell of the current generation (Dead if
    /// untracked).
    pub fn get(&self, c: Coord) -> (r: CellState)
        requires
            self.wf(),
        ensures
            (r is Alive) == self.live_at(c.x as int, c.y as int),
    {
        self.current.get(c)
    }

    /// Whether `c` is tracked in the current generation.
    pub fn is_tracked(&self, c: Coord) -> (r: bool)
        requires
            self.wf(),
        ensures
            r == self.tracked_at(c.x as int, c.y as int),
    {
        self.current.is_tracked(c)
    }

    /// The number of tracked cells, for rendering.
    pub fn cell_count(&self) -> (n: usize)
        ensures
            n == self.grid().entries().len(),
    {
        self.current.len()
    }

    /// The `i`-th tracked cell of the current generation, in the
    /// deterministic row-major iteration order used by rendering: every
    /// earlier index holds a coordinate of strictly lower row-major rank.
    pub fn cell_at(&self, i: usize) -> (r: (Coord, CellState))
        requires
            self.wf(),
            i < self.grid().entries().len(),
        ensures
            r.0 == self.grid().entries()[i as int].coord,
            r.1 == self.grid().entries()[i as int].state,
            self.tracked_at(r.0.x as int, r.0.y as int),
            (r.1 is Alive) == self.live_at(r.0.x as int, r.0.y as int),
            forall|j: int|
                0 <= j < i ==> coord_key(#[trigger] self.grid().entries()[j].coord) < coord_key(
                    r.0,
                ),
    {
        self.current.entry_at(i)
    }

    /// Flip the life state of `c` in the current generation: a live cell
    /// goes Dead; a dead or untracked cell goes Alive with its whole 3x3
    /// neighborhood activated, so the change is seen by the very next
    /// step.  No other cell's state changes.
    pub fn toggle(&mut self, c: Coord)
        requires
            old(self).wf(),
            in_core(c.x as int, c.y as int, COORD_LIMIT as int - 1),
        ensures
            final(self).wf(),
            forall|x: int, y: int|
                final(self).live_at(x, y) == (if x == c.x as int && y == c.y as int {
                    !old(self).live_at(x, y)
                } else {
                    old(self).live_at(x, y)
                }),
            final(self).live_set() == toggle_live(old(self).live_set(), c.x as int, c.y as int),
            !old(self).live_at(c.x as int, c.y as int) ==> final(self).grid().block_tracked(
                c.x as int,
                c.y as int,
            ),
    {
        let s = self.current.get(c).flip();
        match s {
            CellState::Dead => {
                self.current.set(c, CellState::Dead);
                proof {
                    assert forall|x: int, y: int| #[trigger]
                        self.current.live_at(x, y) implies self.current.tracked_at(x - 1, y - 1)
                        && self.current.tracked_at(x, y - 1) && self.current.tracked_at(
                        x + 1,
                        y - 1,
                    ) && self.current.tracked_at(x - 1, y) && self.current.tracked_at(x + 1, y)
                        && self.current.tracked_at(x - 1, y + 1) && self.current.tracked_at(
                        x,
                        y + 1,
                    ) && self.current.tracked_at(x + 1, y + 1) by {
                        assert(old(self).current.live_at(x, y));
                    }
                }
            },
            CellState::Alive => {
                self.current.activate_neighbors(c);
                self.current.set(c, CellState::Alive);
                proof {
                    lemma_penumbra_after_birth(old(self).current, self.current, c);
                }
            },
        }
        proof {
            assert forall|p: Point|
                self.live_set().contains(p) == toggle_live(
                    old(self).live_set(),
                    c.x as int,
                    c.y as int,
                ).contains(p) by {
                assert(p == (p.0, p.1));
            }
            assert(self.live_set() =~= toggle_live(old(self).live_set(), c.x as int, c.y as int));
        }
    }

    /// Advance the simulation by one generation.  Every tracked cell is
    /// evaluated against a stable snapshot of `current`; the result
    /// becomes the new current generation.  The contract is exact over
    /// the whole infinite lattice: a cell is live afterwards if and only
    /// if the B3/S23 rule says so of the previous live set.
    pub fn step(&mut self)
        requires
            old(self).wf(),
            old(self).grid().live_bounded(COORD_LIMIT as int - 2),
        ensures
            final(self).wf(),
            forall|x: int, y: int|
                final(self).live_at(x, y) == life_rule(old(self).live_set(), x, y),
            final(self).live_set() == next_gen(old(self).live_set()),
            forall|b: int| #[trigger]
                old(self).grid().live_bounded(b) ==> final(self).grid().live_bounded(b + 1),
    {
        self.next = self.current.duplicate();
        let ghost cs = self.current.coord_seq();
        let ghost s0 = self.current.live_set();
        proof {
            assert(self.next.entries() == self.current.entries());
            assert forall|x: int, y: int| #[trigger] self.next.live_at(x, y) implies self.next.tracked_at(
                x - 1,
                y - 1,
            ) && self.next.tracked_at(x, y - 1) && self.next.tracked_at(x + 1, y - 1) && self.next.tracked_at(
                x - 1,
                y,
            ) && self.next.tracked_at(x + 1, y) && self.next.tracked_at(x - 1, y + 1) && self.next.tracked_at(
                x,
                y + 1,
            ) && self.next.tracked_at(x + 1, y + 1) by {
                assert(self.current.live_at(x, y));
            }
        }
        let n = self.current.len();
        let mut i: usize = 0;
        while i < n
            invariant
                self.current == old(self).current,
                self.current.wf(),
                self.current.penumbra_ok(),
                self.current.live_bounded(COORD_LIMIT as int - 2),
                n == self.current.entries().len(),
                cs == self.current.coord_seq(),
                s0 == self.current.live_set(),
                i <= n,
                self.next.wf(),
                self.next.penumbra_ok(),
                forall|x: int, y: int| #[trigger]
                    self.next.live_at(x, y) == (if visited(cs, i as int, x, y) {
                        life_rule(s0, x, y)
                    } else {
                        self.current.live_at(x, y)
                    }),
            decreases n - i,
        {
            let (c, st) = self.current.entry_at(i);
            proof {
                assert(cs[i as int] == (c.x as int, c.y as int));
                if visited(cs, i as int, c.x as int, c.y as int) {
                    let k = choose|k: int| 0 <= k < i && cs[k] == (c.x as int, c.y as int);
                    assert(cs[k] == (
                        self.current.entries()[k].coord.x as int,
                        self.current.entries()[k].coord.y as int,
                    ));
                    lemma_unique_index(self.current.entries(), k, i as int);
                    assert(false);
                }
            }
            let ghost before = self.next;
            apply_rule(&self.current, &mut self.next, c, st);
            proof {
                assert forall|x: int, y: int| #[trigger]
                    self.next.live_at(x, y) == (if visited(cs, i as int + 1, x, y) {
                        life_rule(s0, x, y)
                    } else {
                        self.current.live_at(x, y)
                    }) by {
                    if x == c.x as int && y == c.y as int {
                        assert(cs[i as int] == (x, y));
                        assert(visited(cs, i as int + 1, x, y));
                        if !life_rule(s0, x, y) && (st is Dead) {
                            assert(self.next.live_at(x, y) == before.live_at(x, y));
                            assert(!self.current.live_at(x, y));
                            assert(!before.live_at(x, y));
                        }
                    } else {
                        assert(self.next.live_at(x, y) == before.live_at(x, y));
                        if visited(cs, i as int + 1, x, y) && !visited(cs, i as int, x, y) {
                            let k = choose|k: int| 0 <= k < i + 1 && cs[k] == (x, y);
                            assert(k == i as int);
                            assert(false);
                        }
                        if visited(cs, i as int, x, y) {
                            assert(visited(cs, i as int + 1, x, y));
                        }
                    }
                }
            }
            i = i + 1;
        }
        proof {
            assert forall|x: int, y: int| #[trigger] self.next.live_at(x, y) == life_rule(s0, x, y) by {
                if !visited(cs, n as int, x, y) {
                    if self.current.tracked_at(x, y) {
                        let k = choose|k: int|
                            0 <= k < self.current.entries().len()
                                && self.current.entries()[k].coord.x as int == x
                                && self.current.entries()[k].coord.y as int == y;
                        assert(cs[k] == (x, y));
                        assert(visited(cs, n as int, x, y));
                        assert(false);
                    }
                    if self.current.live_at(x, y) {
                        let k = choose|k: int|
                            0 <= k < self.current.entries().len()
                                && self.current.entries()[k].coord.x as int == x
                                && self.current.entries()[k].coord.y as int == y
                                && self.current.entries()[k].state is Alive;
                        assert(self.current.tracked_at(x, y));
                        assert(false);
                    }
                    if life_rule(s0, x, y) {
                        if s0.contains((x, y)) {
                            assert(self.current.live_at(x, y));
                            assert(false);
                        } else {
                            assert(live_neighbor_count(s0, x, y) == 3);
                            lemma_count_pos_witness(s0, x, y);
                            let p = choose|p: Point| s0.contains(p) && adjacent(p, (x, y));
                            assert(self.current.live_at(p.0, p.1));
                            assert(self.current.tracked_at(x, y));
                            assert(false);
                        }
                    }
                }
            }
            assert forall|p: Point| self.next.live_set().contains(p) == next_gen(s0).contains(p) by {
                assert(p == (p.0, p.1));
            }
            assert(self.next.live_set() =~= next_gen(s0));
            // A new generation can only reach one cell beyond the old
            // one: survivors were live, and births are adjacent to a
            // live cell.
            assert forall|b: int| #[trigger]
                old(self).current.live_bounded(b) implies self.next.live_bounded(b + 1) by {
                assert forall|x: int, y: int| #[trigger] self.next.live_at(x, y) implies in_core(
                    x,
                    y,
                    b + 1,
                ) by {
                    if s0.contains((x, y)) {
                        assert(old(self).current.live_at(x, y));
                    } else {
                        assert(live_neighbor_count(s0, x, y) == 3);
                        lemma_count_pos_witness(s0, x, y);
                        let p = choose|p: Point| s0.contains(p) && adjacent(p, (x, y));
                        assert(old(self).current.live_at(p.0, p.1));
                        assert(in_core(p.0, p.1, b));
                    }
                }
            }
        }
        core::mem::swap(&mut self.current, &mut self.next);
    }

    /// One render-frame tick.  When running, advance a generation; while
    /// paused, repeated ticks never change the current generation — only
    /// `toggle` edits it.
    pub fn frame_tick(&mut self, paused: bool)
        requires
            old(self).wf(),
            !paused ==> old(self).grid().live_bounded(COORD_LIMIT as int - 2),
        ensures
            final(self).wf(),
            paused ==> *final(self) == *old(self),
            !paused ==> forall|x: int, y: int|
                final(self).live_at(x, y) == life_rule(old(self).live_set(), x, y),
            !paused ==> final(self).live_set() == next_gen(old(self).live_set()),
            !paused ==> forall|b: int| #[trigger]
                old(self).grid().live_bounded(b) ==> final(self).grid().live_bounded(b + 1),
    {
        if !paused {
            self.step();
        }
    }
}

} // verus!
