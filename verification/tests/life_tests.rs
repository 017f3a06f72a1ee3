use sparse_life::engine::SimulationEngine;
use sparse_life::grid::{CellState, Coord, SparseGrid};

fn c(x: i32, y: i32) -> Coord {
    Coord { x, y }
}

fn engine_with(points: &[(i32, i32)]) -> SimulationEngine {
    let mut seed: Vec<Coord> = Vec::new();
    for &(x, y) in points {
        seed.push(c(x, y));
    }
    SimulationEngine::new(&seed)
}

fn grid_with(points: &[(i32, i32)]) -> SparseGrid {
    let mut seed: Vec<Coord> = Vec::new();
    for &(x, y) in points {
        seed.push(c(x, y));
    }
    let mut g = SparseGrid::new();
    g.set_alive(&seed);
    g
}

#[test]
fn flip_negates_state() {
    assert_eq!(CellState::Alive.flip(), CellState::Dead);
    assert_eq!(CellState::Dead.flip(), CellState::Alive);
}

#[test]
fn state_names() {
    assert_eq!(CellState::Alive.name(), "Alive");
    assert_eq!(CellState::Dead.name(), "Dead");
}

#[test]
fn coord_row_major_order() {
    // y decides first; x breaks ties.
    assert!(c(5, 0).precedes(c(-9, 1)));
    assert!(c(-1, 3).precedes(c(0, 3)));
    assert!(!c(0, 3).precedes(c(-1, 3)));
    assert!(!c(2, 2).precedes(c(2, 2)));
    assert!(c(0, -4).precedes(c(0, 4)));
}

#[test]
fn empty_grid_reads_dead() {
    let g = SparseGrid::new();
    assert_eq!(g.get(c(0, 0)), CellState::Dead);
    assert_eq!(g.get(c(-1000, 1000)), CellState::Dead);
    assert!(!g.is_tracked(c(0, 0)));
    assert_eq!(g.len(), 0);
}

#[test]
fn set_get_and_overwrite() {
    let mut g = SparseGrid::new();
    g.set(c(3, -2), CellState::Alive);
    assert_eq!(g.get(c(3, -2)), CellState::Alive);
    assert!(g.is_tracked(c(3, -2)));
    g.set(c(3, -2), CellState::Dead);
    assert_eq!(g.get(c(3, -2)), CellState::Dead);
    assert!(g.is_tracked(c(3, -2)));
    assert_eq!(g.len(), 1);
}

#[test]
fn remove_untracks() {
    let mut g = SparseGrid::new();
    g.set(c(1, 1), CellState::Alive);
    g.set(c(2, 1), CellState::Alive);
    g.remove(c(1, 1));
    assert!(!g.is_tracked(c(1, 1)));
    assert_eq!(g.get(c(1, 1)), CellState::Dead);
    assert_eq!(g.get(c(2, 1)), CellState::Alive);
    g.remove(c(7, 7));
    assert_eq!(g.len(), 1);
}

#[test]
fn iteration_order_is_row_major() {
    let mut g = SparseGrid::new();
    g.set(c(5, 2), CellState::Alive);
    g.set(c(-3, 2), CellState::Dead);
    g.set(c(0, -1), CellState::Alive);
    g.set(c(9, -1), CellState::Dead);
    assert_eq!(g.len(), 4);
    let mut seen: Vec<(i32, i32)> = Vec::new();
    for i in 0..g.len() {
        let (coord, _) = g.entry_at(i);
        seen.push((coord.x, coord.y));
    }
    assert_eq!(seen, vec![(0, -1), (9, -1), (-3, 2), (5, 2)]);
}

#[test]
fn neighbor_counting() {
    let g = grid_with(&[(0, 0), (1, 0), (0, 1)]);
    assert_eq!(g.neighbor_alive_count(c(0, 0)), 2);
    assert_eq!(g.neighbor_alive_count(c(1, 1)), 3);
    assert_eq!(g.neighbor_alive_count(c(5, 5)), 0);
}

#[test]
fn neighbor_counting_excludes_center() {
    let g = grid_with(&[(4, 4)]);
    assert_eq!(g.neighbor_alive_count(c(4, 4)), 0);
    assert_eq!(g.neighbor_alive_count(c(5, 4)), 1);
    assert_eq!(g.neighbor_alive_count(c(5, 5)), 1);
}

#[test]
fn seeding_activates_penumbra() {
    let g = grid_with(&[(10, 10)]);
    for dx in -1..=1 {
        for dy in -1..=1 {
            assert!(g.is_tracked(c(10 + dx, 10 + dy)));
        }
    }
    assert_eq!(g.get(c(10, 10)), CellState::Alive);
    assert_eq!(g.get(c(9, 9)), CellState::Dead);
    assert!(!g.is_tracked(c(12, 10)));
}

#[test]
fn still_life_block() {
    let block = [(0, 0), (1, 0), (0, 1), (1, 1)];
    let mut e = engine_with(&block);
    for _ in 0..5 {
        e.step();
        for &(x, y) in &block {
            assert_eq!(e.get(c(x, y)), CellState::Alive);
        }
        // Nothing outside the block is alive.
        for x in -2..4 {
            for y in -2..4 {
                if !block.contains(&(x, y)) {
                    assert_eq!(e.get(c(x, y)), CellState::Dead);
                }
            }
        }
    }
}

#[test]
fn blinker_oscillates() {
    let mut e = engine_with(&[(0, 0), (1, 0), (2, 0)]);
    e.step();
    // Vertical phase: exactly {(1,-1), (1,0), (1,1)} alive.
    assert_eq!(e.get(c(1, -1)), CellState::Alive);
    assert_eq!(e.get(c(1, 0)), CellState::Alive);
    assert_eq!(e.get(c(1, 1)), CellState::Alive);
    for x in -2..5 {
        for y in -3..4 {
            let expect = x == 1 && (-1..=1).contains(&y);
            let alive = e.get(c(x, y)) == CellState::Alive;
            assert_eq!(alive, expect, "cell ({}, {})", x, y);
        }
    }
    e.step();
    // Back to the horizontal phase.
    for x in -2..5 {
        for y in -3..4 {
            let expect = y == 0 && (0..=2).contains(&x);
            let alive = e.get(c(x, y)) == CellState::Alive;
            assert_eq!(alive, expect, "cell ({}, {})", x, y);
        }
    }
}

#[test]
fn l_triomino_births_block() {
    // Each live cell has 2 live neighbors (survival) and the empty corner
    // has exactly 3 (birth): one step makes the 2x2 block.
    let mut e = engine_with(&[(0, 0), (1, 0), (0, 1)]);
    e.step();
    for &(x, y) in &[(0, 0), (1, 0), (0, 1), (1, 1)] {
        assert_eq!(e.get(c(x, y)), CellState::Alive);
    }
    for x in -2..4 {
        for y in -2..4 {
            if !(0..=1).contains(&x) || !(0..=1).contains(&y) {
                assert_eq!(e.get(c(x, y)), CellState::Dead);
            }
        }
    }
}

#[test]
fn isolated_cell_is_pruned() {
    let mut e = engine_with(&[(0, 0)]);
    assert_eq!(e.get(c(0, 0)), CellState::Alive);
    e.step();
    // The lone cell dies; it and its dead-only neighborhood read as Dead
    // whether or not they are still in the mapping.
    for x in -2..3 {
        for y in -2..3 {
            assert_eq!(e.get(c(x, y)), CellState::Dead);
        }
    }
    assert!(!e.is_tracked(c(0, 0)));
}

#[test]
fn toggle_tracks_neighborhood() {
    let mut e = engine_with(&[]);
    assert!(!e.is_tracked(c(7, -3)));
    e.toggle(c(7, -3));
    assert_eq!(e.get(c(7, -3)), CellState::Alive);
    for dx in -1..=1 {
        for dy in -1..=1 {
            assert!(e.is_tracked(c(7 + dx, -3 + dy)));
            if (dx, dy) != (0, 0) {
                assert_eq!(e.get(c(7 + dx, -3 + dy)), CellState::Dead);
            }
        }
    }
}

#[test]
fn toggle_twice_restores_state() {
    let mut e = engine_with(&[(0, 0), (1, 0), (2, 0)]);
    // Toggle a dead, untracked cell twice.
    e.toggle(c(8, 8));
    e.toggle(c(8, 8));
    for x in -3..12 {
        for y in -3..12 {
            let expect = y == 0 && (0..=2).contains(&x);
            let alive = e.get(c(x, y)) == CellState::Alive;
            assert_eq!(alive, expect, "cell ({}, {})", x, y);
        }
    }
    // Toggle a live cell twice.
    e.toggle(c(1, 0));
    assert_eq!(e.get(c(1, 0)), CellState::Dead);
    e.toggle(c(1, 0));
    for x in -3..12 {
        for y in -3..12 {
            let expect = y == 0 && (0..=2).contains(&x);
            let alive = e.get(c(x, y)) == CellState::Alive;
            assert_eq!(alive, expect, "cell ({}, {})", x, y);
        }
    }
}

#[test]
fn toggle_is_seen_by_next_step() {
    // Completing the blinker's column by hand gives the same evolution
    // as seeding it directly.
    let mut e = engine_with(&[(1, -1), (1, 0)]);
    e.toggle(c(1, 1));
    e.step();
    for x in -2..5 {
        for y in -3..4 {
            let expect = y == 0 && (0..=2).contains(&x);
            let alive = e.get(c(x, y)) == CellState::Alive;
            assert_eq!(alive, expect, "cell ({}, {})", x, y);
        }
    }
}

#[test]
fn paused_ticks_never_change_current() {
    let mut e = engine_with(&[(0, 0), (1, 0), (2, 0)]);
    for _ in 0..10 {
        e.frame_tick(true);
        for x in -2..5 {
            for y in -3..4 {
                let expect = y == 0 && (0..=2).contains(&x);
                let alive = e.get(c(x, y)) == CellState::Alive;
                assert_eq!(alive, expect, "cell ({}, {})", x, y);
            }
        }
    }
    // Toggling still works while paused...
    e.toggle(c(10, 10));
    assert_eq!(e.get(c(10, 10)), CellState::Alive);
    e.toggle(c(10, 10));
    // ...and a running tick advances the generation.
    e.frame_tick(false);
    assert_eq!(e.get(c(1, -1)), CellState::Alive);
    assert_eq!(e.get(c(0, 0)), CellState::Dead);
}

#[test]
fn engine_cells_expose_render_order() {
    let e = engine_with(&[(0, 0)]);
    assert_eq!(e.cell_count(), 9);
    let mut previous: Option<Coord> = None;
    let mut live = 0;
    for i in 0..e.cell_count() {
        let (coord, state) = e.cell_at(i);
        if let Some(p) = previous {
            assert!(p.precedes(coord));
        }
        if state == CellState::Alive {
            live += 1;
            assert_eq!((coord.x, coord.y), (0, 0));
        }
        previous = Some(coord);
    }
    assert_eq!(live, 1);
}

#[test]
fn negative_coordinates_work() {
    let mut e = engine_with(&[(-5, -5), (-4, -5), (-3, -5)]);
    e.step();
    assert_eq!(e.get(c(-4, -6)), CellState::Alive);
    assert_eq!(e.get(c(-4, -5)), CellState::Alive);
    assert_eq!(e.get(c(-4, -4)), CellState::Alive);
    assert_eq!(e.get(c(-5, -5)), CellState::Dead);
    assert_eq!(e.get(c(-3, -5)), CellState::Dead);
}

#[test]
fn seed_with_duplicates_is_harmless() {
    let g = grid_with(&[(2, 2), (2, 2), (3, 2)]);
    assert_eq!(g.get(c(2, 2)), CellState::Alive);
    assert_eq!(g.get(c(3, 2)), CellState::Alive);
    assert_eq!(g.neighbor_alive_count(c(2, 2)), 1);
}

#[test]
fn works_near_coordinate_core_edge() {
    let b = sparse_life::grid::COORD_LIMIT - 4;
    let mut e = engine_with(&[(b, -b), (b - 1, -b), (b - 2, -b)]);
    e.step();
    assert_eq!(e.get(c(b - 1, -b - 1)), CellState::Alive);
    assert_eq!(e.get(c(b - 1, -b)), CellState::Alive);
    assert_eq!(e.get(c(b - 1, -b + 1)), CellState::Alive);
    assert_eq!(e.get(c(b, -b)), CellState::Dead);
    e.toggle(c(b, -b));
    assert_eq!(e.get(c(b, -b)), CellState::Alive);
}

#[test]
fn seeding_twice_changes_nothing() {
    let pts = [(0, 0), (1, 0), (0, 1)];
    let mut g = grid_with(&pts);
    let n = g.len();
    let mut first: Vec<(i32, i32, CellState)> = Vec::new();
    for i in 0..n {
        let (coord, state) = g.entry_at(i);
        first.push((coord.x, coord.y, state));
    }
    // Re-seeding the same points (in another order) adds no key and
    // changes no state.
    let mut again: Vec<Coord> = Vec::new();
    for &(x, y) in &[(0, 1), (0, 0), (1, 0)] {
        again.push(c(x, y));
    }
    g.set_alive(&again);
    assert_eq!(g.len(), n);
    for i in 0..n {
        let (coord, state) = g.entry_at(i);
        assert_eq!((coord.x, coord.y, state), first[i]);
    }
}
