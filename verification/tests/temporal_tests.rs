//! Tests for the temporal-blocking tile engine.

use game_of_life::simd_life::{build_rule_lookup, evolve_simd};
use game_of_life::temporal_blocking::{
    evolve_temporal_blocking, evolve_temporal_blocking_parallel, evolve_tile_n_gens, LocalTile,
};
use game_of_life::{BitGrid, ConwayRule};

#[test]
fn test_local_tile_simd_evolution() {
    let width = 64;
    let height = 64;
    let mut tile = LocalTile::new(width, height);

    // Horizontal blinker
    tile.set(10, 9, true);
    tile.set(10, 10, true);
    tile.set(10, 11, true);

    let rule = ConwayRule;
    let lookup = build_rule_lookup(&rule);

    let next = evolve_tile_n_gens(tile, 1, &lookup);

    // Vertical blinker
    assert!(next.get(9, 10));
    assert!(next.get(10, 10));
    assert!(next.get(11, 10));
    assert!(!next.get(10, 9));
    assert!(!next.get(10, 11));
}

#[test]
fn test_temporal_blocking_matches_reference() {
    let rule = ConwayRule;
    let mut grid = BitGrid::new(100, 100);

    // Blinker
    grid.set(50, 49, true);
    grid.set(50, 50, true);
    grid.set(50, 51, true);

    // Reference (word-parallel single steps)
    let reference = {
        let mut g = grid.clone();
        for _ in 0..4 {
            g = evolve_simd(&g, &rule);
        }
        g
    };

    // Temporal
    let temporal = evolve_temporal_blocking(&grid, &rule, 4);

    // Compare
    let (w, h) = grid.dimensions();
    for y in 0..h {
        for x in 0..w {
            assert_eq!(
                reference.get(x, y),
                temporal.get(x, y),
                "Mismatch at ({}, {})",
                x,
                y
            );
        }
    }
}

#[test]
fn test_temporal_blocking_equivalence_random() {
    // Repeated single-step evolution and both blocked paths agree on a
    // randomized grid, for a generation count equal to the halo size.
    let rule = ConwayRule;
    let mut grid = BitGrid::new(300, 270);
    grid.randomize();

    let mut reference = grid.clone();
    for _ in 0..4 {
        reference = evolve_simd(&reference, &rule);
    }

    let blocked = evolve_temporal_blocking(&grid, &rule, 4);
    let blocked_par = evolve_temporal_blocking_parallel(&grid, &rule, 4);

    let (w, h) = grid.dimensions();
    for y in 0..h {
        for x in 0..w {
            assert_eq!(reference.get(x, y), blocked.get(x, y), "Mismatch at ({}, {})", x, y);
            assert_eq!(
                reference.get(x, y),
                blocked_par.get(x, y),
                "Parallel mismatch at ({}, {})",
                x,
                y
            );
        }
    }
}

#[test]
fn test_temporal_blocking_cross_tile_pattern() {
    // A pattern straddling a tile boundary (column 256) and a word
    // boundary is evolved correctly by both blocked paths.
    let rule = ConwayRule;
    let mut grid = BitGrid::new(300, 40);
    grid.set(255, 20, true);
    grid.set(256, 20, true);
    grid.set(257, 20, true);
    grid.set(63, 10, true);
    grid.set(64, 10, true);
    grid.set(65, 10, true);

    let mut reference = grid.clone();
    for _ in 0..4 {
        reference = evolve_simd(&reference, &rule);
    }
    let blocked = evolve_temporal_blocking(&grid, &rule, 4);
    let blocked_par = evolve_temporal_blocking_parallel(&grid, &rule, 4);

    for y in 0..40 {
        for x in 0..300 {
            assert_eq!(reference.get(x, y), blocked.get(x, y), "Mismatch at ({}, {})", x, y);
            assert_eq!(
                reference.get(x, y),
                blocked_par.get(x, y),
                "Parallel mismatch at ({}, {})",
                x,
                y
            );
        }
    }
}

#[test]
fn test_temporal_blocking_fewer_generations() {
    // A blocked call with fewer generations than the halo matches the
    // repeated single-step reference too.
    let rule = ConwayRule;
    let mut grid = BitGrid::new(70, 70);
    grid.randomize();

    let mut reference = grid.clone();
    for _ in 0..2 {
        reference = evolve_simd(&reference, &rule);
    }
    let blocked = evolve_temporal_blocking(&grid, &rule, 2);

    for y in 0..70 {
        for x in 0..70 {
            assert_eq!(reference.get(x, y), blocked.get(x, y), "Mismatch at ({}, {})", x, y);
        }
    }
}
