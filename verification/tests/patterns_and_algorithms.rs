//! Tests for the pattern library and the algorithm selector.

use game_of_life::algorithm::evolve_with;
use game_of_life::patterns::{all_patterns, blinker, block, glider};
use game_of_life::simd_life::evolve_simd;
use game_of_life::{Algorithm, BitGrid, ConwayRule};

#[test]
fn test_all_algorithms_returns_eight() {
    assert_eq!(Algorithm::all().len(), 8);
}

#[test]
fn test_default_is_temporal_blocking_parallel() {
    assert_eq!(Algorithm::default(), Algorithm::TemporalBlockingParallel);
}

#[test]
fn test_names_are_unique() {
    let names: Vec<_> = Algorithm::all().iter().map(|a| a.name()).collect();
    let mut unique = names.clone();
    unique.sort();
    unique.dedup();
    assert_eq!(names.len(), unique.len());
}

#[test]
fn test_algorithm_descriptions_nonempty() {
    for a in Algorithm::all() {
        assert!(!a.description().is_empty());
    }
}

#[test]
fn test_evolve_with_dispatch() {
    // Dispatching through any algorithm advances the grid by that
    // algorithm's generation count, bit-identically.
    let rule = ConwayRule;
    let mut grid = BitGrid::new(60, 60);
    grid.randomize();

    let one_step = evolve_simd(&grid, &rule);
    let four_steps = {
        let mut g = one_step.clone();
        for _ in 0..3 {
            g = evolve_simd(&g, &rule);
        }
        g
    };

    for a in Algorithm::all() {
        let out = evolve_with(&grid, &rule, a);
        let expected = match a {
            Algorithm::TemporalBlocking | Algorithm::TemporalBlockingParallel => &four_steps,
            _ => &one_step,
        };
        for y in 0..60 {
            for x in 0..60 {
                assert_eq!(out.get(x, y), expected.get(x, y), "{} at ({}, {})", a.name(), x, y);
            }
        }
    }
}

#[test]
fn test_pattern_dimensions() {
    let g = glider();
    assert_eq!(g.name, "Glider");
    assert_eq!((g.width, g.height), (3, 3));

    let b = blinker();
    assert_eq!((b.width, b.height), (3, 2));

    let blk = block();
    assert_eq!((blk.width, blk.height), (2, 2));
}

#[test]
fn test_pattern_place_on() {
    let mut grid = BitGrid::new(20, 20);
    blinker().place_on(&mut grid, 3, 4);

    assert!(grid.get(3, 5));
    assert!(grid.get(4, 5));
    assert!(grid.get(5, 5));
    assert_eq!(grid.count_alive(), 3);
}

#[test]
fn test_all_patterns_list() {
    let patterns = all_patterns();
    assert_eq!(patterns.len(), 10);
    assert_eq!(patterns[0].name, "Glider");
    assert_eq!(patterns[9].name, "Block");
    for p in &patterns {
        assert!(!p.cells.is_empty());
        assert!(p.width >= 1 && p.height >= 1);
    }
}
