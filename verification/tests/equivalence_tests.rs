//! Cross-path equivalence and oscillator tests: every evolution path must
//! produce bit-identical results.

use game_of_life::simd_life::{evolve_simd, evolve_simd_parallel};
use game_of_life::temporal_blocking::{
    evolve_temporal_blocking, evolve_temporal_blocking_parallel,
};
use game_of_life::{all_rules, AnyRule, BitGrid, ConwayRule, Rule};

fn grids_equal(a: &BitGrid, b: &BitGrid) -> bool {
    let (w, h) = a.dimensions();
    if b.dimensions() != (w, h) {
        return false;
    }
    for y in 0..h {
        for x in 0..w {
            if a.get(x, y) != b.get(x, y) {
                return false;
            }
        }
    }
    true
}

fn one_step_paths(grid: &BitGrid, rule: &AnyRule) -> Vec<BitGrid> {
    vec![
        grid.evolve(rule),
        grid.evolve_parallel(rule),
        evolve_simd(grid, rule),
        evolve_simd_parallel(grid, rule),
        evolve_temporal_blocking(grid, rule, 1),
        evolve_temporal_blocking_parallel(grid, rule, 1),
    ]
}

#[test]
fn test_cross_path_equivalence_random() {
    // For a randomized grid, every path produces the same next generation,
    // for every supported rule.
    let mut grid = BitGrid::new(150, 90);
    grid.randomize();

    for (_, rule) in all_rules() {
        let results = one_step_paths(&grid, &rule);
        for r in &results[1..] {
            assert!(grids_equal(&results[0], r));
        }
    }
}

#[test]
fn test_cross_path_equivalence_non_aligned_width() {
    // Widths that are not multiples of 64 wrap correctly on every path:
    // padding bits never leak into neighbor counts.
    for &(w, h) in [(10usize, 10usize), (70, 70), (1, 5), (5, 1), (65, 3)].iter() {
        let mut grid = BitGrid::new(w, h);
        grid.randomize();
        for (_, rule) in all_rules() {
            let results = one_step_paths(&grid, &rule);
            for r in &results[1..] {
                assert!(grids_equal(&results[0], r), "path mismatch on {}x{}", w, h);
            }
        }
    }
}

#[test]
fn test_wrap_at_non_aligned_right_edge() {
    // Cells interacting across the right edge of a 10-wide grid: the torus
    // joins column 9 to column 0.
    let rule = ConwayRule;
    let mut grid = BitGrid::new(10, 10);
    grid.set(9, 4, true);
    grid.set(0, 5, true);
    grid.set(9, 5, true);
    grid.set(9, 6, true);

    let naive = grid.evolve(&rule);
    let simd = evolve_simd(&grid, &rule);
    assert!(grids_equal(&naive, &simd));

    // The column-9 blinker-like trio plus (0,5) is evolved with wrapping:
    // (0,4), (0,5), (0,6) all see three neighbors in column 9.
    assert!(naive.get(0, 4));
    assert!(naive.get(0, 5));
    assert!(naive.get(0, 6));
}

#[test]
fn test_blinker_all_paths() {
    // The blinker oscillates with period 2 on every evolution path.
    let rule = AnyRule::Conway(ConwayRule);
    let mut grid = BitGrid::new(10, 10);
    grid.set(4, 5, true);
    grid.set(5, 5, true);
    grid.set(6, 5, true);

    for next in one_step_paths(&grid, &rule) {
        assert!(next.get(5, 4));
        assert!(next.get(5, 5));
        assert!(next.get(5, 6));
        assert_eq!(next.count_alive(), 3);

        for back in one_step_paths(&next, &rule) {
            assert!(grids_equal(&back, &grid));
        }
    }
}

#[test]
fn test_block_all_paths() {
    // The 2x2 block is a fixed point of the classic rule on every path.
    let rule = AnyRule::Conway(ConwayRule);
    let mut grid = BitGrid::new(10, 10);
    grid.set(4, 4, true);
    grid.set(5, 4, true);
    grid.set(4, 5, true);
    grid.set(5, 5, true);

    for next in one_step_paths(&grid, &rule) {
        assert!(grids_equal(&next, &grid));
    }
}
