//! Tests for the word-parallel kernel and its evolution paths.

use game_of_life::simd_life::{
    build_rule_lookup, compute_next_chunk, compute_next_chunk_conway,
    compute_next_chunk_with_rule, evolve_simd, evolve_simd_parallel, full_adder, half_adder,
};
use game_of_life::{BitGrid, Cell, ConwayRule, HighLifeRule, Rule, SeedsRule};

#[test]
fn test_full_adder() {
    // 0 + 0 + 0 = 0, carry 0
    assert_eq!(full_adder(0, 0, 0), (0, 0));

    // 1 + 0 + 0 = 1, carry 0
    assert_eq!(full_adder(1, 0, 0), (1, 0));

    // 1 + 1 + 0 = 0, carry 1
    assert_eq!(full_adder(1, 1, 0), (0, 1));

    // 1 + 1 + 1 = 1, carry 1
    assert_eq!(full_adder(1, 1, 1), (1, 1));

    // Test with bit patterns
    assert_eq!(full_adder(0b1010, 0b1100, 0b0110), (0b0000, 0b1110));
}

#[test]
fn test_half_adder() {
    assert_eq!(half_adder(0, 0), (0, 0));
    assert_eq!(half_adder(1, 0), (1, 0));
    assert_eq!(half_adder(1, 1), (0, 1));
}

#[test]
fn test_rule_lookup_conway() {
    let rule = ConwayRule;
    let lookup = build_rule_lookup(&rule);

    // Dead cell with 3 neighbors -> alive
    assert!(lookup[3]);
    // Dead cell with 2 neighbors -> dead
    assert!(!lookup[2]);
    // Alive cell with 2 neighbors -> alive
    assert!(lookup[16 + 2]);
    // Alive cell with 3 neighbors -> alive
    assert!(lookup[16 + 3]);
    // Alive cell with 4 neighbors -> dead
    assert!(!lookup[16 + 4]);
}

#[test]
fn test_rule_lookup_highlife() {
    let rule = HighLifeRule;
    let lookup = build_rule_lookup(&rule);

    // HighLife: B36/S23
    assert!(lookup[3]);
    assert!(lookup[6]);
    assert!(!lookup[2]);
}

#[test]
fn test_rule_table_all_rules() {
    // Every meaningful entry of every rule's table matches direct
    // evaluation of the rule.
    for (_, rule) in game_of_life::all_rules() {
        let lookup = build_rule_lookup(&rule);
        for n in 0u8..=8 {
            assert_eq!(lookup[n as usize], rule.evolve(Cell::Dead, n) == Cell::Alive);
            assert_eq!(
                lookup[16 + n as usize],
                rule.evolve(Cell::Alive, n) == Cell::Alive
            );
        }
    }
}

#[test]
fn test_isolated_cell_dies() {
    let rule = ConwayRule;
    let lookup = build_rule_lookup(&rule);

    // A single cell with no neighbors should die
    let current = 1u64 << 32;
    let result =
        compute_next_chunk_with_rule(0, current, 0, false, false, false, false, false, false, &lookup);

    assert_eq!(result & (1u64 << 32), 0, "Isolated cell should die");
}

#[test]
fn test_cell_with_two_neighbors_survives() {
    let rule = ConwayRule;
    let lookup = build_rule_lookup(&rule);

    // Cell at bit 32 with neighbors at bits 31 and 33
    let current = (1u64 << 31) | (1u64 << 32) | (1u64 << 33);
    let result =
        compute_next_chunk_with_rule(0, current, 0, false, false, false, false, false, false, &lookup);

    // Middle cell has 2 neighbors, should survive
    assert_ne!(result & (1u64 << 32), 0, "Cell with 2 neighbors should survive");
}

#[test]
fn test_cell_with_three_neighbors_survives() {
    let rule = ConwayRule;
    let lookup = build_rule_lookup(&rule);

    // Create a block pattern (2x2) represented across two rows
    let above = (1u64 << 32) | (1u64 << 33);
    let current = (1u64 << 32) | (1u64 << 33);

    let result =
        compute_next_chunk_with_rule(above, current, 0, false, false, false, false, false, false, &lookup);

    // All 4 cells should survive (each has exactly 3 neighbors)
    assert_ne!(result & (1u64 << 32), 0);
    assert_ne!(result & (1u64 << 33), 0);
}

#[test]
fn test_birth_with_three_neighbors() {
    let rule = ConwayRule;
    let lookup = build_rule_lookup(&rule);

    // Put 3 cells above an empty position
    let above = (1u64 << 31) | (1u64 << 32) | (1u64 << 33);
    let current_empty = 0u64;

    let result = compute_next_chunk_with_rule(
        above,
        current_empty,
        0,
        false,
        false,
        false,
        false,
        false,
        false,
        &lookup,
    );

    // Position 32 should be born (has 3 neighbors above)
    assert_ne!(result & (1u64 << 32), 0, "Cell should be born with 3 neighbors");
}

#[test]
fn test_conway_fast_path_matches_lookup() {
    // The closed-form classic-rule kernel agrees with the generic
    // lookup-table kernel on assorted word patterns.
    let lookup = build_rule_lookup(&ConwayRule);
    let samples = [
        (0u64, 0u64, 0u64),
        (0x0123_4567_89ab_cdef, 0xfedc_ba98_7654_3210, 0x0f0f_0f0f_0f0f_0f0f),
        (u64::MAX, 0x8000_0000_0000_0001, 0x5555_5555_5555_5555),
        (0xdead_beef_dead_beef, 0xcafe_babe_cafe_babe, 0x1234_5678_9abc_def0),
    ];
    for &(a, c, b) in samples.iter() {
        for &edges in [false, true].iter() {
            let fast = compute_next_chunk_conway(a, c, b, edges, edges, edges, edges, edges, edges);
            let generic = compute_next_chunk_with_rule(
                a, c, b, edges, edges, edges, edges, edges, edges, &lookup,
            );
            let legacy = compute_next_chunk(a, c, b, edges, edges, edges, edges, edges, edges);
            assert_eq!(fast, generic);
            assert_eq!(fast, legacy);
        }
    }
}

#[test]
fn test_simd_blinker_evolution() {
    let rule = ConwayRule;
    let mut grid = BitGrid::new(10, 10);

    // Horizontal blinker: (4,5), (5,5), (6,5)
    grid.set(4, 5, true);
    grid.set(5, 5, true);
    grid.set(6, 5, true);

    let next = evolve_simd(&grid, &rule);

    // Should become vertical
    assert!(!next.get(4, 5), "Left cell should die");
    assert!(next.get(5, 4), "Top cell should be born");
    assert!(next.get(5, 5), "Center should survive");
    assert!(next.get(5, 6), "Bottom cell should be born");
    assert!(!next.get(6, 5), "Right cell should die");
}

#[test]
fn test_simd_matches_naive() {
    let rule = ConwayRule;
    let mut grid = BitGrid::new(100, 100);

    // Create a pattern
    for i in 0..50 {
        grid.set(i * 2, i, true);
        grid.set(i * 2 + 1, i, true);
    }

    let naive_result = grid.evolve(&rule);
    let simd_result = evolve_simd(&grid, &rule);

    for y in 0..100 {
        for x in 0..100 {
            assert_eq!(
                naive_result.get(x, y),
                simd_result.get(x, y),
                "Mismatch at ({}, {})",
                x,
                y
            );
        }
    }
}

#[test]
fn test_simd_parallel_matches_serial() {
    let rule = ConwayRule;
    let mut grid = BitGrid::new(200, 200);
    grid.randomize();

    let serial = evolve_simd(&grid, &rule);
    let parallel = evolve_simd_parallel(&grid, &rule);

    for y in 0..200 {
        for x in 0..200 {
            assert_eq!(
                serial.get(x, y),
                parallel.get(x, y),
                "Parallel mismatch at ({}, {})",
                x,
                y
            );
        }
    }
}

#[test]
fn test_simd_with_different_rules() {
    // SIMD with HighLife vs Conway on a 2x3 block of live cells
    let mut grid = BitGrid::new(20, 20);
    grid.set(10, 10, true);
    grid.set(11, 10, true);
    grid.set(12, 10, true);
    grid.set(10, 11, true);
    grid.set(11, 11, true);
    grid.set(12, 11, true);

    let conway = ConwayRule;
    let highlife = HighLifeRule;

    let result_conway = evolve_simd(&grid, &conway);
    let result_highlife = evolve_simd(&grid, &highlife);

    let count_conway = result_conway.count_alive();
    let count_highlife = result_highlife.count_alive();

    assert!(
        count_conway > 0 || count_highlife > 0,
        "At least one should have live cells"
    );
}

#[test]
fn test_seeds_rule_all_die() {
    // Seeds rule: all alive cells die every generation, birth only with
    // exactly 2 neighbors
    let rule = SeedsRule;
    let mut grid = BitGrid::new(10, 10);

    // Two horizontal cells: (5,5) and (6,5)
    grid.set(5, 5, true);
    grid.set(6, 5, true);

    let next = evolve_simd(&grid, &rule);

    // Original cells should all be dead (Seeds has no survival)
    assert!(!next.get(5, 5), "Cell at (5,5) should die");
    assert!(!next.get(6, 5), "Cell at (6,5) should die");

    // Cells born where there were exactly 2 neighbors
    assert!(next.get(5, 4), "Should be born at (5,4) with 2 neighbors");
    assert!(next.get(6, 4), "Should be born at (6,4) with 2 neighbors");
    assert!(next.get(5, 6), "Should be born at (5,6) with 2 neighbors");
    assert!(next.get(6, 6), "Should be born at (6,6) with 2 neighbors");
}
