//! Tests for the bit-packed grid.

use game_of_life::{BitGrid, Chunk64, ConwayRule};

#[test]
fn test_chunk64_get_set() {
    let mut chunk = Chunk64::empty();

    // Initially all dead
    assert!(!chunk.get(0));
    assert!(!chunk.get(63));

    // Set some alive
    chunk.set(0, true);
    chunk.set(42, true);
    chunk.set(63, true);

    assert!(chunk.get(0));
    assert!(!chunk.get(1));
    assert!(chunk.get(42));
    assert!(chunk.get(63));

    // Set back to dead
    chunk.set(42, false);
    assert!(!chunk.get(42));
}

#[test]
fn test_chunk64_count() {
    let mut chunk = Chunk64::empty();
    assert_eq!(chunk.count_alive(), 0);

    chunk.set(0, true);
    chunk.set(1, true);
    chunk.set(2, true);
    assert_eq!(chunk.count_alive(), 3);

    let full = Chunk64::full();
    assert_eq!(full.count_alive(), 64);
}

#[test]
fn test_chunk64_is_empty() {
    let mut chunk = Chunk64::empty();
    assert!(chunk.is_empty());
    chunk.set(17, true);
    assert!(!chunk.is_empty());
}

#[test]
fn test_bitgrid_dimensions() {
    let grid = BitGrid::new(100, 50);
    assert_eq!(grid.dimensions(), (100, 50));
}

#[test]
fn test_bitgrid_get_set() {
    let mut grid = BitGrid::new(100, 100);

    // Initially empty
    assert!(!grid.get(0, 0));
    assert!(!grid.get(50, 50));
    assert!(!grid.get(99, 99));

    // Set some cells
    grid.set(0, 0, true);
    grid.set(50, 50, true);
    grid.set(99, 99, true);

    assert!(grid.get(0, 0));
    assert!(grid.get(50, 50));
    assert!(grid.get(99, 99));
    assert!(!grid.get(1, 1));
}

#[test]
fn test_bitgrid_count_neighbors() {
    let mut grid = BitGrid::new(10, 10);

    // Create a blinker pattern at (4,5), (5,5), (6,5)
    grid.set(4, 5, true);
    grid.set(5, 5, true);
    grid.set(6, 5, true);

    // Center cell has 2 neighbors
    assert_eq!(grid.count_neighbors(5, 5), 2);

    // Cell above center has 3 neighbors (the blinker)
    assert_eq!(grid.count_neighbors(5, 4), 3);

    // Cell below center also has 3 neighbors
    assert_eq!(grid.count_neighbors(5, 6), 3);
}

#[test]
fn test_memory_reduction() {
    let grid = BitGrid::new(1000, 1000);
    let memory = grid.memory_bytes();

    // 1000x1000 cells with bit-packing: ceil(1000/64) * 1000 * 8 = 128KB
    assert!(memory < 200_000, "Memory should be < 200KB, was {}", memory);

    // Check it's significantly smaller than one byte per cell
    let naive_memory = 1000 * 1000;
    assert!(
        memory < naive_memory / 7,
        "Should be at least 7x smaller, was {} vs {}",
        memory,
        naive_memory
    );
}

#[test]
fn test_memory_formula() {
    assert_eq!(BitGrid::new(10, 10).memory_bytes(), 1 * 10 * 8);
    assert_eq!(BitGrid::new(64, 3).memory_bytes(), 1 * 3 * 8);
    assert_eq!(BitGrid::new(65, 3).memory_bytes(), 2 * 3 * 8);
    assert_eq!(BitGrid::new(1000, 1000).memory_bytes(), 16 * 1000 * 8);
}

#[test]
fn test_bitgrid_bounds() {
    let grid = BitGrid::new(10, 10);

    // Out of bounds should return false, not panic
    assert!(!grid.get(100, 100));
    assert!(!grid.get(10, 0));
    assert!(!grid.get(0, 10));
}

#[test]
fn test_bitgrid_bounds_extreme() {
    let mut grid = BitGrid::new(10, 10);

    // Reads and writes far outside the grid never fail.
    assert!(!grid.get(usize::MAX, 0));
    assert!(!grid.get(0, usize::MAX));
    assert!(!grid.get(usize::MAX, usize::MAX));
    grid.set(usize::MAX, usize::MAX, true);
    grid.set(1_000_000, 3, true);
    assert_eq!(grid.count_alive(), 0);
}

#[test]
fn test_bitgrid_clear() {
    let mut grid = BitGrid::new(100, 100);

    grid.set(50, 50, true);
    grid.set(0, 0, true);
    assert_eq!(grid.count_alive(), 2);

    grid.clear();
    assert_eq!(grid.count_alive(), 0);
}

#[test]
fn test_blinker_evolution() {
    let rule = ConwayRule;
    let mut grid = BitGrid::new(10, 10);

    // Horizontal blinker at center
    grid.set(4, 5, true);
    grid.set(5, 5, true);
    grid.set(6, 5, true);

    assert_eq!(grid.count_alive(), 3);

    // After one generation, should be vertical
    let next = grid.evolve(&rule);

    assert!(!next.get(4, 5));
    assert!(next.get(5, 4));
    assert!(next.get(5, 5));
    assert!(next.get(5, 6));
    assert!(!next.get(6, 5));
    assert_eq!(next.count_alive(), 3);

    // After two generations, back to horizontal
    let next2 = next.evolve(&rule);

    assert!(next2.get(4, 5));
    assert!(next2.get(5, 5));
    assert!(next2.get(6, 5));
    assert_eq!(next2.count_alive(), 3);
}

#[test]
fn test_block_still_life() {
    let rule = ConwayRule;
    let mut grid = BitGrid::new(10, 10);

    // 2x2 block - stable pattern
    grid.set(4, 4, true);
    grid.set(5, 4, true);
    grid.set(4, 5, true);
    grid.set(5, 5, true);

    let next = grid.evolve(&rule);

    // Should remain unchanged
    assert!(next.get(4, 4));
    assert!(next.get(5, 4));
    assert!(next.get(4, 5));
    assert!(next.get(5, 5));
    assert_eq!(next.count_alive(), 4);
}

#[test]
fn test_parallel_matches_serial() {
    let rule = ConwayRule;
    let mut grid = BitGrid::new(50, 50);

    // Create a random-ish pattern
    for i in 0..100 {
        grid.set(i % 50, (i * 7) % 50, true);
    }

    let serial = grid.evolve(&rule);
    let parallel = grid.evolve_parallel(&rule);

    // Both should produce identical results
    for y in 0..50 {
        for x in 0..50 {
            assert_eq!(
                serial.get(x, y),
                parallel.get(x, y),
                "Mismatch at ({}, {})",
                x,
                y
            );
        }
    }
}

#[test]
fn test_get_word64_straddling() {
    let mut grid = BitGrid::new(200, 2);
    grid.set(60, 1, true);
    grid.set(64, 1, true);
    grid.set(70, 1, true);

    // Reading 64 bits starting at bit 60 of row 1: bits 0, 4 and 10 set.
    let word = grid.get_word64(60, 1);
    assert_eq!(word, (1u64 << 0) | (1u64 << 4) | (1u64 << 10));

    // An aligned read sees the same cells at their in-word offsets.
    let aligned = grid.get_word64(64, 1);
    assert_eq!(aligned, (1u64 << 0) | (1u64 << 6));
}

#[test]
fn test_set_word64_or_straddling() {
    let mut grid = BitGrid::new(200, 2);
    grid.set_word64_or(60, 0, 0b10001);

    assert!(grid.get(60, 0));
    assert!(grid.get(64, 0));
    assert_eq!(grid.count_alive(), 2);

    // OR accumulates: setting again adds, never clears.
    grid.set_word64_or(60, 0, 0b00010);
    assert!(grid.get(60, 0));
    assert!(grid.get(61, 0));
    assert_eq!(grid.count_alive(), 3);
}

#[test]
fn test_randomize_changes_grid() {
    let mut grid = BitGrid::new(200, 200);
    grid.randomize();
    let alive = grid.count_alive();

    // With ~25% density over 40000 cells, the grid is neither empty nor
    // full, and clearing resets it.
    assert!(alive > 0);
    assert!(alive < 200 * 200);
    grid.clear();
    assert_eq!(grid.count_alive(), 0);
}
