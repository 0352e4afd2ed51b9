//! Selecting between the evolution implementations, for demos and
//! benchmarking.

use vstd::prelude::*;

use crate::bit_grid::BitGrid;
use crate::model::torus_step_n;
use crate::rules::Rule;
use crate::simd_life::{evolve_simd, evolve_simd_parallel};
use crate::temporal_blocking::{
    evolve_temporal_blocking, evolve_temporal_blocking_parallel, GENERATIONS_PER_TILE, TILE_SIZE,
};

verus! {

/// Available evolution algorithms.  Each trades off between speed and
/// flexibility.
#[derive(Clone, Copy, Debug, PartialEq, Eq, Structural, Default)]
pub enum Algorithm {
    /// Plain cell array, serial processing.
    Original,
    /// Plain cell array with parallel rows.
    OriginalParallel,
    /// Bit-packed grid, cell-by-cell evolution.
    BitGridNaive,
    /// Bit-packed grid with parallel rows.
    BitGridNaiveParallel,
    /// Word-parallel kernel (serial).
    Simd,
    /// Word-parallel kernel with parallel rows.
    SimdParallel,
    /// Temporal blocking, several generations per tile (serial).
    TemporalBlocking,
    /// Temporal blocking with parallel tiles (fastest for large grids).
    #[default]
    TemporalBlockingParallel,
}

impl Algorithm {
    /// The display name of this algorithm.
    pub open spec fn spec_name(self) -> Seq<char> {
        match self {
            Algorithm::Original => "Naive"@,
            Algorithm::OriginalParallel => "Naive+Par"@,
            Algorithm::BitGridNaive => "BitPacked"@,
            Algorithm::BitGridNaiveParallel => "BitPacked+Par"@,
            Algorithm::Simd => "BitSIMD"@,
            Algorithm::SimdParallel => "BitSIMD+Par"@,
            Algorithm::TemporalBlocking => "TempBlock"@,
            Algorithm::TemporalBlockingParallel => "TempBlock+Par"@,
        }
    }

    /// The short description of this algorithm.
    pub open spec fn spec_description(self) -> Seq<char> {
        match self {
            Algorithm::Original => "Cell enum array, 1 byte/cell, serial"@,
            Algorithm::OriginalParallel => "Cell enum array, 1 byte/cell, parallel"@,
            Algorithm::BitGridNaive => "Bit-packed 1 bit/cell, cell-by-cell"@,
            Algorithm::BitGridNaiveParallel => "Bit-packed 1 bit/cell, parallel rows"@,
            Algorithm::Simd => "Bit-packed + 64 cells at once"@,
            Algorithm::SimdParallel => "Bit-packed + 64 cells at once + parallel"@,
            Algorithm::TemporalBlocking => "4 gens/tile, reduced memory traffic"@,
            Algorithm::TemporalBlockingParallel => "4 gens/tile, parallel tiles"@,
        }
    }

    /// All available algorithms, in their fixed display order.
    pub fn all() -> (r: Vec<Algorithm>)
        ensures
            r@ == seq![
                Algorithm::Original,
                Algorithm::OriginalParallel,
                Algorithm::BitGridNaive,
                Algorithm::BitGridNaiveParallel,
                Algorithm::Simd,
                Algorithm::SimdParallel,
                Algorithm::TemporalBlocking,
                Algorithm::TemporalBlockingParallel,
            ],
    {
        let mut v: Vec<Algorithm> = Vec::new();
        v.push(Algorithm::Original);
        v.push(Algorithm::OriginalParallel);
        v.push(Algorithm::BitGridNaive);
        v.push(Algorithm::BitGridNaiveParallel);
        v.push(Algorithm::Simd);
        v.push(Algorithm::SimdParallel);
        v.push(Algorithm::TemporalBlocking);
        v.push(Algorithm::TemporalBlockingParallel);
        proof {
            assert(v@ =~= seq![
                Algorithm::Original,
                Algorithm::OriginalParallel,
                Algorithm::BitGridNaive,
                Algorithm::BitGridNaiveParallel,
                Algorithm::Simd,
                Algorithm::SimdParallel,
                Algorithm::TemporalBlocking,
                Algorithm::TemporalBlockingParallel,
            ]);
        }
        v
    }

    /// Display name for the UI, explicit about storage and strategy.
    pub fn name(&self) -> (r: &'static str)
        ensures
            r@ == self.spec_name(),
    {
        match self {
            Algorithm::Original => "Naive",
            Algorithm::OriginalParallel => "Naive+Par",
            Algorithm::BitGridNaive => "BitPacked",
            Algorithm::BitGridNaiveParallel => "BitPacked+Par",
            Algorithm::Simd => "BitSIMD",
            Algorithm::SimdParallel => "BitSIMD+Par",
            Algorithm::TemporalBlocking => "TempBlock",
            Algorithm::TemporalBlockingParallel => "TempBlock+Par",
        }
    }

    /// Short description for tooltips.
    pub fn description(&self) -> (r: &'static str)
        ensures
            r@ == self.spec_description(),
    {
        match self {
            Algorithm::Original => "Cell enum array, 1 byte/cell, serial",
            Algorithm::OriginalParallel => "Cell enum array, 1 byte/cell, parallel",
            Algorithm::BitGridNaive => "Bit-packed 1 bit/cell, cell-by-cell",
            Algorithm::BitGridNaiveParallel => "Bit-packed 1 bit/cell, parallel rows",
            Algorithm::Simd => "Bit-packed + 64 cells at once",
            Algorithm::SimdParallel => "Bit-packed + 64 cells at once + parallel",
            Algorithm::TemporalBlocking => "4 gens/tile, reduced memory traffic",
            Algorithm::TemporalBlockingParallel => "4 gens/tile, parallel tiles",
        }
    }
}

impl Algorithm {
    /// How many generations one evolution call under this algorithm
    /// advances: the temporal-blocking paths fuse a whole halo's worth of
    /// generations per call, every other path advances one.
    pub open spec fn generations_per_call(self) -> nat {
        match self {
            Algorithm::TemporalBlocking => GENERATIONS_PER_TILE as nat,
            Algorithm::TemporalBlockingParallel => GENERATIONS_PER_TILE as nat,
            _ => 1,
        }
    }
}

/// Dispatch one evolution call to the selected algorithm.  Whatever the
/// algorithm, the result is the input advanced by that algorithm's number of
/// generations; the choice affects only speed.
pub fn evolve_with<R: Rule>(grid: &BitGrid, rule: &R, algorithm: Algorithm) -> (r: BitGrid)
    requires
        grid.wf(),
        grid.width + 2 * TILE_SIZE <= usize::MAX,
        grid.height + 2 * TILE_SIZE <= usize::MAX,
    ensures
        r.wf(),
        r.width == grid.width,
        r.height == grid.height,
        r@ == torus_step_n(grid@, *rule, algorithm.generations_per_call()),
{
    let r = match algorithm {
        Algorithm::Original => grid.evolve(rule),
        Algorithm::OriginalParallel => grid.evolve_parallel(rule),
        Algorithm::BitGridNaive => grid.evolve(rule),
        Algorithm::BitGridNaiveParallel => grid.evolve_parallel(rule),
        Algorithm::Simd => evolve_simd(grid, rule),
        Algorithm::SimdParallel => evolve_simd_parallel(grid, rule),
        Algorithm::TemporalBlocking => evolve_temporal_blocking(
            grid,
            rule,
            GENERATIONS_PER_TILE,
        ),
        Algorithm::TemporalBlockingParallel => evolve_temporal_blocking_parallel(
            grid,
            rule,
            GENERATIONS_PER_TILE,
        ),
    };
    proof {
        assert(torus_step_n(grid@, *rule, 1) == crate::model::torus_step(grid@, *rule)) by {
            reveal_with_fuel(crate::model::torus_step_n, 2);
        }
    }
    r
}

} // verus!
