//! A verified bit-packed engine for two-dimensional binary cellular automata
//! on toroidal grids.
//!
//! Cells are stored one bit each, 64 to a word, and a whole word of cells is
//! advanced per rule application by a carry-save adder network.  A temporal
//! blocking scheme advances several generations inside a halo-padded tile
//! before writing back.  Every evolution path is proved to compute the same
//! mathematical step function over the grid's view.

pub mod algorithm;
pub mod bit_grid;
pub mod cell;
pub mod model;
pub mod patterns;
pub mod rules;
pub mod simd_life;
pub mod temporal_blocking;

pub use algorithm::Algorithm;
pub use bit_grid::{BitGrid, Chunk64};
pub use cell::Cell;
pub use patterns::Pattern;
pub use rules::{AnyRule, ConwayRule, DayAndNightRule, HighLifeRule, Rule, SeedsRule};
pub use rules::{all_rules, default_rule};
