//! Temporal blocking: advance several generations inside a halo-padded tile
//! before writing back, trading extra halo computation for reduced global
//! memory traffic.
//!
//! Each tile gathers an `(S + 2H) x (S + 2H)` region of the grid (interior
//! size `S`, halo `H`), steps it `H_or_fewer` generations with dead
//! boundaries entirely in the local buffer, and scatters only its interior
//! back.  The halo is wide enough that every interior cell still agrees with
//! the true toroidal evolution, which is what `lemma_halo` proves.

use rayon::iter::{IntoParallelIterator, ParallelIterator};
use vstd::arithmetic::div_mod::{
    lemma_fundamental_div_mod, lemma_fundamental_div_mod_converse, lemma_mod_bound,
    lemma_mod_multiples_vanish, lemma_small_mod,
};
use vstd::prelude::*;

use crate::bit_grid::{lemma_chunks_per_row_bounds, lemma_row_major, BitGrid};
use crate::model::{
    bounded_neighbors, bounded_step_t, bounded_step_t_n, cell_or_dead, chunks_per_row,
    grid_height, grid_width, is_rect, lemma_bounded_neighbors_le_8, lemma_bounded_step_t_n_shape,
    lemma_bounded_step_t_shape, lemma_torus_step_t_n_matches, lemma_torus_step_t_n_shape, nth_bit,
    table_matches_rule, torus_neighbors, torus_step_n, torus_step_t_n,
};
use crate::rules::Rule;
use crate::simd_life::{build_rule_lookup, compute_next_chunk_with_rule, lane_neighbors, lane_next, lane_prev};

verus! {

/// Tile interior size in cells (a multiple of 64, so tile boundaries always
/// align to word boundaries in the grid).
pub const TILE_SIZE: usize = 256;

/// Number of generations fused per tile.
pub const GENERATIONS_PER_TILE: usize = 4;

/// Halo width; must equal the number of fused generations for correctness.
pub const HALO_SIZE: usize = GENERATIONS_PER_TILE;

/// A small local buffer for tile processing: a halo-padded bit grid of its
/// own, never shared across tasks.
pub struct LocalTile {
    /// The tile's cells, bit-packed exactly like the shared grid.
    pub cells: BitGrid,
}

impl View for LocalTile {
    type V = Seq<Seq<bool>>;

    open spec fn view(&self) -> Seq<Seq<bool>> {
        self.cells@
    }
}

impl LocalTile {
    /// Well-formedness: the underlying bit grid is well-formed.
    pub open spec fn wf(&self) -> bool {
        self.cells.wf()
    }

    /// Create a new zeroed local tile buffer.
    pub fn new(width: usize, height: usize) -> (r: LocalTile)
        requires
            width + 63 <= usize::MAX,
            chunks_per_row(width as nat) * height <= usize::MAX as int / 64,
        ensures
            r.wf(),
            r.cells.width == width,
            r.cells.height == height,
            r@ == Seq::new(height as nat, |y: int| Seq::new(width as nat, |x: int| false)),
    {
        LocalTile { cells: BitGrid::new(width, height) }
    }

    /// Get the cell at (x, y); out-of-range reads are dead.
    #[inline]
    pub fn get(&self, x: usize, y: usize) -> (r: bool)
        requires
            self.wf(),
        ensures
            r == (if x < self.cells.width && y < self.cells.height {
                self@[y as int][x as int]
            } else {
                false
            }),
    {
        self.cells.get(x, y)
    }

    /// Set the cell at (x, y); out-of-range writes are no-ops.
    #[inline]
    pub fn set(&mut self, x: usize, y: usize, alive: bool)
        requires
            old(self).wf(),
        ensures
            final(self).wf(),
            final(self).cells.width == old(self).cells.width,
            final(self).cells.height == old(self).cells.height,
            final(self)@ == (if x < old(self).cells.width && y < old(self).cells.height {
                old(self)@.update(y as int, old(self)@[y as int].update(x as int, alive))
            } else {
                old(self)@
            }),
    {
        self.cells.set(x, y, alive);
    }

    /// Get the raw word at (chunk_x, y); out-of-range reads return 0.
    #[inline]
    pub fn get_chunk(&self, chunk_x: usize, y: usize) -> (r: u64)
        requires
            self.wf(),
        ensures
            r == (if chunk_x < self.cells.chunk_width && y < self.cells.height {
                self.cells.spec_chunk(chunk_x as int, y as int)
            } else {
                0u64
            }),
    {
        self.cells.get_chunk(chunk_x, y)
    }

    /// Store a word of cells at (chunk_x, y); bits beyond the tile's width
    /// are discarded and out-of-range writes are no-ops.
    #[inline]
    pub fn set_chunk(&mut self, chunk_x: usize, y: usize, val: u64)
        requires
            old(self).wf(),
        ensures
            final(self).wf(),
            final(self).cells.width == old(self).cells.width,
            final(self).cells.height == old(self).cells.height,
            final(self).cells.chunk_width == old(self).cells.chunk_width,
            chunk_x >= old(self).cells.chunk_width || y >= old(self).cells.height ==> final(self).cells
                == old(self).cells,
            chunk_x < old(self).cells.chunk_width && y < old(self).cells.height ==> {
                &&& forall|x2: int, y2: int|
                    0 <= x2 < old(self).cells.width && 0 <= y2 < old(self).cells.height
                        ==> #[trigger] final(self).cells.spec_cell(x2, y2) == (if y2 == y && x2
                        / 64 == chunk_x {
                        nth_bit(val, (x2 % 64) as u64)
                    } else {
                        old(self).cells.spec_cell(x2, y2)
                    })
                &&& forall|y2: int|
                    0 <= y2 < old(self).cells.height && y2 != y ==> #[trigger] final(self)@[y2]
                        == old(self)@[y2]
            },
    {
        self.cells.set_chunk(chunk_x, y, val);
    }

    /// Evolve the tile one generation with dead boundaries, writing into
    /// `dest`.  Reuses the destination buffer; no allocation.
    #[verifier::rlimit(100)]
    pub fn evolve_into(&self, dest: &mut LocalTile, lookup: &[bool; 32])
        requires
            self.wf(),
            old(dest).wf(),
            old(dest).cells.width == self.cells.width,
            old(dest).cells.height == self.cells.height,
        ensures
            final(dest).wf(),
            final(dest).cells.width == self.cells.width,
            final(dest).cells.height == self.cells.height,
            final(dest)@ == bounded_step_t(self@, lookup@),
    {
        proof {
            self.cells.lemma_view_shape();
        }
        let h = self.cells.height;
        let cw = self.cells.chunk_width;
        let ghost target = bounded_step_t(self@, lookup@);
        let mut y: usize = 0;
        while y < h
            invariant
                self.wf(),
                dest.wf(),
                dest.cells.width == self.cells.width,
                dest.cells.height == self.cells.height,
                h == self.cells.height,
                cw == self.cells.chunk_width,
                y <= h,
                target == bounded_step_t(self@, lookup@),
                forall|y2: int, x2: int|
                    0 <= y2 < y && 0 <= x2 < self.cells.width ==> #[trigger] dest@[y2][x2]
                        == target[y2][x2],
            decreases h - y,
        {
            let ya = if y > 0 {
                y - 1
            } else {
                0
            };
            let yb = if y + 1 < h {
                y + 1
            } else {
                0
            };
            let mut chunk_x: usize = 0;
            while chunk_x < cw
                invariant
                    self.wf(),
                    dest.wf(),
                    dest.cells.width == self.cells.width,
                    dest.cells.height == self.cells.height,
                    h == self.cells.height,
                    cw == self.cells.chunk_width,
                    y < h,
                    chunk_x <= cw,
                    ya == (if y > 0 {
                        y - 1
                    } else {
                        0
                    }),
                    yb == (if y + 1 < h {
                        y + 1
                    } else {
                        0
                    }),
                    target == bounded_step_t(self@, lookup@),
                    forall|y2: int, x2: int|
                        0 <= y2 < y && 0 <= x2 < self.cells.width ==> #[trigger] dest@[y2][x2]
                            == target[y2][x2],
                    forall|x2: int|
                        0 <= x2 < self.cells.width && x2 < chunk_x * 64 ==> #[trigger] dest@[
                        y as int][x2] == target[y as int][x2],
                decreases cw - chunk_x,
            {
                let above = if y > 0 {
                    self.get_chunk(chunk_x, ya)
                } else {
                    0
                };
                let current = self.get_chunk(chunk_x, y);
                let below = if y + 1 < h {
                    self.get_chunk(chunk_x, yb)
                } else {
                    0
                };
                // In the kernel's vocabulary, "left" edge bits are the
                // wrapped-in bit 0 of the next word and "right" edge bits
                // the bit 63 of the previous word.
                let (right_above, right_current, right_below) = if chunk_x > 0 {
                    let wa = self.get_chunk(chunk_x - 1, ya);
                    let wc = self.get_chunk(chunk_x - 1, y);
                    let wb = self.get_chunk(chunk_x - 1, yb);
                    proof {
                        lemma_word_tests(wa);
                        lemma_word_tests(wc);
                        lemma_word_tests(wb);
                    }
                    ((wa >> 63) != 0 && y > 0, (wc >> 63) != 0, (wb >> 63) != 0 && y + 1 < h)
                } else {
                    (false, false, false)
                };
                let (left_above, left_current, left_below) = if chunk_x + 1 < cw {
                    let wa = self.get_chunk(chunk_x + 1, ya);
                    let wc = self.get_chunk(chunk_x + 1, y);
                    let wb = self.get_chunk(chunk_x + 1, yb);
                    proof {
                        lemma_word_tests(wa);
                        lemma_word_tests(wc);
                        lemma_word_tests(wb);
                    }
                    ((wa & 1) != 0 && y > 0, (wc & 1) != 0, (wb & 1) != 0 && y + 1 < h)
                } else {
                    (false, false, false)
                };

                let next_chunk = compute_next_chunk_with_rule(
                    above,
                    current,
                    below,
                    left_above,
                    right_above,
                    left_current,
                    right_current,
                    left_below,
                    right_below,
                    lookup,
                );

                proof {
                    let g = self.cells;
                    let c = chunk_x as int;
                    let yi = y as int;
                    lemma_chunks_per_row_bounds(g.width as nat);
                    lemma_chunk_reads(g, above, c, yi - 1);
                    lemma_chunk_reads(g, current, c, yi);
                    lemma_chunk_reads(g, below, c, yi + 1);
                    if c + 1 < g.chunk_width {
                        lemma_fundamental_div_mod_converse((c + 1) * 64, 64, c + 1, 0);
                    } else {
                        assert((c + 1) * 64 >= g.width);
                    }
                    if c > 0 {
                        lemma_fundamental_div_mod_converse(c * 64 - 1, 64, c - 1, 63);
                        assert(64 * c <= 64 * (g.chunk_width as int - 1));
                        assert(c * 64 - 1 < g.width);
                    }
                    lemma_edge_read(g, left_above, (c + 1) * 64, yi - 1);
                    lemma_edge_read(g, left_current, (c + 1) * 64, yi);
                    lemma_edge_read(g, left_below, (c + 1) * 64, yi + 1);
                    lemma_edge_read(g, right_above, c * 64 - 1, yi - 1);
                    lemma_edge_read(g, right_current, c * 64 - 1, yi);
                    lemma_edge_read(g, right_below, c * 64 - 1, yi + 1);
                    lemma_bounded_words(
                        self.cells,
                        above,
                        current,
                        below,
                        left_above,
                        right_above,
                        left_current,
                        right_current,
                        left_below,
                        right_below,
                        chunk_x as int,
                        y as int,
                    );
                }
                let ghost pre = *dest;
                dest.set_chunk(chunk_x, y, next_chunk);
                proof {
                    assert forall|x2: int|
                        0 <= x2 < self.cells.width && x2 < (chunk_x + 1) * 64 implies #[trigger] dest@[
                    y as int][x2] == target[y as int][x2] by {
                        crate::bit_grid::lemma_cell_decomp(x2);
                        if x2 / 64 == chunk_x {
                            assert(dest.cells.spec_cell(x2, y as int) == nth_bit(
                                next_chunk,
                                (x2 % 64) as u64,
                            ));
                            lemma_bounded_neighbors_le_8(self@, x2, y as int);
                        } else {
                            assert(x2 < chunk_x * 64);
                            assert(dest.cells.spec_cell(x2, y as int) == pre.cells.spec_cell(
                                x2,
                                y as int,
                            ));
                            assert(pre@[y as int][x2] == target[y as int][x2]);
                        }
                    }
                    assert forall|y2: int, x2: int|
                        0 <= y2 < y && 0 <= x2 < self.cells.width implies #[trigger] dest@[y2][x2]
                        == target[y2][x2] by {
                        assert(dest@[y2] == pre@[y2]);
                    }
                }
                chunk_x = chunk_x + 1;
            }
            proof {
                lemma_chunks_per_row_bounds(self.cells.width as nat);
            }
            y = y + 1;
        }
        proof {
            dest.cells.lemma_view_shape();
            lemma_bounded_step_t_shape(self@, lookup@);
            assert(final(dest)@ =~~= bounded_step_t(self@, lookup@));
        }
    }
}

/// The halo-padded region of the shared grid that a tile gathers: local
/// cell (lx, ly) is global cell ((sx + lx) mod W, (sy + ly) mod H).
pub open spec fn gathered_region(
    g: Seq<Seq<bool>>,
    sx: int,
    sy: int,
    lw: nat,
    lh: nat,
) -> Seq<Seq<bool>> {
    Seq::new(
        lh,
        |ly: int|
            Seq::new(lw, |lx: int| g[(sy + ly) % grid_height(g)][(sx + lx) % grid_width(g)]),
    )
}

/// Shifting a coordinate by one commutes with wrapping it: the wrap of
/// `a + d` is the wrap of `(a mod m) + m + d`.
proof fn lemma_shift_mod(a: int, d: int, m: int)
    requires
        m >= 1,
        a >= 0,
        -1 <= d <= 1,
    ensures
        (a + d) % m == ((a % m) + m + d) % m,
{
    lemma_fundamental_div_mod(a, m);
    lemma_mod_bound(a, m);
    lemma_mod_multiples_vanish(a / m, (a % m) + d, m);
    assert(a + d == m * (a / m) + ((a % m) + d));
    lemma_mod_multiples_vanish(1, (a % m) + d, m);
    assert((a % m) + m + d == m * 1 + ((a % m) + d));
}

/// The halo argument: a tile gathered around a region and stepped with dead
/// boundaries agrees, on every cell at least `gens` away from the tile
/// border, with the toroidally stepped grid.  Each dead-boundary step can
/// corrupt only one more ring of border cells, and the halo is wide enough
/// to absorb them all.
pub proof fn lemma_halo(
    big: Seq<Seq<bool>>,
    tile: Seq<Seq<bool>>,
    t: Seq<bool>,
    sx: int,
    sy: int,
    gens: nat,
)
    requires
        is_rect(big),
        is_rect(tile),
        grid_width(big) >= 1,
        grid_height(big) >= 1,
        0 <= sx < grid_width(big),
        0 <= sy < grid_height(big),
        forall|lx: int, ly: int|
            0 <= lx < grid_width(tile) && 0 <= ly < grid_height(tile) ==> #[trigger] tile[ly][lx]
                == big[(sy + ly) % grid_height(big)][(sx + lx) % grid_width(big)],
    ensures
        forall|lx: int, ly: int|
            gens <= lx < grid_width(tile) - gens && gens <= ly < grid_height(tile) - gens
                ==> #[trigger] bounded_step_t_n(tile, t, gens)[ly][lx] == torus_step_t_n(
                big,
                t,
                gens,
            )[(sy + ly) % grid_height(big)][(sx + lx) % grid_width(big)],
    decreases gens,
{
    let w = grid_width(big);
    let h = grid_height(big);
    if gens > 0 {
        lemma_halo(big, tile, t, sx, sy, (gens - 1) as nat);
        let tp = bounded_step_t_n(tile, t, (gens - 1) as nat);
        let bp = torus_step_t_n(big, t, (gens - 1) as nat);
        lemma_bounded_step_t_n_shape(tile, t, (gens - 1) as nat);
        lemma_torus_step_t_n_shape(big, t, (gens - 1) as nat);
        assert forall|lx: int, ly: int|
            gens <= lx < grid_width(tile) - gens && gens <= ly < grid_height(tile)
                - gens implies #[trigger] bounded_step_t_n(tile, t, gens)[ly][lx]
            == torus_step_t_n(big, t, gens)[(sy + ly) % h][(sx + lx) % w] by {
            let gx = (sx + lx) % w;
            let gy = (sy + ly) % h;
            lemma_mod_bound(sx + lx, w);
            lemma_mod_bound(sy + ly, h);
            // The wrapped coordinates of the global neighbors are the
            // wrapped coordinates of the shifted local cells.
            assert forall|d: int| -1 <= d <= 1 implies (#[trigger] (sx + lx + d)) % w == (gx + w
                + d) % w && (sy + ly + d) % h == (gy + h + d) % h by {
                lemma_fundamental_div_mod(sx + lx, w);
                lemma_mod_multiples_vanish((sx + lx) / w, gx + d, w);
                lemma_mod_multiples_vanish(1, gx + d, w);
                assert(sx + lx + d == w * ((sx + lx) / w) + (gx + d));
                assert(gx + w + d == w * 1 + (gx + d));
                lemma_fundamental_div_mod(sy + ly, h);
                lemma_mod_multiples_vanish((sy + ly) / h, gy + d, h);
                lemma_mod_multiples_vanish(1, gy + d, h);
                assert(sy + ly + d == h * ((sy + ly) / h) + (gy + d));
                assert(gy + h + d == h * 1 + (gy + d));
            }
            // The previous generation agrees on the whole 3x3 neighborhood.
            assert forall|dx: int, dy: int|
                -1 <= dx <= 1 && -1 <= dy <= 1 implies #[trigger] tp[ly + dy][lx + dx] == bp[(sy
                + ly + dy) % h][(sx + lx + dx) % w] by {}
            assert((gx + w + 1) % w == (gx + 1) % w) by {
                lemma_mod_multiples_vanish(1, gx + 1, w);
            }
            assert((gy + h + 1) % h == (gy + 1) % h) by {
                lemma_mod_multiples_vanish(1, gy + 1, h);
            }
            assert((gx + w - 1) % w == (gx + w + (-1)) % w);
            assert((gy + h - 1) % h == (gy + h + (-1)) % h);
            assert((gx + 1) % w == (gx + w + 1) % w);
            assert((gy + 1) % h == (gy + h + 1) % h);
            assert(gx == (gx + w + 0) % w) by {
                lemma_mod_multiples_vanish(1, gx, w);
                lemma_small_mod(gx as nat, w as nat);
            }
            assert(gy == (gy + h + 0) % h) by {
                lemma_mod_multiples_vanish(1, gy, h);
                lemma_small_mod(gy as nat, h as nat);
            }
            assert(cell_or_dead(tp, lx - 1, ly - 1) == bp[(gy + h - 1) % h][(gx + w - 1) % w]) by {
                assert(cell_or_dead(tp, lx - 1, ly - 1) == tp[ly - 1][lx - 1]);
                assert(tp[ly - 1][lx - 1] == bp[(sy + ly - 1) % h][(sx + lx - 1) % w]);
                lemma_shift_mod(sx + lx, -1, w);
                assert((sx + lx - 1) % w == (gx + w - 1) % w);
                lemma_shift_mod(sy + ly, -1, h);
                assert((sy + ly - 1) % h == (gy + h - 1) % h);
            }
            assert(cell_or_dead(tp, lx, ly - 1) == bp[(gy + h - 1) % h][gx]) by {
                assert(cell_or_dead(tp, lx, ly - 1) == tp[ly - 1][lx]);
                assert(tp[ly - 1][lx] == bp[(sy + ly - 1) % h][(sx + lx) % w]);
                assert((sx + lx) % w == gx);
                lemma_shift_mod(sy + ly, -1, h);
                assert((sy + ly - 1) % h == (gy + h - 1) % h);
            }
            assert(cell_or_dead(tp, lx + 1, ly - 1) == bp[(gy + h - 1) % h][(gx + 1) % w]) by {
                assert(cell_or_dead(tp, lx + 1, ly - 1) == tp[ly - 1][lx + 1]);
                assert(tp[ly - 1][lx + 1] == bp[(sy + ly - 1) % h][(sx + lx + 1) % w]);
                lemma_shift_mod(sx + lx, 1, w);
                assert((sx + lx + 1) % w == (gx + w + 1) % w);
                assert((sx + lx + 1) % w == (gx + 1) % w);
                lemma_shift_mod(sy + ly, -1, h);
                assert((sy + ly - 1) % h == (gy + h - 1) % h);
            }
            assert(cell_or_dead(tp, lx - 1, ly) == bp[gy][(gx + w - 1) % w]) by {
                assert(cell_or_dead(tp, lx - 1, ly) == tp[ly][lx - 1]);
                assert(tp[ly][lx - 1] == bp[(sy + ly) % h][(sx + lx - 1) % w]);
                lemma_shift_mod(sx + lx, -1, w);
                assert((sx + lx - 1) % w == (gx + w - 1) % w);
                assert((sy + ly) % h == gy);
            }
            assert(cell_or_dead(tp, lx + 1, ly) == bp[gy][(gx + 1) % w]) by {
                assert(cell_or_dead(tp, lx + 1, ly) == tp[ly][lx + 1]);
                assert(tp[ly][lx + 1] == bp[(sy + ly) % h][(sx + lx + 1) % w]);
                lemma_shift_mod(sx + lx, 1, w);
                assert((sx + lx + 1) % w == (gx + w + 1) % w);
                assert((sx + lx + 1) % w == (gx + 1) % w);
                assert((sy + ly) % h == gy);
            }
            assert(cell_or_dead(tp, lx - 1, ly + 1) == bp[(gy + 1) % h][(gx + w - 1) % w]) by {
                assert(cell_or_dead(tp, lx - 1, ly + 1) == tp[ly + 1][lx - 1]);
                assert(tp[ly + 1][lx - 1] == bp[(sy + ly + 1) % h][(sx + lx - 1) % w]);
                lemma_shift_mod(sx + lx, -1, w);
                assert((sx + lx - 1) % w == (gx + w - 1) % w);
                lemma_shift_mod(sy + ly, 1, h);
                assert((sy + ly + 1) % h == (gy + h + 1) % h);
                assert((sy + ly + 1) % h == (gy + 1) % h);
            }
            assert(cell_or_dead(tp, lx, ly + 1) == bp[(gy + 1) % h][gx]) by {
                assert(cell_or_dead(tp, lx, ly + 1) == tp[ly + 1][lx]);
                assert(tp[ly + 1][lx] == bp[(sy + ly + 1) % h][(sx + lx) % w]);
                assert((sx + lx) % w == gx);
                lemma_shift_mod(sy + ly, 1, h);
                assert((sy + ly + 1) % h == (gy + h + 1) % h);
                assert((sy + ly + 1) % h == (gy + 1) % h);
            }
            assert(cell_or_dead(tp, lx + 1, ly + 1) == bp[(gy + 1) % h][(gx + 1) % w]) by {
                assert(cell_or_dead(tp, lx + 1, ly + 1) == tp[ly + 1][lx + 1]);
                assert(tp[ly + 1][lx + 1] == bp[(sy + ly + 1) % h][(sx + lx + 1) % w]);
                lemma_shift_mod(sx + lx, 1, w);
                assert((sx + lx + 1) % w == (gx + w + 1) % w);
                assert((sx + lx + 1) % w == (gx + 1) % w);
                lemma_shift_mod(sy + ly, 1, h);
                assert((sy + ly + 1) % h == (gy + h + 1) % h);
                assert((sy + ly + 1) % h == (gy + 1) % h);
            }
            lemma_nbr_sums(tp, bp, lx, ly, gx, gy);
            assert(tp[ly][lx] == bp[gy][gx]) by {
                lemma_small_mod(gx as nat, w as nat);
                lemma_small_mod(gy as nat, h as nat);
            }
        }
    }
}

/// With each dead-boundary neighbor read identified with the corresponding
/// wrapped cell of the stepped grid, the two neighbor counts coincide.
#[verifier::rlimit(100)]
#[verifier::spinoff_prover]
proof fn lemma_nbr_sums(
    tp: Seq<Seq<bool>>,
    bp: Seq<Seq<bool>>,
    lx: int,
    ly: int,
    gx: int,
    gy: int,
)
    requires
        cell_or_dead(tp, lx - 1, ly - 1) == bp[(gy + grid_height(bp) - 1) % grid_height(bp)][(gx
            + grid_width(bp) - 1) % grid_width(bp)],
        cell_or_dead(tp, lx, ly - 1) == bp[(gy + grid_height(bp) - 1) % grid_height(bp)][gx],
        cell_or_dead(tp, lx + 1, ly - 1) == bp[(gy + grid_height(bp) - 1) % grid_height(bp)][(gx
            + 1) % grid_width(bp)],
        cell_or_dead(tp, lx - 1, ly) == bp[gy][(gx + grid_width(bp) - 1) % grid_width(bp)],
        cell_or_dead(tp, lx + 1, ly) == bp[gy][(gx + 1) % grid_width(bp)],
        cell_or_dead(tp, lx - 1, ly + 1) == bp[(gy + 1) % grid_height(bp)][(gx + grid_width(bp)
            - 1) % grid_width(bp)],
        cell_or_dead(tp, lx, ly + 1) == bp[(gy + 1) % grid_height(bp)][gx],
        cell_or_dead(tp, lx + 1, ly + 1) == bp[(gy + 1) % grid_height(bp)][(gx + 1) % grid_width(
            bp,
        )],
    ensures
        bounded_neighbors(tp, lx, ly) == torus_neighbors(bp, gx, gy),
{
}

/// How the edge-bit tests read a word: `& 1` tests bit 0 and `>> 63` tests
/// bit 63.
proof fn lemma_word_tests(w: u64)
    ensures
        ((w & 1) != 0) == nth_bit(w, 0),
        ((w >> 63) != 0) == nth_bit(w, 63),
{
    assert(((w & 1) != 0) == ((w >> 0) & 1 == 1) && ((w >> 63) != 0) == ((w >> 63) & 1
        == 1)) by (bit_vector);
}

/// A raw word read (or zero for an out-of-range row) reads, lane by lane,
/// the dead-boundary cells of that row.
proof fn lemma_chunk_reads(grid: BitGrid, w: u64, c: int, ry: int)
    requires
        grid.wf(),
        0 <= c < grid.chunk_width,
        w == (if 0 <= ry < grid.height {
            grid.spec_chunk(c, ry)
        } else {
            0u64
        }),
    ensures
        forall|j: u64|
            j < 64 ==> #[trigger] nth_bit(w, j) == cell_or_dead(grid@, c * 64 + j, ry),
{
    grid.lemma_view_shape();
    assert forall|j: u64| j < 64 implies #[trigger] nth_bit(w, j) == cell_or_dead(
        grid@,
        c * 64 + j,
        ry,
    ) by {
        if 0 <= ry < grid.height {
            if c * 64 + j < grid.width {
                lemma_fundamental_div_mod_converse(c * 64 + j, 64, c, j as int);
                assert(grid@[ry][c * 64 + j] == grid.spec_cell(c * 64 + j, ry));
            }
        } else {
            crate::model::lemma_bit_consts(j);
        }
    }
}

/// The single edge bit read from an adjacent word (or false at the tile
/// border) is the dead-boundary cell at the given column.
proof fn lemma_edge_read(grid: BitGrid, b: bool, x: int, ry: int)
    requires
        grid.wf(),
        b == (0 <= ry < grid.height && 0 <= x < grid.width && grid.spec_cell(x, ry)),
    ensures
        b == cell_or_dead(grid@, x, ry),
{
    grid.lemma_view_shape();
}

/// The three row words and six edge bits handed to the kernel for a tile
/// read exactly the dead-boundary neighborhoods: per lane, the eight
/// neighbor reads are the eight `cell_or_dead` values around the cell.
#[verifier::rlimit(100)]
#[verifier::spinoff_prover]
proof fn lemma_bounded_words(
    grid: BitGrid,
    above: u64,
    current: u64,
    below: u64,
    la: bool,
    ra: bool,
    lc: bool,
    rc: bool,
    lb: bool,
    rb: bool,
    c: int,
    y: int,
)
    requires
        grid.wf(),
        0 <= c < grid.chunk_width,
        0 <= y < grid.height,
        forall|j: u64| j < 64 ==> #[trigger] nth_bit(above, j) == cell_or_dead(grid@, c * 64 + j, y - 1),
        forall|j: u64| j < 64 ==> #[trigger] nth_bit(current, j) == cell_or_dead(grid@, c * 64 + j, y),
        forall|j: u64| j < 64 ==> #[trigger] nth_bit(below, j) == cell_or_dead(grid@, c * 64 + j, y + 1),
        la == cell_or_dead(grid@, (c + 1) * 64, y - 1),
        ra == cell_or_dead(grid@, c * 64 - 1, y - 1),
        lc == cell_or_dead(grid@, (c + 1) * 64, y),
        rc == cell_or_dead(grid@, c * 64 - 1, y),
        lb == cell_or_dead(grid@, (c + 1) * 64, y + 1),
        rb == cell_or_dead(grid@, c * 64 - 1, y + 1),
    ensures
        forall|i: u64|
            i < 64 && c * 64 + i < grid.width ==> #[trigger] lane_neighbors(
                above,
                current,
                below,
                la,
                ra,
                lc,
                rc,
                lb,
                rb,
                i,
            ) == bounded_neighbors(grid@, c * 64 + i, y) && nth_bit(current, i) == grid@[y][c * 64
                + i],
{
    grid.lemma_view_shape();
    assert forall|i: u64| i < 64 && c * 64 + i < grid.width implies #[trigger] lane_neighbors(
        above,
        current,
        below,
        la,
        ra,
        lc,
        rc,
        lb,
        rb,
        i,
    ) == bounded_neighbors(grid@, c * 64 + i, y) && nth_bit(current, i) == grid@[y][c * 64 + i] by {
        lemma_bounded_lane(grid@, above, current, below, la, ra, lc, rc, lb, rb, c, y, i);
        assert(cell_or_dead(grid@, c * 64 + i, y) == grid@[y][c * 64 + i]);
    }
}

/// One lane of the dead-boundary kernel reads: its eight neighbor bits are
/// the eight `cell_or_dead` values around the cell.
#[verifier::rlimit(100)]
#[verifier::spinoff_prover]
proof fn lemma_bounded_lane(
    g: Seq<Seq<bool>>,
    above: u64,
    current: u64,
    below: u64,
    la: bool,
    ra: bool,
    lc: bool,
    rc: bool,
    lb: bool,
    rb: bool,
    c: int,
    y: int,
    i: u64,
)
    requires
        i < 64,
        0 <= c,
        forall|j: u64| j < 64 ==> #[trigger] nth_bit(above, j) == cell_or_dead(g, c * 64 + j, y - 1),
        forall|j: u64| j < 64 ==> #[trigger] nth_bit(current, j) == cell_or_dead(g, c * 64 + j, y),
        forall|j: u64| j < 64 ==> #[trigger] nth_bit(below, j) == cell_or_dead(g, c * 64 + j, y + 1),
        la == cell_or_dead(g, (c + 1) * 64, y - 1),
        ra == cell_or_dead(g, c * 64 - 1, y - 1),
        lc == cell_or_dead(g, (c + 1) * 64, y),
        rc == cell_or_dead(g, c * 64 - 1, y),
        lb == cell_or_dead(g, (c + 1) * 64, y + 1),
        rb == cell_or_dead(g, c * 64 - 1, y + 1),
    ensures
        lane_neighbors(above, current, below, la, ra, lc, rc, lb, rb, i) == bounded_neighbors(
            g,
            c * 64 + i,
            y,
        ),
        nth_bit(current, i) == cell_or_dead(g, c * 64 + i, y),
{
    lemma_bounded_row(g, above, la, ra, c, y - 1, i);
    lemma_bounded_row(g, current, lc, rc, c, y, i);
    lemma_bounded_row(g, below, lb, rb, c, y + 1, i);
    lemma_bounded_sum(g, above, current, below, la, ra, lc, rc, lb, rb, c, y, i);
}

/// With every per-lane read identified with its dead-boundary cell, the sum
/// of the eight reads is the dead-boundary neighbor count.
#[verifier::rlimit(100)]
#[verifier::spinoff_prover]
proof fn lemma_bounded_sum(
    g: Seq<Seq<bool>>,
    above: u64,
    current: u64,
    below: u64,
    la: bool,
    ra: bool,
    lc: bool,
    rc: bool,
    lb: bool,
    rb: bool,
    c: int,
    y: int,
    i: u64,
)
    requires
        i < 64,
        lane_next(above, la, i) == cell_or_dead(g, c * 64 + i + 1, y - 1),
        lane_prev(above, ra, i) == cell_or_dead(g, c * 64 + i - 1, y - 1),
        nth_bit(above, i) == cell_or_dead(g, c * 64 + i, y - 1),
        lane_next(current, lc, i) == cell_or_dead(g, c * 64 + i + 1, y),
        lane_prev(current, rc, i) == cell_or_dead(g, c * 64 + i - 1, y),
        lane_next(below, lb, i) == cell_or_dead(g, c * 64 + i + 1, y + 1),
        lane_prev(below, rb, i) == cell_or_dead(g, c * 64 + i - 1, y + 1),
        nth_bit(below, i) == cell_or_dead(g, c * 64 + i, y + 1),
    ensures
        lane_neighbors(above, current, below, la, ra, lc, rc, lb, rb, i) == bounded_neighbors(
            g,
            c * 64 + i,
            y,
        ),
{
}

/// One lane of one dead-boundary row word: the three horizontal reads are
/// the `cell_or_dead` values at and beside the cell's column.
#[verifier::rlimit(100)]
#[verifier::spinoff_prover]
proof fn lemma_bounded_row(g: Seq<Seq<bool>>, word: u64, le: bool, re: bool, c: int, ry: int, i: u64)
    requires
        i < 64,
        0 <= c,
        forall|j: u64| j < 64 ==> #[trigger] nth_bit(word, j) == cell_or_dead(g, c * 64 + j, ry),
        le == cell_or_dead(g, (c + 1) * 64, ry),
        re == cell_or_dead(g, c * 64 - 1, ry),
    ensures
        lane_next(word, le, i) == cell_or_dead(g, c * 64 + i + 1, ry),
        lane_prev(word, re, i) == cell_or_dead(g, c * 64 + i - 1, ry),
        nth_bit(word, i) == cell_or_dead(g, c * 64 + i, ry),
{
    if i == 63 {
        assert(c * 64 + i + 1 == (c + 1) * 64);
    } else {
        assert(nth_bit(word, (i + 1) as u64) == cell_or_dead(g, c * 64 + (i + 1) as u64, ry));
    }
    if i > 0 {
        assert(nth_bit(word, (i - 1) as u64) == cell_or_dead(g, c * 64 + (i - 1) as u64, ry));
    }
}

/// Evolve a tile `generations` times with dead boundaries, using double
/// buffering: a scratch twin buffer is written and the two are swapped
/// after each step.
pub fn evolve_tile_n_gens(tile: LocalTile, generations: usize, lookup: &[bool; 32]) -> (r:
    LocalTile)
    requires
        tile.wf(),
    ensures
        r.wf(),
        r.cells.width == tile.cells.width,
        r.cells.height == tile.cells.height,
        r@ == bounded_step_t_n(tile@, lookup@, generations as nat),
{
    let ghost orig = tile@;
    let w = tile.cells.width;
    let h = tile.cells.height;
    let mut cur = tile;
    let mut aux = LocalTile::new(w, h);
    let mut g: usize = 0;
    while g < generations
        invariant
            cur.wf(),
            aux.wf(),
            cur.cells.width == w,
            cur.cells.height == h,
            aux.cells.width == w,
            aux.cells.height == h,
            g <= generations,
            cur@ == bounded_step_t_n(orig, lookup@, g as nat),
        decreases generations - g,
    {
        cur.evolve_into(&mut aux, lookup);
        let tmp = cur;
        cur = aux;
        aux = tmp;
        g = g + 1;
    }
    cur
}

/// Read 64 bits of the shared grid starting at an arbitrary bit offset.
#[inline]
pub fn get_u64_unaligned(grid: &BitGrid, x: usize, y: usize) -> (r: u64)
    requires
        grid.wf(),
        y < grid.height,
        x < grid.chunk_width * 64,
    ensures
        forall|j: u64|
            j < 64 ==> #[trigger] nth_bit(r, j) == grid.spec_flat_bit(
                ((y * grid.chunk_width) as int) * 64 + x + j,
            ),
{
    grid.get_word64(x, y)
}

/// Read 64 bits of a tile starting at an arbitrary bit offset.
#[inline]
pub fn get_tile_u64_unaligned(tile: &LocalTile, x: usize, y: usize) -> (r: u64)
    requires
        tile.wf(),
        y < tile.cells.height,
        x < tile.cells.chunk_width * 64,
    ensures
        forall|j: u64|
            j < 64 ==> #[trigger] nth_bit(r, j) == tile.cells.spec_flat_bit(
                ((y * tile.cells.chunk_width) as int) * 64 + x + j,
            ),
{
    tile.cells.get_word64(x, y)
}

/// The flat bit at a row base plus a cell column is that cell.
proof fn lemma_flat_is_cell(grid: BitGrid, xq: int, yq: int)
    requires
        grid.wf(),
        0 <= xq < grid.width,
        0 <= yq < grid.height,
    ensures
        grid.spec_flat_bit((yq * (grid.chunk_width as int)) * 64 + xq) == grid@[yq][xq],
{
    grid.lemma_view_shape();
    crate::bit_grid::lemma_cell_decomp(xq);
    lemma_chunks_per_row_bounds(grid.width as nat);
    assert(xq / 64 < grid.chunk_width as int) by (nonlinear_arith)
        requires
            0 <= xq / 64,
            64 * (xq / 64) <= xq,
            xq < (grid.chunk_width as int) * 64,
    ;
    lemma_row_major(
        xq / 64,
        yq,
        xq / 64,
        yq,
        grid.chunk_width as int,
        grid.height as int,
    );
    let k = (yq * (grid.chunk_width as int)) * 64 + xq;
    lemma_fundamental_div_mod_converse(
        k,
        64,
        yq * (grid.chunk_width as int) + xq / 64,
        xq % 64,
    );
    assert(grid@[yq][xq] == grid.spec_cell(xq, yq));
}

/// Copy a halo-padded region of the shared grid into a fresh local tile,
/// cell by cell with explicit wrapping.  This is the path that handles
/// regions wrapping around the grid edges.
pub fn copy_to_local_tile(
    grid: &BitGrid,
    tile_x: usize,
    tile_y: usize,
    local_width: usize,
    local_height: usize,
) -> (tile: LocalTile)
    requires
        grid.wf(),
        grid.width >= 1,
        grid.height >= 1,
        tile_x < grid.width,
        tile_y < grid.height,
        local_width + 63 <= usize::MAX,
        chunks_per_row(local_width as nat) * local_height <= usize::MAX as int / 64,
        local_width <= usize::MAX - grid.width,
        local_height <= usize::MAX - grid.height,
    ensures
        tile.wf(),
        tile.cells.width == local_width,
        tile.cells.height == local_height,
        tile@ == gathered_region(grid@, tile_x as int, tile_y as int, local_width as nat, local_height as nat),
{
    proof {
        grid.lemma_view_shape();
    }
    // Fast path: the region does not wrap around either grid edge.
    if local_width <= grid.width - tile_x && local_height <= grid.height - tile_y {
        return copy_to_local_tile_fast(grid, tile_x, tile_y, local_width, local_height);
    }
    let ghost target = gathered_region(
        grid@,
        tile_x as int,
        tile_y as int,
        local_width as nat,
        local_height as nat,
    );
    let mut tile = LocalTile::new(local_width, local_height);
    let mut ly: usize = 0;
    while ly < local_height
        invariant
            grid.wf(),
            grid.width >= 1,
            grid.height >= 1,
            tile.wf(),
            tile.cells.width == local_width,
            tile.cells.height == local_height,
            ly <= local_height,
            tile_x < grid.width,
            tile_y < grid.height,
            local_width <= usize::MAX - grid.width,
            local_height <= usize::MAX - grid.height,
            target == gathered_region(
                grid@,
                tile_x as int,
                tile_y as int,
                local_width as nat,
                local_height as nat,
            ),
            forall|y2: int, x2: int|
                0 <= y2 < local_height && 0 <= x2 < local_width ==> #[trigger] tile@[y2][x2] == (
                if y2 < ly {
                    target[y2][x2]
                } else {
                    false
                }),
        decreases local_height - ly,
    {
        let gy = (tile_y + ly) % grid.height;
        proof {
            lemma_mod_bound(tile_y as int + ly as int, grid.height as int);
        }
        let mut lx: usize = 0;
        while lx < local_width
            invariant
                grid.wf(),
                grid.width >= 1,
                grid.height >= 1,
                tile.wf(),
                tile.cells.width == local_width,
                tile.cells.height == local_height,
                ly < local_height,
                lx <= local_width,
                tile_x < grid.width,
                tile_y < grid.height,
                local_width <= usize::MAX - grid.width,
                gy == ((tile_y + ly) as int) % (grid.height as int),
                gy < grid.height,
                target == gathered_region(
                    grid@,
                    tile_x as int,
                    tile_y as int,
                    local_width as nat,
                    local_height as nat,
                ),
                forall|y2: int, x2: int|
                    0 <= y2 < local_height && 0 <= x2 < local_width ==> #[trigger] tile@[y2][x2]
                        == (if y2 < ly || (y2 == ly && x2 < lx) {
                        target[y2][x2]
                    } else {
                        false
                    }),
            decreases local_width - lx,
        {
            let gx = (tile_x + lx) % grid.width;
            proof {
                lemma_mod_bound(tile_x as int + lx as int, grid.width as int);
            }
            if grid.get(gx, gy) {
                tile.set(lx, ly, true);
            }
            lx = lx + 1;
        }
        ly = ly + 1;
    }
    proof {
        tile.cells.lemma_view_shape();
        assert(tile@ =~~= target);
    }
    tile
}

/// Optimized gather for a region that does not wrap: word-aligned runs are
/// read with unaligned word loads from the grid and stored aligned into the
/// tile.
pub fn copy_to_local_tile_fast(
    grid: &BitGrid,
    start_x: usize,
    start_y: usize,
    width: usize,
    height: usize,
) -> (tile: LocalTile)
    requires
        grid.wf(),
        grid.width >= 1,
        grid.height >= 1,
        start_x + width <= grid.width,
        start_y + height <= grid.height,
        width + 63 <= usize::MAX,
        chunks_per_row(width as nat) * height <= usize::MAX as int / 64,
    ensures
        tile.wf(),
        tile.cells.width == width,
        tile.cells.height == height,
        tile@ == gathered_region(grid@, start_x as int, start_y as int, width as nat, height as nat),
{
    proof {
        grid.lemma_view_shape();
        lemma_chunks_per_row_bounds(grid.width as nat);
        lemma_chunks_per_row_bounds(width as nat);
    }
    let ghost target = gathered_region(
        grid@,
        start_x as int,
        start_y as int,
        width as nat,
        height as nat,
    );
    let mut tile = LocalTile::new(width, height);
    let tcw = tile.cells.chunk_width;
    let mut ly: usize = 0;
    while ly < height
        invariant
            grid.wf(),
            grid.width >= 1,
            grid.height >= 1,
            tile.wf(),
            tile.cells.width == width,
            tile.cells.height == height,
            tcw == tile.cells.chunk_width,
            ly <= height,
            start_x + width <= grid.width,
            start_y + height <= grid.height,
            target == gathered_region(
                grid@,
                start_x as int,
                start_y as int,
                width as nat,
                height as nat,
            ),
            forall|y2: int, x2: int|
                0 <= y2 < height && 0 <= x2 < width ==> #[trigger] tile@[y2][x2] == (if y2 < ly {
                    target[y2][x2]
                } else {
                    false
                }),
        decreases height - ly,
    {
        let global_y = start_y + ly;
        let mut chunk_x: usize = 0;
        while chunk_x < tcw
            invariant
                grid.wf(),
                grid.width >= 1,
                grid.height >= 1,
                tile.wf(),
                tile.cells.width == width,
                tile.cells.height == height,
                tcw == tile.cells.chunk_width,
                ly < height,
                chunk_x <= tcw,
                global_y == start_y + ly,
                start_x + width <= grid.width,
                start_y + height <= grid.height,
                target == gathered_region(
                    grid@,
                    start_x as int,
                    start_y as int,
                    width as nat,
                    height as nat,
                ),
                forall|y2: int, x2: int|
                    0 <= y2 < height && 0 <= x2 < width ==> #[trigger] tile@[y2][x2] == (if y2
                        < ly || (y2 == ly && x2 < chunk_x * 64) {
                        target[y2][x2]
                    } else {
                        false
                    }),
            decreases tcw - chunk_x,
        {
            proof {
                lemma_chunks_per_row_bounds(width as nat);
                assert(64 * (chunk_x as int) <= 64 * (tcw as int - 1));
                lemma_chunks_per_row_bounds(grid.width as nat);
            }
            let tile_bit_offset = chunk_x * 64;
            let src_bit_start = start_x + tile_bit_offset;
            let val = grid.get_word64(src_bit_start, global_y);
            let bits_remaining = width - tile_bit_offset;
            let masked_val = if bits_remaining < 64 {
                proof {
                    assert(1u64 << (bits_remaining as u64) >= 1) by (bit_vector)
                        requires
                            (bits_remaining as u64) < 64,
                    ;
                }
                val & ((1u64 << (bits_remaining as u64)) - 1)
            } else {
                val
            };
            let ghost pre = tile;
            tile.set_chunk(chunk_x, ly, masked_val);
            proof {
                assert forall|y2: int, x2: int|
                    0 <= y2 < height && 0 <= x2 < width implies #[trigger] tile@[y2][x2] == (if y2
                    < ly || (y2 == ly && x2 < (chunk_x + 1) * 64) {
                    target[y2][x2]
                } else {
                    false
                }) by {
                    crate::bit_grid::lemma_cell_decomp(x2);
                    if y2 == ly && x2 / 64 == chunk_x {
                        let j = (x2 % 64) as u64;
                        assert(tile.cells.spec_cell(x2, y2) == nth_bit(masked_val, j));
                        if bits_remaining < 64 {
                            crate::model::lemma_bit_and(
                                val,
                                (((1u64 << (bits_remaining as u64)) - 1) as u64),
                                j,
                            );
                            crate::model::lemma_bit_low_mask(bits_remaining as u64, j);
                        }
                        assert(x2 - (chunk_x as int) * 64 == j);
                        assert(j < bits_remaining);
                        assert(nth_bit(masked_val, j) == nth_bit(val, j));
                        let xq = (start_x + x2) as int;
                        assert(nth_bit(val, j) == grid.spec_flat_bit(
                            ((global_y * grid.chunk_width) as int) * 64 + src_bit_start + j,
                        ));
                        assert(((global_y * grid.chunk_width) as int) * 64 + src_bit_start + j
                            == ((global_y as int) * (grid.chunk_width as int)) * 64 + xq);
                        lemma_flat_is_cell(*grid, xq, global_y as int);
                        lemma_small_mod((start_y + ly) as nat, grid.height as nat);
                        lemma_small_mod((start_x + x2) as nat, grid.width as nat);
                    } else if y2 == ly {
                        assert(tile.cells.spec_cell(x2, y2) == pre.cells.spec_cell(x2, y2));
                        assert(pre@[y2][x2] == tile@[y2][x2]);
                    } else {
                        assert(tile@[y2] == pre@[y2]);
                    }
                }
            }
            chunk_x = chunk_x + 1;
        }
        proof {
            assert forall|y2: int, x2: int|
                0 <= y2 < height && 0 <= x2 < width implies #[trigger] tile@[y2][x2] == (if y2 < ly
                + 1 {
                target[y2][x2]
            } else {
                false
            }) by {
                if y2 == ly {
                    assert(x2 < (tcw as int) * 64);
                }
            }
        }
        ly = ly + 1;
    }
    proof {
        tile.cells.lemma_view_shape();
        assert(tile@ =~~= target);
    }
    tile
}

/// Wrapping a coordinate commutes with adding any offset.
proof fn lemma_mod_shift(a: int, c: int, m: int)
    requires
        m >= 1,
    ensures
        ((a % m) + c) % m == (a + c) % m,
{
    lemma_fundamental_div_mod(a, m);
    lemma_mod_multiples_vanish(a / m, (a % m) + c, m);
    assert(a + c == m * (a / m) + ((a % m) + c));
}

/// Copy the interior of an evolved tile back into the shared output grid,
/// accumulating with OR.  The cell of the output at (gx, gy) becomes live
/// exactly when it was live before or the tile's interior covers it with a
/// live cell.
pub fn copy_active_cells_to_grid(
    tile: &LocalTile,
    grid: &mut BitGrid,
    tile_x: usize,
    tile_y: usize,
    inner_width: usize,
    inner_height: usize,
    halo: usize,
)
    requires
        tile.wf(),
        old(grid).wf(),
        old(grid).width >= 1,
        old(grid).height >= 1,
        tile_x < old(grid).width,
        tile_y < old(grid).height,
        inner_width <= old(grid).width,
        inner_height <= old(grid).height,
        inner_width + halo <= tile.cells.width,
        inner_height + halo <= tile.cells.height,
        tile_x <= usize::MAX - inner_width,
        tile_y <= usize::MAX - inner_height,
    ensures
        final(grid).wf(),
        final(grid).width == old(grid).width,
        final(grid).height == old(grid).height,
        final(grid).chunk_width == old(grid).chunk_width,
        forall|gx: int, gy: int|
            0 <= gx < old(grid).width && 0 <= gy < old(grid).height ==> #[trigger] final(grid)@[gy][gx] == (old(grid)@[gy][gx] || ((gx - tile_x) % (old(grid).width as int)
                < inner_width && (gy - tile_y) % (old(grid).height as int) < inner_height
                && tile@[(gy - tile_y) % (old(grid).height as int) + halo][(gx - tile_x) % (old(
                grid,
            ).width as int) + halo])),
{
    proof {
        grid.lemma_view_shape();
        tile.cells.lemma_view_shape();
    }
    // Fast path: the destination region does not wrap.
    if inner_width <= grid.width - tile_x && inner_height <= grid.height - tile_y {
        copy_active_cells_to_grid_fast(tile, grid, tile_x, tile_y, inner_width, inner_height, halo);
        proof {
            let w = old(grid).width as int;
            let h = old(grid).height as int;
            assert forall|gx: int, gy: int|
                0 <= gx < old(grid).width && 0 <= gy < old(grid).height implies #[trigger] grid@[
            gy][gx] == (old(grid)@[gy][gx] || ((gx - tile_x) % w < inner_width && (gy - tile_y) % h
                < inner_height && tile@[(gy - tile_y) % h + halo][(gx - tile_x) % w + halo])) by {
                if tile_x <= gx {
                    lemma_small_mod((gx - tile_x) as nat, w as nat);
                } else {
                    vstd::arithmetic::div_mod::lemma_fundamental_div_mod_converse(
                        gx - tile_x,
                        w,
                        -1,
                        gx - tile_x + w,
                    );
                }
                if tile_y <= gy {
                    lemma_small_mod((gy - tile_y) as nat, h as nat);
                } else {
                    vstd::arithmetic::div_mod::lemma_fundamental_div_mod_converse(
                        gy - tile_y,
                        h,
                        -1,
                        gy - tile_y + h,
                    );
                }
            }
        }
        return ;
    }
    let w = grid.width;
    let h = grid.height;
    let ghost w_i = w as int;
    let ghost h_i = h as int;
    let mut ly: usize = 0;
    while ly < inner_height
        invariant
            tile.wf(),
            grid.wf(),
            grid.width == old(grid).width,
            grid.height == old(grid).height,
            grid.chunk_width == old(grid).chunk_width,
            w == grid.width,
            h == grid.height,
            w_i == w as int,
            h_i == h as int,
            w >= 1,
            h >= 1,
            ly <= inner_height,
            tile_x < w,
            tile_y < h,
            inner_width <= w,
            inner_height <= h,
            inner_width + halo <= tile.cells.width,
            inner_height + halo <= tile.cells.height,
            tile_x <= usize::MAX - inner_width,
            tile_y <= usize::MAX - inner_height,
            forall|gx: int, gy: int|
                0 <= gx < w && 0 <= gy < h ==> #[trigger] grid@[gy][gx] == (old(grid)@[gy][gx] || (
                (gy - tile_y) % h_i < ly && (gx - tile_x) % w_i < inner_width && tile@[(gy - tile_y)
                    % h_i + halo][(gx - tile_x) % w_i + halo])),
        decreases inner_height - ly,
    {
        let gy = (tile_y + ly) % h;
        proof {
            lemma_mod_bound((tile_y + ly) as int, h_i);
            lemma_mod_shift((tile_y + ly) as int, -(tile_y as int), h_i);
            lemma_small_mod(ly as nat, h as nat);
            assert((gy - tile_y) % h_i == ly);
        }
        let mut lx: usize = 0;
        while lx < inner_width
            invariant
                tile.wf(),
                grid.wf(),
                grid.width == old(grid).width,
                grid.height == old(grid).height,
                grid.chunk_width == old(grid).chunk_width,
                w == grid.width,
                h == grid.height,
                w_i == w as int,
                h_i == h as int,
                w >= 1,
                h >= 1,
                ly < inner_height,
                lx <= inner_width,
                tile_x < w,
                tile_y < h,
                inner_width <= w,
                inner_height <= h,
                inner_width + halo <= tile.cells.width,
                inner_height + halo <= tile.cells.height,
                tile_x <= usize::MAX - inner_width,
                tile_y <= usize::MAX - inner_height,
                gy == ((tile_y + ly) as int) % h_i,
                gy < h,
                (gy - tile_y) % h_i == ly,
                forall|gx: int, gy2: int|
                    0 <= gx < w && 0 <= gy2 < h ==> #[trigger] grid@[gy2][gx] == (old(
                        grid,
                    )@[gy2][gx] || (((gy2 - tile_y) % h_i < ly || ((gy2 - tile_y) % h_i == ly && (
                    gx - tile_x) % w_i < lx)) && (gx - tile_x) % w_i < inner_width && tile@[(gy2
                        - tile_y) % h_i + halo][(gx - tile_x) % w_i + halo])),
            decreases inner_width - lx,
        {
            let gx = (tile_x + lx) % w;
            proof {
                lemma_mod_bound((tile_x + lx) as int, w_i);
                lemma_mod_shift((tile_x + lx) as int, -(tile_x as int), w_i);
                lemma_small_mod(lx as nat, w as nat);
                assert((gx - tile_x) % w_i == lx);
            }
            let ghost pre = *grid;
            if tile.get(lx + halo, ly + halo) {
                grid.set(gx, gy, true);
            }
            proof {
                assert forall|gx2: int, gy2: int|
                    0 <= gx2 < w && 0 <= gy2 < h implies #[trigger] grid@[gy2][gx2] == (old(
                    grid,
                )@[gy2][gx2] || (((gy2 - tile_y) % h_i < ly || ((gy2 - tile_y) % h_i == ly && (gx2
                    - tile_x) % w_i < lx + 1)) && (gx2 - tile_x) % w_i < inner_width && tile@[(gy2
                    - tile_y) % h_i + halo][(gx2 - tile_x) % w_i + halo])) by {
                    lemma_mod_bound(gx2 - tile_x, w_i);
                    lemma_mod_bound(gy2 - tile_y, h_i);
                    if gx2 == gx && gy2 == gy {
                        assert((gx2 - tile_x) % w_i == lx);
                        assert((gy2 - tile_y) % h_i == ly);
                    } else {
                        assert(grid@[gy2][gx2] == pre@[gy2][gx2]);
                        if (gx2 - tile_x) % w_i == lx && (gy2 - tile_y) % h_i == ly {
                            // Inverse wrapping is injective: this would be
                            // the very cell just written.
                            lemma_mod_shift(gx2 - tile_x, tile_x as int, w_i);
                            lemma_small_mod(gx2 as nat, w as nat);
                            assert((lx + tile_x) % w_i == gx2);
                            lemma_mod_shift((tile_x + lx) as int, 0, w_i);
                            assert(gx2 == gx);
                            lemma_mod_shift(gy2 - tile_y, tile_y as int, h_i);
                            lemma_small_mod(gy2 as nat, h as nat);
                            assert((ly + tile_y) % h_i == gy2);
                            lemma_mod_shift((tile_y + ly) as int, 0, h_i);
                            assert(gy2 == gy);
                            assert(false);
                        }
                    }
                }
            }
            lx = lx + 1;
        }
        ly = ly + 1;
    }
}

/// Optimized scatter for a destination region that does not wrap: unaligned
/// word reads from the tile's interior, OR-writes into the grid.
pub fn copy_active_cells_to_grid_fast(
    tile: &LocalTile,
    grid: &mut BitGrid,
    start_x: usize,
    start_y: usize,
    width: usize,
    height: usize,
    halo: usize,
)
    requires
        tile.wf(),
        old(grid).wf(),
        old(grid).width >= 1,
        old(grid).height >= 1,
        start_x + width <= old(grid).width,
        start_y + height <= old(grid).height,
        width + halo <= tile.cells.width,
        height + halo <= tile.cells.height,
    ensures
        final(grid).wf(),
        final(grid).width == old(grid).width,
        final(grid).height == old(grid).height,
        final(grid).chunk_width == old(grid).chunk_width,
        forall|gx: int, gy: int|
            0 <= gx < old(grid).width && 0 <= gy < old(grid).height ==> #[trigger] final(grid)@[gy][gx] == (old(grid)@[gy][gx] || (start_x <= gx < start_x + width && start_y <= gy
                < start_y + height && tile@[gy - start_y + halo][gx - start_x + halo])),
{
    proof {
        grid.lemma_view_shape();
        tile.cells.lemma_view_shape();
        lemma_chunks_per_row_bounds(grid.width as nat);
        lemma_chunks_per_row_bounds(tile.cells.width as nat);
    }
    let mut ly: usize = 0;
    while ly < height
        invariant
            tile.wf(),
            grid.wf(),
            grid.width == old(grid).width,
            grid.height == old(grid).height,
            grid.chunk_width == old(grid).chunk_width,
            ly <= height,
            start_x + width <= grid.width,
            start_y + height <= grid.height,
            width + halo <= tile.cells.width,
            height + halo <= tile.cells.height,
            forall|gx: int, gy: int|
                0 <= gx < grid.width && 0 <= gy < grid.height ==> #[trigger] grid@[gy][gx] == (old(
                    grid,
                )@[gy][gx] || (start_x <= gx < start_x + width && start_y <= gy < start_y + ly
                    && tile@[gy - start_y + halo][gx - start_x + halo])),
        decreases height - ly,
    {
        let global_y = start_y + ly;
        let local_y = ly + halo;
        let mut bits_processed: usize = 0;
        while bits_processed < width
            invariant
                tile.wf(),
                grid.wf(),
                grid.width == old(grid).width,
                grid.height == old(grid).height,
                grid.chunk_width == old(grid).chunk_width,
                ly < height,
                bits_processed <= width + 63,
                bits_processed % 64 == 0,
                global_y == start_y + ly,
                local_y == ly + halo,
                start_x + width <= grid.width,
                start_y + height <= grid.height,
                width + halo <= tile.cells.width,
                height + halo <= tile.cells.height,
                forall|gx: int, gy: int|
                    0 <= gx < grid.width && 0 <= gy < grid.height ==> #[trigger] grid@[gy][gx] == (
                    old(grid)@[gy][gx] || ((start_x <= gx < start_x + width && start_y <= gy
                        < start_y + ly && tile@[gy - start_y + halo][gx - start_x + halo]) || (gy
                        == start_y + ly && start_x <= gx < start_x + bits_processed && gx < start_x
                        + width && tile@[gy - start_y + halo][gx - start_x + halo]))),
            decreases width + 64 - bits_processed,
        {
            proof {
                lemma_chunks_per_row_bounds(tile.cells.width as nat);
                lemma_chunks_per_row_bounds(grid.width as nat);
            }
            let tile_val = get_tile_u64_unaligned(tile, halo + bits_processed, local_y);
            let remaining = width - bits_processed;
            let val = if remaining < 64 {
                proof {
                    assert(1u64 << (remaining as u64) >= 1) by (bit_vector)
                        requires
                            (remaining as u64) < 64,
                    ;
                }
                tile_val & ((1u64 << (remaining as u64)) - 1)
            } else {
                tile_val
            };
            proof {
                assert forall|j: u64| j < 64 && #[trigger] nth_bit(val, j) implies (start_x
                    + bits_processed) + j < grid.width by {
                    if remaining < 64 {
                        crate::model::lemma_bit_and(
                            tile_val,
                            (((1u64 << (remaining as u64)) - 1) as u64),
                            j,
                        );
                        crate::model::lemma_bit_low_mask(remaining as u64, j);
                    } else {
                        assert(j < remaining);
                    }
                }
            }
            let ghost pre = *grid;
            grid.set_word64_or(start_x + bits_processed, global_y, val);
            proof {
                assert forall|gx: int, gy: int|
                    0 <= gx < grid.width && 0 <= gy < grid.height implies #[trigger] grid@[gy][gx]
                    == (old(grid)@[gy][gx] || ((start_x <= gx < start_x + width && start_y <= gy
                    < start_y + ly && tile@[gy - start_y + halo][gx - start_x + halo]) || (gy
                    == start_y + ly && start_x <= gx < start_x + bits_processed + 64 && gx < start_x
                    + width && tile@[gy - start_y + halo][gx - start_x + halo]))) by {
                    crate::bit_grid::lemma_cell_decomp(gx);
                    assert(grid.spec_cell(gx, gy) == (pre.spec_cell(gx, gy) || (gy == global_y
                        && start_x + bits_processed <= gx < start_x + bits_processed + 64
                        && nth_bit(val, (gx - start_x - bits_processed) as u64))));
                    assert(grid@[gy][gx] == grid.spec_cell(gx, gy));
                    assert(pre@[gy][gx] == pre.spec_cell(gx, gy));
                    if gy == global_y && start_x + bits_processed <= gx < start_x + bits_processed
                        + 64 {
                        let j = (gx - start_x - bits_processed) as u64;
                        if remaining < 64 {
                            crate::model::lemma_bit_and(
                                tile_val,
                                (((1u64 << (remaining as u64)) - 1) as u64),
                                j,
                            );
                            crate::model::lemma_bit_low_mask(remaining as u64, j);
                        }
                        if gx < start_x + width {
                            assert(nth_bit(val, j) == nth_bit(tile_val, j));
                            let lxq = (gx - start_x) as int;
                            assert(nth_bit(tile_val, j) == tile.cells.spec_flat_bit(
                                ((local_y * tile.cells.chunk_width) as int) * 64 + (halo
                                    + bits_processed) + j,
                            ));
                            assert(((local_y * tile.cells.chunk_width) as int) * 64 + (halo
                                + bits_processed) + j == ((local_y as int) * (
                            tile.cells.chunk_width as int)) * 64 + (lxq + halo));
                            lemma_flat_is_cell(tile.cells, lxq + halo, local_y as int);
                            assert(nth_bit(tile_val, j) == tile@[gy - start_y + halo][gx - start_x
                                + halo]);
                        }
                    }
                }
            }
            bits_processed = bits_processed + 64;
        }
        proof {
            assert forall|gx: int, gy: int|
                0 <= gx < grid.width && 0 <= gy < grid.height implies #[trigger] grid@[gy][gx] == (
                old(grid)@[gy][gx] || (start_x <= gx < start_x + width && start_y <= gy < start_y
                    + (ly + 1) && tile@[gy - start_y + halo][gx - start_x + halo])) by {}
        }
        ly = ly + 1;
    }
}

/// The interior width of the tile starting at column `start`: a full tile,
/// capped at the grid edge.
pub open spec fn tile_span(total: int, start: int) -> int {
    if total - start < TILE_SIZE {
        total - start
    } else {
        TILE_SIZE as int
    }
}

/// Where a tile's gather begins: the tile corner backed off by the halo,
/// with toroidal wrap.
pub open spec fn gather_start(t: int, m: int) -> int {
    (t - (HALO_SIZE as int)) % m
}

/// The fully evolved local buffer of the tile whose interior corner is
/// (tile_x, tile_y): the gathered halo-padded region stepped `gens` times
/// with dead boundaries.
pub open spec fn spec_tile_buffer(
    g: Seq<Seq<bool>>,
    t: Seq<bool>,
    gens: nat,
    tile_x: int,
    tile_y: int,
) -> Seq<Seq<bool>> {
    bounded_step_t_n(
        gathered_region(
            g,
            gather_start(tile_x, grid_width(g)),
            gather_start(tile_y, grid_height(g)),
            (tile_span(grid_width(g), tile_x) + 2 * (HALO_SIZE as int)) as nat,
            (tile_span(grid_height(g), tile_y) + 2 * (HALO_SIZE as int)) as nat,
        ),
        t,
        gens,
    )
}

/// Tile counts: enough tiles to cover a span, and no more.
proof fn lemma_tile_count(d: nat)
    ensures
        (TILE_SIZE as int) * (((d + TILE_SIZE - 1) as int) / (TILE_SIZE as int)) >= d,
        (TILE_SIZE as int) * (((d + TILE_SIZE - 1) as int) / (TILE_SIZE as int)) < d + TILE_SIZE,
        d > 0 ==> ((d + TILE_SIZE - 1) as int) / (TILE_SIZE as int) >= 1,
{
    lemma_fundamental_div_mod((d + TILE_SIZE - 1) as int, TILE_SIZE as int);
    lemma_mod_bound((d + TILE_SIZE - 1) as int, TILE_SIZE as int);
}

/// The exec computation of the gather start agrees with its wrapped spec.
proof fn lemma_gather_start(t: int, m: int)
    requires
        m >= 1,
        0 <= t < m,
    ensures
        gather_start(t, m) == (if t >= (HALO_SIZE as int) % m {
            t - (HALO_SIZE as int) % m
        } else {
            t + m - (HALO_SIZE as int) % m
        }),
        0 <= gather_start(t, m) < m,
{
    let ha = HALO_SIZE as int;
    lemma_fundamental_div_mod(ha, m);
    lemma_mod_bound(ha, m);
    let hx = ha % m;
    if t >= hx {
        lemma_mod_multiples_vanish(-(ha / m), t - hx, m);
        assert(t - ha == m * (-(ha / m)) + (t - hx)) by (nonlinear_arith)
            requires
                ha == m * (ha / m) + hx,
        ;
        lemma_small_mod((t - hx) as nat, m as nat);
    } else {
        lemma_mod_multiples_vanish(-(ha / m) - 1, t + m - hx, m);
        assert(t - ha == m * (-(ha / m) - 1) + (t + m - hx)) by (nonlinear_arith)
            requires
                ha == m * (ha / m) + hx,
        ;
        lemma_small_mod((t + m - hx) as nat, m as nat);
    }
}

/// Gather the halo-padded region around a tile and evolve it `generations`
/// times entirely in the local buffer.
fn tile_task(
    grid: &BitGrid,
    lookup: &[bool; 32],
    generations: usize,
    tile_x: usize,
    tile_y: usize,
) -> (local: LocalTile)
    requires
        grid.wf(),
        grid.width >= 1,
        grid.height >= 1,
        grid.width + 2 * TILE_SIZE <= usize::MAX,
        grid.height + 2 * TILE_SIZE <= usize::MAX,
        tile_x < grid.width,
        tile_y < grid.height,
    ensures
        local.wf(),
        local.cells.width as int == tile_span(grid.width as int, tile_x as int) + 2 * (
        HALO_SIZE as int),
        local.cells.height as int == tile_span(grid.height as int, tile_y as int) + 2 * (
        HALO_SIZE as int),
        local@ == spec_tile_buffer(
            grid@,
            lookup@,
            generations as nat,
            tile_x as int,
            tile_y as int,
        ),
{
    proof {
        grid.lemma_view_shape();
    }
    let w = grid.width;
    let h = grid.height;
    let actual_width = if w - tile_x < TILE_SIZE {
        w - tile_x
    } else {
        TILE_SIZE
    };
    let actual_height = if h - tile_y < TILE_SIZE {
        h - tile_y
    } else {
        TILE_SIZE
    };
    let local_width = actual_width + 2 * HALO_SIZE;
    let local_height = actual_height + 2 * HALO_SIZE;
    let hx = HALO_SIZE % w;
    let hy = HALO_SIZE % h;
    let start_x = if tile_x >= hx {
        tile_x - hx
    } else {
        tile_x + (w - hx)
    };
    let start_y = if tile_y >= hy {
        tile_y - hy
    } else {
        tile_y + (h - hy)
    };
    proof {
        lemma_mod_bound(HALO_SIZE as int, w as int);
        lemma_mod_bound(HALO_SIZE as int, h as int);
        lemma_gather_start(tile_x as int, w as int);
        lemma_gather_start(tile_y as int, h as int);
        assert(start_x as int == gather_start(tile_x as int, w as int));
        assert(start_y as int == gather_start(tile_y as int, h as int));
        // The local buffer is small, so its storage trivially fits.
        assert(chunks_per_row(local_width as nat) <= 9) by {
            lemma_chunks_per_row_bounds(local_width as nat);
        }
        assert(chunks_per_row(local_width as nat) * local_height <= 9 * (TILE_SIZE + 2
            * HALO_SIZE)) by (nonlinear_arith)
            requires
                chunks_per_row(local_width as nat) <= 9,
                0 <= local_height <= TILE_SIZE + 2 * HALO_SIZE,
        ;
    }
    let local = copy_to_local_tile(grid, start_x, start_y, local_width, local_height);
    evolve_tile_n_gens(local, generations, lookup)
}

/// Merging one evolved tile into the output turns exactly the tile's
/// interior cells into their `gens`-step toroidal values and leaves every
/// other cell alone.
proof fn lemma_tile_merge(
    g: Seq<Seq<bool>>,
    t: Seq<bool>,
    gens: nat,
    pre: Seq<Seq<bool>>,
    post: Seq<Seq<bool>>,
    tile_x: int,
    tile_y: int,
    local: Seq<Seq<bool>>,
)
    requires
        is_rect(g),
        grid_width(g) >= 1,
        grid_height(g) >= 1,
        gens <= HALO_SIZE,
        0 <= tile_x < grid_width(g),
        0 <= tile_y < grid_height(g),
        local == spec_tile_buffer(g, t, gens, tile_x, tile_y),
        forall|gx: int, gy: int|
            0 <= gx < grid_width(g) && 0 <= gy < grid_height(g) ==> #[trigger] post[gy][gx] == (
            pre[gy][gx] || ((gx - tile_x) % grid_width(g) < tile_span(grid_width(g), tile_x) && (gy
                - tile_y) % grid_height(g) < tile_span(grid_height(g), tile_y) && local[(gy
                - tile_y) % grid_height(g) + HALO_SIZE][(gx - tile_x) % grid_width(g)
                + HALO_SIZE])),
    ensures
        forall|gx: int, gy: int|
            0 <= gx < grid_width(g) && 0 <= gy < grid_height(g) ==> #[trigger] post[gy][gx] == (
            pre[gy][gx] || (tile_x <= gx < tile_x + tile_span(grid_width(g), tile_x) && tile_y <= gy
                < tile_y + tile_span(grid_height(g), tile_y) && torus_step_t_n(g, t, gens)[gy][gx])),
{
    let w = grid_width(g);
    let h = grid_height(g);
    let ha = HALO_SIZE as int;
    let aw = tile_span(w, tile_x);
    let ah = tile_span(h, tile_y);
    let sx = gather_start(tile_x, w);
    let sy = gather_start(tile_y, h);
    let region = gathered_region(g, sx, sy, (aw + 2 * ha) as nat, (ah + 2 * ha) as nat);
    lemma_mod_bound(tile_x - ha, w);
    lemma_mod_bound(tile_y - ha, h);
    lemma_halo(g, region, t, sx, sy, gens);
    assert forall|gx: int, gy: int|
        0 <= gx < w && 0 <= gy < h implies #[trigger] post[gy][gx] == (pre[gy][gx] || (tile_x <= gx
        < tile_x + aw && tile_y <= gy < tile_y + ah && torus_step_t_n(g, t, gens)[gy][gx])) by {
        lemma_mod_bound(gx - tile_x, w);
        lemma_mod_bound(gy - tile_y, h);
        if tile_x <= gx < tile_x + aw && tile_y <= gy < tile_y + ah {
            let ix = gx - tile_x;
            let iy = gy - tile_y;
            lemma_small_mod(ix as nat, w as nat);
            lemma_small_mod(iy as nat, h as nat);
            assert((gx - tile_x) % w == ix);
            assert((gy - tile_y) % h == iy);
            // The interior cell is far enough from the tile border.
            assert(local[iy + ha][ix + ha] == torus_step_t_n(g, t, gens)[(sy + (iy + ha)) % h][(sx
                + (ix + ha)) % w]);
            lemma_mod_shift(tile_x - ha, ha + ix, w);
            assert((sx + (ix + ha)) % w == (tile_x + ix) % w);
            lemma_small_mod((tile_x + ix) as nat, w as nat);
            lemma_mod_shift(tile_y - ha, ha + iy, h);
            assert((sy + (iy + ha)) % h == (tile_y + iy) % h);
            lemma_small_mod((tile_y + iy) as nat, h as nat);
        } else {
            // Outside the interior, the wrapped offsets fall beyond the
            // interior spans, so the scatter did not touch the cell.
            if !(tile_x <= gx < tile_x + aw) {
                if gx >= tile_x {
                    lemma_small_mod((gx - tile_x) as nat, w as nat);
                    assert((gx - tile_x) % w >= aw);
                } else {
                    lemma_fundamental_div_mod_converse(gx - tile_x, w, -1, gx - tile_x + w);
                    assert((gx - tile_x) % w == gx - tile_x + w);
                    assert(aw <= w - tile_x);
                    assert((gx - tile_x) % w >= aw);
                }
            } else {
                if gy >= tile_y {
                    lemma_small_mod((gy - tile_y) as nat, h as nat);
                    assert((gy - tile_y) % h >= ah);
                } else {
                    lemma_fundamental_div_mod_converse(gy - tile_y, h, -1, gy - tile_y + h);
                    assert((gy - tile_y) % h == gy - tile_y + h);
                    assert(ah <= h - tile_y);
                    assert((gy - tile_y) % h >= ah);
                }
            }
        }
    }
}

/// A cell column lies in the tile whose index its division by the tile size
/// gives, and in no other.
proof fn lemma_tile_region(total: int, tx: int, gx: int)
    requires
        0 <= tx,
        tx * (TILE_SIZE as int) < total,
        0 <= gx < total,
    ensures
        (tx * (TILE_SIZE as int) <= gx < tx * (TILE_SIZE as int) + tile_span(
            total,
            tx * (TILE_SIZE as int),
        )) == (gx / (TILE_SIZE as int) == tx),
{
    let ts = TILE_SIZE as int;
    lemma_fundamental_div_mod(gx, ts);
    lemma_mod_bound(gx, ts);
    if tx * ts <= gx < tx * ts + tile_span(total, tx * ts) {
        lemma_fundamental_div_mod_converse(gx, ts, tx, gx - tx * ts);
    } else {
        if gx / ts == tx {
            assert(gx == ts * tx + gx % ts);
            assert(gx < tx * ts + ts);
            assert(gx < total);
            assert(gx < tx * ts + tile_span(total, tx * ts));
            assert(false);
        }
    }
}

/// Evolve a grid `generations` generations (at most the halo width) with
/// temporal blocking: tiles are gathered, stepped locally, and their
/// interiors merged serially into one fresh output grid.
pub fn evolve_temporal_blocking<R: Rule>(grid: &BitGrid, rule: &R, generations: usize) -> (r:
    BitGrid)
    requires
        grid.wf(),
        generations <= GENERATIONS_PER_TILE,
        grid.width + 2 * TILE_SIZE <= usize::MAX,
        grid.height + 2 * TILE_SIZE <= usize::MAX,
    ensures
        r.wf(),
        r.width == grid.width,
        r.height == grid.height,
        r@ == torus_step_n(grid@, *rule, generations as nat),
{
    proof {
        grid.lemma_view_shape();
    }
    let lookup = build_rule_lookup(rule);
    let w = grid.width;
    let h = grid.height;
    let mut result = BitGrid::new(w, h);
    if w == 0 || h == 0 {
        proof {
            crate::model::lemma_torus_step_n_degenerate(grid@, *rule, generations as nat);
            assert(result@ =~~= grid@);
        }
        return result;
    }
    let ghost t = lookup@;
    let ghost stepped = torus_step_t_n(grid@, t, generations as nat);
    proof {
        lemma_torus_step_t_n_shape(grid@, t, generations as nat);
        lemma_torus_step_t_n_matches(grid@, t, *rule, generations as nat);
    }
    let num_tiles_x = (w + (TILE_SIZE - 1)) / TILE_SIZE;
    let num_tiles_y = (h + (TILE_SIZE - 1)) / TILE_SIZE;
    proof {
        lemma_tile_count(w as nat);
        lemma_tile_count(h as nat);
    }
    let mut ty_idx: usize = 0;
    while ty_idx < num_tiles_y
        invariant
            grid.wf(),
            result.wf(),
            result.width == w,
            result.height == h,
            w == grid.width,
            h == grid.height,
            w >= 1,
            h >= 1,
            grid.width + 2 * TILE_SIZE <= usize::MAX,
            grid.height + 2 * TILE_SIZE <= usize::MAX,
            generations <= GENERATIONS_PER_TILE,
            ty_idx <= num_tiles_y,
            (TILE_SIZE as int) * (num_tiles_x as int) >= w,
            (TILE_SIZE as int) * (num_tiles_x as int) < w + TILE_SIZE,
            (TILE_SIZE as int) * (num_tiles_y as int) >= h,
            (TILE_SIZE as int) * (num_tiles_y as int) < h + TILE_SIZE,
            table_matches_rule(t, *rule),
            t == lookup@,
            stepped == torus_step_t_n(grid@, t, generations as nat),
            forall|gx: int, gy: int|
                0 <= gx < w && 0 <= gy < h ==> #[trigger] result@[gy][gx] == (gy / (
                TILE_SIZE as int) < ty_idx && stepped[gy][gx]),
        decreases num_tiles_y - ty_idx,
    {
        let tile_y = ty_idx * TILE_SIZE;
        proof {
            assert((ty_idx as int) * (TILE_SIZE as int) <= (num_tiles_y as int - 1) * (
            TILE_SIZE as int)) by (nonlinear_arith)
                requires
                    ty_idx as int <= num_tiles_y as int - 1,
                    TILE_SIZE as int >= 1,
            ;
            assert(tile_y < h);
        }
        let mut tx_idx: usize = 0;
        while tx_idx < num_tiles_x
            invariant
                grid.wf(),
                result.wf(),
                result.width == w,
                result.height == h,
                w == grid.width,
                h == grid.height,
                w >= 1,
                h >= 1,
                grid.width + 2 * TILE_SIZE <= usize::MAX,
                grid.height + 2 * TILE_SIZE <= usize::MAX,
                generations <= GENERATIONS_PER_TILE,
                ty_idx < num_tiles_y,
                tx_idx <= num_tiles_x,
                tile_y == ty_idx * TILE_SIZE,
                tile_y < h,
                (TILE_SIZE as int) * (num_tiles_x as int) >= w,
                (TILE_SIZE as int) * (num_tiles_x as int) < w + TILE_SIZE,
                (TILE_SIZE as int) * (num_tiles_y as int) >= h,
                (TILE_SIZE as int) * (num_tiles_y as int) < h + TILE_SIZE,
                table_matches_rule(t, *rule),
                t == lookup@,
                stepped == torus_step_t_n(grid@, t, generations as nat),
                forall|gx: int, gy: int|
                    0 <= gx < w && 0 <= gy < h ==> #[trigger] result@[gy][gx] == ((gy / (
                    TILE_SIZE as int) < ty_idx || (gy / (TILE_SIZE as int) == ty_idx && gx / (
                    TILE_SIZE as int) < tx_idx)) && stepped[gy][gx]),
            decreases num_tiles_x - tx_idx,
        {
            let tile_x = tx_idx * TILE_SIZE;
            proof {
                assert((tx_idx as int) * (TILE_SIZE as int) <= (num_tiles_x as int - 1) * (
                TILE_SIZE as int)) by (nonlinear_arith)
                    requires
                        tx_idx as int <= num_tiles_x as int - 1,
                        TILE_SIZE as int >= 1,
                ;
                assert(tile_x < w);
            }
            let actual_width = if w - tile_x < TILE_SIZE {
                w - tile_x
            } else {
                TILE_SIZE
            };
            let actual_height = if h - tile_y < TILE_SIZE {
                h - tile_y
            } else {
                TILE_SIZE
            };
            let local = tile_task(grid, &lookup, generations, tile_x, tile_y);
            let ghost pre = result@;
            copy_active_cells_to_grid(
                &local,
                &mut result,
                tile_x,
                tile_y,
                actual_width,
                actual_height,
                HALO_SIZE,
            );
            proof {
                lemma_tile_merge(
                    grid@,
                    t,
                    generations as nat,
                    pre,
                    result@,
                    tile_x as int,
                    tile_y as int,
                    local@,
                );
                assert forall|gx: int, gy: int|
                    0 <= gx < w && 0 <= gy < h implies #[trigger] result@[gy][gx] == ((gy / (
                TILE_SIZE as int) < ty_idx || (gy / (TILE_SIZE as int) == ty_idx && gx / (
                TILE_SIZE as int) < tx_idx + 1)) && stepped[gy][gx]) by {
                    lemma_tile_region(w as int, tx_idx as int, gx);
                    lemma_tile_region(h as int, ty_idx as int, gy);
                }
            }
            tx_idx = tx_idx + 1;
        }
        proof {
            assert forall|gx: int, gy: int|
                0 <= gx < w && 0 <= gy < h implies #[trigger] result@[gy][gx] == (gy / (
            TILE_SIZE as int) < ty_idx + 1 && stepped[gy][gx]) by {
                lemma_tile_region(h as int, ty_idx as int, gy);
                if gy / (TILE_SIZE as int) == ty_idx {
                    assert(gx / (TILE_SIZE as int) < num_tiles_x) by {
                        lemma_fundamental_div_mod(gx, TILE_SIZE as int);
                        lemma_mod_bound(gx, TILE_SIZE as int);
                    }
                }
            }
        }
        ty_idx = ty_idx + 1;
    }
    proof {
        result.lemma_view_shape();
        assert forall|gx: int, gy: int| 0 <= gx < w && 0 <= gy < h implies #[trigger] result@[gy][
        gx] == stepped[gy][gx] by {
            lemma_fundamental_div_mod(gy, TILE_SIZE as int);
            lemma_mod_bound(gy, TILE_SIZE as int);
            assert(gy / (TILE_SIZE as int) < num_tiles_y);
        }
        assert(result@ =~~= stepped);
    }
    result
}

/// One complete parallel-phase tile job: its interior corner and its fully
/// evolved local buffer.
pub open spec fn spec_tile_entry(
    grid: BitGrid,
    t: Seq<bool>,
    gens: nat,
    ntx: int,
    idx: int,
    e: (usize, usize, LocalTile),
) -> bool {
    &&& e.0 as int == (idx % ntx) * (TILE_SIZE as int)
    &&& e.1 as int == (idx / ntx) * (TILE_SIZE as int)
    &&& e.0 < grid.width
    &&& e.1 < grid.height
    &&& e.2.wf()
    &&& e.2.cells.width as int == tile_span(grid.width as int, e.0 as int) + 2 * (HALO_SIZE as int)
    &&& e.2.cells.height as int == tile_span(grid.height as int, e.1 as int) + 2 * (
    HALO_SIZE as int)
    &&& e.2@ == spec_tile_buffer(grid@, t, gens, e.0 as int, e.1 as int)
}

/// Gather and evolve the tile with flat index `idx` of the tile enumeration.
fn tile_entry(
    grid: &BitGrid,
    lookup: &[bool; 32],
    generations: usize,
    num_tiles_x: usize,
    num_tiles_y: usize,
    idx: usize,
) -> (e: (usize, usize, LocalTile))
    requires
        grid.wf(),
        grid.width >= 1,
        grid.height >= 1,
        grid.width + 2 * TILE_SIZE <= usize::MAX,
        grid.height + 2 * TILE_SIZE <= usize::MAX,
        num_tiles_x >= 1,
        (TILE_SIZE as int) * (num_tiles_x as int) < grid.width + TILE_SIZE,
        (TILE_SIZE as int) * (num_tiles_y as int) < grid.height + TILE_SIZE,
        idx < num_tiles_x * num_tiles_y,
    ensures
        spec_tile_entry(
            *grid,
            lookup@,
            generations as nat,
            num_tiles_x as int,
            idx as int,
            e,
        ),
{
    let tx_idx = idx % num_tiles_x;
    let ty_idx = idx / num_tiles_x;
    proof {
        lemma_mod_bound(idx as int, num_tiles_x as int);
        lemma_fundamental_div_mod(idx as int, num_tiles_x as int);
        assert(ty_idx < num_tiles_y) by (nonlinear_arith)
            requires
                idx as int == (num_tiles_x as int) * (ty_idx as int) + (idx as int) % (
                num_tiles_x as int),
                0 <= (idx as int) % (num_tiles_x as int),
                idx < num_tiles_x * num_tiles_y,
                num_tiles_x >= 1,
                ty_idx as int == (idx as int) / (num_tiles_x as int),
        ;
        assert((tx_idx as int) * (TILE_SIZE as int) <= (num_tiles_x as int - 1) * (
        TILE_SIZE as int)) by (nonlinear_arith)
            requires
                tx_idx as int <= num_tiles_x as int - 1,
                TILE_SIZE as int >= 1,
        ;
        assert((ty_idx as int) * (TILE_SIZE as int) <= (num_tiles_y as int - 1) * (
        TILE_SIZE as int)) by (nonlinear_arith)
            requires
                ty_idx as int <= num_tiles_y as int - 1,
                TILE_SIZE as int >= 1,
        ;
    }
    let tile_x = tx_idx * TILE_SIZE;
    let tile_y = ty_idx * TILE_SIZE;
    let local = tile_task(grid, lookup, generations, tile_x, tile_y);
    (tile_x, tile_y, local)
}

/// Relies on rayon's indexed parallel iterator over the tile indices with
/// `map` and `collect`: the closure runs once per tile index and the results
/// are collected in index order, so entry `k` is the evolved tile `k`.
#[verifier::external_body]
fn par_evolve_tiles(
    grid: &BitGrid,
    lookup: &[bool; 32],
    generations: usize,
    num_tiles_x: usize,
    num_tiles_y: usize,
    total: usize,
) -> (out: Vec<(usize, usize, LocalTile)>)
    requires
        grid.wf(),
        grid.width >= 1,
        grid.height >= 1,
        grid.width + 2 * TILE_SIZE <= usize::MAX,
        grid.height + 2 * TILE_SIZE <= usize::MAX,
        num_tiles_x >= 1,
        (TILE_SIZE as int) * (num_tiles_x as int) < grid.width + TILE_SIZE,
        (TILE_SIZE as int) * (num_tiles_y as int) < grid.height + TILE_SIZE,
        total == num_tiles_x * num_tiles_y,
    ensures
        out@.len() == total,
        forall|k: int|
            0 <= k < total ==> spec_tile_entry(
                *grid,
                lookup@,
                generations as nat,
                num_tiles_x as int,
                k,
                #[trigger] out@[k],
            ),
{
    (0..total).into_par_iter().map(
        |idx| tile_entry(grid, lookup, generations, num_tiles_x, num_tiles_y, idx),
    ).collect()
}

/// Evolve a grid `generations` generations (at most the halo width) with
/// temporal blocking, tiles computed in parallel: every tile's gather and
/// local stepping is an independent task, and the interiors are merged
/// serially into one fresh output grid.
pub fn evolve_temporal_blocking_parallel<R: Rule>(
    grid: &BitGrid,
    rule: &R,
    generations: usize,
) -> (r: BitGrid)
    requires
        grid.wf(),
        generations <= GENERATIONS_PER_TILE,
        grid.width + 2 * TILE_SIZE <= usize::MAX,
        grid.height + 2 * TILE_SIZE <= usize::MAX,
    ensures
        r.wf(),
        r.width == grid.width,
        r.height == grid.height,
        r@ == torus_step_n(grid@, *rule, generations as nat),
{
    proof {
        grid.lemma_view_shape();
    }
    let lookup = build_rule_lookup(rule);
    let w = grid.width;
    let h = grid.height;
    let mut result = BitGrid::new(w, h);
    if w == 0 || h == 0 {
        proof {
            crate::model::lemma_torus_step_n_degenerate(grid@, *rule, generations as nat);
            assert(result@ =~~= grid@);
        }
        return result;
    }
    let ghost t = lookup@;
    let ghost stepped = torus_step_t_n(grid@, t, generations as nat);
    proof {
        lemma_torus_step_t_n_shape(grid@, t, generations as nat);
        lemma_torus_step_t_n_matches(grid@, t, *rule, generations as nat);
    }
    let num_tiles_x = (w + (TILE_SIZE - 1)) / TILE_SIZE;
    let num_tiles_y = (h + (TILE_SIZE - 1)) / TILE_SIZE;
    proof {
        lemma_tile_count(w as nat);
        lemma_tile_count(h as nat);
        lemma_chunks_per_row_bounds(w as nat);
        // The number of tiles is tiny next to the number of words.
        assert(num_tiles_x <= grid.chunk_width);
        assert(num_tiles_y <= h);
        assert((num_tiles_x as int) * (num_tiles_y as int) <= (grid.chunk_width as int) * (
        h as int)) by (nonlinear_arith)
            requires
                0 <= num_tiles_x as int <= grid.chunk_width as int,
                0 <= num_tiles_y as int <= h as int,
        ;
    }
    let total = num_tiles_x * num_tiles_y;
    let results = par_evolve_tiles(grid, &lookup, generations, num_tiles_x, num_tiles_y, total);
    let mut k: usize = 0;
    while k < total
        invariant
            grid.wf(),
            result.wf(),
            result.width == w,
            result.height == h,
            w == grid.width,
            h == grid.height,
            w >= 1,
            h >= 1,
            grid.width + 2 * TILE_SIZE <= usize::MAX,
            grid.height + 2 * TILE_SIZE <= usize::MAX,
            generations <= GENERATIONS_PER_TILE,
            k <= total,
            num_tiles_x >= 1,
            (TILE_SIZE as int) * (num_tiles_x as int) >= w,
            (TILE_SIZE as int) * (num_tiles_x as int) < w + TILE_SIZE,
            (TILE_SIZE as int) * (num_tiles_y as int) >= h,
            (TILE_SIZE as int) * (num_tiles_y as int) < h + TILE_SIZE,
            total == num_tiles_x * num_tiles_y,
            results@.len() == total,
            forall|k2: int|
                0 <= k2 < total ==> spec_tile_entry(
                    *grid,
                    t,
                    generations as nat,
                    num_tiles_x as int,
                    k2,
                    #[trigger] results@[k2],
                ),
            table_matches_rule(t, *rule),
            t == lookup@,
            stepped == torus_step_t_n(grid@, t, generations as nat),
            forall|gx: int, gy: int|
                0 <= gx < w && 0 <= gy < h ==> #[trigger] result@[gy][gx] == ((gy / (
                TILE_SIZE as int)) * (num_tiles_x as int) + gx / (TILE_SIZE as int) < k
                    && stepped[gy][gx]),
        decreases total - k,
    {
        let entry = &results[k];
        let tile_x = entry.0;
        let tile_y = entry.1;
        let ghost tx_idx = (k as int) % (num_tiles_x as int);
        let ghost ty_idx = (k as int) / (num_tiles_x as int);
        proof {
            lemma_mod_bound(k as int, num_tiles_x as int);
            lemma_fundamental_div_mod(k as int, num_tiles_x as int);
            assert(ty_idx < num_tiles_y) by (nonlinear_arith)
                requires
                    k as int == (num_tiles_x as int) * ty_idx + (k as int) % (num_tiles_x as int),
                    0 <= (k as int) % (num_tiles_x as int),
                    k < num_tiles_x * num_tiles_y,
                    num_tiles_x >= 1,
                    ty_idx == (k as int) / (num_tiles_x as int),
            ;
        }
        let actual_width = if w - tile_x < TILE_SIZE {
            w - tile_x
        } else {
            TILE_SIZE
        };
        let actual_height = if h - tile_y < TILE_SIZE {
            h - tile_y
        } else {
            TILE_SIZE
        };
        let ghost pre = result@;
        copy_active_cells_to_grid(
            &entry.2,
            &mut result,
            tile_x,
            tile_y,
            actual_width,
            actual_height,
            HALO_SIZE,
        );
        proof {
            lemma_tile_merge(
                grid@,
                t,
                generations as nat,
                pre,
                result@,
                tile_x as int,
                tile_y as int,
                entry.2@,
            );
            assert forall|gx: int, gy: int|
                0 <= gx < w && 0 <= gy < h implies #[trigger] result@[gy][gx] == ((gy / (
            TILE_SIZE as int)) * (num_tiles_x as int) + gx / (TILE_SIZE as int) < k + 1
                && stepped[gy][gx]) by {
                lemma_tile_region(w as int, tx_idx, gx);
                lemma_tile_region(h as int, ty_idx, gy);
                lemma_fundamental_div_mod(gx, TILE_SIZE as int);
                lemma_mod_bound(gx, TILE_SIZE as int);
                lemma_fundamental_div_mod(gy, TILE_SIZE as int);
                lemma_mod_bound(gy, TILE_SIZE as int);
                lemma_row_major(
                    gx / (TILE_SIZE as int),
                    gy / (TILE_SIZE as int),
                    tx_idx,
                    ty_idx,
                    num_tiles_x as int,
                    num_tiles_y as int,
                );
            }
        }
        k = k + 1;
    }
    proof {
        result.lemma_view_shape();
        assert forall|gx: int, gy: int| 0 <= gx < w && 0 <= gy < h implies #[trigger] result@[gy][
        gx] == stepped[gy][gx] by {
            lemma_fundamental_div_mod(gx, TILE_SIZE as int);
            lemma_mod_bound(gx, TILE_SIZE as int);
            lemma_fundamental_div_mod(gy, TILE_SIZE as int);
            lemma_mod_bound(gy, TILE_SIZE as int);
            lemma_row_major(
                gx / (TILE_SIZE as int),
                gy / (TILE_SIZE as int),
                gx / (TILE_SIZE as int),
                gy / (TILE_SIZE as int),
                num_tiles_x as int,
                num_tiles_y as int,
            );
            assert((num_tiles_y as int) * (num_tiles_x as int) == (num_tiles_x as int) * (
            num_tiles_y as int)) by (nonlinear_arith);
        }
        assert(result@ =~~= stepped);
    }
    result
}

} // verus!
