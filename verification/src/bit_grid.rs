//! Bit-packed grid storage: one bit per cell, 64 cells per word.
//!
//! The grid is a flat, row-major array of 64-bit words.  A row occupies
//! `chunks_per_row(width)` words; bits at column positions at or beyond
//! `width` in the last word of a row are padding and are kept at zero, an
//! invariant every operation preserves, so that whole-word reads never see a
//! stale live bit beyond the declared width.

use rayon::iter::{IntoParallelIterator, ParallelIterator};
use vstd::arithmetic::div_mod::{
    lemma_fundamental_div_mod, lemma_fundamental_div_mod_converse, lemma_mod_bound,
};
use vstd::prelude::*;

use crate::cell::Cell;
use crate::model::{
    bit_as_nat, chunks_per_row, grid_height, grid_width, is_rect, lemma_bit_and,
    lemma_bit_low_mask, lemma_bit_or, lemma_bit_shl, lemma_bit_shr, lemma_u64_eq_from_bits,
    low_mask, nth_bit, torus_neighbors, torus_step,
};
use crate::rules::Rule;

verus! {

/// Number of set bits among bits `0 .. n` of `w`.
pub open spec fn count_bits_below(w: u64, n: nat) -> nat
    decreases n,
{
    if n == 0 {
        0
    } else {
        count_bits_below(w, (n - 1) as nat) + bit_as_nat(nth_bit(w, (n - 1) as u64))
    }
}

/// Number of set bits of a whole word.
pub open spec fn pop64(w: u64) -> nat {
    count_bits_below(w, 64)
}

/// A chunk of 64 cells stored as a single `u64`; bit `i` set means cell `i`
/// is alive.
#[derive(Clone, Copy, Debug, PartialEq, Eq, Structural, Hash, Default)]
pub struct Chunk64(pub u64);

impl Chunk64 {
    /// Create an empty chunk (all cells dead).
    pub fn empty() -> (r: Self)
        ensures
            r.0 == 0,
    {
        Self(0)
    }

    /// Create a full chunk (all cells alive).
    pub fn full() -> (r: Self)
        ensures
            r.0 == u64::MAX,
    {
        Self(u64::MAX)
    }

    /// Get the cell state at position `idx` (0-63).
    #[inline]
    pub fn get(&self, idx: u8) -> (r: bool)
        requires
            idx < 64,
        ensures
            r == nth_bit(self.0, idx as u64),
    {
        (self.0 >> (idx as u64)) & 1 == 1
    }

    /// Set the cell state at position `idx` (0-63).
    #[inline]
    pub fn set(&mut self, idx: u8, alive: bool)
        requires
            idx < 64,
        ensures
            forall|j: u64|
                j < 64 ==> nth_bit(final(self).0, j) == (if j == idx as u64 {
                    alive
                } else {
                    nth_bit(old(self).0, j)
                }),
    {
        if alive {
            self.0 = self.0 | (1u64 << (idx as u64));
        } else {
            self.0 = self.0 & !(1u64 << (idx as u64));
        }
        proof {
            lemma_set_bit(old(self).0, self.0, idx as u64, alive);
        }
    }

    /// Count the alive cells in this chunk.
    #[inline]
    pub fn count_alive(&self) -> (r: u32)
        ensures
            r == pop64(self.0),
    {
        let mut count: u32 = 0;
        let mut i: u64 = 0;
        while i < 64
            invariant
                i <= 64,
                count == count_bits_below(self.0, i as nat),
                count <= i,
            decreases 64 - i,
        {
            if (self.0 >> i) & 1 == 1 {
                count = count + 1;
            }
            i = i + 1;
        }
        count
    }

    /// Whether the chunk is empty (all cells dead).
    #[inline]
    pub fn is_empty(&self) -> (r: bool)
        ensures
            r == (self.0 == 0),
    {
        self.0 == 0
    }
}

/// Setting one bit of a word changes that bit and no other.
proof fn lemma_set_bit(w: u64, v: u64, idx: u64, alive: bool)
    requires
        idx < 64,
        alive ==> v == w | (1u64 << idx),
        !alive ==> v == w & !(1u64 << idx),
    ensures
        forall|j: u64|
            j < 64 ==> nth_bit(v, j) == (if j == idx {
                alive
            } else {
                nth_bit(w, j)
            }),
{
    assert forall|j: u64| j < 64 implies nth_bit(v, j) == (if j == idx {
        alive
    } else {
        nth_bit(w, j)
    }) by {
        if alive {
            assert(((w | (1u64 << idx)) >> j) & 1 == (if j == idx {
                1u64
            } else {
                (w >> j) & 1
            })) by (bit_vector)
                requires
                    j < 64,
                    idx < 64,
            ;
        } else {
            assert(((w & !(1u64 << idx)) >> j) & 1 == (if j == idx {
                0u64
            } else {
                (w >> j) & 1
            })) by (bit_vector)
                requires
                    j < 64,
                    idx < 64,
            ;
        }
    }
}

/// A bit-packed grid storing each cell as one bit.
///
/// Its view is the grid's mathematical value: `height` rows of `width`
/// booleans.
#[derive(Clone)]
pub struct BitGrid {
    /// Width in cells.
    pub width: usize,
    /// Height in cells.
    pub height: usize,
    /// Words per row: `chunks_per_row(width)`.
    pub chunk_width: usize,
    /// Flat array of words, row-major order.
    pub chunks: Vec<u64>,
}

impl BitGrid {
    /// The word holding column-word `c` of row `y`.
    pub open spec fn spec_chunk(&self, c: int, y: int) -> u64 {
        self.chunks@[y * (self.chunk_width as int) + c]
    }

    /// The cell at (x, y), for in-range coordinates.
    pub open spec fn spec_cell(&self, x: int, y: int) -> bool {
        nth_bit(self.spec_chunk(x / 64, y), (x % 64) as u64)
    }

    /// Well-formedness: the word array has exactly the declared geometry, the
    /// whole allocation fits in memory, and every padding bit (column
    /// position at or beyond `width` in the last word of a row) is zero.
    pub open spec fn wf(&self) -> bool {
        &&& self.width + 63 <= usize::MAX
        &&& self.chunk_width == chunks_per_row(self.width as nat)
        &&& self.chunks.len() == self.chunk_width * self.height
        &&& self.chunk_width * self.height <= usize::MAX as int / 64
        &&& forall|c: int, y: int, i: u64|
            0 <= y < self.height && 0 <= c < self.chunk_width && i < 64 && c * 64 + i
                >= self.width ==> !(#[trigger] nth_bit(self.spec_chunk(c, y), i))
    }
}

impl View for BitGrid {
    type V = Seq<Seq<bool>>;

    open spec fn view(&self) -> Seq<Seq<bool>> {
        Seq::new(
            self.height as nat,
            |y: int| Seq::new(self.width as nat, |x: int| self.spec_cell(x, y)),
        )
    }
}

/// A row-major index is within the array, and distinct (column, row) pairs
/// get distinct indices.
pub(crate) proof fn lemma_row_major(c1: int, y1: int, c2: int, y2: int, cw: int, h: int)
    by (nonlinear_arith)
    requires
        0 <= c1 < cw,
        0 <= y1 < h,
        0 <= c2 < cw,
        0 <= y2 < h,
    ensures
        0 <= y1 * cw + c1 < h * cw,
        0 <= y1 * cw + c1 < cw * h,
        y1 * cw + c1 == y2 * cw + c2 ==> y1 == y2 && c1 == c2,
{
}

/// Basic bounds for the words-per-row count.
pub(crate) proof fn lemma_chunks_per_row_bounds(w: nat)
    ensures
        64 * chunks_per_row(w) >= w,
        64 * chunks_per_row(w) < w + 64,
        w > 0 ==> chunks_per_row(w) >= 1,
        w % 64 != 0 ==> (w / 64) * 64 + (w % 64) == w && chunks_per_row(w) == w / 64 + 1,
        w % 64 == 0 ==> chunks_per_row(w) == w / 64,
{
    lemma_fundamental_div_mod((w + 63) as int, 64);
    lemma_mod_bound((w + 63) as int, 64);
    lemma_fundamental_div_mod(w as int, 64);
    lemma_mod_bound(w as int, 64);
    if w % 64 != 0 {
        lemma_fundamental_div_mod_converse((w + 63) as int, 64, w as int / 64 + 1, (w as int % 64)
            - 1);
    } else if w > 0 {
        lemma_fundamental_div_mod_converse((w + 63) as int, 64, w as int / 64, 63);
    }
}

/// The cell coordinate decomposes into its word and bit position.
pub(crate) proof fn lemma_cell_decomp(x: int)
    requires
        0 <= x,
    ensures
        x == 64 * (x / 64) + x % 64,
        0 <= x % 64 < 64,
        0 <= x / 64,
    decreases 0int,
{
    lemma_fundamental_div_mod(x, 64);
    lemma_mod_bound(x, 64);
}

impl BitGrid {
    /// A well-formed grid's view has its declared dimensions and is
    /// rectangular.
    pub proof fn lemma_view_shape(&self)
        requires
            self.wf(),
        ensures
            grid_height(self@) == self.height,
            self.height > 0 ==> grid_width(self@) == self.width,
            is_rect(self@),
            self@.len() == self.height,
            forall|y: int| 0 <= y < self.height ==> (#[trigger] self@[y]).len() == self.width,
    {
    }

    /// Create a new grid with all cells dead.
    pub fn new(width: usize, height: usize) -> (r: BitGrid)
        requires
            width + 63 <= usize::MAX,
            chunks_per_row(width as nat) * height <= usize::MAX as int / 64,
        ensures
            r.wf(),
            r.width == width,
            r.height == height,
            r@ == Seq::new(height as nat, |y: int| Seq::new(width as nat, |x: int| false)),
    {
        let chunk_width = (width + 63) / 64;
        proof {
            lemma_chunks_per_row_bounds(width as nat);
        }
        let total_chunks = chunk_width * height;
        let chunks = vec![0u64; total_chunks];
        let r = BitGrid { width, height, chunk_width, chunks };
        proof {
            assert forall|k: int| 0 <= k < total_chunks implies r.chunks@[k] == 0 by {
                assert(cloned(0u64, r.chunks@[k]));
            }
            assert(forall|i: u64| i < 64 ==> !nth_bit(0u64, i)) by (bit_vector);
            assert forall|c: int, y: int| 0 <= y < height && 0 <= c < chunk_width implies
                #[trigger] r.spec_chunk(c, y) == 0 by {
                lemma_row_major(c, y, c, y, chunk_width as int, height as int);
            }
            assert forall|x: int, y: int| 0 <= y < height && 0 <= x < width implies !(
            #[trigger] r.spec_cell(x, y)) by {
                lemma_cell_decomp(x);
                lemma_row_major(x / 64, y, x / 64, y, chunk_width as int, height as int);
            }
            assert(r@ =~~= Seq::new(height as nat, |y: int| Seq::new(width as nat, |x: int| false)));
        }
        r
    }

    /// Adopt a pre-computed word array as a grid's storage, without copying.
    /// The array must have the exact geometry and clean padding bits.
    pub fn from_chunks(width: usize, height: usize, raw_chunks: Vec<u64>) -> (r: BitGrid)
        requires
            width + 63 <= usize::MAX,
            raw_chunks.len() == chunks_per_row(width as nat) * height,
            chunks_per_row(width as nat) * height <= usize::MAX as int / 64,
            forall|c: int, y: int, i: u64|
                0 <= y < height && 0 <= c < chunks_per_row(width as nat) && i < 64 && c * 64 + i
                    >= width ==> !(#[trigger] nth_bit(
                    raw_chunks@[y * (chunks_per_row(width as nat) as int) + c],
                    i,
                )),
        ensures
            r.wf(),
            r.width == width,
            r.height == height,
            r.chunks@ == raw_chunks@,
    {
        let chunk_width = (width + 63) / 64;
        BitGrid { width, height, chunk_width, chunks: raw_chunks }
    }

    /// The grid's dimensions as (width, height).
    pub fn dimensions(&self) -> (r: (usize, usize))
        ensures
            r.0 == self.width,
            r.1 == self.height,
    {
        (self.width, self.height)
    }

    /// Get the cell at (x, y).  Out-of-range coordinates read as dead.
    #[inline]
    pub fn get(&self, x: usize, y: usize) -> (r: bool)
        requires
            self.wf(),
        ensures
            r == (if x < self.width && y < self.height {
                self@[y as int][x as int]
            } else {
                false
            }),
    {
        if x >= self.width || y >= self.height {
            return false;
        }
        proof {
            lemma_cell_decomp(x as int);
            lemma_chunks_per_row_bounds(self.width as nat);
            lemma_row_major(
                x as int / 64,
                y as int,
                x as int / 64,
                y as int,
                self.chunk_width as int,
                self.height as int,
            );
        }
        let chunk_idx = y * self.chunk_width + x / 64;
        let bit_idx = (x % 64) as u64;
        (self.chunks[chunk_idx] >> bit_idx) & 1 == 1
    }

    /// Set the cell at (x, y).  Out-of-range writes are silent no-ops.
    #[inline]
    pub fn set(&mut self, x: usize, y: usize, alive: bool)
        requires
            old(self).wf(),
        ensures
            final(self).wf(),
            final(self).width == old(self).width,
            final(self).height == old(self).height,
            final(self).chunk_width == old(self).chunk_width,
            final(self)@ == (if x < old(self).width && y < old(self).height {
                old(self)@.update(y as int, old(self)@[y as int].update(x as int, alive))
            } else {
                old(self)@
            }),
    {
        if x >= self.width || y >= self.height {
            return ;
        }
        proof {
            lemma_cell_decomp(x as int);
            lemma_chunks_per_row_bounds(self.width as nat);
            lemma_row_major(
                x as int / 64,
                y as int,
                x as int / 64,
                y as int,
                self.chunk_width as int,
                self.height as int,
            );
        }
        let chunk_idx = y * self.chunk_width + x / 64;
        let bit_idx = (x % 64) as u64;
        let w = self.chunks[chunk_idx];
        let nw = if alive {
            w | (1u64 << bit_idx)
        } else {
            w & !(1u64 << bit_idx)
        };
        self.chunks[chunk_idx] = nw;
        proof {
            lemma_set_bit(w, nw, bit_idx, alive);
            self.lemma_one_chunk_update(*old(self), x as int, y as int, alive);
        }
    }

    /// After rewriting the single word holding cell (x, y) so that only the
    /// bit of (x, y) changed, the whole view changed at exactly that cell.
    proof fn lemma_one_chunk_update(&self, prev: BitGrid, x: int, y: int, alive: bool)
        requires
            prev.wf(),
            0 <= x < prev.width,
            0 <= y < prev.height,
            self.width == prev.width,
            self.height == prev.height,
            self.chunk_width == prev.chunk_width,
            self.chunks@ == prev.chunks@.update(
                y * (prev.chunk_width as int) + x / 64,
                self.spec_chunk(x / 64, y),
            ),
            forall|j: u64|
                j < 64 ==> #[trigger] nth_bit(self.spec_chunk(x / 64, y), j) == (if j == (x
                    % 64) as u64 {
                    alive
                } else {
                    nth_bit(prev.spec_chunk(x / 64, y), j)
                }),
        ensures
            self.wf(),
            self@ == prev@.update(y, prev@[y].update(x, alive)),
    {
        lemma_cell_decomp(x);
        lemma_chunks_per_row_bounds(prev.width as nat);
        let cw = prev.chunk_width as int;
        let c = x / 64;
        lemma_row_major(c, y, c, y, cw, prev.height as int);
        // Every other word is untouched.
        assert forall|c2: int, y2: int|
            0 <= c2 < cw && 0 <= y2 < prev.height && !(c2 == c && y2 == y) implies #[trigger] self
            .spec_chunk(c2, y2) == prev.spec_chunk(c2, y2) by {
            lemma_row_major(c2, y2, c, y, cw, prev.height as int);
        }
        // Padding stays zero: the updated bit is a valid cell position.
        assert forall|c2: int, y2: int, i: u64|
            0 <= y2 < self.height && 0 <= c2 < cw && i < 64 && c2 * 64 + i >= self.width implies !(
        #[trigger] nth_bit(self.spec_chunk(c2, y2), i)) by {
            if c2 == c && y2 == y {
                assert(c * 64 + (x % 64) == x < prev.width as int);
                assert(nth_bit(self.spec_chunk(c, y), i) == nth_bit(prev.spec_chunk(c, y), i));
            } else {
                lemma_row_major(c2, y2, c, y, cw, prev.height as int);
            }
        }
        // Cells: only (x, y) changed.
        assert forall|x2: int, y2: int|
            0 <= x2 < self.width && 0 <= y2 < self.height implies #[trigger] self.spec_cell(x2, y2)
            == (if x2 == x && y2 == y {
            alive
        } else {
            prev.spec_cell(x2, y2)
        }) by {
            lemma_cell_decomp(x2);
            lemma_row_major(x2 / 64, y2, c, y, cw, prev.height as int);
            if x2 / 64 == c && y2 == y {
                if x2 == x {
                } else {
                    assert(x2 % 64 != x % 64);
                }
            }
        }
        assert(self@ =~~= prev@.update(y, prev@[y].update(x, alive)));
    }
}

/// The mask of valid cell positions in column-word `c` of a row: all ones
/// for a full word, otherwise only the low bits below `width`.
pub open spec fn chunk_mask(width: int, c: int) -> u64 {
    if (c + 1) * 64 <= width {
        u64::MAX
    } else {
        low_mask((width - c * 64) as u64)
    }
}

impl BitGrid {
    /// After storing one word whose padding bits are zero, the grid is still
    /// well-formed and exactly the cells of that word changed.
    proof fn lemma_word_store(&self, prev: BitGrid, c: int, y: int)
        requires
            prev.wf(),
            0 <= c < prev.chunk_width,
            0 <= y < prev.height,
            self.width == prev.width,
            self.height == prev.height,
            self.chunk_width == prev.chunk_width,
            self.chunks@ == prev.chunks@.update(
                y * (prev.chunk_width as int) + c,
                self.spec_chunk(c, y),
            ),
            forall|i: u64|
                i < 64 && c * 64 + i >= self.width ==> !(#[trigger] nth_bit(
                    self.spec_chunk(c, y),
                    i,
                )),
        ensures
            self.wf(),
            forall|x2: int, y2: int|
                0 <= x2 < self.width && 0 <= y2 < self.height ==> #[trigger] self.spec_cell(x2, y2)
                    == (if y2 == y && x2 / 64 == c {
                    nth_bit(self.spec_chunk(c, y), (x2 % 64) as u64)
                } else {
                    prev.spec_cell(x2, y2)
                }),
            forall|y2: int|
                0 <= y2 < self.height && y2 != y ==> #[trigger] self@[y2] == prev@[y2],
    {
        let cw = prev.chunk_width as int;
        lemma_row_major(c, y, c, y, cw, prev.height as int);
        assert forall|c2: int, y2: int|
            0 <= c2 < cw && 0 <= y2 < prev.height && !(c2 == c && y2 == y) implies #[trigger] self
            .spec_chunk(c2, y2) == prev.spec_chunk(c2, y2) by {
            lemma_row_major(c2, y2, c, y, cw, prev.height as int);
        }
        assert forall|c2: int, y2: int, i: u64|
            0 <= y2 < self.height && 0 <= c2 < cw && i < 64 && c2 * 64 + i >= self.width implies !(
        #[trigger] nth_bit(self.spec_chunk(c2, y2), i)) by {
            if !(c2 == c && y2 == y) {
                lemma_row_major(c2, y2, c, y, cw, prev.height as int);
            }
        }
        assert forall|x2: int, y2: int|
            0 <= x2 < self.width && 0 <= y2 < self.height implies #[trigger] self.spec_cell(x2, y2)
            == (if y2 == y && x2 / 64 == c {
            nth_bit(self.spec_chunk(c, y), (x2 % 64) as u64)
        } else {
            prev.spec_cell(x2, y2)
        }) by {
            lemma_cell_decomp(x2);
            lemma_chunks_per_row_bounds(prev.width as nat);
            lemma_row_major(x2 / 64, y2, c, y, cw, prev.height as int);
        }
        assert forall|y2: int| 0 <= y2 < self.height && y2 != y implies #[trigger] self@[y2]
            == prev@[y2] by {
            assert forall|x2: int| 0 <= x2 < self.width implies self.spec_cell(x2, y2)
                == prev.spec_cell(x2, y2) by {
                lemma_cell_decomp(x2);
                lemma_chunks_per_row_bounds(prev.width as nat);
                lemma_row_major(x2 / 64, y2, c, y, cw, prev.height as int);
            }
            assert(self@[y2] =~= prev@[y2]);
        }
    }

    /// Get the raw word at (chunk_x, y); out-of-range reads return 0.
    #[inline]
    pub fn get_chunk(&self, chunk_x: usize, y: usize) -> (r: u64)
        requires
            self.wf(),
        ensures
            r == (if chunk_x < self.chunk_width && y < self.height {
                self.spec_chunk(chunk_x as int, y as int)
            } else {
                0u64
            }),
    {
        if y >= self.height || chunk_x >= self.chunk_width {
            return 0;
        }
        proof {
            lemma_row_major(
                chunk_x as int,
                y as int,
                chunk_x as int,
                y as int,
                self.chunk_width as int,
                self.height as int,
            );
        }
        self.chunks[y * self.chunk_width + chunk_x]
    }

    /// Store a word of cells at (chunk_x, y); out-of-range writes are no-ops.
    /// Bits at positions beyond the grid's width are discarded, keeping the
    /// padding invariant.
    pub fn set_chunk(&mut self, chunk_x: usize, y: usize, value: u64)
        requires
            old(self).wf(),
        ensures
            final(self).wf(),
            final(self).width == old(self).width,
            final(self).height == old(self).height,
            final(self).chunk_width == old(self).chunk_width,
            chunk_x >= old(self).chunk_width || y >= old(self).height ==> *final(self) == *old(
                self,
            ),
            chunk_x < old(self).chunk_width && y < old(self).height ==> {
                &&& forall|x2: int, y2: int|
                    0 <= x2 < old(self).width && 0 <= y2 < old(self).height
                        ==> #[trigger] final(self).spec_cell(x2, y2) == (if y2 == y && x2 / 64
                        == chunk_x {
                        nth_bit(value, (x2 % 64) as u64)
                    } else {
                        old(self).spec_cell(x2, y2)
                    })
                &&& forall|y2: int|
                    0 <= y2 < old(self).height && y2 != y ==> #[trigger] final(self)@[y2] == old(
                        self,
                    )@[y2]
            },
    {
        if y >= self.height || chunk_x >= self.chunk_width {
            return ;
        }
        proof {
            lemma_chunks_per_row_bounds(self.width as nat);
            lemma_row_major(
                chunk_x as int,
                y as int,
                chunk_x as int,
                y as int,
                self.chunk_width as int,
                self.height as int,
            );
        }
        proof {
            assert(64 * (chunk_x as int) <= 64 * (self.chunk_width as int - 1));
            assert(chunk_x * 64 < self.width);
        }
        let mask: u64 = if self.width - chunk_x * 64 >= 64 {
            u64::MAX
        } else {
            let tail = (self.width - chunk_x * 64) as u64;
            proof {
                assert(1u64 << tail >= 1) by (bit_vector)
                    requires
                        tail < 64,
                ;
            }
            (1u64 << tail) - 1
        };
        let stored = value & mask;
        let idx = y * self.chunk_width + chunk_x;
        self.chunks[idx] = stored;
        proof {
            let c = chunk_x as int;
            let wd = self.width as int;
            assert(mask == chunk_mask(wd, c));
            assert forall|i: u64|
                i < 64 && c * 64 + i >= wd implies !(#[trigger] nth_bit(
                self.spec_chunk(c, y as int),
                i,
            )) by {
                lemma_bit_and(value, mask, i);
                if (c + 1) * 64 > wd {
                    lemma_bit_low_mask((wd - c * 64) as u64, i);
                }
            }
            self.lemma_word_store(*old(self), c, y as int);
            assert forall|x2: int, y2: int|
                0 <= x2 < old(self).width && 0 <= y2 < old(self).height implies #[trigger] self
                .spec_cell(x2, y2) == (if y2 == y && x2 / 64 == chunk_x {
                nth_bit(value, (x2 % 64) as u64)
            } else {
                old(self).spec_cell(x2, y2)
            }) by {
                lemma_cell_decomp(x2);
                if y2 == y && x2 / 64 == c {
                    lemma_bit_and(value, mask, (x2 % 64) as u64);
                    crate::model::lemma_bit_consts((x2 % 64) as u64);
                    if (c + 1) * 64 > wd {
                        lemma_bit_low_mask((wd - c * 64) as u64, (x2 % 64) as u64);
                    }
                }
            }
        }
    }

    /// Bit `k` of the flat word array, reading the whole store as one long
    /// bit string; positions past the end read as zero.
    pub open spec fn spec_flat_bit(&self, k: int) -> bool {
        if 0 <= k < self.chunks.len() * 64 {
            nth_bit(self.chunks@[k / 64], (k % 64) as u64)
        } else {
            false
        }
    }

    /// Read 64 bits starting at bit offset `x` of row `y`, straddling word
    /// boundaries as needed.  Bit `j` of the result is flat bit
    /// `(y * chunk_width) * 64 + x + j` of the store.
    #[inline]
    pub fn get_word64(&self, x: usize, y: usize) -> (r: u64)
        requires
            self.wf(),
            y < self.height,
            x < self.chunk_width * 64,
        ensures
            forall|j: u64|
                j < 64 ==> #[trigger] nth_bit(r, j) == self.spec_flat_bit(
                    ((y * self.chunk_width) as int) * 64 + x + j,
                ),
    {
        proof {
            lemma_cell_decomp(x as int);
            lemma_chunks_per_row_bounds(self.width as nat);
            assert((x as int) / 64 < self.chunk_width as int) by (nonlinear_arith)
                requires
                    0 <= (x as int) / 64,
                    64 * ((x as int) / 64) <= x as int,
                    (x as int) < (self.chunk_width as int) * 64,
            ;
            lemma_row_major(
                x as int / 64,
                y as int,
                x as int / 64,
                y as int,
                self.chunk_width as int,
                self.height as int,
            );
        }
        let chunk_idx = y * self.chunk_width + x / 64;
        let bit_idx = (x % 64) as u64;
        let ghost base = ((y * self.chunk_width) as int) * 64 + x as int;
        proof {
            assert(base == (chunk_idx as int) * 64 + bit_idx) by (nonlinear_arith)
                requires
                    base == ((y * self.chunk_width) as int) * 64 + x as int,
                    chunk_idx as int == (y * self.chunk_width) as int + (x as int) / 64,
                    x as int == 64 * ((x as int) / 64) + bit_idx,
                    bit_idx == (x as int) % 64,
            ;
        }
        let low = self.chunks[chunk_idx] >> bit_idx;
        if bit_idx == 0 {
            proof {
                self.lemma_flat_word(chunk_idx as int, 0, low, 0);
                assert(low | 0u64 == low) by (bit_vector);
            }
            return low;
        }
        if chunk_idx + 1 < self.chunks.len() {
            let high = self.chunks[chunk_idx + 1] << ((64 - bit_idx) as u64);
            proof {
                self.lemma_flat_word(chunk_idx as int, bit_idx, low, high);
            }
            low | high
        } else {
            proof {
                self.lemma_flat_word_tail(chunk_idx as int, bit_idx, low);
            }
            low
        }
    }

    /// A straddling read `low | high` assembles exactly the flat bits
    /// starting at `c * 64 + b`.
    proof fn lemma_flat_word(&self, c: int, b: u64, low: u64, high: u64)
        requires
            self.wf(),
            0 <= c < self.chunks.len(),
            b < 64,
            low == self.chunks@[c] >> b,
            b != 0 ==> c + 1 < self.chunks.len() && high == self.chunks@[c + 1] << ((64
                - b) as u64),
            b == 0 ==> high == 0,
        ensures
            forall|j: u64|
                j < 64 ==> #[trigger] nth_bit(low | high, j) == self.spec_flat_bit(
                    c * 64 + b + j,
                ),
    {
        assert forall|j: u64| j < 64 implies #[trigger] nth_bit(low | high, j)
            == self.spec_flat_bit(c * 64 + b + j) by {
            lemma_bit_or(low, high, j);
            lemma_bit_shr(self.chunks@[c], b, j);
            if b != 0 {
                lemma_bit_shl(self.chunks@[c + 1], (64 - b) as u64, j);
            } else {
                crate::model::lemma_bit_consts(j);
            }
            let k = c * 64 + b + j;
            if b + j < 64 {
                lemma_fundamental_div_mod_converse(k, 64, c, b + j);
            } else {
                lemma_fundamental_div_mod_converse(k, 64, c + 1, b + j - 64);
            }
        }
    }

    /// A read whose upper part would fall past the end of the store: the
    /// low part alone holds the flat bits, the rest reading as zero.
    proof fn lemma_flat_word_tail(&self, c: int, b: u64, low: u64)
        requires
            self.wf(),
            0 <= c < self.chunks.len(),
            0 < b < 64,
            c + 1 == self.chunks.len(),
            low == self.chunks@[c] >> b,
        ensures
            forall|j: u64|
                j < 64 ==> #[trigger] nth_bit(low, j) == self.spec_flat_bit(c * 64 + b + j),
    {
        assert forall|j: u64| j < 64 implies #[trigger] nth_bit(low, j) == self.spec_flat_bit(
            c * 64 + b + j,
        ) by {
            lemma_bit_shr(self.chunks@[c], b, j);
            let k = c * 64 + b + j;
            if b + j < 64 {
                lemma_fundamental_div_mod_converse(k, 64, c, b + j);
            } else {
                assert(k >= self.chunks.len() * 64);
            }
        }
    }

    /// OR a 64-bit word into the store starting at bit offset `x` of row
    /// `y`, straddling word boundaries as needed.  Used for scatter writes
    /// into a zeroed or accumulating destination.  Every set bit of `val`
    /// must land on a valid cell of row `y`.
    pub fn set_word64_or(&mut self, x: usize, y: usize, val: u64)
        requires
            old(self).wf(),
            y < old(self).height,
            x < old(self).chunk_width * 64,
            forall|j: u64| j < 64 && #[trigger] nth_bit(val, j) ==> x + j < old(self).width,
        ensures
            final(self).wf(),
            final(self).width == old(self).width,
            final(self).height == old(self).height,
            final(self).chunk_width == old(self).chunk_width,
            forall|x2: int, y2: int|
                0 <= x2 < old(self).width && 0 <= y2 < old(self).height
                    ==> #[trigger] final(self).spec_cell(x2, y2) == (old(self).spec_cell(x2, y2)
                    || (y2 == y && x <= x2 < x + 64 && nth_bit(val, (x2 - x) as u64))),
    {
        proof {
            lemma_cell_decomp(x as int);
            lemma_chunks_per_row_bounds(self.width as nat);
            assert((x as int) / 64 < self.chunk_width as int) by (nonlinear_arith)
                requires
                    0 <= (x as int) / 64,
                    64 * ((x as int) / 64) <= x as int,
                    (x as int) < (self.chunk_width as int) * 64,
            ;
            lemma_row_major(
                x as int / 64,
                y as int,
                x as int / 64,
                y as int,
                self.chunk_width as int,
                self.height as int,
            );
        }
        let chunk_idx = y * self.chunk_width + x / 64;
        let bit_idx = (x % 64) as u64;
        if bit_idx == 0 {
            let w0 = self.chunks[chunk_idx];
            self.chunks[chunk_idx] = w0 | val;
            proof {
                assert(w0 | (val << 0u64) == w0 | val) by (bit_vector);
                self.lemma_or_store(*old(self), x as int, y as int, val, chunk_idx as int, 0);
                assert forall|x2: int, y2: int|
                    0 <= x2 < old(self).width && 0 <= y2 < old(self).height implies #[trigger] self
                    .spec_cell(x2, y2) == (old(self).spec_cell(x2, y2) || (y2 == y && x <= x2 < x
                    + 64 && nth_bit(val, (x2 - x) as u64))) by {
                    lemma_cell_decomp(x2);
                }
            }
            return ;
        }
        let w0 = self.chunks[chunk_idx];
        self.chunks[chunk_idx] = w0 | (val << bit_idx);
        proof {
            let ghost mid = *self;
            mid.lemma_or_store(*old(self), x as int, y as int, val, chunk_idx as int, 0);
        }
        if chunk_idx + 1 < self.chunks.len() {
            let ghost mid = *self;
            let w1 = self.chunks[chunk_idx + 1];
            let hi = val >> ((64 - bit_idx) as u64);
            self.chunks[chunk_idx + 1] = w1 | hi;
            proof {
                if x as int / 64 + 1 < self.chunk_width as int {
                    self.lemma_or_store(mid, x as int, y as int, val, chunk_idx as int + 1, 1);
                    assert forall|x2: int, y2: int|
                        0 <= x2 < old(self).width && 0 <= y2 < old(self).height implies #[trigger] self
                        .spec_cell(x2, y2) == (old(self).spec_cell(x2, y2) || (y2 == y && x <= x2
                        < x + 64 && nth_bit(val, (x2 - x) as u64))) by {
                        lemma_cell_decomp(x2);
                    }
                } else {
                    // The upper half of the write falls on the word after the
                    // row's last: every bit it would set lies at or beyond the
                    // width, so the OR stores the word unchanged.
                    assert forall|j: u64| j < 64 implies #[trigger] nth_bit(hi, j) == nth_bit(
                        0u64,
                        j,
                    ) by {
                        lemma_bit_shr(val, (64 - bit_idx) as u64, j);
                        crate::model::lemma_bit_consts(j);
                        if j + (64 - bit_idx) < 64 && nth_bit(val, (j + 64 - bit_idx) as u64) {
                            assert(x + (j + 64 - bit_idx) < self.width);
                            assert(x as int + 64 - bit_idx == ((x as int) / 64 + 1) * 64);
                            assert(64 * ((x as int) / 64 + 1) >= 64 * (self.chunk_width as int));
                            assert(false);
                        }
                    }
                    crate::model::lemma_u64_eq_from_bits(hi, 0);
                    assert(w1 | 0u64 == w1) by (bit_vector);
                    assert(self.chunks@ =~= mid.chunks@);
                    assert(self.chunks@ == mid.chunks@);
                    assert forall|c3: int, y3: int, i3: u64|
                        0 <= y3 < self.height && 0 <= c3 < self.chunk_width && i3 < 64 && c3 * 64
                        + i3 >= self.width implies !(#[trigger] nth_bit(
                        self.spec_chunk(c3, y3),
                        i3,
                    )) by {
                        assert(self.spec_chunk(c3, y3) == mid.spec_chunk(c3, y3));
                        assert(!nth_bit(mid.spec_chunk(c3, y3), i3));
                    }
                    assert(self.wf());
                    assert forall|x2: int, y2: int|
                        0 <= x2 < old(self).width && 0 <= y2 < old(self).height implies #[trigger] self
                        .spec_cell(x2, y2) == (old(self).spec_cell(x2, y2) || (y2 == y && x <= x2
                        < x + 64 && nth_bit(val, (x2 - x) as u64))) by {
                        lemma_cell_decomp(x2);
                        assert(self.spec_cell(x2, y2) == mid.spec_cell(x2, y2));
                        if y2 == y && x <= x2 < x + 64 && nth_bit(val, (x2 - x) as u64) {
                            assert(x2 < self.width);
                            if x2 / 64 > x as int / 64 {
                                assert(x2 >= 64 * ((x as int) / 64 + 1));
                                assert(64 * ((x as int) / 64 + 1) >= 64 * (
                                self.chunk_width as int));
                                lemma_chunks_per_row_bounds(self.width as nat);
                                assert(false);
                            }
                        }
                    }
                }
            }
        } else {
            proof {
                assert forall|x2: int, y2: int|
                    0 <= x2 < old(self).width && 0 <= y2 < old(self).height implies #[trigger] self
                    .spec_cell(x2, y2) == (old(self).spec_cell(x2, y2) || (y2 == y && x <= x2 < x
                    + 64 && nth_bit(val, (x2 - x) as u64))) by {
                    lemma_cell_decomp(x2);
                    if y2 == y && x <= x2 < x + 64 && nth_bit(val, (x2 - x) as u64) {
                        assert(x2 < self.width);
                        assert(x2 / 64 <= (self.chunk_width as int) - 1);
                        if x2 / 64 > x as int / 64 {
                            lemma_row_major(
                                x2 / 64,
                                y2,
                                x as int / 64,
                                y as int,
                                self.chunk_width as int,
                                self.height as int,
                            );
                            assert(false);
                        }
                    }
                }
                assert(self.wf());
            }
        }
    }

    /// One OR-store into a single word: cells whose bit in `val` maps to
    /// this word become the OR of old cell and value bit; all other cells
    /// are untouched.
    proof fn lemma_or_store(&self, prev: BitGrid, x: int, y: int, val: u64, ci: int, part: int)
        requires
            prev.wf(),
            0 <= x,
            0 <= y < prev.height,
            x < prev.chunk_width * 64,
            x / 64 + part < prev.chunk_width,
            forall|j: u64| j < 64 && #[trigger] nth_bit(val, j) ==> x + j < prev.width,
            self.width == prev.width,
            self.height == prev.height,
            self.chunk_width == prev.chunk_width,
            part == 0 || part == 1,
            ci == y * (prev.chunk_width as int) + x / 64 + part,
            0 <= ci < prev.chunks.len(),
            part == 0 ==> self.chunks@ == prev.chunks@.update(
                ci,
                prev.chunks@[ci] | (val << ((x % 64) as u64)),
            ),
            part == 1 ==> x % 64 != 0 && self.chunks@ == prev.chunks@.update(
                ci,
                prev.chunks@[ci] | (val >> ((64 - (x % 64)) as u64)),
            ),
        ensures
            self.wf(),
            forall|x2: int, y2: int|
                0 <= x2 < prev.width && 0 <= y2 < prev.height ==> #[trigger] self.spec_cell(
                    x2,
                    y2,
                ) == (prev.spec_cell(x2, y2) || (x2 / 64 == x / 64 + part && y2 == y && x <= x2 < x
                    + 64 && nth_bit(val, (x2 - x) as u64))),
    {
        let cw = prev.chunk_width as int;
        let b = (x % 64) as u64;
        let nw = self.chunks@[ci];
        lemma_cell_decomp(x);
        assert forall|i: u64| i < 64 implies #[trigger] nth_bit(nw, i) == (nth_bit(
            prev.chunks@[ci],
            i,
        ) || (x <= (x / 64 + part) * 64 + i < x + 64 && nth_bit(
            val,
            ((x / 64 + part) * 64 + i - x) as u64,
        ))) by {
            if part == 0 {
                lemma_bit_or(prev.chunks@[ci], val << b, i);
                lemma_bit_shl(val, b, i);
            } else {
                lemma_bit_or(prev.chunks@[ci], val >> ((64 - b) as u64), i);
                lemma_bit_shr(val, (64 - b) as u64, i);
            }
        }
        // Padding stays clear: every newly set bit is a valid cell of the
        // row.
        assert forall|c2: int, y2: int, i: u64|
            0 <= y2 < self.height && 0 <= c2 < cw && i < 64 && c2 * 64 + i >= self.width implies !(
        #[trigger] nth_bit(self.spec_chunk(c2, y2), i)) by {
            lemma_row_major(c2, y2, x / 64 + part, y, cw, prev.height as int);
            if y2 * cw + c2 == ci {
                assert(c2 == x / 64 + part && y2 == y);
                assert(!nth_bit(prev.spec_chunk(c2, y2), i));
                assert(self.spec_chunk(c2, y2) == nw);
                assert(nth_bit(nw, i) == (nth_bit(prev.chunks@[ci], i) || (x <= (x / 64 + part)
                    * 64 + i < x + 64 && nth_bit(val, ((x / 64 + part) * 64 + i - x) as u64))));
                if nth_bit(nw, i) {
                    assert(x <= c2 * 64 + i < x + 64 && nth_bit(val, (c2 * 64 + i - x) as u64));
                    assert(c2 * 64 + i < prev.width);
                    assert(false);
                }
            } else {
                assert(self.spec_chunk(c2, y2) == prev.spec_chunk(c2, y2));
                assert(!nth_bit(prev.spec_chunk(c2, y2), i));
            }
        }
        assert forall|x2: int, y2: int|
            0 <= x2 < prev.width && 0 <= y2 < prev.height implies #[trigger] self.spec_cell(x2, y2)
            == (prev.spec_cell(x2, y2) || (x2 / 64 == x / 64 + part && y2 == y && x <= x2 < x + 64
            && nth_bit(val, (x2 - x) as u64))) by {
            lemma_cell_decomp(x2);
            lemma_row_major(x2 / 64, y2, x / 64 + part, y, cw, prev.height as int);
            if x2 / 64 == x / 64 + part && y2 == y {
                assert(x2 == (x / 64 + part) * 64 + (x2 % 64));
            }
        }
    }

    /// Total memory used by the word store, in bytes.
    pub fn memory_bytes(&self) -> (r: usize)
        requires
            self.wf(),
        ensures
            r == chunks_per_row(self.width as nat) * self.height * 8,
    {
        proof {
            let cpr = chunks_per_row(self.width as nat);
            assert((self.chunk_width * self.height) * 8 == cpr * self.height * 8);
        }
        self.chunks.len() * 8
    }

    /// Clear all cells to dead.
    pub fn clear(&mut self)
        requires
            old(self).wf(),
        ensures
            final(self).wf(),
            final(self).width == old(self).width,
            final(self).height == old(self).height,
            final(self).chunk_width == old(self).chunk_width,
            final(self)@ == Seq::new(
                old(self).height as nat,
                |y: int| Seq::new(old(self).width as nat, |x: int| false),
            ),
    {
        let n = self.chunks.len();
        let mut i: usize = 0;
        while i < n
            invariant
                n == self.chunks.len(),
                i <= n,
                self.width == old(self).width,
                self.height == old(self).height,
                self.chunk_width == old(self).chunk_width,
                forall|k: int| 0 <= k < i ==> self.chunks@[k] == 0,
            decreases n - i,
        {
            self.chunks[i] = 0;
            i = i + 1;
        }
        proof {
            let cw = self.chunk_width as int;
            let h = self.height as int;
            assert forall|c: int, y: int| 0 <= c < cw && 0 <= y < h implies #[trigger] self
                .spec_chunk(c, y) == 0 by {
                lemma_row_major(c, y, c, y, cw, h);
            }
            assert(forall|i2: u64| i2 < 64 ==> !nth_bit(0u64, i2)) by (bit_vector);
            assert forall|x: int, y: int|
                0 <= x < self.width && 0 <= y < h implies !(#[trigger] self.spec_cell(x, y)) by {
                lemma_cell_decomp(x);
                lemma_chunks_per_row_bounds(self.width as nat);
                lemma_row_major(x / 64, y, x / 64, y, cw, h);
            }
            assert(self@ =~~= Seq::new(
                old(self).height as nat,
                |y: int| Seq::new(old(self).width as nat, |x: int| false),
            ));
        }
    }

    /// Count the live neighbors of cell (x, y) with toroidal wrapping, by
    /// individual cell lookups.  This is the reference counting path.
    #[verifier::rlimit(50)]
    pub fn count_neighbors(&self, x: usize, y: usize) -> (r: u8)
        requires
            self.wf(),
            x < self.width,
            y < self.height,
        ensures
            r as nat == torus_neighbors(self@, x as int, y as int),
    {
        let w = self.width;
        let h = self.height;
        let xl = if x > 0 {
            x - 1
        } else {
            w - 1
        };
        let xr = if x + 1 < w {
            x + 1
        } else {
            0
        };
        let yu = if y > 0 {
            y - 1
        } else {
            h - 1
        };
        let yd = if y + 1 < h {
            y + 1
        } else {
            0
        };
        proof {
            self.lemma_view_shape();
            crate::model::lemma_wrap_dec(x as int, w as int);
            crate::model::lemma_wrap_inc(x as int, w as int);
            crate::model::lemma_wrap_dec(y as int, h as int);
            crate::model::lemma_wrap_inc(y as int, h as int);
        }
        let mut count: u8 = 0;
        if self.get(xl, yu) {
            count = count + 1;
        }
        if self.get(x, yu) {
            count = count + 1;
        }
        if self.get(xr, yu) {
            count = count + 1;
        }
        if self.get(xl, y) {
            count = count + 1;
        }
        if self.get(xr, y) {
            count = count + 1;
        }
        if self.get(xl, yd) {
            count = count + 1;
        }
        if self.get(x, yd) {
            count = count + 1;
        }
        if self.get(xr, yd) {
            count = count + 1;
        }
        count
    }

    /// Evolve the grid by one generation under the given rule, cell by cell.
    /// The result is a brand-new grid; the input is never mutated.
    pub fn evolve<R: Rule>(&self, rule: &R) -> (r: BitGrid)
        requires
            self.wf(),
        ensures
            r.wf(),
            r.width == self.width,
            r.height == self.height,
            r@ == torus_step(self@, *rule),
    {
        proof {
            self.lemma_view_shape();
        }
        let mut next = BitGrid::new(self.width, self.height);
        let ghost target = torus_step(self@, *rule);
        let mut y: usize = 0;
        while y < self.height
            invariant
                self.wf(),
                next.wf(),
                next.width == self.width,
                next.height == self.height,
                y <= self.height,
                target == torus_step(self@, *rule),
                next@.len() == self.height,
                forall|y2: int, x2: int|
                    0 <= y2 < self.height && 0 <= x2 < self.width ==> #[trigger] next@[y2][x2] == (
                    if y2 < y {
                        target[y2][x2]
                    } else {
                        false
                    }),
            decreases self.height - y,
        {
            let mut x: usize = 0;
            while x < self.width
                invariant
                    self.wf(),
                    next.wf(),
                    next.width == self.width,
                    next.height == self.height,
                    y < self.height,
                    x <= self.width,
                    target == torus_step(self@, *rule),
                    forall|y2: int, x2: int|
                        0 <= y2 < self.height && 0 <= x2 < self.width ==> #[trigger] next@[y2][x2]
                            == (if y2 < y || (y2 == y && x2 < x) {
                            target[y2][x2]
                        } else {
                            false
                        }),
                decreases self.width - x,
            {
                let neighbors = self.count_neighbors(x, y);
                let current = if self.get(x, y) {
                    Cell::Alive
                } else {
                    Cell::Dead
                };
                let next_state = rule.evolve(current, neighbors);
                proof {
                    self.lemma_view_shape();
                }
                if next_state == Cell::Alive {
                    next.set(x, y, true);
                }
                x = x + 1;
            }
            y = y + 1;
        }
        proof {
            self.lemma_view_shape();
            next.lemma_view_shape();
            assert(next@ =~~= target);
        }
        next
    }
}

/// Number of live cells among the first `n` of a row.
pub open spec fn row_alive_below(row: Seq<bool>, n: int) -> nat
    decreases n,
{
    if n <= 0 {
        0
    } else {
        row_alive_below(row, n - 1) + bit_as_nat(row[n - 1])
    }
}

/// Number of live cells in the first `m` rows of a grid view.
pub open spec fn rows_alive_below(g: Seq<Seq<bool>>, m: int) -> nat
    decreases m,
{
    if m <= 0 {
        0
    } else {
        rows_alive_below(g, m - 1) + row_alive_below(g[m - 1], g[m - 1].len() as int)
    }
}

/// Number of live cells of a whole grid view.
pub open spec fn grid_alive(g: Seq<Seq<bool>>) -> nat {
    rows_alive_below(g, g.len() as int)
}

/// A word's total popcount equals the popcount of its low `v` bits when all
/// higher bits up to `n` are clear.
proof fn lemma_count_bits_trunc(w: u64, v: nat, n: nat)
    requires
        v <= n <= 64,
        forall|j: u64| v <= j < n ==> !(#[trigger] nth_bit(w, j)),
    ensures
        count_bits_below(w, n) == count_bits_below(w, v),
    decreases n,
{
    if n > v {
        lemma_count_bits_trunc(w, v, (n - 1) as nat);
    }
}

/// Popcounts are bounded by the number of bits counted.
proof fn lemma_count_bits_le(w: u64, n: nat)
    ensures
        count_bits_below(w, n) <= n,
    decreases n,
{
    if n > 0 {
        lemma_count_bits_le(w, (n - 1) as nat);
    }
}

impl BitGrid {
    /// The live cells of row `y` up to cell column `c * 64 + v` are those up
    /// to `c * 64` plus the set bits below `v` of word `c`.
    proof fn lemma_chunk_alive_segment(&self, c: int, y: int, v: nat)
        requires
            self.wf(),
            0 <= c < self.chunk_width,
            0 <= y < self.height,
            v <= 64,
            c * 64 + v <= self.width,
        ensures
            row_alive_below(self@[y], c * 64 + v) == row_alive_below(self@[y], c * 64)
                + count_bits_below(self.spec_chunk(c, y), v),
        decreases v,
    {
        if v > 0 {
            self.lemma_chunk_alive_segment(c, y, (v - 1) as nat);
            let x = c * 64 + v - 1;
            lemma_fundamental_div_mod_converse(x, 64, c, v - 1);
            assert(self@[y][x] == self.spec_cell(x, y));
        }
    }

    /// Count the total number of live cells.
    pub fn count_alive(&self) -> (r: usize)
        requires
            self.wf(),
        ensures
            r == grid_alive(self@),
    {
        proof {
            self.lemma_view_shape();
        }
        let cw = self.chunk_width;
        let mut total: usize = 0;
        let mut y: usize = 0;
        while y < self.height
            invariant
                self.wf(),
                cw == self.chunk_width,
                y <= self.height,
                total == rows_alive_below(self@, y as int),
                total <= 64 * ((y as int) * (cw as int)),
            decreases self.height - y,
        {
            proof {
                self.lemma_view_shape();
            }
            let mut c: usize = 0;
            while c < cw
                invariant
                    self.wf(),
                    cw == self.chunk_width,
                    y < self.height,
                    c <= cw,
                    self@[y as int].len() == self.width,
                    total == rows_alive_below(self@, y as int) + row_alive_below(
                        self@[y as int],
                        (if c * 64 <= self.width {
                            (c * 64) as int
                        } else {
                            self.width as int
                        }),
                    ),
                    total <= 64 * ((y as int) * (cw as int) + c as int),
                decreases cw - c,
            {
                proof {
                    lemma_row_major(c as int, y as int, c as int, y as int, cw as int, self.height as int);
                    lemma_chunks_per_row_bounds(self.width as nat);
                    assert(64 * (c as int) <= 64 * (cw as int - 1));
                }
                let word = self.get_chunk(c, y);
                let pop = Chunk64(word).count_alive();
                proof {
                    lemma_count_bits_le(word, 64);
                    let yy = y as int;
                    let cc = c as int;
                    let cwi = cw as int;
                    let hh = self.height as int;
                    assert(64 * (yy * cwi + cc) + 64 <= 64 * (hh * cwi)) by (nonlinear_arith)
                        requires
                            yy * cwi + cc < hh * cwi,
                    ;
                    assert(hh * cwi == cwi * hh) by (nonlinear_arith);
                    let v: nat = if c * 64 + 64 <= self.width {
                        64
                    } else {
                        (self.width - c * 64) as nat
                    };
                    assert forall|j: u64| v <= j < 64 implies !(#[trigger] nth_bit(word, j)) by {}
                    lemma_count_bits_trunc(word, v, 64);
                    self.lemma_chunk_alive_segment(c as int, y as int, v);
                }
                total = total + (pop as usize);
                c = c + 1;
            }
            proof {
                assert(64 * ((y as int) * (cw as int) + cw as int) == 64 * ((y as int + 1) * (
                cw as int))) by (nonlinear_arith);
                assert(rows_alive_below(self@, y as int + 1) == rows_alive_below(self@, y as int)
                    + row_alive_below(self@[y as int], self@[y as int].len() as int));
            }
            y = y + 1;
        }
        total
    }

    /// Evolve the grid by one generation under the given rule, rows computed
    /// in parallel cell by cell.  The result is a brand-new grid.
    pub fn evolve_parallel<R: Rule>(&self, rule: &R) -> (r: BitGrid)
        requires
            self.wf(),
        ensures
            r.wf(),
            r.width == self.width,
            r.height == self.height,
            r@ == torus_step(self@, *rule),
    {
        let lookup = crate::simd_life::build_rule_lookup(rule);
        let rows = par_evolve_rows_cells(self, &lookup);
        crate::simd_life::assemble_rows(self, Ghost(lookup@), rows, rule)
    }

    /// Randomize the grid to roughly 25% live cells: each word of cells is
    /// the bitwise AND of two independent uniform random words.
    pub fn randomize(&mut self)
        requires
            old(self).wf(),
        ensures
            final(self).wf(),
            final(self).width == old(self).width,
            final(self).height == old(self).height,
            final(self).chunk_width == old(self).chunk_width,
    {
        let h = self.height;
        let cw = self.chunk_width;
        let mut y: usize = 0;
        while y < h
            invariant
                self.wf(),
                h == self.height,
                cw == self.chunk_width,
                self.width == old(self).width,
                self.height == old(self).height,
                self.chunk_width == old(self).chunk_width,
            decreases h - y,
        {
            let mut c: usize = 0;
            while c < cw
                invariant
                    self.wf(),
                    h == self.height,
                    cw == self.chunk_width,
                    y < h,
                    self.width == old(self).width,
                    self.height == old(self).height,
                    self.chunk_width == old(self).chunk_width,
                decreases cw - c,
            {
                let word = random_word() & random_word();
                self.set_chunk(c, y, word);
                c = c + 1;
            }
            y = y + 1;
        }
    }
}

/// Evolve one row of the grid cell by cell: every cell's neighbors are
/// counted by individual lookups and the next state read from the table.
pub fn evolve_row_cells(grid: &BitGrid, lookup: &[bool; 32], y: usize) -> (row: Vec<u64>)
    requires
        grid.wf(),
        y < grid.height,
    ensures
        crate::simd_life::spec_row_evolved(*grid, lookup@, y as int, row@),
{
    proof {
        grid.lemma_view_shape();
        lemma_chunks_per_row_bounds(grid.width as nat);
    }
    let mut row: Vec<u64> = Vec::new();
    let mut c: usize = 0;
    while c < grid.chunk_width
        invariant
            grid.wf(),
            y < grid.height,
            c <= grid.chunk_width,
            row@.len() == c,
            forall|c2: int, i: u64|
                0 <= c2 < c && i < 64 ==> (#[trigger] nth_bit(row@[c2], i)) == (if c2 * 64 + i
                    < grid.width {
                    crate::model::table_next(
                        lookup@,
                        grid@[y as int][c2 * 64 + i],
                        torus_neighbors(grid@, c2 * 64 + i, y as int),
                    )
                } else {
                    false
                }),
        decreases grid.chunk_width - c,
    {
        proof {
            lemma_chunks_per_row_bounds(grid.width as nat);
            assert(64 * (c as int) <= 64 * (grid.chunk_width as int - 1));
        }
        let mut word: u64 = 0;
        proof {
            assert forall|j: u64| j < 64 implies !nth_bit(0u64, j) by {
                crate::model::lemma_bit_consts(j);
            }
        }
        let mut i: u64 = 0;
        while i < 64
            invariant
                grid.wf(),
                y < grid.height,
                c < grid.chunk_width,
                (c as int) * 64 < grid.width as int,
                i <= 64,
                forall|j: u64|
                    j < i ==> (#[trigger] nth_bit(word, j)) == (if (c as int) * 64 + j
                        < grid.width {
                        crate::model::table_next(
                            lookup@,
                            grid@[y as int][(c as int) * 64 + j],
                            torus_neighbors(grid@, (c as int) * 64 + j, y as int),
                        )
                    } else {
                        false
                    }),
                forall|j: u64| i <= j < 64 ==> !(#[trigger] nth_bit(word, j)),
            decreases 64 - i,
        {
            let x = c * 64 + (i as usize);
            let prev = word;
            let ghost target: bool = if (c as int) * 64 + i < grid.width {
                crate::model::table_next(
                    lookup@,
                    grid@[y as int][(c as int) * 64 + i],
                    torus_neighbors(grid@, (c as int) * 64 + i, y as int),
                )
            } else {
                false
            };
            if x < grid.width {
                let alive = grid.get(x, y);
                let n = grid.count_neighbors(x, y);
                let idx: usize = if alive {
                    16 + (n as usize)
                } else {
                    n as usize
                };
                proof {
                    crate::model::lemma_torus_neighbors_le_8(grid@, x as int, y as int);
                    assert(idx as int == crate::model::next_index(
                        grid@[y as int][x as int],
                        torus_neighbors(grid@, x as int, y as int),
                    ));
                }
                if lookup[idx] {
                    word = word | (1u64 << i);
                }
            }
            proof {
                assert forall|j: u64| j < 64 implies #[trigger] nth_bit(word, j) == (if j == i {
                    target
                } else {
                    nth_bit(prev, j)
                }) by {
                    crate::model::lemma_bit_or(prev, 1u64 << i, j);
                    crate::model::lemma_bit_one(i, j);
                    if !(x < grid.width) {
                        assert(word == prev);
                        assert(!nth_bit(prev, i));
                    } else if word == prev {
                        assert(!nth_bit(prev, i));
                    }
                }
            }
            i = i + 1;
        }
        row.push(word);
        c = c + 1;
    }
    row
}

/// Relies on rayon's indexed parallel iterator over `0..height` with `map`
/// and `collect`: the closure runs once per row index and the results are
/// collected in index order, so entry `y` is the evolved row `y`.
#[verifier::external_body]
fn par_evolve_rows_cells(grid: &BitGrid, lookup: &[bool; 32]) -> (rows: Vec<Vec<u64>>)
    requires
        grid.wf(),
    ensures
        rows@.len() == grid.height,
        forall|y: int|
            0 <= y < grid.height ==> crate::simd_life::spec_row_evolved(
                *grid,
                lookup@,
                y,
                (#[trigger] rows@[y])@,
            ),
{
    (0..grid.height).into_par_iter().map(|y| evolve_row_cells(grid, lookup, y)).collect()
}

/// Every evolution path's contract pins the result to the same mathematical
/// step of the grid's view, and a well-formed grid's word store is fully
/// determined by its dimensions and view: two well-formed grids of the same
/// dimensions with equal views are bit-identical, word for word.  Together,
/// these mean all evolution paths produce bit-identical grids.
pub proof fn lemma_view_determines_words(a: BitGrid, b: BitGrid)
    requires
        a.wf(),
        b.wf(),
        a.width == b.width,
        a.height == b.height,
        a@ == b@,
    ensures
        a.chunks@ == b.chunks@,
{
    let cw = a.chunk_width as int;
    let h = a.height as int;
    assert forall|k: int| 0 <= k < a.chunks@.len() implies a.chunks@[k] == b.chunks@[k] by {
        lemma_fundamental_div_mod(k, cw);
        lemma_mod_bound(k, cw);
        let c = k % cw;
        let y = k / cw;
        assert(y < h) by (nonlinear_arith)
            requires
                k == cw * y + c,
                0 <= c < cw,
                0 <= k < cw * h,
                y == k / cw,
        ;
        assert(k == y * cw + c) by (nonlinear_arith)
            requires
                k == cw * y + c,
        ;
        assert forall|i: u64| i < 64 implies nth_bit(a.chunks@[k], i) == nth_bit(
            b.chunks@[k],
            i,
        ) by {
            assert(a.chunks@[k] == a.spec_chunk(c, y));
            assert(b.chunks@[k] == b.spec_chunk(c, y));
            if c * 64 + i < a.width {
                lemma_fundamental_div_mod_converse(c * 64 + i, 64, c, i as int);
                assert(a.spec_cell(c * 64 + i, y) == a@[y][c * 64 + i]);
                assert(b.spec_cell(c * 64 + i, y) == b@[y][c * 64 + i]);
            } else {
                assert(!nth_bit(a.spec_chunk(c, y), i));
                assert(!nth_bit(b.spec_chunk(c, y), i));
            }
        }
        lemma_u64_eq_from_bits(a.chunks@[k], b.chunks@[k]);
    }
    assert(a.chunks@ =~= b.chunks@);
}

/// Relies on rand's thread-local generator: returns some 64-bit value;
/// nothing is assumed about which.
#[verifier::external_body]
fn random_word() -> u64 {
    rand::random::<u64>()
}

} // verus!
