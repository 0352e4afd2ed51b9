//! Word-parallel evolution: 64 cells advance per rule application.
//!
//! Horizontal neighbors come from shifting row words by one bit, vertical
//! neighbors from the adjacent row words, and the per-lane neighbor counts
//! are formed by a carry-save adder network: bitwise operations that add the
//! eight one-bit-per-lane neighbor values into a 4-bit count per lane, with
//! no per-cell branching.

use rayon::iter::{IntoParallelIterator, ParallelIterator};
use vstd::prelude::*;

use crate::bit_grid::BitGrid;
use crate::cell::Cell;
use crate::model::{
    bit_as_nat, chunks_per_row, grid_height, grid_width, lemma_bit_and, lemma_bit_low_mask,
    lemma_bit_or, lemma_torus_neighbors_le_8, lemma_wrap_dec, lemma_wrap_inc, next_index, nth_bit,
    table_matches_rule, table_next, torus_neighbors, torus_step,
};
use crate::rules::Rule;

verus! {

/// The neighbor of lane `i` one bit position down; lane 0 takes the injected
/// edge bit from the word to its right in grid order.
pub open spec fn lane_prev(w: u64, edge: bool, i: u64) -> bool {
    if i == 0 {
        edge
    } else {
        nth_bit(w, (i - 1) as u64)
    }
}

/// The neighbor of lane `i` one bit position up; lane 63 takes the injected
/// edge bit from the word to its left in grid order.
pub open spec fn lane_next(w: u64, edge: bool, i: u64) -> bool {
    if i == 63 {
        edge
    } else {
        nth_bit(w, (i + 1) as u64)
    }
}

/// The total of the 8 neighbors of lane `i` across three vertically adjacent
/// row words, with the six injected edge bits.
pub open spec fn lane_neighbors(
    above: u64,
    current: u64,
    below: u64,
    la: bool,
    ra: bool,
    lc: bool,
    rc: bool,
    lb: bool,
    rb: bool,
    i: u64,
) -> nat {
    bit_as_nat(lane_next(above, la, i)) + bit_as_nat(nth_bit(above, i)) + bit_as_nat(
        lane_prev(above, ra, i),
    ) + bit_as_nat(lane_next(current, lc, i)) + bit_as_nat(lane_prev(current, rc, i)) + bit_as_nat(
        lane_next(below, lb, i),
    ) + bit_as_nat(nth_bit(below, i)) + bit_as_nat(lane_prev(below, rb, i))
}

/// The 4-bit count of lane `i`, read from the four bit-sliced count words.
pub open spec fn lane_count(b0: u64, b1: u64, b2: u64, b3: u64, i: u64) -> nat {
    bit_as_nat(nth_bit(b0, i)) + 2 * bit_as_nat(nth_bit(b1, i)) + 4 * bit_as_nat(nth_bit(b2, i))
        + 8 * bit_as_nat(nth_bit(b3, i))
}

/// A bit read as 0 or 1 agrees with `bit_as_nat` of the bit test.
proof fn lemma_bit_val(w: u64, i: u64)
    requires
        i < 64,
    ensures
        bit_as_nat(nth_bit(w, i)) == ((w >> i) & 1),
{
    assert(((w >> i) & 1) < 2) by (bit_vector);
}

/// Build a rule lookup table.  Index format: `(is_alive << 4) | count`; the
/// meaningful entries are 0-8 (dead cell) and 16-24 (alive cell).
#[inline]
pub fn build_rule_lookup<R: Rule>(rule: &R) -> (t: [bool; 32])
    ensures
        table_matches_rule(t@, *rule),
{
    let mut table = [false;32];
    let mut neighbors: u8 = 0;
    while neighbors <= 8
        invariant
            neighbors <= 9,
            forall|n: int|
                0 <= n < neighbors ==> (#[trigger] table@[n]) == rule.next_spec(false, n as nat),
            forall|n: int|
                0 <= n < neighbors ==> (#[trigger] table@[16 + n]) == rule.next_spec(
                    true,
                    n as nat,
                ),
        decreases 9 - neighbors,
    {
        let ghost t0 = table@;
        let dead_next = rule.evolve(Cell::Dead, neighbors) == Cell::Alive;
        let alive_next = rule.evolve(Cell::Alive, neighbors) == Cell::Alive;
        proof {
            assert(dead_next == rule.next_spec(false, neighbors as nat));
            assert(alive_next == rule.next_spec(true, neighbors as nat));
        }
        table[neighbors as usize] = dead_next;
        proof {
            assert(table@ == t0.update(neighbors as int, dead_next));
        }
        table[16 + neighbors as usize] = alive_next;
        proof {
            assert(table@ == t0.update(neighbors as int, dead_next).update(
                16 + neighbors as int,
                alive_next,
            ));
            assert(table@[neighbors as int] == rule.next_spec(false, neighbors as nat));
            assert(table@[16 + neighbors as int] == rule.next_spec(true, neighbors as nat));
        }
        neighbors = neighbors + 1;
    }
    table
}

/// Full adder: per lane, `sum + 2 * carry` equals the sum of the three
/// input bits.
#[inline]
pub fn full_adder(a: u64, b: u64, c: u64) -> (r: (u64, u64))
    ensures
        r.0 == a ^ b ^ c,
        r.1 == (a & b) | (c & (a ^ b)),
        forall|i: u64|
            i < 64 ==> bit_as_nat(#[trigger] nth_bit(r.0, i)) + 2 * bit_as_nat(nth_bit(r.1, i))
                == bit_as_nat(nth_bit(a, i)) + bit_as_nat(nth_bit(b, i)) + bit_as_nat(
                nth_bit(c, i),
            ),
{
    let sum = a ^ b ^ c;
    let carry = (a & b) | (c & (a ^ b));
    proof {
        assert forall|i: u64| i < 64 implies bit_as_nat(#[trigger] nth_bit(sum, i)) + 2
            * bit_as_nat(nth_bit(carry, i)) == bit_as_nat(nth_bit(a, i)) + bit_as_nat(
            nth_bit(b, i),
        ) + bit_as_nat(nth_bit(c, i)) by {
            lemma_bit_val(sum, i);
            lemma_bit_val(carry, i);
            lemma_bit_val(a, i);
            lemma_bit_val(b, i);
            lemma_bit_val(c, i);
            assert((((a ^ b ^ c) >> i) & 1) + 2 * ((((a & b) | (c & (a ^ b))) >> i) & 1) == ((a
                >> i) & 1) + ((b >> i) & 1) + ((c >> i) & 1)) by (bit_vector)
                requires
                    i < 64,
            ;
        }
    }
    (sum, carry)
}

/// Half adder: per lane, `sum + 2 * carry` equals the sum of the two input
/// bits.
#[inline]
pub fn half_adder(a: u64, b: u64) -> (r: (u64, u64))
    ensures
        r.0 == a ^ b,
        r.1 == a & b,
        forall|i: u64|
            i < 64 ==> bit_as_nat(#[trigger] nth_bit(r.0, i)) + 2 * bit_as_nat(nth_bit(r.1, i))
                == bit_as_nat(nth_bit(a, i)) + bit_as_nat(nth_bit(b, i)),
{
    proof {
        assert forall|i: u64| i < 64 implies bit_as_nat(#[trigger] nth_bit(a ^ b, i)) + 2
            * bit_as_nat(nth_bit(a & b, i)) == bit_as_nat(nth_bit(a, i)) + bit_as_nat(
            nth_bit(b, i),
        ) by {
            lemma_bit_val(a ^ b, i);
            lemma_bit_val(a & b, i);
            lemma_bit_val(a, i);
            lemma_bit_val(b, i);
            assert((((a ^ b) >> i) & 1) + 2 * (((a & b) >> i) & 1) == ((a >> i) & 1) + ((b >> i)
                & 1)) by (bit_vector)
                requires
                    i < 64,
            ;
        }
    }
    (a ^ b, a & b)
}

/// A word shifted down by one with an edge bit injected at lane 63 reads,
/// at each lane, the neighbor one bit position up.
proof fn lemma_shift_next(w: u64, e: bool, i: u64)
    requires
        i < 64,
    ensures
        nth_bit((w >> 1) | (if e {
            1u64 << 63
        } else {
            0u64
        }), i) == lane_next(w, e, i),
{
    if e {
        assert((((w >> 1) | (1u64 << 63)) >> i) & 1 == (if i == 63 {
            1u64
        } else {
            (w >> (i + 1) as u64) & 1
        })) by (bit_vector)
            requires
                i < 64,
        ;
    } else {
        assert((((w >> 1) | 0u64) >> i) & 1 == (if i == 63 {
            0u64
        } else {
            (w >> (i + 1) as u64) & 1
        })) by (bit_vector)
            requires
                i < 64,
        ;
    }
}

/// A word shifted up by one with an edge bit injected at lane 0 reads, at
/// each lane, the neighbor one bit position down.
proof fn lemma_shift_prev(w: u64, e: bool, i: u64)
    requires
        i < 64,
    ensures
        nth_bit((w << 1) | (if e {
            1u64
        } else {
            0u64
        }), i) == lane_prev(w, e, i),
{
    if e {
        assert((((w << 1) | 1u64) >> i) & 1 == (if i == 0 {
            1u64
        } else {
            (w >> (i - 1) as u64) & 1
        })) by (bit_vector)
            requires
                i < 64,
        ;
    } else {
        assert((((w << 1) | 0u64) >> i) & 1 == (if i == 0 {
            0u64
        } else {
            (w >> (i - 1) as u64) & 1
        })) by (bit_vector)
            requires
                i < 64,
        ;
    }
}

/// The carry-save adder network, checked one lane at a time: given the six
/// shifted neighbor words and the adder outputs as defined by the network's
/// equations, each lane's 4-bit count is the sum of its eight neighbor bits.
#[verifier::rlimit(100)]
#[verifier::spinoff_prover]
proof fn lemma_adder_network(
    above: u64,
    current: u64,
    below: u64,
    la: bool,
    ra: bool,
    lc: bool,
    rc: bool,
    lb: bool,
    rb: bool,
    above_left: u64,
    above_right: u64,
    current_left: u64,
    current_right: u64,
    below_left: u64,
    below_right: u64,
    sum1: u64,
    carry1: u64,
    sum2: u64,
    carry2: u64,
    sum3: u64,
    carry3: u64,
    sum_a: u64,
    carry_a: u64,
    sum_b: u64,
    carry_b: u64,
    bit0: u64,
    c1: u64,
    bit1: u64,
    c2: u64,
    bit2: u64,
    c3: u64,
    bit3: u64,
    i: u64,
)
    requires
        i < 64,
        above_left == (above >> 1) | (if la {
            1u64 << 63
        } else {
            0u64
        }),
        above_right == (above << 1) | (if ra {
            1u64
        } else {
            0u64
        }),
        current_left == (current >> 1) | (if lc {
            1u64 << 63
        } else {
            0u64
        }),
        current_right == (current << 1) | (if rc {
            1u64
        } else {
            0u64
        }),
        below_left == (below >> 1) | (if lb {
            1u64 << 63
        } else {
            0u64
        }),
        below_right == (below << 1) | (if rb {
            1u64
        } else {
            0u64
        }),
        sum1 == above_left ^ above ^ above_right,
        carry1 == (above_left & above) | (above_right & (above_left ^ above)),
        sum2 == current_left ^ current_right ^ below_left,
        carry2 == (current_left & current_right) | (below_left & (current_left ^ current_right)),
        sum3 == below ^ below_right ^ 0,
        carry3 == (below & below_right) | (0 & (below ^ below_right)),
        sum_a == sum1 ^ sum2 ^ sum3,
        carry_a == (sum1 & sum2) | (sum3 & (sum1 ^ sum2)),
        sum_b == carry1 ^ carry2 ^ carry3,
        carry_b == (carry1 & carry2) | (carry3 & (carry1 ^ carry2)),
        bit0 == sum_a ^ 0,
        c1 == sum_a & 0,
        bit1 == sum_b ^ carry_a ^ c1,
        c2 == (sum_b & carry_a) | (c1 & (sum_b ^ carry_a)),
        bit2 == carry_b ^ 0 ^ c2,
        c3 == (carry_b & 0) | (c2 & (carry_b ^ 0)),
        bit3 == c3,
    ensures
        lane_count(bit0, bit1, bit2, bit3, i) == lane_neighbors(
            above,
            current,
            below,
            la,
            ra,
            lc,
            rc,
            lb,
            rb,
            i,
        ),
{
    lemma_row_reads(above, la, ra, above_left, above_right, i);
    lemma_row_reads(current, lc, rc, current_left, current_right, i);
    lemma_row_reads(below, lb, rb, below_left, below_right, i);
    lemma_bit_val(bit0, i);
    lemma_bit_val(bit1, i);
    lemma_bit_val(bit2, i);
    lemma_bit_val(bit3, i);
    assert(lane_count(bit0, bit1, bit2, bit3, i) == ((bit0 >> i) & 1) + 2 * ((bit1 >> i) & 1) + 4
        * ((bit2 >> i) & 1) + 8 * ((bit3 >> i) & 1));
    assert(lane_neighbors(above, current, below, la, ra, lc, rc, lb, rb, i) == ((above_left >> i)
        & 1) + ((above >> i) & 1) + ((above_right >> i) & 1) + ((current_left >> i) & 1) + ((
    current_right >> i) & 1) + ((below_left >> i) & 1) + ((below >> i) & 1) + ((below_right >> i)
        & 1));
    lemma_network_sum(
        above,
        below,
        above_left,
        above_right,
        current_left,
        current_right,
        below_left,
        below_right,
        bit0,
        bit1,
        bit2,
        bit3,
        i,
    );
}

/// How one shifted row-word pair reads at lane `i`: the three horizontal
/// positions of the row, as 0/1 values.
proof fn lemma_row_reads(w: u64, le: bool, re: bool, wl: u64, wr: u64, i: u64)
    requires
        i < 64,
        wl == (w >> 1) | (if le {
            1u64 << 63
        } else {
            0u64
        }),
        wr == (w << 1) | (if re {
            1u64
        } else {
            0u64
        }),
    ensures
        bit_as_nat(lane_next(w, le, i)) == ((wl >> i) & 1),
        bit_as_nat(lane_prev(w, re, i)) == ((wr >> i) & 1),
        bit_as_nat(nth_bit(w, i)) == ((w >> i) & 1),
{
    lemma_shift_next(w, le, i);
    lemma_shift_prev(w, re, i);
    lemma_bit_val(wl, i);
    lemma_bit_val(wr, i);
    lemma_bit_val(w, i);
}

/// The adder circuit itself, as one bit-vector fact: per lane, the 4-bit
/// output equals the sum of the eight input bits.
#[verifier::rlimit(100)]
proof fn lemma_network_sum(
    above: u64,
    below: u64,
    above_left: u64,
    above_right: u64,
    current_left: u64,
    current_right: u64,
    below_left: u64,
    below_right: u64,
    bit0: u64,
    bit1: u64,
    bit2: u64,
    bit3: u64,
    i: u64,
)
    requires
        i < 64,
        ({
            let sum1 = above_left ^ above ^ above_right;
            let carry1 = (above_left & above) | (above_right & (above_left ^ above));
            let sum2 = current_left ^ current_right ^ below_left;
            let carry2 = (current_left & current_right) | (below_left & (current_left
                ^ current_right));
            let sum3 = below ^ below_right ^ 0;
            let carry3 = (below & below_right) | (0 & (below ^ below_right));
            let sum_a = sum1 ^ sum2 ^ sum3;
            let carry_a = (sum1 & sum2) | (sum3 & (sum1 ^ sum2));
            let sum_b = carry1 ^ carry2 ^ carry3;
            let carry_b = (carry1 & carry2) | (carry3 & (carry1 ^ carry2));
            let c1 = sum_a & 0;
            let c2 = (sum_b & carry_a) | (c1 & (sum_b ^ carry_a));
            let c3 = (carry_b & 0) | (c2 & (carry_b ^ 0));
            bit0 == sum_a ^ 0 && bit1 == sum_b ^ carry_a ^ c1 && bit2 == carry_b ^ 0 ^ c2 && bit3
                == c3
        }),
    ensures
        ((bit0 >> i) & 1) + 2 * ((bit1 >> i) & 1) + 4 * ((bit2 >> i) & 1) + 8 * ((bit3 >> i) & 1)
            == ((above_left >> i) & 1) + ((above >> i) & 1) + ((above_right >> i) & 1) + ((
        current_left >> i) & 1) + ((current_right >> i) & 1) + ((below_left >> i) & 1) + ((below
            >> i) & 1) + ((below_right >> i) & 1),
{
    assert(((bit0 >> i) & 1) + 2 * ((bit1 >> i) & 1) + 4 * ((bit2 >> i) & 1) + 8 * ((bit3 >> i)
        & 1) == ((above_left >> i) & 1) + ((above >> i) & 1) + ((above_right >> i) & 1) + ((
    current_left >> i) & 1) + ((current_right >> i) & 1) + ((below_left >> i) & 1) + ((below >> i)
        & 1) + ((below_right >> i) & 1)) by (bit_vector)
        requires
            i < 64,
            ({
                let sum1 = above_left ^ above ^ above_right;
                let carry1 = (above_left & above) | (above_right & (above_left ^ above));
                let sum2 = current_left ^ current_right ^ below_left;
                let carry2 = (current_left & current_right) | (below_left & (current_left
                    ^ current_right));
                let sum3 = below ^ below_right ^ 0;
                let carry3 = (below & below_right) | (0 & (below ^ below_right));
                let sum_a = sum1 ^ sum2 ^ sum3;
                let carry_a = (sum1 & sum2) | (sum3 & (sum1 ^ sum2));
                let sum_b = carry1 ^ carry2 ^ carry3;
                let carry_b = (carry1 & carry2) | (carry3 & (carry1 ^ carry2));
                let c1 = sum_a & 0;
                let c2 = (sum_b & carry_a) | (c1 & (sum_b ^ carry_a));
                let c3 = (carry_b & 0) | (c2 & (carry_b ^ 0));
                bit0 == sum_a ^ 0 && bit1 == sum_b ^ carry_a ^ c1 && bit2 == carry_b ^ 0 ^ c2
                    && bit3 == c3
            }),
    ;
}

/// Compute the per-lane neighbor counts for a word of 64 cells, given the
/// three vertically adjacent row words and six injected edge bits.  Returns
/// the four count words: per lane, `bit0 + 2*bit1 + 4*bit2 + 8*bit3` is the
/// number of live neighbors (0-8) of that lane.
#[inline]
#[verifier::rlimit(100)]
fn compute_neighbor_counts(
    above: u64,
    current: u64,
    below: u64,
    left_bit_above: bool,
    right_bit_above: bool,
    left_bit_current: bool,
    right_bit_current: bool,
    left_bit_below: bool,
    right_bit_below: bool,
) -> (r: (u64, u64, u64, u64))
    ensures
        forall|i: u64|
            i < 64 ==> #[trigger] lane_count(r.0, r.1, r.2, r.3, i) == lane_neighbors(
                above,
                current,
                below,
                left_bit_above,
                right_bit_above,
                left_bit_current,
                right_bit_current,
                left_bit_below,
                right_bit_below,
                i,
            ),
{
    let above_left = (above >> 1) | if left_bit_above {
        1u64 << 63
    } else {
        0
    };
    let above_right = (above << 1) | if right_bit_above {
        1
    } else {
        0
    };
    let current_left = (current >> 1) | if left_bit_current {
        1u64 << 63
    } else {
        0
    };
    let current_right = (current << 1) | if right_bit_current {
        1
    } else {
        0
    };
    let below_left = (below >> 1) | if left_bit_below {
        1u64 << 63
    } else {
        0
    };
    let below_right = (below << 1) | if right_bit_below {
        1
    } else {
        0
    };

    let (sum1, carry1) = full_adder(above_left, above, above_right);
    let (sum2, carry2) = full_adder(current_left, current_right, below_left);
    let (sum3, carry3) = full_adder(below, below_right, 0);

    let (sum_a, carry_a) = full_adder(sum1, sum2, sum3);
    let (sum_b, carry_b) = full_adder(carry1, carry2, carry3);

    let (bit0, c1) = half_adder(sum_a, 0);
    let (bit1, c2) = full_adder(sum_b, carry_a, c1);
    let (bit2, c3) = full_adder(carry_b, 0, c2);
    let bit3 = c3;

    proof {
        assert forall|i: u64| i < 64 implies #[trigger] lane_count(bit0, bit1, bit2, bit3, i)
            == lane_neighbors(
            above,
            current,
            below,
            left_bit_above,
            right_bit_above,
            left_bit_current,
            right_bit_current,
            left_bit_below,
            right_bit_below,
            i,
        ) by {
            lemma_adder_network(
                above,
                current,
                below,
                left_bit_above,
                right_bit_above,
                left_bit_current,
                right_bit_current,
                left_bit_below,
                right_bit_below,
                above_left,
                above_right,
                current_left,
                current_right,
                below_left,
                below_right,
                sum1,
                carry1,
                sum2,
                carry2,
                sum3,
                carry3,
                sum_a,
                carry_a,
                sum_b,
                carry_b,
                bit0,
                c1,
                bit1,
                c2,
                bit2,
                c3,
                bit3,
                i,
            );
        }
    }
    (bit0, bit1, bit2, bit3)
}

/// Apply a rule lookup table to the bit-sliced counts: for each of the 64
/// lanes, look up `(is_alive << 4) | count` and set the output bit if the
/// table says alive.
#[inline]
fn apply_rule_lookup(current: u64, b0: u64, b1: u64, b2: u64, b3: u64, lookup: &[bool; 32]) -> (r:
    u64)
    ensures
        forall|i: u64|
            i < 64 ==> #[trigger] nth_bit(r, i) == lookup@[next_index(
                nth_bit(current, i),
                lane_count(b0, b1, b2, b3, i),
            )],
{
    let mut result: u64 = 0;
    proof {
        assert forall|j: u64| j < 64 implies !nth_bit(0u64, j) by {
            crate::model::lemma_bit_consts(j);
        }
    }
    let mut i: u64 = 0;
    while i < 64
        invariant
            i <= 64,
            forall|j: u64|
                j < i ==> #[trigger] nth_bit(result, j) == lookup@[next_index(
                    nth_bit(current, j),
                    lane_count(b0, b1, b2, b3, j),
                )],
            forall|j: u64| i <= j < 64 ==> !(#[trigger] nth_bit(result, j)),
        decreases 64 - i,
    {
        let count = (((b3 >> i) & 1) << 3) | (((b2 >> i) & 1) << 2) | (((b1 >> i) & 1) << 1) | ((b0
            >> i) & 1);
        let is_alive = (current >> i) & 1;
        let idx = (is_alive << 4) | count;
        proof {
            lemma_bit_val(b0, i);
            lemma_bit_val(b1, i);
            lemma_bit_val(b2, i);
            lemma_bit_val(b3, i);
            lemma_bit_val(current, i);
            assert(count == 8 * ((b3 >> i) & 1) + 4 * ((b2 >> i) & 1) + 2 * ((b1 >> i) & 1) + ((b0
                >> i) & 1) && count < 16 && idx == 16 * ((current >> i) & 1) + count && idx
                < 32) by (bit_vector)
                requires
                    i < 64,
                    count == (((b3 >> i) & 1) << 3) | (((b2 >> i) & 1) << 2) | (((b1 >> i) & 1)
                        << 1) | ((b0 >> i) & 1),
                    is_alive == (current >> i) & 1,
                    idx == (is_alive << 4) | count,
            ;
            assert(idx as int == next_index(nth_bit(current, i), lane_count(b0, b1, b2, b3, i)));
        }
        let prev = result;
        if lookup[idx as usize] {
            result = result | (1u64 << i);
        }
        proof {
            assert forall|j: u64| j < 64 implies #[trigger] nth_bit(result, j) == (if j == i {
                lookup@[next_index(nth_bit(current, i), lane_count(b0, b1, b2, b3, i))]
            } else {
                nth_bit(prev, j)
            }) by {
                if lookup@[idx as int] {
                    assert(nth_bit(prev | (1u64 << i), j) == (if j == i {
                        true
                    } else {
                        nth_bit(prev, j)
                    })) by (bit_vector)
                        requires
                            i < 64,
                            j < 64,
                    ;
                } else {
                    assert(!nth_bit(prev, i));
                }
            }
        }
        i = i + 1;
    }
    result
}

/// Compute the next generation of a word of 64 cells under an arbitrary rule
/// given by its lookup table.
#[inline]
pub fn compute_next_chunk_with_rule(
    above: u64,
    current: u64,
    below: u64,
    left_bit_above: bool,
    right_bit_above: bool,
    left_bit_current: bool,
    right_bit_current: bool,
    left_bit_below: bool,
    right_bit_below: bool,
    lookup: &[bool; 32],
) -> (r: u64)
    ensures
        forall|i: u64|
            i < 64 ==> #[trigger] nth_bit(r, i) == table_next(
                lookup@,
                nth_bit(current, i),
                lane_neighbors(
                    above,
                    current,
                    below,
                    left_bit_above,
                    right_bit_above,
                    left_bit_current,
                    right_bit_current,
                    left_bit_below,
                    right_bit_below,
                    i,
                ),
            ),
{
    let (bit0, bit1, bit2, bit3) = compute_neighbor_counts(
        above,
        current,
        below,
        left_bit_above,
        right_bit_above,
        left_bit_current,
        right_bit_current,
        left_bit_below,
        right_bit_below,
    );

    apply_rule_lookup(current, bit0, bit1, bit2, bit3, lookup)
}

/// Compute the next generation of a word of 64 cells under the classic rule,
/// via a closed-form boolean expression on the count words: alive next
/// exactly when the count is 3, or the cell is alive and the count is 2.
#[inline]
pub fn compute_next_chunk_conway(
    above: u64,
    current: u64,
    below: u64,
    left_bit_above: bool,
    right_bit_above: bool,
    left_bit_current: bool,
    right_bit_current: bool,
    left_bit_below: bool,
    right_bit_below: bool,
) -> (r: u64)
    ensures
        forall|i: u64|
            i < 64 ==> #[trigger] nth_bit(r, i) == (crate::rules::ConwayRule).next_spec(
                nth_bit(current, i),
                lane_neighbors(
                    above,
                    current,
                    below,
                    left_bit_above,
                    right_bit_above,
                    left_bit_current,
                    right_bit_current,
                    left_bit_below,
                    right_bit_below,
                    i,
                ),
            ),
{
    let (bit0, bit1, bit2, bit3) = compute_neighbor_counts(
        above,
        current,
        below,
        left_bit_above,
        right_bit_above,
        left_bit_current,
        right_bit_current,
        left_bit_below,
        right_bit_below,
    );

    // count == 2: bit3=0, bit2=0, bit1=1, bit0=0
    // count == 3: bit3=0, bit2=0, bit1=1, bit0=1
    let count_is_2 = !bit3 & !bit2 & bit1 & !bit0;
    let count_is_3 = !bit3 & !bit2 & bit1 & bit0;

    let r = count_is_3 | (current & count_is_2);
    proof {
        assert forall|i: u64| i < 64 implies #[trigger] nth_bit(r, i)
            == (crate::rules::ConwayRule).next_spec(
            nth_bit(current, i),
            lane_neighbors(
                above,
                current,
                below,
                left_bit_above,
                right_bit_above,
                left_bit_current,
                right_bit_current,
                left_bit_below,
                right_bit_below,
                i,
            ),
        ) by {
            let n = lane_neighbors(
                above,
                current,
                below,
                left_bit_above,
                right_bit_above,
                left_bit_current,
                right_bit_current,
                left_bit_below,
                right_bit_below,
                i,
            );
            assert(lane_count(bit0, bit1, bit2, bit3, i) == n);
            lemma_bit_val(bit0, i);
            lemma_bit_val(bit1, i);
            lemma_bit_val(bit2, i);
            lemma_bit_val(bit3, i);
            assert(nth_bit(count_is_3 | (current & count_is_2), i) == ((nth_bit(count_is_3, i))
                || (nth_bit(current, i) && nth_bit(count_is_2, i))) && nth_bit(count_is_2, i) == (((
            bit3 >> i) & 1) == 0 && ((bit2 >> i) & 1) == 0 && ((bit1 >> i) & 1) == 1 && ((bit0
                >> i) & 1) == 0) && nth_bit(count_is_3, i) == (((bit3 >> i) & 1) == 0 && ((bit2
                >> i) & 1) == 0 && ((bit1 >> i) & 1) == 1 && ((bit0 >> i) & 1) == 1)) by (bit_vector)
                requires
                    i < 64,
                    count_is_2 == !bit3 & !bit2 & bit1 & !bit0,
                    count_is_3 == !bit3 & !bit2 & bit1 & bit0,
            ;
            assert(nth_bit(count_is_2, i) == (n == 2));
            assert(nth_bit(count_is_3, i) == (n == 3));
        }
    }
    r
}

/// The row above `y`, one step up with toroidal wrap.
pub open spec fn row_above(g: Seq<Seq<bool>>, y: int) -> int {
    if y == 0 {
        grid_height(g) - 1
    } else {
        y - 1
    }
}

/// The row below `y`, one step down with toroidal wrap.
pub open spec fn row_below(g: Seq<Seq<bool>>, y: int) -> int {
    if y + 1 == grid_height(g) {
        0
    } else {
        y + 1
    }
}

/// The cell column just right of word column `c`'s last lane, with toroidal
/// wrap.  Meaningful when word `c` is full, i.e. `(c + 1) * 64 <= width`.
pub open spec fn wrap_next_col(g: Seq<Seq<bool>>, c: int) -> int {
    if (c + 1) * 64 == grid_width(g) {
        0
    } else {
        (c + 1) * 64
    }
}

/// The cell column just left of word column `c`'s lane 0, with toroidal
/// wrap.
pub open spec fn wrap_prev_col(g: Seq<Seq<bool>>, c: int) -> int {
    if c == 0 {
        grid_width(g) - 1
    } else {
        c * 64 - 1
    }
}

/// What lane `j` of the word handed to the kernel for word column `c` of a
/// row holds: the cell at that column; or, one position past the row's last
/// cell, the row's first cell (the in-word wrap injection for widths that
/// are not a multiple of 64); dead beyond that.
pub open spec fn kernel_lane(g: Seq<Seq<bool>>, c: int, ry: int, j: u64) -> bool {
    if c * 64 + j < grid_width(g) {
        g[ry][c * 64 + j]
    } else if c * 64 + j == grid_width(g) {
        g[ry][0]
    } else {
        false
    }
}

/// For a row word whose lanes read `kernel_lane` and edge bits that read the
/// wrapped columns, every lane's three horizontal reads are exactly the
/// toroidal neighbors.
proof fn lemma_lane_row(g: Seq<Seq<bool>>, word: u64, le: bool, re: bool, c: int, ry: int, i: u64)
    requires
        grid_width(g) >= 1,
        0 <= c,
        c * 64 + i < grid_width(g),
        i < 64,
        forall|j: u64| j < 64 ==> #[trigger] nth_bit(word, j) == kernel_lane(g, c, ry, j),
        (c + 1) * 64 <= grid_width(g) ==> le == g[ry][wrap_next_col(g, c)],
        re == g[ry][wrap_prev_col(g, c)],
    ensures
        nth_bit(word, i) == g[ry][c * 64 + i],
        lane_next(word, le, i) == g[ry][(c * 64 + i + 1) % grid_width(g)],
        lane_prev(word, re, i) == g[ry][(c * 64 + i + grid_width(g) - 1) % grid_width(g)],
{
    let w = grid_width(g);
    let x = c * 64 + i;
    lemma_wrap_inc(x, w);
    lemma_wrap_dec(x, w);
    assert(nth_bit(word, i) == kernel_lane(g, c, ry, i));
    // The neighbor one lane up.
    if i < 63 {
        assert(nth_bit(word, (i + 1) as u64) == kernel_lane(g, c, ry, (i + 1) as u64));
        if c * 64 + i + 1 < w {
            assert((x + 1) % w == x + 1);
        } else {
            assert(c * 64 + i + 1 == w);
            assert((x + 1) % w == 0);
        }
    } else {
        assert(x + 1 == (c + 1) * 64);
        assert((c + 1) * 64 <= w);
        if (c + 1) * 64 == w {
            assert((x + 1) % w == 0);
        } else {
            assert((x + 1) % w == x + 1);
        }
    }
    // The neighbor one lane down.
    if i > 0 {
        assert(nth_bit(word, (i - 1) as u64) == kernel_lane(g, c, ry, (i - 1) as u64));
        assert((x + w - 1) % w == x - 1);
    } else {
        assert(x == c * 64);
        if c == 0 {
            assert((x + w - 1) % w == w - 1);
        } else {
            assert((x + w - 1) % w == x - 1);
        }
    }
}

/// The eight lane neighbors assembled from three kernel row words and six
/// wrapped edge bits are exactly the eight toroidal neighbors of the cell.
#[verifier::rlimit(100)]
proof fn lemma_lane_torus(
    g: Seq<Seq<bool>>,
    aw: u64,
    cw0: u64,
    bw: u64,
    la: bool,
    ra: bool,
    lc: bool,
    rc: bool,
    lb: bool,
    rb: bool,
    c: int,
    y: int,
    i: u64,
)
    requires
        grid_width(g) >= 1,
        grid_height(g) >= 1,
        0 <= y < grid_height(g),
        0 <= c,
        c * 64 + i < grid_width(g),
        i < 64,
        forall|j: u64|
            j < 64 ==> #[trigger] nth_bit(aw, j) == kernel_lane(g, c, row_above(g, y), j),
        forall|j: u64| j < 64 ==> #[trigger] nth_bit(cw0, j) == kernel_lane(g, c, y, j),
        forall|j: u64|
            j < 64 ==> #[trigger] nth_bit(bw, j) == kernel_lane(g, c, row_below(g, y), j),
        (c + 1) * 64 <= grid_width(g) ==> la == g[row_above(g, y)][wrap_next_col(g, c)] && lc
            == g[y][wrap_next_col(g, c)] && lb == g[row_below(g, y)][wrap_next_col(g, c)],
        ra == g[row_above(g, y)][wrap_prev_col(g, c)],
        rc == g[y][wrap_prev_col(g, c)],
        rb == g[row_below(g, y)][wrap_prev_col(g, c)],
    ensures
        lane_neighbors(aw, cw0, bw, la, ra, lc, rc, lb, rb, i) == torus_neighbors(g, c * 64 + i, y),
        nth_bit(cw0, i) == g[y][c * 64 + i],
{
    let h = grid_height(g);
    lemma_wrap_dec(y, h);
    lemma_wrap_inc(y, h);
    assert(row_above(g, y) == (y + h - 1) % h);
    assert(row_below(g, y) == (y + 1) % h);
    lemma_lane_row(g, aw, la, ra, c, row_above(g, y), i);
    lemma_lane_row(g, cw0, lc, rc, c, y, i);
    lemma_lane_row(g, bw, lb, rb, c, row_below(g, y), i);
}

/// The word of cells handed to the kernel for word column `chunk_x` of row
/// `ry`: the raw word, with the row's first cell injected one position past
/// the row's last cell when the width is not a multiple of 64.
fn kernel_row_word(grid: &BitGrid, chunk_x: usize, ry: usize) -> (w: u64)
    requires
        grid.wf(),
        chunk_x < grid.chunk_width,
        ry < grid.height,
    ensures
        forall|j: u64|
            j < 64 ==> #[trigger] nth_bit(w, j) == kernel_lane(grid@, chunk_x as int, ry as int, j),
{
    proof {
        grid.lemma_view_shape();
        crate::bit_grid::lemma_chunks_per_row_bounds(grid.width as nat);
    }
    let raw = grid.get_chunk(chunk_x, ry);
    let rem = grid.width % 64;
    let first = grid.get(0, ry);
    let w = if rem != 0 && chunk_x == grid.width / 64 && first {
        raw | (1u64 << (rem as u64))
    } else {
        raw
    };
    proof {
        let c = chunk_x as int;
        let wd = grid.width as int;
        let g = grid@;
        assert forall|j: u64| j < 64 implies #[trigger] nth_bit(w, j) == kernel_lane(
            g,
            c,
            ry as int,
            j,
        ) by {
            if rem != 0 && chunk_x == grid.width / 64 && first {
                lemma_bit_or(raw, 1u64 << (rem as u64), j);
                crate::model::lemma_bit_one(rem as u64, j);
            }
            if c * 64 + j < wd {
                vstd::arithmetic::div_mod::lemma_fundamental_div_mod_converse(
                    c * 64 + j,
                    64,
                    c,
                    j as int,
                );
                assert(nth_bit(raw, j) == grid.spec_cell(c * 64 + j, ry as int));
                assert(g[ry as int][c * 64 + j] == grid.spec_cell(c * 64 + j, ry as int));
            } else if c * 64 + j == wd {
                vstd::arithmetic::div_mod::lemma_fundamental_div_mod_converse(
                    wd,
                    64,
                    c,
                    j as int,
                );
                assert(grid.width % 64 == j && grid.width / 64 == c);
                assert(!nth_bit(raw, j));
                assert(g[ry as int][0] == grid.spec_cell(0, ry as int));
            } else {
                assert(!nth_bit(raw, j));
            }
        }
    }
    w
}

/// Fetch the six boundary bits for word column `chunk_x` of row `y` with
/// toroidal wrapping: the cell just right of the word's last lane and the
/// cell just left of its lane 0, for the rows above, at, and below `y`.
fn get_edge_bits(grid: &BitGrid, chunk_x: usize, y: usize, chunk_width: usize, height: usize) -> (r:
    (bool, bool, bool, bool, bool, bool))
    requires
        grid.wf(),
        chunk_width == grid.chunk_width,
        height == grid.height,
        chunk_x < chunk_width,
        y < height,
    ensures
        (chunk_x + 1) * 64 <= grid.width ==> r.0 == grid@[row_above(grid@, y as int)][wrap_next_col(
            grid@,
            chunk_x as int,
        )],
        r.1 == grid@[row_above(grid@, y as int)][wrap_prev_col(grid@, chunk_x as int)],
        (chunk_x + 1) * 64 <= grid.width ==> r.2 == grid@[y as int][wrap_next_col(
            grid@,
            chunk_x as int,
        )],
        r.3 == grid@[y as int][wrap_prev_col(grid@, chunk_x as int)],
        (chunk_x + 1) * 64 <= grid.width ==> r.4 == grid@[row_below(grid@, y as int)][wrap_next_col(
            grid@,
            chunk_x as int,
        )],
        r.5 == grid@[row_below(grid@, y as int)][wrap_prev_col(grid@, chunk_x as int)],
{
    proof {
        grid.lemma_view_shape();
        crate::bit_grid::lemma_chunks_per_row_bounds(grid.width as nat);
        assert(64 * (chunk_x as int + 1) <= 64 * (grid.chunk_width as int));
        assert(64 * (chunk_x as int) <= 64 * (grid.chunk_width as int - 1));
    }
    let ya = if y > 0 {
        y - 1
    } else {
        height - 1
    };
    let yb = if y + 1 < height {
        y + 1
    } else {
        0
    };
    // The cell column just right of this word's lanes, wrapping to column 0.
    let next_x = if (chunk_x + 1) * 64 >= grid.width {
        0
    } else {
        (chunk_x + 1) * 64
    };
    // The cell column just left of this word's lane 0, wrapping to the last
    // column.
    let prev_x = if chunk_x == 0 {
        grid.width - 1
    } else {
        chunk_x * 64 - 1
    };
    let left_above = grid.get(next_x, ya);
    let left_current = grid.get(next_x, y);
    let left_below = grid.get(next_x, yb);
    let right_above = grid.get(prev_x, ya);
    let right_current = grid.get(prev_x, y);
    let right_below = grid.get(prev_x, yb);
    (left_above, right_above, left_current, right_current, left_below, right_below)
}

/// Compute the next-generation word for word column `chunk_x` of row `y`,
/// with all padding lanes masked to dead.
#[verifier::rlimit(100)]
#[verifier::spinoff_prover]
fn next_word(grid: &BitGrid, lookup: &[bool; 32], chunk_x: usize, y: usize) -> (r: u64)
    requires
        grid.wf(),
        chunk_x < grid.chunk_width,
        y < grid.height,
    ensures
        forall|i: u64|
            i < 64 ==> #[trigger] nth_bit(r, i) == (if chunk_x * 64 + i < grid.width {
                table_next(
                    lookup@,
                    grid@[y as int][chunk_x * 64 + i],
                    torus_neighbors(grid@, chunk_x * 64 + i, y as int),
                )
            } else {
                false
            }),
{
    proof {
        grid.lemma_view_shape();
        crate::bit_grid::lemma_chunks_per_row_bounds(grid.width as nat);
        assert(64 * (chunk_x as int) <= 64 * (grid.chunk_width as int - 1));
    }
    let ya = if y > 0 {
        y - 1
    } else {
        grid.height - 1
    };
    let yb = if y + 1 < grid.height {
        y + 1
    } else {
        0
    };
    let above = kernel_row_word(grid, chunk_x, ya);
    let current = kernel_row_word(grid, chunk_x, y);
    let below = kernel_row_word(grid, chunk_x, yb);
    let (la, ra, lc, rc, lb, rb) = get_edge_bits(grid, chunk_x, y, grid.chunk_width, grid.height);
    let word = compute_next_chunk_with_rule(above, current, below, la, ra, lc, rc, lb, rb, lookup);
    let masked = if grid.width - chunk_x * 64 >= 64 {
        word
    } else {
        let tail = (grid.width - chunk_x * 64) as u64;
        proof {
            assert(1u64 << tail >= 1) by (bit_vector)
                requires
                    tail < 64,
            ;
        }
        word & ((1u64 << tail) - 1)
    };
    proof {
        let g = grid@;
        let c = chunk_x as int;
        let wd = grid.width as int;
        assert(ya as int == row_above(g, y as int));
        assert(yb as int == row_below(g, y as int));
        assert forall|i: u64| i < 64 implies #[trigger] nth_bit(masked, i) == (if c * 64 + i
            < wd {
            table_next(lookup@, g[y as int][c * 64 + i], torus_neighbors(g, c * 64 + i, y as int))
        } else {
            false
        }) by {
            if wd - c * 64 < 64 {
                lemma_bit_and(word, (((1u64 << ((wd - c * 64) as u64)) - 1) as u64), i);
                lemma_bit_low_mask((wd - c * 64) as u64, i);
            }
            if c * 64 + i < wd {
                lemma_lane_torus(g, above, current, below, la, ra, lc, rc, lb, rb, c, y as int, i);
            }
        }
    }
    masked
}

/// One evolved row of the grid, packed: word `c` holds the next generation
/// of cells `c * 64 .. c * 64 + 64` of row `y`, padding lanes dead.
pub open spec fn spec_row_evolved(grid: BitGrid, t: Seq<bool>, y: int, row: Seq<u64>) -> bool {
    &&& row.len() == grid.chunk_width
    &&& forall|c: int, i: u64|
        0 <= c < grid.chunk_width && i < 64 ==> (#[trigger] nth_bit(row[c], i)) == (if c * 64 + i
            < grid.width {
            table_next(t, grid@[y][c * 64 + i], torus_neighbors(grid@, c * 64 + i, y))
        } else {
            false
        })
}

/// Evolve one row of the grid into a fresh vector of packed words.
pub fn evolve_row(grid: &BitGrid, lookup: &[bool; 32], y: usize) -> (row: Vec<u64>)
    requires
        grid.wf(),
        y < grid.height,
    ensures
        spec_row_evolved(*grid, lookup@, y as int, row@),
{
    let mut row: Vec<u64> = Vec::new();
    let mut c: usize = 0;
    while c < grid.chunk_width
        invariant
            grid.wf(),
            y < grid.height,
            c <= grid.chunk_width,
            row@.len() == c,
            forall|c2: int, i: u64|
                0 <= c2 < c && i < 64 ==> (#[trigger] nth_bit(row@[c2], i)) == (if c2 * 64 + i
                    < grid.width {
                    table_next(
                        lookup@,
                        grid@[y as int][c2 * 64 + i],
                        torus_neighbors(grid@, c2 * 64 + i, y as int),
                    )
                } else {
                    false
                }),
        decreases grid.chunk_width - c,
    {
        let w = next_word(grid, lookup, c, y);
        row.push(w);
        c = c + 1;
    }
    row
}

/// Adopt a full set of evolved rows as a brand-new grid and prove it is the
/// toroidal step of the input.
pub(crate) fn assemble_rows<R: Rule>(
    grid: &BitGrid,
    t: Ghost<Seq<bool>>,
    rows: Vec<Vec<u64>>,
    rule: &R,
) -> (r: BitGrid)
    requires
        grid.wf(),
        table_matches_rule(t@, *rule),
        rows@.len() == grid.height,
        forall|y: int|
            0 <= y < grid.height ==> spec_row_evolved(*grid, t@, y, (#[trigger] rows@[y])@),
    ensures
        r.wf(),
        r.width == grid.width,
        r.height == grid.height,
        r@ == torus_step(grid@, *rule),
{
    proof {
        grid.lemma_view_shape();
    }
    let cw = grid.chunk_width;
    let mut chunks: Vec<u64> = Vec::new();
    let mut y: usize = 0;
    while y < grid.height
        invariant
            grid.wf(),
            cw == grid.chunk_width,
            y <= grid.height,
            rows@.len() == grid.height,
            forall|y2: int|
                0 <= y2 < grid.height ==> spec_row_evolved(*grid, t@, y2, (#[trigger] rows@[y2])@),
            chunks@.len() == y * cw,
            forall|y2: int, c: int|
                0 <= y2 < y && 0 <= c < cw ==> #[trigger] chunks@[y2 * (cw as int) + c]
                    == rows@[y2]@[c],
        decreases grid.height - y,
    {
        let row = &rows[y];
        let mut c: usize = 0;
        while c < cw
            invariant
                grid.wf(),
                cw == grid.chunk_width,
                y < grid.height,
                rows@.len() == grid.height,
                forall|y2: int|
                    0 <= y2 < grid.height ==> spec_row_evolved(
                        *grid,
                        t@,
                        y2,
                        (#[trigger] rows@[y2])@,
                    ),
                row@ == rows@[y as int]@,
                c <= cw,
                chunks@.len() == y * cw + c,
                forall|y2: int, c2: int|
                    0 <= y2 < y && 0 <= c2 < cw ==> #[trigger] chunks@[y2 * (cw as int) + c2]
                        == rows@[y2]@[c2],
                forall|c2: int|
                    0 <= c2 < c ==> #[trigger] chunks@[y * (cw as int) + c2] == rows@[y as int]@[c2],
            decreases cw - c,
        {
            proof {
                assert(row@.len() == cw);
            }
            chunks.push(row[c]);
            c = c + 1;
            proof {
                assert forall|y2: int, c2: int|
                    0 <= y2 < y && 0 <= c2 < cw implies #[trigger] chunks@[y2 * (cw as int) + c2]
                    == rows@[y2]@[c2] by {
                    crate::bit_grid::lemma_row_major(c2, y2, c2, y2, cw as int, y as int);
                }
            }
        }
        proof {
            assert((y as int + 1) * (cw as int) == y as int * (cw as int) + cw as int)
                by (nonlinear_arith);
        }
        y = y + 1;
        proof {
            assert forall|y2: int, c2: int| 0 <= y2 < y && 0 <= c2 < cw implies #[trigger] chunks@[
            y2 * (cw as int) + c2] == rows@[y2]@[c2] by {
                if y2 < y - 1 {
                    crate::bit_grid::lemma_row_major(c2, y2, c2, y2, cw as int, y as int - 1);
                }
            }
        }
    }
    proof {
        assert(chunks@.len() == grid.height * cw);
        assert(grid.height * cw == cw * grid.height) by (nonlinear_arith);
        assert forall|c: int, y2: int, i: u64|
            0 <= y2 < grid.height && 0 <= c < cw && i < 64 && c * 64 + i >= grid.width implies !(
        #[trigger] nth_bit(chunks@[y2 * (cw as int) + c], i)) by {
            assert(chunks@[y2 * (cw as int) + c] == rows@[y2]@[c]);
        }
    }
    let r = BitGrid::from_chunks(grid.width, grid.height, chunks);
    proof {
        r.lemma_view_shape();
        let g = grid@;
        assert forall|y2: int, x2: int|
            0 <= y2 < grid.height && 0 <= x2 < grid.width implies #[trigger] r@[y2][x2]
            == torus_step(g, *rule)[y2][x2] by {
            crate::bit_grid::lemma_cell_decomp(x2);
            lemma_torus_neighbors_le_8(g, x2, y2);
            assert(r.spec_chunk(x2 / 64, y2) == rows@[y2]@[x2 / 64]);
            assert(nth_bit(rows@[y2]@[x2 / 64], (x2 % 64) as u64) == table_next(
                t@,
                g[y2][x2],
                torus_neighbors(g, x2, y2),
            ));
        }
        assert(r@ =~~= torus_step(g, *rule));
    }
    r
}

/// Evolve a grid one generation with the word-parallel kernel, serially row
/// by row, under the given rule.  The result is a brand-new grid.
pub fn evolve_simd<R: Rule>(grid: &BitGrid, rule: &R) -> (r: BitGrid)
    requires
        grid.wf(),
    ensures
        r.wf(),
        r.width == grid.width,
        r.height == grid.height,
        r@ == torus_step(grid@, *rule),
{
    let lookup = build_rule_lookup(rule);
    let mut rows: Vec<Vec<u64>> = Vec::new();
    let mut y: usize = 0;
    while y < grid.height
        invariant
            grid.wf(),
            table_matches_rule(lookup@, *rule),
            y <= grid.height,
            rows@.len() == y,
            forall|y2: int|
                0 <= y2 < y ==> spec_row_evolved(*grid, lookup@, y2, (#[trigger] rows@[y2])@),
        decreases grid.height - y,
    {
        let row = evolve_row(grid, &lookup, y);
        rows.push(row);
        y = y + 1;
    }
    assemble_rows(grid, Ghost(lookup@), rows, rule)
}

/// Evolve a grid one generation with the word-parallel kernel, rows
/// computed in parallel, under the given rule.  The result is a brand-new
/// grid whose storage is adopted from the parallel output without copying
/// cells one by one.
pub fn evolve_simd_parallel<R: Rule>(grid: &BitGrid, rule: &R) -> (r: BitGrid)
    requires
        grid.wf(),
    ensures
        r.wf(),
        r.width == grid.width,
        r.height == grid.height,
        r@ == torus_step(grid@, *rule),
{
    let lookup = build_rule_lookup(rule);
    let rows = par_evolve_rows(grid, &lookup);
    assemble_rows(grid, Ghost(lookup@), rows, rule)
}

/// Relies on rayon's indexed parallel iterator over `0..height` with `map`
/// and `collect`: the closure runs once per row index and the results are
/// collected in index order, so entry `y` is the evolved row `y`.
#[verifier::external_body]
fn par_evolve_rows(grid: &BitGrid, lookup: &[bool; 32]) -> (rows: Vec<Vec<u64>>)
    requires
        grid.wf(),
    ensures
        rows@.len() == grid.height,
        forall|y: int|
            0 <= y < grid.height ==> spec_row_evolved(*grid, lookup@, y, (#[trigger] rows@[y])@),
{
    (0..grid.height).into_par_iter().map(|y| evolve_row(grid, lookup, y)).collect()
}

/// The next generation of a word of 64 cells under the classic rule.
#[inline]
pub fn compute_next_chunk(
    above: u64,
    current: u64,
    below: u64,
    left_bit_above: bool,
    right_bit_above: bool,
    left_bit_current: bool,
    right_bit_current: bool,
    left_bit_below: bool,
    right_bit_below: bool,
) -> (r: u64)
    ensures
        forall|i: u64|
            i < 64 ==> #[trigger] nth_bit(r, i) == (crate::rules::ConwayRule).next_spec(
                nth_bit(current, i),
                lane_neighbors(
                    above,
                    current,
                    below,
                    left_bit_above,
                    right_bit_above,
                    left_bit_current,
                    right_bit_current,
                    left_bit_below,
                    right_bit_below,
                    i,
                ),
            ),
{
    compute_next_chunk_conway(
        above,
        current,
        below,
        left_bit_above,
        right_bit_above,
        left_bit_current,
        right_bit_current,
        left_bit_below,
        right_bit_below,
    )
}

} // verus!
