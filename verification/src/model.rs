//! The mathematical model of the automaton.
//!
//! A grid is modelled as a sequence of rows, each a sequence of booleans
//! (`true` = alive).  Two step functions are defined over this model: the
//! toroidal step, which wraps neighbor lookups around the grid edges, and the
//! dead-boundary step used inside local tiles, where out-of-range neighbors
//! count as dead.  Each comes in a rule-based and a lookup-table-based form,
//! proved equal whenever the table matches the rule.

use vstd::prelude::*;

use crate::rules::Rule;

verus! {

/// The value of bit `i` of word `w` (meaningful for `i < 64`).
pub open spec fn nth_bit(w: u64, i: u64) -> bool {
    (w >> i) & 1 == 1
}

/// A boolean as a count contribution.
pub open spec fn bit_as_nat(b: bool) -> nat {
    if b {
        1
    } else {
        0
    }
}

/// Number of rows of a grid view.
pub open spec fn grid_height(g: Seq<Seq<bool>>) -> int {
    g.len() as int
}

/// Number of columns of a grid view (0 for an empty grid).
pub open spec fn grid_width(g: Seq<Seq<bool>>) -> int {
    if g.len() == 0 {
        0
    } else {
        g[0].len() as int
    }
}

/// Every row has the same length.
pub open spec fn is_rect(g: Seq<Seq<bool>>) -> bool {
    forall|y: int| 0 <= y < g.len() ==> (#[trigger] g[y]).len() == grid_width(g)
}

/// Words needed to store one row of `w` cells, 64 cells per word.
pub open spec fn chunks_per_row(w: nat) -> nat {
    (w + 63) / 64
}

/// The 8-neighbor count of cell (x, y) with toroidal wrapping.
pub open spec fn torus_neighbors(g: Seq<Seq<bool>>, x: int, y: int) -> nat {
    let w = grid_width(g);
    let h = grid_height(g);
    let xl = (x + w - 1) % w;
    let xr = (x + 1) % w;
    let yu = (y + h - 1) % h;
    let yd = (y + 1) % h;
    bit_as_nat(g[yu][xl]) + bit_as_nat(g[yu][x]) + bit_as_nat(g[yu][xr]) + bit_as_nat(g[y][xl])
        + bit_as_nat(g[y][xr]) + bit_as_nat(g[yd][xl]) + bit_as_nat(g[yd][x])
        + bit_as_nat(g[yd][xr])
}

/// One toroidal generation under rule `r`.
pub open spec fn torus_step<R: Rule>(g: Seq<Seq<bool>>, r: R) -> Seq<Seq<bool>> {
    Seq::new(
        g.len(),
        |y: int|
            Seq::new(
                grid_width(g) as nat,
                |x: int| r.next_spec(g[y][x], torus_neighbors(g, x, y)),
            ),
    )
}

/// `n` toroidal generations under rule `r`.
pub open spec fn torus_step_n<R: Rule>(g: Seq<Seq<bool>>, r: R, n: nat) -> Seq<Seq<bool>>
    decreases n,
{
    if n == 0 {
        g
    } else {
        torus_step(torus_step_n(g, r, (n - 1) as nat), r)
    }
}

/// Index into a 32-entry rule lookup table: `(alive << 4) | neighbors`.
pub open spec fn next_index(alive: bool, neighbors: nat) -> int {
    (if alive {
        16int
    } else {
        0int
    }) + neighbors
}

/// The next state according to a lookup table.
pub open spec fn table_next(t: Seq<bool>, alive: bool, neighbors: nat) -> bool {
    t[next_index(alive, neighbors)]
}

/// The table agrees with rule `r` on every meaningful entry.
pub open spec fn table_matches_rule<R: Rule>(t: Seq<bool>, r: R) -> bool {
    t.len() == 32 && forall|alive: bool, n: nat|
        n <= 8 ==> #[trigger] table_next(t, alive, n) == r.next_spec(alive, n)
}

/// One toroidal generation, next states taken from a lookup table.
pub open spec fn torus_step_t(g: Seq<Seq<bool>>, t: Seq<bool>) -> Seq<Seq<bool>> {
    Seq::new(
        g.len(),
        |y: int|
            Seq::new(
                grid_width(g) as nat,
                |x: int| table_next(t, g[y][x], torus_neighbors(g, x, y)),
            ),
    )
}

/// `n` toroidal generations, next states taken from a lookup table.
pub open spec fn torus_step_t_n(g: Seq<Seq<bool>>, t: Seq<bool>, n: nat) -> Seq<Seq<bool>>
    decreases n,
{
    if n == 0 {
        g
    } else {
        torus_step_t(torus_step_t_n(g, t, (n - 1) as nat), t)
    }
}

/// The cell at (x, y), or dead when the coordinates are out of range.
pub open spec fn cell_or_dead(g: Seq<Seq<bool>>, x: int, y: int) -> bool {
    0 <= y < g.len() && 0 <= x < g[y].len() && g[y][x]
}

/// The 8-neighbor count of cell (x, y) where out-of-range neighbors are dead.
pub open spec fn bounded_neighbors(g: Seq<Seq<bool>>, x: int, y: int) -> nat {
    bit_as_nat(cell_or_dead(g, x - 1, y - 1)) + bit_as_nat(cell_or_dead(g, x, y - 1))
        + bit_as_nat(cell_or_dead(g, x + 1, y - 1)) + bit_as_nat(cell_or_dead(g, x - 1, y))
        + bit_as_nat(cell_or_dead(g, x + 1, y)) + bit_as_nat(cell_or_dead(g, x - 1, y + 1))
        + bit_as_nat(cell_or_dead(g, x, y + 1)) + bit_as_nat(cell_or_dead(g, x + 1, y + 1))
}

/// One dead-boundary generation, next states taken from a lookup table.
pub open spec fn bounded_step_t(g: Seq<Seq<bool>>, t: Seq<bool>) -> Seq<Seq<bool>> {
    Seq::new(
        g.len(),
        |y: int|
            Seq::new(
                grid_width(g) as nat,
                |x: int| table_next(t, g[y][x], bounded_neighbors(g, x, y)),
            ),
    )
}

/// `n` dead-boundary generations, next states taken from a lookup table.
pub open spec fn bounded_step_t_n(g: Seq<Seq<bool>>, t: Seq<bool>, n: nat) -> Seq<Seq<bool>>
    decreases n,
{
    if n == 0 {
        g
    } else {
        bounded_step_t(bounded_step_t_n(g, t, (n - 1) as nat), t)
    }
}

/// A word with the low `k` bits set.
pub open spec fn low_mask(k: u64) -> u64 {
    ((1u64 << k) - 1) as u64
}

/// Bitwise OR, bit by bit.
pub proof fn lemma_bit_or(a: u64, b: u64, j: u64)
    by (bit_vector)
    requires
        j < 64,
    ensures
        nth_bit(a | b, j) == (nth_bit(a, j) || nth_bit(b, j)),
{
}

/// Bitwise AND, bit by bit.
pub proof fn lemma_bit_and(a: u64, b: u64, j: u64)
    by (bit_vector)
    requires
        j < 64,
    ensures
        nth_bit(a & b, j) == (nth_bit(a, j) && nth_bit(b, j)),
{
}

/// Left shift moves every bit up by the shift amount.
pub proof fn lemma_bit_shl(w: u64, s: u64, j: u64)
    by (bit_vector)
    requires
        s < 64,
        j < 64,
    ensures
        nth_bit(w << s, j) == (j >= s && nth_bit(w, (j - s) as u64)),
{
}

/// Right shift moves every bit down by the shift amount.
pub proof fn lemma_bit_shr(w: u64, s: u64, j: u64)
    by (bit_vector)
    requires
        s < 64,
        j < 64,
    ensures
        nth_bit(w >> s, j) == (j + s < 64 && nth_bit(w, (j + s) as u64)),
{
}

/// The low-mask word has exactly the low `k` bits set.
pub proof fn lemma_bit_low_mask(k: u64, j: u64)
    by (bit_vector)
    requires
        k < 64,
        j < 64,
    ensures
        nth_bit(low_mask(k), j) == (j < k),
{
}

/// Two words with the same bits are the same word.
pub proof fn lemma_u64_eq_from_bits(a: u64, b: u64)
    requires
        forall|j: u64| j < 64 ==> #[trigger] nth_bit(a, j) == nth_bit(b, j),
    ensures
        a == b,
{
    assert(a == b) by (bit_vector)
        requires
            nth_bit(a, 0) == nth_bit(b, 0),
            nth_bit(a, 1) == nth_bit(b, 1),
            nth_bit(a, 2) == nth_bit(b, 2),
            nth_bit(a, 3) == nth_bit(b, 3),
            nth_bit(a, 4) == nth_bit(b, 4),
            nth_bit(a, 5) == nth_bit(b, 5),
            nth_bit(a, 6) == nth_bit(b, 6),
            nth_bit(a, 7) == nth_bit(b, 7),
            nth_bit(a, 8) == nth_bit(b, 8),
            nth_bit(a, 9) == nth_bit(b, 9),
            nth_bit(a, 10) == nth_bit(b, 10),
            nth_bit(a, 11) == nth_bit(b, 11),
            nth_bit(a, 12) == nth_bit(b, 12),
            nth_bit(a, 13) == nth_bit(b, 13),
            nth_bit(a, 14) == nth_bit(b, 14),
            nth_bit(a, 15) == nth_bit(b, 15),
            nth_bit(a, 16) == nth_bit(b, 16),
            nth_bit(a, 17) == nth_bit(b, 17),
            nth_bit(a, 18) == nth_bit(b, 18),
            nth_bit(a, 19) == nth_bit(b, 19),
            nth_bit(a, 20) == nth_bit(b, 20),
            nth_bit(a, 21) == nth_bit(b, 21),
            nth_bit(a, 22) == nth_bit(b, 22),
            nth_bit(a, 23) == nth_bit(b, 23),
            nth_bit(a, 24) == nth_bit(b, 24),
            nth_bit(a, 25) == nth_bit(b, 25),
            nth_bit(a, 26) == nth_bit(b, 26),
            nth_bit(a, 27) == nth_bit(b, 27),
            nth_bit(a, 28) == nth_bit(b, 28),
            nth_bit(a, 29) == nth_bit(b, 29),
            nth_bit(a, 30) == nth_bit(b, 30),
            nth_bit(a, 31) == nth_bit(b, 31),
            nth_bit(a, 32) == nth_bit(b, 32),
            nth_bit(a, 33) == nth_bit(b, 33),
            nth_bit(a, 34) == nth_bit(b, 34),
            nth_bit(a, 35) == nth_bit(b, 35),
            nth_bit(a, 36) == nth_bit(b, 36),
            nth_bit(a, 37) == nth_bit(b, 37),
            nth_bit(a, 38) == nth_bit(b, 38),
            nth_bit(a, 39) == nth_bit(b, 39),
            nth_bit(a, 40) == nth_bit(b, 40),
            nth_bit(a, 41) == nth_bit(b, 41),
            nth_bit(a, 42) == nth_bit(b, 42),
            nth_bit(a, 43) == nth_bit(b, 43),
            nth_bit(a, 44) == nth_bit(b, 44),
            nth_bit(a, 45) == nth_bit(b, 45),
            nth_bit(a, 46) == nth_bit(b, 46),
            nth_bit(a, 47) == nth_bit(b, 47),
            nth_bit(a, 48) == nth_bit(b, 48),
            nth_bit(a, 49) == nth_bit(b, 49),
            nth_bit(a, 50) == nth_bit(b, 50),
            nth_bit(a, 51) == nth_bit(b, 51),
            nth_bit(a, 52) == nth_bit(b, 52),
            nth_bit(a, 53) == nth_bit(b, 53),
            nth_bit(a, 54) == nth_bit(b, 54),
            nth_bit(a, 55) == nth_bit(b, 55),
            nth_bit(a, 56) == nth_bit(b, 56),
            nth_bit(a, 57) == nth_bit(b, 57),
            nth_bit(a, 58) == nth_bit(b, 58),
            nth_bit(a, 59) == nth_bit(b, 59),
            nth_bit(a, 60) == nth_bit(b, 60),
            nth_bit(a, 61) == nth_bit(b, 61),
            nth_bit(a, 62) == nth_bit(b, 62),
            nth_bit(a, 63) == nth_bit(b, 63),
    ;
}

/// A one-bit word shifted up has exactly one bit set.
pub proof fn lemma_bit_one(s: u64, j: u64)
    by (bit_vector)
    requires
        s < 64,
        j < 64,
    ensures
        nth_bit(1u64 << s, j) == (j == s),
{
}

/// The all-zero word has no bit set; the all-one word has every bit set.
pub proof fn lemma_bit_consts(j: u64)
    by (bit_vector)
    requires
        j < 64,
    ensures
        !nth_bit(0u64, j),
        nth_bit(u64::MAX, j),
{
}

/// Wrapping decrement: `(x + n - 1) % n` steps one position down, wrapping
/// from 0 to `n - 1`.
pub proof fn lemma_wrap_dec(x: int, n: int)
    requires
        0 <= x < n,
    ensures
        (x + n - 1) % n == (if x == 0 {
            n - 1
        } else {
            x - 1
        }),
{
    if x == 0 {
        vstd::arithmetic::div_mod::lemma_fundamental_div_mod_converse(x + n - 1, n, 0, n - 1);
    } else {
        vstd::arithmetic::div_mod::lemma_fundamental_div_mod_converse(x + n - 1, n, 1, x - 1);
    }
}

/// Wrapping increment: `(x + 1) % n` steps one position up, wrapping from
/// `n - 1` to 0.
pub proof fn lemma_wrap_inc(x: int, n: int)
    requires
        0 <= x < n,
    ensures
        (x + 1) % n == (if x + 1 == n {
            0
        } else {
            x + 1
        }),
{
    if x + 1 == n {
        vstd::arithmetic::div_mod::lemma_fundamental_div_mod_converse(x + 1, n, 1, 0);
    } else {
        vstd::arithmetic::div_mod::lemma_fundamental_div_mod_converse(x + 1, n, 0, x + 1);
    }
}

/// A toroidal neighbor count never exceeds 8.
pub proof fn lemma_torus_neighbors_le_8(g: Seq<Seq<bool>>, x: int, y: int)
    ensures
        torus_neighbors(g, x, y) <= 8,
{
}

/// A dead-boundary neighbor count never exceeds 8.
pub proof fn lemma_bounded_neighbors_le_8(g: Seq<Seq<bool>>, x: int, y: int)
    ensures
        bounded_neighbors(g, x, y) <= 8,
{
}

/// A toroidal step keeps the grid's dimensions and rectangular shape.
pub proof fn lemma_torus_step_t_shape(g: Seq<Seq<bool>>, t: Seq<bool>)
    ensures
        grid_height(torus_step_t(g, t)) == grid_height(g),
        grid_width(torus_step_t(g, t)) == grid_width(g),
        is_rect(torus_step_t(g, t)),
{
}

/// `n` toroidal steps keep the grid's dimensions and rectangular shape.
pub proof fn lemma_torus_step_t_n_shape(g: Seq<Seq<bool>>, t: Seq<bool>, n: nat)
    requires
        is_rect(g),
    ensures
        grid_height(torus_step_t_n(g, t, n)) == grid_height(g),
        grid_width(torus_step_t_n(g, t, n)) == grid_width(g),
        is_rect(torus_step_t_n(g, t, n)),
    decreases n,
{
    if n > 0 {
        lemma_torus_step_t_n_shape(g, t, (n - 1) as nat);
        lemma_torus_step_t_shape(torus_step_t_n(g, t, (n - 1) as nat), t);
    }
}

/// A dead-boundary step keeps the grid's dimensions and rectangular shape.
pub proof fn lemma_bounded_step_t_shape(g: Seq<Seq<bool>>, t: Seq<bool>)
    ensures
        grid_height(bounded_step_t(g, t)) == grid_height(g),
        grid_width(bounded_step_t(g, t)) == grid_width(g),
        is_rect(bounded_step_t(g, t)),
{
}

/// `n` dead-boundary steps keep the grid's dimensions and rectangular shape.
pub proof fn lemma_bounded_step_t_n_shape(g: Seq<Seq<bool>>, t: Seq<bool>, n: nat)
    requires
        is_rect(g),
    ensures
        grid_height(bounded_step_t_n(g, t, n)) == grid_height(g),
        grid_width(bounded_step_t_n(g, t, n)) == grid_width(g),
        is_rect(bounded_step_t_n(g, t, n)),
    decreases n,
{
    if n > 0 {
        lemma_bounded_step_t_n_shape(g, t, (n - 1) as nat);
        lemma_bounded_step_t_shape(bounded_step_t_n(g, t, (n - 1) as nat), t);
    }
}

/// When the lookup table matches the rule, the table-based toroidal step is
/// the rule-based toroidal step.
pub proof fn lemma_torus_step_t_matches<R: Rule>(g: Seq<Seq<bool>>, t: Seq<bool>, r: R)
    requires
        table_matches_rule(t, r),
    ensures
        torus_step_t(g, t) == torus_step(g, r),
{
    assert forall|y: int, x: int|
        0 <= y < g.len() && 0 <= x < grid_width(g) implies #[trigger] torus_step_t(g, t)[y][x]
        == torus_step(g, r)[y][x] by {
        lemma_torus_neighbors_le_8(g, x, y);
    }
    assert(torus_step_t(g, t) =~~= torus_step(g, r));
}

/// When the lookup table matches the rule, `n` table-based toroidal steps are
/// `n` rule-based toroidal steps.
pub proof fn lemma_torus_step_t_n_matches<R: Rule>(g: Seq<Seq<bool>>, t: Seq<bool>, r: R, n: nat)
    requires
        table_matches_rule(t, r),
    ensures
        torus_step_t_n(g, t, n) == torus_step_n(g, r, n),
    decreases n,
{
    if n > 0 {
        lemma_torus_step_t_n_matches(g, t, r, (n - 1) as nat);
        lemma_torus_step_t_matches(torus_step_n(g, r, (n - 1) as nat), t, r);
    }
}

/// A grid with no rows or no columns has no cells; stepping it any number of
/// times leaves it unchanged.
pub proof fn lemma_torus_step_n_degenerate<R: Rule>(g: Seq<Seq<bool>>, r: R, n: nat)
    requires
        is_rect(g),
        grid_height(g) == 0 || grid_width(g) == 0,
    ensures
        torus_step_n(g, r, n) == g,
    decreases n,
{
    if n > 0 {
        lemma_torus_step_n_degenerate(g, r, (n - 1) as nat);
        assert(torus_step(g, r) =~~= g);
    }
}

/// Advancing `n + 1` generations is advancing `n` and then one more.  Folding
/// a multi-generation evolution is therefore the same as repeated
/// single-generation evolution.
pub proof fn lemma_torus_step_n_unfold<R: Rule>(g: Seq<Seq<bool>>, r: R, n: nat)
    requires
        n > 0,
    ensures
        torus_step_n(g, r, n) == torus_step(torus_step_n(g, r, (n - 1) as nat), r),
{
}

} // verus!
