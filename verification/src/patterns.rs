//! A library of classic patterns that can be placed on a grid.

use vstd::prelude::*;

use crate::bit_grid::BitGrid;

verus! {

/// The larger of two coordinates.
pub open spec fn coord_max(a: nat, b: nat) -> nat {
    if a >= b {
        a
    } else {
        b
    }
}

/// The largest x coordinate among a pattern's cells (0 when empty).
pub open spec fn cells_max_x(cells: Seq<(usize, usize)>) -> nat
    decreases cells.len(),
{
    if cells.len() == 0 {
        0
    } else {
        coord_max(cells_max_x(cells.drop_last()), cells.last().0 as nat)
    }
}

/// The largest y coordinate among a pattern's cells (0 when empty).
pub open spec fn cells_max_y(cells: Seq<(usize, usize)>) -> nat
    decreases cells.len(),
{
    if cells.len() == 0 {
        0
    } else {
        coord_max(cells_max_y(cells.drop_last()), cells.last().1 as nat)
    }
}

/// A pattern: a named set of relative coordinates of live cells.
pub struct Pattern {
    /// Display name.
    pub name: &'static str,
    /// Short description.
    pub description: &'static str,
    /// Bounding-box width: one past the largest x coordinate.
    pub width: usize,
    /// Bounding-box height: one past the largest y coordinate.
    pub height: usize,
    /// Relative coordinates of the live cells.
    pub cells: Vec<(usize, usize)>,
}

impl Pattern {
    /// Create a new pattern from its live cell coordinates.
    pub fn new(name: &'static str, description: &'static str, cells: Vec<(usize, usize)>) -> (r:
        Pattern)
        requires
            forall|k: int|
                0 <= k < cells@.len() ==> (#[trigger] cells@[k]).0 < usize::MAX && cells@[k].1
                    < usize::MAX,
        ensures
            r.name == name,
            r.description == description,
            r.cells == cells,
            r.width == cells_max_x(cells@) + 1,
            r.height == cells_max_y(cells@) + 1,
    {
        let mut max_x: usize = 0;
        let mut max_y: usize = 0;
        let mut k: usize = 0;
        while k < cells.len()
            invariant
                k <= cells.len(),
                max_x < usize::MAX,
                max_y < usize::MAX,
                max_x == cells_max_x(cells@.take(k as int)),
                max_y == cells_max_y(cells@.take(k as int)),
                forall|k2: int|
                    0 <= k2 < cells@.len() ==> (#[trigger] cells@[k2]).0 < usize::MAX
                        && cells@[k2].1 < usize::MAX,
            decreases cells.len() - k,
        {
            let (cx, cy) = cells[k];
            if cx > max_x {
                max_x = cx;
            }
            if cy > max_y {
                max_y = cy;
            }
            proof {
                assert(cells@.take(k + 1).drop_last() =~= cells@.take(k as int));
                assert(cells@.take(k + 1).last() == cells@[k as int]);
            }
            k = k + 1;
        }
        proof {
            assert(cells@.take(cells@.len() as int) =~= cells@);
        }
        Pattern { name, description, width: max_x + 1, height: max_y + 1, cells }
    }

    /// Place the pattern on the grid at the given position: every cell of
    /// the pattern is written live, everything else is untouched.
    pub fn place_on(&self, grid: &mut BitGrid, x: usize, y: usize)
        requires
            old(grid).wf(),
            forall|k: int|
                0 <= k < self.cells@.len() ==> x + (#[trigger] self.cells@[k]).0 <= usize::MAX && y
                    + self.cells@[k].1 <= usize::MAX,
        ensures
            final(grid).wf(),
            final(grid).width == old(grid).width,
            final(grid).height == old(grid).height,
            forall|gx: int, gy: int|
                0 <= gx < old(grid).width && 0 <= gy < old(grid).height
                    ==> #[trigger] final(grid)@[gy][gx] == (old(grid)@[gy][gx] || (exists|k: int|
                    0 <= k < self.cells@.len() && x + (#[trigger] self.cells@[k]).0 == gx && y
                        + self.cells@[k].1 == gy)),
    {
        proof {
            grid.lemma_view_shape();
        }
        let mut k: usize = 0;
        while k < self.cells.len()
            invariant
                grid.wf(),
                grid.width == old(grid).width,
                grid.height == old(grid).height,
                k <= self.cells.len(),
                forall|k2: int|
                    0 <= k2 < self.cells@.len() ==> x + (#[trigger] self.cells@[k2]).0
                        <= usize::MAX && y + self.cells@[k2].1 <= usize::MAX,
                forall|gx: int, gy: int|
                    0 <= gx < old(grid).width && 0 <= gy < old(grid).height ==> #[trigger] grid@[
                    gy][gx] == (old(grid)@[gy][gx] || (exists|k2: int|
                        0 <= k2 < k && x + (#[trigger] self.cells@[k2]).0 == gx && y
                            + self.cells@[k2].1 == gy)),
            decreases self.cells.len() - k,
        {
            let (dx, dy) = self.cells[k];
            let ghost pre = grid@;
            grid.set(x + dx, y + dy, true);
            proof {
                assert forall|gx: int, gy: int|
                    0 <= gx < old(grid).width && 0 <= gy < old(grid).height implies #[trigger] grid@[
                gy][gx] == (old(grid)@[gy][gx] || (exists|k2: int|
                    0 <= k2 < k + 1 && x + (#[trigger] self.cells@[k2]).0 == gx && y
                        + self.cells@[k2].1 == gy)) by {
                    if gx == x + dx && gy == y + dy {
                        assert(x + (self.cells@[k as int]).0 == gx && y + self.cells@[k as int].1
                            == gy);
                    }
                }
            }
            k = k + 1;
        }
    }
}

/// Glider: the simplest spaceship; moves diagonally.
pub fn glider() -> (r: Pattern)
    ensures
        r.name@ == "Glider"@,
        r.cells@ == seq![(1usize, 0usize), (2, 1), (0, 2), (1, 2), (2, 2)],
{
    let mut v: Vec<(usize, usize)> = Vec::new();
    v.push((1, 0));
    v.push((2, 1));
    v.push((0, 2));
    v.push((1, 2));
    v.push((2, 2));
    proof {
        assert(v@ =~= seq![(1usize, 0usize), (2, 1), (0, 2), (1, 2), (2, 2)]);
    }
    Pattern::new("Glider", "Moves diagonally (period 4)", v)
}

/// Blinker: period 2 oscillator.
pub fn blinker() -> (r: Pattern)
    ensures
        r.name@ == "Blinker"@,
        r.cells@ == seq![(0usize, 1usize), (1, 1), (2, 1)],
{
    let mut v: Vec<(usize, usize)> = Vec::new();
    v.push((0, 1));
    v.push((1, 1));
    v.push((2, 1));
    proof {
        assert(v@ =~= seq![(0usize, 1usize), (1, 1), (2, 1)]);
    }
    Pattern::new("Blinker", "Oscillator (period 2)", v)
}

/// Toad: period 2 oscillator.
pub fn toad() -> (r: Pattern)
    ensures
        r.name@ == "Toad"@,
        r.cells@ == seq![(1usize, 0usize), (2, 0), (3, 0), (0, 1), (1, 1), (2, 1)],
{
    let mut v: Vec<(usize, usize)> = Vec::new();
    v.push((1, 0));
    v.push((2, 0));
    v.push((3, 0));
    v.push((0, 1));
    v.push((1, 1));
    v.push((2, 1));
    proof {
        assert(v@ =~= seq![(1usize, 0usize), (2, 0), (3, 0), (0, 1), (1, 1), (2, 1)]);
    }
    Pattern::new("Toad", "Oscillator (period 2)", v)
}

/// Beacon: period 2 oscillator.
pub fn beacon() -> (r: Pattern)
    ensures
        r.name@ == "Beacon"@,
        r.cells@ == seq![(0usize, 0usize), (1, 0), (0, 1), (3, 2), (2, 3), (3, 3)],
{
    let mut v: Vec<(usize, usize)> = Vec::new();
    v.push((0, 0));
    v.push((1, 0));
    v.push((0, 1));
    v.push((3, 2));
    v.push((2, 3));
    v.push((3, 3));
    proof {
        assert(v@ =~= seq![(0usize, 0usize), (1, 0), (0, 1), (3, 2), (2, 3), (3, 3)]);
    }
    Pattern::new("Beacon", "Oscillator (period 2)", v)
}

/// Pulsar: period 3 oscillator.
pub fn pulsar() -> (r: Pattern)
    ensures
        r.name@ == "Pulsar"@,
        r.cells@.len() == 48,
{
    let mut v: Vec<(usize, usize)> = Vec::new();
    v.push((2, 0));
    v.push((3, 0));
    v.push((4, 0));
    v.push((8, 0));
    v.push((9, 0));
    v.push((10, 0));
    v.push((0, 2));
    v.push((5, 2));
    v.push((7, 2));
    v.push((12, 2));
    v.push((0, 3));
    v.push((5, 3));
    v.push((7, 3));
    v.push((12, 3));
    v.push((0, 4));
    v.push((5, 4));
    v.push((7, 4));
    v.push((12, 4));
    v.push((2, 5));
    v.push((3, 5));
    v.push((4, 5));
    v.push((8, 5));
    v.push((9, 5));
    v.push((10, 5));
    v.push((2, 7));
    v.push((3, 7));
    v.push((4, 7));
    v.push((8, 7));
    v.push((9, 7));
    v.push((10, 7));
    v.push((0, 8));
    v.push((5, 8));
    v.push((7, 8));
    v.push((12, 8));
    v.push((0, 9));
    v.push((5, 9));
    v.push((7, 9));
    v.push((12, 9));
    v.push((0, 10));
    v.push((5, 10));
    v.push((7, 10));
    v.push((12, 10));
    v.push((2, 12));
    v.push((3, 12));
    v.push((4, 12));
    v.push((8, 12));
    v.push((9, 12));
    v.push((10, 12));
    Pattern::new("Pulsar", "Oscillator (period 3)", v)
}

/// Lightweight spaceship.
pub fn lwss() -> (r: Pattern)
    ensures
        r.name@ == "LWSS"@,
        r.cells@.len() == 9,
{
    let mut v: Vec<(usize, usize)> = Vec::new();
    v.push((1, 0));
    v.push((4, 0));
    v.push((0, 1));
    v.push((0, 2));
    v.push((4, 2));
    v.push((0, 3));
    v.push((1, 3));
    v.push((2, 3));
    v.push((3, 3));
    Pattern::new("LWSS", "Lightweight Spaceship (period 4)", v)
}

/// Gosper glider gun: produces gliders indefinitely.
pub fn glider_gun() -> (r: Pattern)
    ensures
        r.name@ == "Gosper Glider Gun"@,
        r.cells@.len() == 36,
{
    let mut v: Vec<(usize, usize)> = Vec::new();
    v.push((0, 4));
    v.push((0, 5));
    v.push((1, 4));
    v.push((1, 5));
    v.push((10, 4));
    v.push((10, 5));
    v.push((10, 6));
    v.push((11, 3));
    v.push((11, 7));
    v.push((12, 2));
    v.push((12, 8));
    v.push((13, 2));
    v.push((13, 8));
    v.push((14, 5));
    v.push((15, 3));
    v.push((15, 7));
    v.push((16, 4));
    v.push((16, 5));
    v.push((16, 6));
    v.push((17, 5));
    v.push((20, 2));
    v.push((20, 3));
    v.push((20, 4));
    v.push((21, 2));
    v.push((21, 3));
    v.push((21, 4));
    v.push((22, 1));
    v.push((22, 5));
    v.push((24, 0));
    v.push((24, 1));
    v.push((24, 5));
    v.push((24, 6));
    v.push((34, 2));
    v.push((34, 3));
    v.push((35, 2));
    v.push((35, 3));
    Pattern::new("Gosper Glider Gun", "Produces gliders (period 30)", v)
}

/// R-pentomino: classic methuselah.
pub fn r_pentomino() -> (r: Pattern)
    ensures
        r.name@ == "R-pentomino"@,
        r.cells@ == seq![(1usize, 0usize), (2, 0), (0, 1), (1, 1), (1, 2)],
{
    let mut v: Vec<(usize, usize)> = Vec::new();
    v.push((1, 0));
    v.push((2, 0));
    v.push((0, 1));
    v.push((1, 1));
    v.push((1, 2));
    proof {
        assert(v@ =~= seq![(1usize, 0usize), (2, 0), (0, 1), (1, 1), (1, 2)]);
    }
    Pattern::new("R-pentomino", "Methuselah - stabilizes at gen 1103", v)
}

/// Acorn: small methuselah.
pub fn acorn() -> (r: Pattern)
    ensures
        r.name@ == "Acorn"@,
        r.cells@ == seq![(1usize, 0usize), (3, 1), (0, 2), (1, 2), (4, 2), (5, 2), (6, 2)],
{
    let mut v: Vec<(usize, usize)> = Vec::new();
    v.push((1, 0));
    v.push((3, 1));
    v.push((0, 2));
    v.push((1, 2));
    v.push((4, 2));
    v.push((5, 2));
    v.push((6, 2));
    proof {
        assert(v@ =~= seq![(1usize, 0usize), (3, 1), (0, 2), (1, 2), (4, 2), (5, 2), (6, 2)]);
    }
    Pattern::new("Acorn", "Methuselah - stabilizes at gen 5206", v)
}

/// Block: the simplest still life.
pub fn block() -> (r: Pattern)
    ensures
        r.name@ == "Block"@,
        r.cells@ == seq![(0usize, 0usize), (1, 0), (0, 1), (1, 1)],
{
    let mut v: Vec<(usize, usize)> = Vec::new();
    v.push((0, 0));
    v.push((1, 0));
    v.push((0, 1));
    v.push((1, 1));
    proof {
        assert(v@ =~= seq![(0usize, 0usize), (1, 0), (0, 1), (1, 1)]);
    }
    Pattern::new("Block", "Still life", v)
}

/// All available patterns, in their fixed display order.
pub fn all_patterns() -> (r: Vec<Pattern>)
    ensures
        r@.len() == 10,
        r@[0].name@ == "Glider"@,
        r@[1].name@ == "Blinker"@,
        r@[2].name@ == "Toad"@,
        r@[3].name@ == "Beacon"@,
        r@[4].name@ == "Pulsar"@,
        r@[5].name@ == "LWSS"@,
        r@[6].name@ == "Gosper Glider Gun"@,
        r@[7].name@ == "R-pentomino"@,
        r@[8].name@ == "Acorn"@,
        r@[9].name@ == "Block"@,
{
    let mut v: Vec<Pattern> = Vec::new();
    v.push(glider());
    v.push(blinker());
    v.push(toad());
    v.push(beacon());
    v.push(pulsar());
    v.push(lwss());
    v.push(glider_gun());
    v.push(r_pentomino());
    v.push(acorn());
    v.push(block());
    v
}

} // verus!
