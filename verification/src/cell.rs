//! The fundamental unit of the automaton: a cell is either dead or alive.

use vstd::prelude::*;

verus! {

/// A single cell state.
#[derive(Clone, Copy, PartialEq, Eq, Structural, Debug)]
pub enum Cell {
    Dead,
    Alive,
}

impl Cell {
    /// Whether this cell counts as alive.
    pub open spec fn spec_is_alive(self) -> bool {
        self == Cell::Alive
    }

    /// The classic rule as a predicate: a live cell survives with 2 or 3
    /// neighbors, a dead cell is born with exactly 3.
    pub open spec fn spec_evolve(self, neighbors: nat) -> Cell {
        if (self.spec_is_alive() && (neighbors == 2 || neighbors == 3))
            || (!self.spec_is_alive() && neighbors == 3) {
            Cell::Alive
        } else {
            Cell::Dead
        }
    }

    /// Check if the cell is currently alive.
    pub fn is_alive(self) -> (r: bool)
        ensures
            r == self.spec_is_alive(),
    {
        matches!(self, Cell::Alive)
    }

    /// Toggle the cell state.
    pub fn toggle(self) -> (r: Cell)
        ensures
            r.spec_is_alive() == !self.spec_is_alive(),
    {
        match self {
            Cell::Alive => Cell::Dead,
            Cell::Dead => Cell::Alive,
        }
    }

    /// Compute the next state under the classic rule:
    /// 1. a live cell with 2-3 neighbors survives,
    /// 2. a dead cell with exactly 3 neighbors becomes alive,
    /// 3. every other case results in death.
    pub fn evolve(self, neighbors: u8) -> (r: Cell)
        ensures
            r == self.spec_evolve(neighbors as nat),
    {
        match (self, neighbors) {
            (Cell::Alive, 2 | 3) => Cell::Alive,
            (Cell::Dead, 3) => Cell::Alive,
            _ => Cell::Dead,
        }
    }
}

} // verus!
