//! Cellular automaton rules: a closed family of birth/survival variants.
//!
//! A rule maps (current state, neighbor count 0-8) to the next state.  Each
//! concrete rule carries a spec-level predicate `next_spec` that its
//! executable `evolve` is proved to implement.

use vstd::prelude::*;

use crate::cell::Cell;

verus! {

/// A cellular automaton rule.  `next_spec` is the mathematical content: the
/// next state as a function of the current state and the neighbor count.
pub trait Rule: Sized {
    /// The next state: `true` means alive.
    spec fn next_spec(&self, alive: bool, neighbors: nat) -> bool;

    /// The rule's display name, as a sequence of characters.
    spec fn spec_name(&self) -> Seq<char>;

    /// The rule's short description, as a sequence of characters.
    spec fn spec_description(&self) -> Seq<char>;

    /// Apply the rule to compute the next cell state.
    fn evolve(&self, current: Cell, neighbors: u8) -> (next: Cell)
        ensures
            next == (if self.next_spec(current.spec_is_alive(), neighbors as nat) {
                Cell::Alive
            } else {
                Cell::Dead
            }),
    ;

    /// Name of the rule.
    fn name(&self) -> (r: &'static str)
        ensures
            r@ == self.spec_name(),
    ;

    /// Short description.
    fn description(&self) -> (r: &'static str)
        ensures
            r@ == self.spec_description(),
    ;
}

/// Conway's Game of Life (B3/S23), the classic rule.
#[derive(Clone, Copy)]
pub struct ConwayRule;

impl Rule for ConwayRule {
    open spec fn next_spec(&self, alive: bool, neighbors: nat) -> bool {
        (alive && (neighbors == 2 || neighbors == 3)) || (!alive && neighbors == 3)
    }

    open spec fn spec_name(&self) -> Seq<char> {
        "Conway"@
    }

    open spec fn spec_description(&self) -> Seq<char> {
        "B3/S23 - Classic"@
    }

    fn evolve(&self, current: Cell, neighbors: u8) -> Cell {
        match (current, neighbors) {
            (Cell::Alive, 2 | 3) => Cell::Alive,
            (Cell::Dead, 3) => Cell::Alive,
            _ => Cell::Dead,
        }
    }

    fn name(&self) -> &'static str {
        "Conway"
    }

    fn description(&self) -> &'static str {
        "B3/S23 - Classic"
    }
}

/// HighLife (B36/S23): like the classic rule but cells with 6 neighbors are
/// also born, which creates replicators.
#[derive(Clone, Copy)]
pub struct HighLifeRule;

impl Rule for HighLifeRule {
    open spec fn next_spec(&self, alive: bool, neighbors: nat) -> bool {
        (alive && (neighbors == 2 || neighbors == 3))
            || (!alive && (neighbors == 3 || neighbors == 6))
    }

    open spec fn spec_name(&self) -> Seq<char> {
        "HighLife"@
    }

    open spec fn spec_description(&self) -> Seq<char> {
        "B36/S23 - Replicators"@
    }

    fn evolve(&self, current: Cell, neighbors: u8) -> Cell {
        match (current, neighbors) {
            (Cell::Alive, 2 | 3) => Cell::Alive,
            (Cell::Dead, 3 | 6) => Cell::Alive,
            _ => Cell::Dead,
        }
    }

    fn name(&self) -> &'static str {
        "HighLife"
    }

    fn description(&self) -> &'static str {
        "B36/S23 - Replicators"
    }
}

/// Seeds (B2/S): every live cell dies each generation; birth happens only
/// with exactly 2 neighbors.  Creates expanding patterns.
#[derive(Clone, Copy)]
pub struct SeedsRule;

impl Rule for SeedsRule {
    open spec fn next_spec(&self, alive: bool, neighbors: nat) -> bool {
        !alive && neighbors == 2
    }

    open spec fn spec_name(&self) -> Seq<char> {
        "Seeds"@
    }

    open spec fn spec_description(&self) -> Seq<char> {
        "B2/S - Exploding"@
    }

    fn evolve(&self, current: Cell, neighbors: u8) -> Cell {
        match (current, neighbors) {
            (Cell::Dead, 2) => Cell::Alive,
            _ => Cell::Dead,
        }
    }

    fn name(&self) -> &'static str {
        "Seeds"
    }

    fn description(&self) -> &'static str {
        "B2/S - Exploding"
    }
}

/// Day & Night (B3678/S34678): a symmetric rule, the inverse of a pattern
/// follows the same rules.
#[derive(Clone, Copy)]
pub struct DayAndNightRule;

impl Rule for DayAndNightRule {
    open spec fn next_spec(&self, alive: bool, neighbors: nat) -> bool {
        (alive && (neighbors == 3 || neighbors == 4 || neighbors == 6 || neighbors == 7
            || neighbors == 8))
            || (!alive && (neighbors == 3 || neighbors == 6 || neighbors == 7 || neighbors == 8))
    }

    open spec fn spec_name(&self) -> Seq<char> {
        "Day&Night"@
    }

    open spec fn spec_description(&self) -> Seq<char> {
        "B3678/S34678"@
    }

    fn evolve(&self, current: Cell, neighbors: u8) -> Cell {
        match (current, neighbors) {
            (Cell::Alive, 3 | 4 | 6 | 7 | 8) => Cell::Alive,
            (Cell::Dead, 3 | 6 | 7 | 8) => Cell::Alive,
            _ => Cell::Dead,
        }
    }

    fn name(&self) -> &'static str {
        "Day&Night"
    }

    fn description(&self) -> &'static str {
        "B3678/S34678"
    }
}

/// Any of the supported rules, as one closed sum type.  This is what callers
/// hold when the choice of rule is made at run time.
#[derive(Clone, Copy)]
pub enum AnyRule {
    Conway(ConwayRule),
    HighLife(HighLifeRule),
    Seeds(SeedsRule),
    DayAndNight(DayAndNightRule),
}

impl Rule for AnyRule {
    open spec fn next_spec(&self, alive: bool, neighbors: nat) -> bool {
        match self {
            AnyRule::Conway(r) => r.next_spec(alive, neighbors),
            AnyRule::HighLife(r) => r.next_spec(alive, neighbors),
            AnyRule::Seeds(r) => r.next_spec(alive, neighbors),
            AnyRule::DayAndNight(r) => r.next_spec(alive, neighbors),
        }
    }

    open spec fn spec_name(&self) -> Seq<char> {
        match self {
            AnyRule::Conway(r) => r.spec_name(),
            AnyRule::HighLife(r) => r.spec_name(),
            AnyRule::Seeds(r) => r.spec_name(),
            AnyRule::DayAndNight(r) => r.spec_name(),
        }
    }

    open spec fn spec_description(&self) -> Seq<char> {
        match self {
            AnyRule::Conway(r) => r.spec_description(),
            AnyRule::HighLife(r) => r.spec_description(),
            AnyRule::Seeds(r) => r.spec_description(),
            AnyRule::DayAndNight(r) => r.spec_description(),
        }
    }

    fn evolve(&self, current: Cell, neighbors: u8) -> Cell {
        match self {
            AnyRule::Conway(r) => r.evolve(current, neighbors),
            AnyRule::HighLife(r) => r.evolve(current, neighbors),
            AnyRule::Seeds(r) => r.evolve(current, neighbors),
            AnyRule::DayAndNight(r) => r.evolve(current, neighbors),
        }
    }

    fn name(&self) -> &'static str {
        match self {
            AnyRule::Conway(r) => r.name(),
            AnyRule::HighLife(r) => r.name(),
            AnyRule::Seeds(r) => r.name(),
            AnyRule::DayAndNight(r) => r.name(),
        }
    }

    fn description(&self) -> &'static str {
        match self {
            AnyRule::Conway(r) => r.description(),
            AnyRule::HighLife(r) => r.description(),
            AnyRule::Seeds(r) => r.description(),
            AnyRule::DayAndNight(r) => r.description(),
        }
    }
}

/// All available rules, each with its display name.
pub fn all_rules() -> (r: Vec<(&'static str, AnyRule)>)
    ensures
        r@.len() == 4,
        r@[0].1 == AnyRule::Conway(ConwayRule) && r@[0].0@ == "Conway"@,
        r@[1].1 == AnyRule::HighLife(HighLifeRule) && r@[1].0@ == "HighLife"@,
        r@[2].1 == AnyRule::Seeds(SeedsRule) && r@[2].0@ == "Seeds"@,
        r@[3].1 == AnyRule::DayAndNight(DayAndNightRule) && r@[3].0@ == "Day&Night"@,
{
    let mut v: Vec<(&'static str, AnyRule)> = Vec::new();
    v.push(("Conway", AnyRule::Conway(ConwayRule)));
    v.push(("HighLife", AnyRule::HighLife(HighLifeRule)));
    v.push(("Seeds", AnyRule::Seeds(SeedsRule)));
    v.push(("Day&Night", AnyRule::DayAndNight(DayAndNightRule)));
    v
}

/// The default rule: Conway's Game of Life.
pub fn default_rule() -> (r: AnyRule)
    ensures
        r == AnyRule::Conway(ConwayRule),
{
    AnyRule::Conway(ConwayRule)
}

} // verus!
