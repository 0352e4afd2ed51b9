//! Tests for the cell type and the rule family.

use game_of_life::{Cell, ConwayRule, HighLifeRule, Rule, SeedsRule};

#[test]
fn test_underpopulation() {
    assert_eq!(Cell::Alive.evolve(0), Cell::Dead);
    assert_eq!(Cell::Alive.evolve(1), Cell::Dead);
}

#[test]
fn test_survival() {
    assert_eq!(Cell::Alive.evolve(2), Cell::Alive);
    assert_eq!(Cell::Alive.evolve(3), Cell::Alive);
}

#[test]
fn test_overpopulation() {
    assert_eq!(Cell::Alive.evolve(4), Cell::Dead);
    assert_eq!(Cell::Alive.evolve(8), Cell::Dead);
}

#[test]
fn test_reproduction() {
    assert_eq!(Cell::Dead.evolve(3), Cell::Alive);
}

#[test]
fn test_cell_toggle() {
    assert!(Cell::Dead.toggle().is_alive());
    assert!(!Cell::Alive.toggle().is_alive());
}

#[test]
fn test_conway_rules() {
    let rule = ConwayRule;

    // Underpopulation
    assert_eq!(rule.evolve(Cell::Alive, 0), Cell::Dead);
    assert_eq!(rule.evolve(Cell::Alive, 1), Cell::Dead);

    // Survival
    assert_eq!(rule.evolve(Cell::Alive, 2), Cell::Alive);
    assert_eq!(rule.evolve(Cell::Alive, 3), Cell::Alive);

    // Overpopulation
    assert_eq!(rule.evolve(Cell::Alive, 4), Cell::Dead);

    // Reproduction
    assert_eq!(rule.evolve(Cell::Dead, 3), Cell::Alive);
}

#[test]
fn test_highlife_reproduction() {
    let rule = HighLifeRule;

    // HighLife specific: birth with 6 neighbors
    assert_eq!(rule.evolve(Cell::Dead, 6), Cell::Alive);
    assert_eq!(rule.evolve(Cell::Dead, 3), Cell::Alive);
}

#[test]
fn test_seeds_always_dies() {
    let rule = SeedsRule;

    // All living cells die
    assert_eq!(rule.evolve(Cell::Alive, 0), Cell::Dead);
    assert_eq!(rule.evolve(Cell::Alive, 2), Cell::Dead);
    assert_eq!(rule.evolve(Cell::Alive, 8), Cell::Dead);

    // Only born with 2 neighbors
    assert_eq!(rule.evolve(Cell::Dead, 2), Cell::Alive);
    assert_eq!(rule.evolve(Cell::Dead, 3), Cell::Dead);
}

#[test]
fn test_rule_names() {
    let rules = game_of_life::all_rules();
    assert_eq!(rules.len(), 4);
    let names: Vec<&str> = rules.iter().map(|(name, _)| *name).collect();
    assert_eq!(names, vec!["Conway", "HighLife", "Seeds", "Day&Night"]);
    for (name, rule) in &rules {
        assert_eq!(rule.name(), *name);
        assert!(!rule.description().is_empty());
    }
}
