use spellsearch::engine::SearchOutcome;
use spellsearch::policy::{search_escalating, search_with_policy, ThresholdPolicy};
use spellsearch::spells::{Catalog, SpellRecord};

fn rec(name: &str, damage: i32, enabled: bool) -> SpellRecord {
    SpellRecord { name: name.to_string(), damage, enabled }
}

#[test]
fn escalation_relaxes_the_bar_until_a_leaf_passes() {
    // With tolerance 0 the singleton space exhausts on overshoot 5; one
    // escalation by 5 makes that leaf good enough on the second attempt.
    let catalog = Catalog::build(vec![rec("a", 10, true)]).unwrap();
    match search_escalating(&catalog, 25, 1000, 0, 5, 2) {
        SearchOutcome::GoodEnough { path, remainder } => {
            assert_eq!(path, vec![0, 0, 0]);
            assert_eq!(remainder, 5);
        }
        _ => panic!("expected a good-enough leaf on the second attempt"),
    }
}

#[test]
fn escalation_stops_at_the_attempt_cap() {
    let catalog = Catalog::build(vec![rec("a", 10, true)]).unwrap();
    match search_escalating(&catalog, 25, 1000, 0, 5, 1) {
        SearchOutcome::Exhausted { best } => {
            let best = best.expect("a leaf was reached");
            assert_eq!(best.path, vec![0, 0, 0]);
            assert_eq!(best.remainder, 5);
        }
        _ => panic!("expected exhaustion on the only attempt"),
    }
}

#[test]
fn escalation_does_not_rerun_after_budget_exhaustion() {
    // The first attempt runs out of budget before any leaf, so no
    // escalation happens even though attempts remain.
    let catalog = Catalog::build(vec![rec("a", 10, true)]).unwrap();
    match search_escalating(&catalog, 25, 1, 0, 5, 3) {
        SearchOutcome::BudgetExhausted { best } => assert!(best.is_none()),
        _ => panic!("expected budget exhaustion"),
    }
}

#[test]
fn fixed_policy_is_one_plain_search() {
    let catalog = Catalog::build(vec![rec("a", 10, true)]).unwrap();
    match search_with_policy(&catalog, 5, 10, 5, ThresholdPolicy::Fixed) {
        SearchOutcome::GoodEnough { path, remainder } => {
            assert_eq!(path, vec![0]);
            assert_eq!(remainder, 5);
        }
        _ => panic!("expected a good-enough leaf"),
    }
}

#[test]
fn escalating_policy_dispatches_to_escalation() {
    let catalog = Catalog::build(vec![rec("a", 10, true)]).unwrap();
    let policy = ThresholdPolicy::Escalating { step: 5, max_attempts: 2 };
    match search_with_policy(&catalog, 25, 1000, 0, policy) {
        SearchOutcome::GoodEnough { path, remainder } => {
            assert_eq!(path, vec![0, 0, 0]);
            assert_eq!(remainder, 5);
        }
        _ => panic!("expected a good-enough leaf on the second attempt"),
    }
}
