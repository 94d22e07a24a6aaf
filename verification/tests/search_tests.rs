use spellsearch::engine::{run_search, search, SearchOutcome};
use spellsearch::spells::{Catalog, SearchError, SpellRecord};

fn rec(name: &str, damage: i32, enabled: bool) -> SpellRecord {
    SpellRecord { name: name.to_string(), damage, enabled }
}

fn singleton(damage: i32) -> Catalog {
    Catalog::build(vec![rec("a", damage, true)]).unwrap()
}

/// A plain re-implementation of the engine, used as an oracle for
/// scenarios whose state space is too large to trace by hand.
enum RefOutcome {
    Good(Vec<usize>, i64),
    Exhausted(Option<(Vec<usize>, i64)>),
    Budget(Option<(Vec<usize>, i64)>),
}

fn reference_search(damages: &[i32], target: i32, budget: i32, tolerance: i64) -> RefOutcome {
    let mut remaining = target as i64;
    let mut cursor = 0usize;
    let mut path: Vec<usize> = Vec::new();
    let mut iterations = 0i32;
    let mut best: Option<(Vec<usize>, i64)> = None;
    loop {
        remaining -= damages[cursor] as i64;
        path.push(cursor);
        iterations += 1;
        if remaining <= 0 {
            let overshoot = -remaining;
            let better = match &best {
                None => true,
                Some((_, r)) => overshoot < *r,
            };
            if better {
                best = Some((path.clone(), overshoot));
            }
            if overshoot <= tolerance {
                return RefOutcome::Good(path, overshoot);
            }
            if iterations >= budget {
                return RefOutcome::Budget(best);
            }
            loop {
                match path.pop() {
                    None => return RefOutcome::Exhausted(best),
                    Some(last) => {
                        remaining += damages[last] as i64;
                        if last + 1 < damages.len() {
                            cursor = last + 1;
                            break;
                        }
                    }
                }
            }
        } else {
            if iterations >= budget {
                return RefOutcome::Budget(best);
            }
            cursor = 0;
        }
    }
}

fn assert_same(lib: &SearchOutcome, oracle: &RefOutcome) {
    match (lib, oracle) {
        (SearchOutcome::GoodEnough { path, remainder }, RefOutcome::Good(p, r)) => {
            assert_eq!(path, p);
            assert_eq!(remainder, r);
        }
        (SearchOutcome::Exhausted { best }, RefOutcome::Exhausted(b)) => match (best, b) {
            (None, None) => {}
            (Some(lb), Some((p, r))) => {
                assert_eq!(&lb.path, p);
                assert_eq!(&lb.remainder, r);
            }
            _ => panic!("best presence differs"),
        },
        (SearchOutcome::BudgetExhausted { best }, RefOutcome::Budget(b)) => match (best, b) {
            (None, None) => {}
            (Some(lb), Some((p, r))) => {
                assert_eq!(&lb.path, p);
                assert_eq!(&lb.remainder, r);
            }
            _ => panic!("best presence differs"),
        },
        _ => panic!("outcome variants differ"),
    }
}

#[test]
fn first_leaf_within_tolerance() {
    let catalog = Catalog::build(vec![rec("big", 100, true), rec("small", 30, true)]).unwrap();
    match search(&catalog, 60, 1000, 40) {
        SearchOutcome::GoodEnough { path, remainder } => {
            assert_eq!(path, vec![0]);
            assert_eq!(remainder, 40);
        }
        _ => panic!("expected a good-enough leaf"),
    }
}

#[test]
fn boundary_target_zero() {
    let catalog = singleton(10);
    match search(&catalog, 0, 1000, 100) {
        SearchOutcome::GoodEnough { path, remainder } => {
            assert_eq!(path, vec![0]);
            assert_eq!(remainder, 10);
        }
        _ => panic!("expected a good-enough leaf"),
    }
}

#[test]
fn boundary_target_negative() {
    let catalog = singleton(10);
    match search(&catalog, -5, 1000, 15) {
        SearchOutcome::GoodEnough { path, remainder } => {
            assert_eq!(path, vec![0]);
            assert_eq!(remainder, 15);
        }
        _ => panic!("expected a good-enough leaf"),
    }
}

#[test]
fn boundary_target_zero_strict_tolerance() {
    // With tolerance 0 the first leaf is not good enough; the singleton
    // space is then exhausted with that leaf as the best.
    let catalog = singleton(10);
    match search(&catalog, 0, 1000, 0) {
        SearchOutcome::Exhausted { best } => {
            let best = best.expect("a leaf was reached");
            assert_eq!(best.path, vec![0]);
            assert_eq!(best.remainder, 10);
        }
        _ => panic!("expected exhaustion"),
    }
}

#[test]
fn budget_one_no_leaf() {
    let catalog = singleton(10);
    match search(&catalog, 25, 1, 0) {
        SearchOutcome::BudgetExhausted { best } => assert!(best.is_none()),
        _ => panic!("expected budget exhaustion"),
    }
}

#[test]
fn budget_one_with_leaf() {
    let catalog = singleton(10);
    match search(&catalog, 5, 1, 0) {
        SearchOutcome::BudgetExhausted { best } => {
            let best = best.expect("the single step is a leaf");
            assert_eq!(best.path, vec![0]);
            assert_eq!(best.remainder, 5);
        }
        _ => panic!("expected budget exhaustion"),
    }
}

#[test]
fn budget_one_good_enough() {
    let catalog = singleton(10);
    match search(&catalog, 5, 1, 5) {
        SearchOutcome::GoodEnough { path, remainder } => {
            assert_eq!(path, vec![0]);
            assert_eq!(remainder, 5);
        }
        _ => panic!("expected a good-enough leaf"),
    }
}

#[test]
fn singleton_catalog_multiples_of_ten() {
    // Only multiples of 10 are reachable, so nothing beats overshoot 5;
    // the single branch is fully explored well within the budget.
    let catalog = singleton(10);
    match search(&catalog, 25, 1000, 0) {
        SearchOutcome::Exhausted { best } => {
            let best = best.expect("a leaf was reached");
            assert_eq!(best.path, vec![0, 0, 0]);
            assert_eq!(best.remainder, 5);
        }
        _ => panic!("expected exhaustion"),
    }
    let oracle = reference_search(&[10], 25, 1000, 0);
    assert_same(&search(&catalog, 25, 1000, 0), &oracle);
}

#[test]
fn unique_exact_sum_is_found() {
    // 12 is reachable exactly only as 7 + 5: the minimal overshoot is 0
    // and the search stops on it.
    let catalog = Catalog::build(vec![rec("x", 7, true), rec("y", 5, true)]).unwrap();
    match search(&catalog, 12, 100000, 0) {
        SearchOutcome::GoodEnough { path, remainder } => {
            assert_eq!(path, vec![0, 1]);
            assert_eq!(remainder, 0);
        }
        _ => panic!("expected an exact kill"),
    }
}

#[test]
fn exhaustion_reports_minimal_overshoot() {
    // Reachable sums past 13 are 14 (7+7), 17 (7+5+5, 5+7+5, ...) and
    // worse: the true minimal overshoot is 1, and exhaustion reports it.
    let catalog = Catalog::build(vec![rec("x", 7, true), rec("y", 5, true)]).unwrap();
    match search(&catalog, 13, 100000, 0) {
        SearchOutcome::Exhausted { best } => {
            let best = best.expect("leaves were reached");
            assert_eq!(best.path, vec![0, 0]);
            assert_eq!(best.remainder, 1);
        }
        _ => panic!("expected exhaustion"),
    }
}

#[test]
fn reference_oracle_scenario() {
    let records = vec![
        rec("rocket", 371, true),
        rec("poison", 184, true),
        rec("vines", 76, true),
        rec("log", 41, true),
        rec("tornado", 25, true),
    ];
    let catalog = Catalog::build(records).unwrap();
    let outcome = search(&catalog, 400, 10000, 5);
    let oracle = reference_search(&[371, 184, 76, 41, 25], 400, 10000, 5);
    assert_same(&outcome, &oracle);
    // Whatever was reported, it never exceeds the first leaf's overshoot
    // of 342 (371 twice against 400).
    let remainder = match &outcome {
        SearchOutcome::GoodEnough { remainder, .. } => *remainder,
        SearchOutcome::Exhausted { best } => best.as_ref().unwrap().remainder,
        SearchOutcome::BudgetExhausted { best } => best.as_ref().unwrap().remainder,
    };
    assert!(remainder <= 342);
}

#[test]
fn run_search_rejects_bad_budget() {
    let catalog = singleton(10);
    match run_search(&catalog, 5, 0, 0) {
        Err(SearchError::InvalidConfiguration) => {}
        _ => panic!("expected an invalid-configuration error"),
    }
}

#[test]
fn run_search_rejects_negative_tolerance() {
    let catalog = singleton(10);
    match run_search(&catalog, 5, 10, -1) {
        Err(SearchError::InvalidConfiguration) => {}
        _ => panic!("expected an invalid-configuration error"),
    }
}

#[test]
fn run_search_accepts_valid_configuration() {
    let catalog = singleton(10);
    match run_search(&catalog, 5, 10, 5) {
        Ok(SearchOutcome::GoodEnough { path, remainder }) => {
            assert_eq!(path, vec![0]);
            assert_eq!(remainder, 5);
        }
        _ => panic!("expected a good-enough leaf"),
    }
}
