//! Laws of the search engine, stated and proved over the specification
//! interpreter that [`crate::engine::search`] is pinned to.

use vstd::prelude::*;

use crate::engine::{
    backtrack_spec, damages_positive, init_state, path_sum, search_from, search_spec, update_best,
    valid_path, BestV, OutcomeV, SearchState,
};

verus! {

/// The best solution an outcome carries: for a good-enough stop, the
/// leaf it stopped at; otherwise whatever best was recorded.
pub open spec fn outcome_best(o: OutcomeV) -> Option<BestV> {
    match o {
        OutcomeV::GoodEnough { path, remainder } => Some(BestV { path, remainder }),
        OutcomeV::Exhausted { best } => best,
        OutcomeV::BudgetExhausted { best } => best,
    }
}

/// `a` reports a remainder no worse than the bound `b`; `None` is the
/// infinitely bad initial sentinel.
pub open spec fn at_least_as_good(a: Option<BestV>, b: Option<BestV>) -> bool {
    match b {
        None => true,
        Some(bb) => match a {
            None => false,
            Some(aa) => aa.remainder <= bb.remainder,
        },
    }
}

/// The recorded best is still worse than the tolerance — otherwise the
/// search would already have stopped.  This holds of every state a run
/// passes through, the initial one included.
pub open spec fn best_above_tolerance(b: Option<BestV>, tolerance: int) -> bool {
    match b {
        None => true,
        Some(x) => x.remainder > tolerance,
    }
}

/// The best solution is non-increasing over the lifetime of a search:
/// from any state the search passes through, the outcome it finally
/// reports is at least as good as the best recorded in that state.
pub proof fn lemma_best_monotonic(ds: Seq<int>, tolerance: int, budget: int, st: SearchState)
    requires
        best_above_tolerance(st.best, tolerance),
    ensures
        at_least_as_good(outcome_best(search_from(ds, tolerance, budget, st)), st.best),
    decreases budget - st.iterations,
{
    if st.iterations < budget {
        let rem2 = st.remaining - ds[st.cursor];
        let path2 = st.path.push(st.cursor as usize);
        let it2 = st.iterations + 1;
        if rem2 <= 0 {
            let overshoot = -rem2;
            let best2 = update_best(st.best, path2, overshoot);
            if overshoot <= tolerance || it2 >= budget {
            } else {
                match backtrack_spec(ds, rem2, path2) {
                    None => {},
                    Some((rem3, path3, cur3)) => {
                        lemma_best_monotonic(
                            ds,
                            tolerance,
                            budget,
                            SearchState {
                                remaining: rem3,
                                path: path3,
                                cursor: cur3,
                                iterations: it2,
                                best: best2,
                            },
                        );
                    },
                }
            }
        } else if it2 < budget {
            lemma_best_monotonic(
                ds,
                tolerance,
                budget,
                SearchState {
                    remaining: rem2,
                    path: path2,
                    cursor: 0,
                    iterations: it2,
                    best: st.best,
                },
            );
        }
    }
}

/// When the target does not exceed the strongest spell's damage — in
/// particular when it is zero or negative — the very first application
/// is already a leaf, reached with no backtracking, and its overshoot is
/// the first spell's damage minus the target.  Within tolerance the
/// search stops right there; above it, nothing reported later is worse.
pub proof fn lemma_first_leaf(ds: Seq<int>, target: int, budget: int, tolerance: int)
    requires
        ds.len() > 0,
        budget >= 1,
        tolerance >= 0,
        target <= ds[0],
    ensures
        ds[0] - target <= tolerance ==> search_spec(ds, target, budget, tolerance)
            == (OutcomeV::GoodEnough { path: seq![0usize], remainder: ds[0] - target }),
        ds[0] - target > tolerance ==> at_least_as_good(
            outcome_best(search_spec(ds, target, budget, tolerance)),
            Some(BestV { path: seq![0usize], remainder: ds[0] - target }),
        ),
{
    let st0 = init_state(target);
    let path2 = Seq::<usize>::empty().push(0usize);
    assert(path2 =~= seq![0usize]);
    let rem2 = target - ds[0];
    let overshoot = ds[0] - target;
    let best2 = update_best(None, path2, overshoot);
    if overshoot <= tolerance {
    } else if budget == 1 {
        assert(search_from(ds, tolerance, budget, st0) == (OutcomeV::BudgetExhausted {
            best: best2,
        }));
    } else {
        assert(path2.drop_last() =~= Seq::<usize>::empty());
        assert(path2.last() == 0usize);
        if 1 < ds.len() {
            assert(backtrack_spec(ds, rem2, path2) == Some(
                (target, Seq::<usize>::empty(), 1int),
            ));
            let st3 = SearchState {
                remaining: target,
                path: Seq::empty(),
                cursor: 1,
                iterations: 1,
                best: best2,
            };
            assert(search_from(ds, tolerance, budget, st0) == search_from(
                ds,
                tolerance,
                budget,
                st3,
            ));
            lemma_best_monotonic(ds, tolerance, budget, st3);
        } else {
            assert(backtrack_spec(ds, rem2, path2) == backtrack_spec(
                ds,
                target,
                Seq::<usize>::empty(),
            ));
            assert(search_from(ds, tolerance, budget, st0) == (OutcomeV::Exhausted {
                best: best2,
            }));
        }
    }
}

/// With an iteration budget of one, the search performs exactly one
/// application and stops.  When even the strongest spell leaves the
/// target standing there is no leaf and no best; when the single
/// application is a leaf it is reported, as the good-enough outcome
/// within tolerance and as the recorded best past it.
pub proof fn lemma_budget_one(ds: Seq<int>, target: int, tolerance: int)
    requires
        ds.len() > 0,
        tolerance >= 0,
    ensures
        target > ds[0] ==> search_spec(ds, target, 1, tolerance) == (OutcomeV::BudgetExhausted {
            best: None,
        }),
        target <= ds[0] && ds[0] - target <= tolerance ==> search_spec(ds, target, 1, tolerance)
            == (OutcomeV::GoodEnough { path: seq![0usize], remainder: ds[0] - target }),
        target <= ds[0] && ds[0] - target > tolerance ==> search_spec(ds, target, 1, tolerance)
            == (OutcomeV::BudgetExhausted {
            best: Some(BestV { path: seq![0usize], remainder: ds[0] - target }),
        }),
{
    let path2 = Seq::<usize>::empty().push(0usize);
    assert(path2 =~= seq![0usize]);
}

/// The path of a reported solution really achieves the reported
/// remainder: its damages sum to the target plus the remainder.
pub open spec fn genuine_solution(ds: Seq<int>, target: int, p: Seq<usize>, remainder: int) -> bool {
    &&& p.len() > 0
    &&& valid_path(ds, p)
    &&& remainder >= 0
    &&& path_sum(ds, p) == target + remainder
}

/// An optional best is genuine if, when present, its path achieves its
/// remainder.
pub open spec fn genuine_best(ds: Seq<int>, target: int, b: Option<BestV>) -> bool {
    match b {
        None => true,
        Some(x) => genuine_solution(ds, target, x.path, x.remainder),
    }
}

/// Every solution an outcome carries is genuine.
pub open spec fn outcome_genuine(ds: Seq<int>, target: int, o: OutcomeV) -> bool {
    match o {
        OutcomeV::GoodEnough { path, remainder } => genuine_solution(ds, target, path, remainder),
        OutcomeV::Exhausted { best } => genuine_best(ds, target, best),
        OutcomeV::BudgetExhausted { best } => genuine_best(ds, target, best),
    }
}

/// Backtracking restores the relation between the damage still to deal
/// and the damage dealt along the path, and resumes inside the catalog.
proof fn lemma_backtrack_state(ds: Seq<int>, target: int, remaining: int, p: Seq<usize>)
    requires
        remaining == target - path_sum(ds, p),
        valid_path(ds, p),
    ensures
        match backtrack_spec(ds, remaining, p) {
            None => true,
            Some((rem3, p3, cur3)) => rem3 == target - path_sum(ds, p3) && valid_path(ds, p3) && 0
                <= cur3 < ds.len(),
        },
    decreases p.len(),
{
    if p.len() > 0 {
        let rest = p.drop_last();
        assert(valid_path(ds, rest));
        if !(p.last() as int + 1 < ds.len()) {
            lemma_backtrack_state(ds, target, remaining + ds[p.last() as int], rest);
        }
    }
}

/// From any state whose bookkeeping is consistent, whatever the search
/// reports is genuine: the reported path's damages sum to the target
/// plus the reported remainder, and the remainder is never negative.
pub proof fn lemma_search_genuine_from(
    ds: Seq<int>,
    target: int,
    tolerance: int,
    budget: int,
    st: SearchState,
)
    requires
        damages_positive(ds),
        ds.len() <= usize::MAX,
        0 <= st.cursor < ds.len(),
        valid_path(ds, st.path),
        st.remaining == target - path_sum(ds, st.path),
        genuine_best(ds, target, st.best),
    ensures
        outcome_genuine(ds, target, search_from(ds, tolerance, budget, st)),
    decreases budget - st.iterations,
{
    if st.iterations < budget {
        let rem2 = st.remaining - ds[st.cursor];
        let path2 = st.path.push(st.cursor as usize);
        let it2 = st.iterations + 1;
        assert((st.cursor as usize) as int == st.cursor);
        assert(path2.drop_last() =~= st.path);
        assert(path2.last() == st.cursor as usize);
        assert(path_sum(ds, path2) == path_sum(ds, st.path) + ds[st.cursor]);
        assert(valid_path(ds, path2));
        if rem2 <= 0 {
            let overshoot = -rem2;
            let best2 = update_best(st.best, path2, overshoot);
            assert(genuine_solution(ds, target, path2, overshoot));
            assert(genuine_best(ds, target, best2));
            if overshoot <= tolerance || it2 >= budget {
            } else {
                lemma_backtrack_state(ds, target, rem2, path2);
                match backtrack_spec(ds, rem2, path2) {
                    None => {},
                    Some((rem3, path3, cur3)) => {
                        lemma_search_genuine_from(
                            ds,
                            target,
                            tolerance,
                            budget,
                            SearchState {
                                remaining: rem3,
                                path: path3,
                                cursor: cur3,
                                iterations: it2,
                                best: best2,
                            },
                        );
                    },
                }
            }
        } else if it2 < budget {
            lemma_search_genuine_from(
                ds,
                target,
                tolerance,
                budget,
                SearchState {
                    remaining: rem2,
                    path: path2,
                    cursor: 0,
                    iterations: it2,
                    best: st.best,
                },
            );
        }
    }
}

/// Whatever a whole search reports is genuine.
pub proof fn lemma_search_genuine(ds: Seq<int>, target: int, budget: int, tolerance: int)
    requires
        damages_positive(ds),
        ds.len() > 0,
        ds.len() <= usize::MAX,
    ensures
        outcome_genuine(ds, target, search_spec(ds, target, budget, tolerance)),
{
    assert(path_sum(ds, Seq::<usize>::empty()) == 0);
    lemma_search_genuine_from(ds, target, tolerance, budget, init_state(target));
}

/// The smaller of two optional overshoots; `None` means no leaf at all.
pub open spec fn opt_min(a: Option<int>, b: Option<int>) -> Option<int> {
    match (a, b) {
        (None, _) => b,
        (_, None) => a,
        (Some(x), Some(y)) => if x <= y {
            Some(x)
        } else {
            Some(y)
        },
    }
}

/// The remainder an optional best solution carries.
pub open spec fn opt_remainder(b: Option<BestV>) -> Option<int> {
    match b {
        None => None,
        Some(x) => Some(x.remainder),
    }
}

/// The positive part of a remainder, as a termination measure.
pub open spec fn clamp_pos(r: int) -> nat {
    if r > 0 {
        r as nat
    } else {
        0
    }
}

/// The smallest overshoot among the leaves the search can reach from a
/// node that still has `remaining` to deal, trying child indices `c` and
/// up: each child applies its spell; a child at or past the target is a
/// leaf, and any other child re-descends from the strongest spell.
pub open spec fn subtree_min(ds: Seq<int>, remaining: int, c: int) -> Option<int>
    decreases clamp_pos(remaining), ds.len() - c,
{
    if c < 0 || c >= ds.len() {
        None
    } else {
        let rem2 = remaining - ds[c];
        let child = if rem2 <= 0 {
            Some(-rem2)
        } else if rem2 < remaining {
            subtree_min(ds, rem2, 0)
        } else {
            None
        };
        opt_min(child, subtree_min(ds, remaining, c + 1))
    }
}

/// The smallest overshoot still reachable by backtracking out of the
/// current node: for each ancestor on the path, the subtrees of its not
/// yet explored next siblings.
pub open spec fn pending_min(ds: Seq<int>, p: Seq<usize>, remaining: int) -> Option<int>
    decreases p.len(),
{
    if p.len() == 0 {
        None
    } else {
        let last = p.last();
        let up = remaining + ds[last as int];
        opt_min(subtree_min(ds, up, last as int + 1), pending_min(ds, p.drop_last(), up))
    }
}

/// Backtracking neither loses nor invents reachable leaves: the resumed
/// state's region is exactly what was pending, and exhaustion means
/// nothing was pending.
proof fn lemma_backtrack_pending(ds: Seq<int>, remaining: int, p: Seq<usize>)
    ensures
        match backtrack_spec(ds, remaining, p) {
            None => pending_min(ds, p, remaining) == None::<int>,
            Some((rem3, p3, cur3)) => {
                &&& 0 <= cur3 < ds.len()
                &&& opt_min(subtree_min(ds, rem3, cur3), pending_min(ds, p3, rem3)) == pending_min(
                    ds,
                    p,
                    remaining,
                )
            },
        },
    decreases p.len(),
{
    if p.len() > 0 {
        let last = p.last();
        let rest = p.drop_last();
        let up = remaining + ds[last as int];
        if !(last as int + 1 < ds.len()) {
            assert(subtree_min(ds, up, last as int + 1) == None::<int>);
            lemma_backtrack_pending(ds, up, rest);
        }
    }
}

/// From any state, if the search ends exhausted then the remainder it
/// reports is exactly the smallest overshoot among the best already
/// recorded and every leaf still reachable from that state.
pub proof fn lemma_exhausted_minimal_from(
    ds: Seq<int>,
    tolerance: int,
    budget: int,
    st: SearchState,
)
    requires
        damages_positive(ds),
        ds.len() <= usize::MAX,
        0 <= st.cursor < ds.len(),
    ensures
        match search_from(ds, tolerance, budget, st) {
            OutcomeV::Exhausted { best } => opt_remainder(best) == opt_min(
                opt_remainder(st.best),
                opt_min(
                    subtree_min(ds, st.remaining, st.cursor),
                    pending_min(ds, st.path, st.remaining),
                ),
            ),
            _ => true,
        },
    decreases budget - st.iterations,
{
    if st.iterations < budget {
        let rem2 = st.remaining - ds[st.cursor];
        let path2 = st.path.push(st.cursor as usize);
        let it2 = st.iterations + 1;
        assert((st.cursor as usize) as int == st.cursor);
        assert(path2.last() == st.cursor as usize);
        assert(path2.drop_last() =~= st.path);
        if rem2 <= 0 {
            let overshoot = -rem2;
            let best2 = update_best(st.best, path2, overshoot);
            assert(opt_remainder(best2) == opt_min(opt_remainder(st.best), Some(overshoot)));
            if overshoot <= tolerance || it2 >= budget {
            } else {
                assert(subtree_min(ds, st.remaining, st.cursor) == opt_min(
                    Some(overshoot),
                    subtree_min(ds, st.remaining, st.cursor + 1),
                ));
                assert(pending_min(ds, path2, rem2) == opt_min(
                    subtree_min(ds, st.remaining, st.cursor + 1),
                    pending_min(ds, st.path, st.remaining),
                ));
                lemma_backtrack_pending(ds, rem2, path2);
                match backtrack_spec(ds, rem2, path2) {
                    None => {},
                    Some((rem3, path3, cur3)) => {
                        lemma_exhausted_minimal_from(
                            ds,
                            tolerance,
                            budget,
                            SearchState {
                                remaining: rem3,
                                path: path3,
                                cursor: cur3,
                                iterations: it2,
                                best: best2,
                            },
                        );
                    },
                }
            }
        } else if it2 < budget {
            assert(0 < rem2 < st.remaining);
            assert(subtree_min(ds, st.remaining, st.cursor) == opt_min(
                subtree_min(ds, rem2, 0),
                subtree_min(ds, st.remaining, st.cursor + 1),
            ));
            assert(pending_min(ds, path2, rem2) == opt_min(
                subtree_min(ds, st.remaining, st.cursor + 1),
                pending_min(ds, st.path, st.remaining),
            ));
            lemma_exhausted_minimal_from(
                ds,
                tolerance,
                budget,
                SearchState {
                    remaining: rem2,
                    path: path2,
                    cursor: 0,
                    iterations: it2,
                    best: st.best,
                },
            );
        }
    }
}

/// Exhaustion correctness: when a search of `target` ends exhausted, the
/// remainder it reports is exactly the smallest overshoot among every
/// combination the greedy re-descending scheme can reach — no reachable
/// leaf does better.
pub proof fn lemma_exhausted_minimal(ds: Seq<int>, target: int, budget: int, tolerance: int)
    requires
        damages_positive(ds),
        0 < ds.len() <= usize::MAX,
    ensures
        match search_spec(ds, target, budget, tolerance) {
            OutcomeV::Exhausted { best } => opt_remainder(best) == subtree_min(ds, target, 0),
            _ => true,
        },
{
    lemma_exhausted_minimal_from(ds, tolerance, budget, init_state(target));
}

/// A good-enough outcome reports a non-negative remainder within the
/// tolerance — with tolerance zero, an exact kill, which no leaf beats.
pub proof fn lemma_good_enough_within(ds: Seq<int>, tolerance: int, budget: int, st: SearchState)
    ensures
        match search_from(ds, tolerance, budget, st) {
            OutcomeV::GoodEnough { path, remainder } => 0 <= remainder <= tolerance,
            _ => true,
        },
    decreases budget - st.iterations,
{
    if st.iterations < budget {
        let rem2 = st.remaining - ds[st.cursor];
        let path2 = st.path.push(st.cursor as usize);
        let it2 = st.iterations + 1;
        if rem2 <= 0 {
            let overshoot = -rem2;
            let best2 = update_best(st.best, path2, overshoot);
            if overshoot <= tolerance || it2 >= budget {
            } else {
                match backtrack_spec(ds, rem2, path2) {
                    None => {},
                    Some((rem3, path3, cur3)) => {
                        lemma_good_enough_within(
                            ds,
                            tolerance,
                            budget,
                            SearchState {
                                remaining: rem3,
                                path: path3,
                                cursor: cur3,
                                iterations: it2,
                                best: best2,
                            },
                        );
                    },
                }
            }
        } else if it2 < budget {
            lemma_good_enough_within(
                ds,
                tolerance,
                budget,
                SearchState {
                    remaining: rem2,
                    path: path2,
                    cursor: 0,
                    iterations: it2,
                    best: st.best,
                },
            );
        }
    }
}

} // verus!
