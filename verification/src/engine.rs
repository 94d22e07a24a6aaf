//! The depth-first backtracking search engine.
//!
//! Given a target value and a catalog sorted by descending damage, the
//! engine repeatedly applies the spell under its cursor.  While the target
//! is not yet reached it re-descends greedily from the strongest spell;
//! once the cumulative damage meets or exceeds the target it stands at a
//! leaf, records the overshoot if it beats the best seen so far, stops if
//! the overshoot is within tolerance, and otherwise backtracks to the next
//! unexplored sibling.  The search stops when the iteration budget runs
//! out, or when the whole space rooted at the first spell is exhausted.
//!
//! The behaviour is pinned exactly: [`search`] returns precisely the
//! outcome of the specification-level interpreter [`search_from`] started
//! on the initial state.

use vstd::prelude::*;

use crate::spells::{Catalog, SearchError};

verus! {

/// Mathematical image of a recorded solution: the chosen catalog indices
/// in application order, and the overshoot they achieve.
#[verifier::ext_equal]
pub ghost struct BestV {
    pub path: Seq<usize>,
    pub remainder: int,
}

/// Mathematical image of a search outcome.
#[verifier::ext_equal]
pub ghost enum OutcomeV {
    /// A leaf within tolerance was reached; the search stopped there.
    GoodEnough { path: Seq<usize>, remainder: int },
    /// Every combination rooted at the first spell was tried.
    Exhausted { best: Option<BestV> },
    /// The iteration budget ran out first.
    BudgetExhausted { best: Option<BestV> },
}

/// The best solution found at some point of a search: the chosen catalog
/// indices in application order, and the overshoot (cumulative damage
/// minus target, never negative) they achieve.
pub struct BestSolution {
    pub path: Vec<usize>,
    pub remainder: i64,
}

impl View for BestSolution {
    type V = BestV;

    open spec fn view(&self) -> BestV {
        BestV { path: self.path@, remainder: self.remainder as int }
    }
}

/// How one call of [`search`] ended.
pub enum SearchOutcome {
    /// A leaf whose overshoot is within the tolerance was reached; `path`
    /// is that leaf and `remainder` its overshoot.
    GoodEnough { path: Vec<usize>, remainder: i64 },
    /// The whole search space was tried without reaching a leaf within
    /// tolerance; `best` is the smallest overshoot seen, if any leaf was
    /// reached at all.
    Exhausted { best: Option<BestSolution> },
    /// The iteration budget ran out; `best` is the smallest overshoot
    /// seen so far, if any leaf was reached.
    BudgetExhausted { best: Option<BestSolution> },
}

/// The mathematical image of an optional best solution.
pub open spec fn opt_view(b: Option<BestSolution>) -> Option<BestV> {
    match b {
        Some(x) => Some(x@),
        None => None,
    }
}

impl View for SearchOutcome {
    type V = OutcomeV;

    open spec fn view(&self) -> OutcomeV {
        match self {
            SearchOutcome::GoodEnough { path, remainder } => OutcomeV::GoodEnough {
                path: path@,
                remainder: *remainder as int,
            },
            SearchOutcome::Exhausted { best } => OutcomeV::Exhausted { best: opt_view(*best) },
            SearchOutcome::BudgetExhausted { best } => OutcomeV::BudgetExhausted {
                best: opt_view(*best),
            },
        }
    }
}

/// Every damage value is strictly positive.
pub open spec fn damages_positive(ds: Seq<int>) -> bool {
    forall|i: int| 0 <= i < ds.len() ==> ds[i] > 0
}

/// Every index of the path points into the catalog.
pub open spec fn valid_path(ds: Seq<int>, p: Seq<usize>) -> bool {
    forall|i: int| 0 <= i < p.len() ==> (p[i] as int) < ds.len()
}

/// The cumulative damage of the spells chosen along a path.
pub open spec fn path_sum(ds: Seq<int>, p: Seq<usize>) -> int
    decreases p.len(),
{
    if p.len() == 0 {
        0
    } else {
        path_sum(ds, p.drop_last()) + ds[p.last() as int]
    }
}

/// The state the engine owns during one search: the damage still to deal,
/// the stack of chosen indices, the next index to try, the step counter,
/// and the best solution recorded so far (`None` stands for the initial
/// infinite sentinel).
#[verifier::ext_equal]
pub ghost struct SearchState {
    pub remaining: int,
    pub path: Seq<usize>,
    pub cursor: int,
    pub iterations: int,
    pub best: Option<BestV>,
}

/// The state a search of `target` starts from.
pub open spec fn init_state(target: int) -> SearchState {
    SearchState {
        remaining: target,
        path: Seq::empty(),
        cursor: 0,
        iterations: 0,
        best: None,
    }
}

/// Keep the smaller overshoot: replace the best solution exactly when the
/// new leaf beats it (`None` counts as infinitely bad).
pub open spec fn update_best(best: Option<BestV>, path: Seq<usize>, overshoot: int) -> Option<
    BestV,
> {
    match best {
        None => Some(BestV { path, remainder: overshoot }),
        Some(b) => if overshoot < b.remainder {
            Some(BestV { path, remainder: overshoot })
        } else {
            Some(b)
        },
    }
}

/// Undo choices until one has an unexplored sibling: pop the last index,
/// give its damage back, and resume at the next index if there is one.
/// `None` means the path emptied with no sibling left: exhaustion.
pub open spec fn backtrack_spec(ds: Seq<int>, remaining: int, p: Seq<usize>) -> Option<
    (int, Seq<usize>, int),
>
    decreases p.len(),
{
    if p.len() == 0 {
        None
    } else {
        let last = p.last();
        let rest = p.drop_last();
        let rem2 = remaining + ds[last as int];
        if last as int + 1 < ds.len() {
            Some((rem2, rest, last as int + 1))
        } else {
            backtrack_spec(ds, rem2, rest)
        }
    }
}

/// One step of the engine, and the rest of the search after it: apply the
/// spell under the cursor; at a leaf record the overshoot, stop within
/// tolerance, stop when the budget is out, otherwise backtrack; while the
/// target is not reached, re-descend from the strongest spell.
pub open spec fn search_from(ds: Seq<int>, tolerance: int, budget: int, st: SearchState) -> OutcomeV
    decreases budget - st.iterations,
{
    if st.iterations >= budget {
        OutcomeV::BudgetExhausted { best: st.best }
    } else {
        let rem2 = st.remaining - ds[st.cursor];
        let path2 = st.path.push(st.cursor as usize);
        let it2 = st.iterations + 1;
        if rem2 <= 0 {
            let overshoot = -rem2;
            let best2 = update_best(st.best, path2, overshoot);
            if overshoot <= tolerance {
                OutcomeV::GoodEnough { path: path2, remainder: overshoot }
            } else if it2 >= budget {
                OutcomeV::BudgetExhausted { best: best2 }
            } else {
                match backtrack_spec(ds, rem2, path2) {
                    None => OutcomeV::Exhausted { best: best2 },
                    Some((rem3, path3, cur3)) => search_from(
                        ds,
                        tolerance,
                        budget,
                        SearchState {
                            remaining: rem3,
                            path: path3,
                            cursor: cur3,
                            iterations: it2,
                            best: best2,
                        },
                    ),
                }
            }
        } else if it2 >= budget {
            OutcomeV::BudgetExhausted { best: st.best }
        } else {
            search_from(
                ds,
                tolerance,
                budget,
                SearchState {
                    remaining: rem2,
                    path: path2,
                    cursor: 0,
                    iterations: it2,
                    best: st.best,
                },
            )
        }
    }
}

/// What one whole search of `target` returns.
pub open spec fn search_spec(ds: Seq<int>, target: int, budget: int, tolerance: int) -> OutcomeV {
    search_from(ds, tolerance, budget, init_state(target))
}

/// Every strict non-empty prefix of the path was a state that had not yet
/// reached the target: that is how the path came to be extended.
pub open spec fn prefixes_positive(ds: Seq<int>, target: int, p: Seq<usize>) -> bool {
    forall|k: int| 1 <= k < p.len() ==> target - path_sum(ds, #[trigger] p.take(k)) > 0
}

/// Pushing one index adds its damage to the path sum.
proof fn lemma_path_sum_push(ds: Seq<int>, p: Seq<usize>, c: usize)
    ensures
        path_sum(ds, p.push(c)) == path_sum(ds, p) + ds[c as int],
{
    assert(p.push(c).drop_last() =~= p);
    assert(p.push(c).last() == c);
}

/// A path of valid indices into positive damages has a non-negative sum.
proof fn lemma_path_sum_nonneg(ds: Seq<int>, p: Seq<usize>)
    requires
        damages_positive(ds),
        valid_path(ds, p),
    ensures
        path_sum(ds, p) >= 0,
    decreases p.len(),
{
    if p.len() > 0 {
        assert(valid_path(ds, p.drop_last()));
        lemma_path_sum_nonneg(ds, p.drop_last());
    }
}

/// A verified copy of a path, element by element.
fn clone_path(p: &Vec<usize>) -> (r: Vec<usize>)
    ensures
        r@ == p@,
{
    let mut r: Vec<usize> = Vec::new();
    let mut i: usize = 0;
    while i < p.len()
        invariant
            i <= p@.len(),
            r@ == p@.take(i as int),
        decreases p@.len() - i,
    {
        r.push(p[i]);
        proof {
            assert(p@.take(i + 1) =~= p@.take(i as int).push(p@[i as int]));
        }
        i += 1;
    }
    proof {
        assert(p@.take(p@.len() as int) =~= p@);
    }
    r
}

/// Run the depth-first backtracking search: returns exactly the outcome
/// of the specification interpreter [`search_from`] on the initial state
/// of `target`.
#[verifier::loop_isolation(false)]
pub fn search(catalog: &Catalog, target: i32, iteration_budget: i32, tolerance: i64) -> (r:
    SearchOutcome)
    requires
        catalog.wf(),
        iteration_budget >= 1,
        tolerance >= 0,
    ensures
        r@ == search_spec(
            catalog.damages(),
            target as int,
            iteration_budget as int,
            tolerance as int,
        ),
{
    let ghost ds = catalog.damages();
    let ghost tol = tolerance as int;
    let ghost bud = iteration_budget as int;
    let ghost tgt = target as int;
    proof {
        assert(ds.len() == catalog@.len());
        assert forall|i: int| 0 <= i < ds.len() implies #[trigger] ds[i] > 0 by {
            assert(ds[i] == catalog@[i].damage);
        }
    }
    let mut remaining: i64 = target as i64;
    let mut path: Vec<usize> = Vec::new();
    let mut cursor: usize = 0;
    let mut iterations: i32 = 0;
    let mut best: Option<BestSolution> = None;
    let ghost st0 = init_state(tgt);
    proof {
        assert(path_sum(ds, Seq::<usize>::empty()) == 0);
    }

    loop
        invariant
            catalog.wf(),
            ds == catalog.damages(),
            ds.len() == catalog@.len(),
            damages_positive(ds),
            tol == tolerance as int,
            bud == iteration_budget as int,
            tgt == target as int,
            tolerance >= 0,
            iteration_budget >= 1,
            (cursor as int) < ds.len(),
            0 <= iterations < iteration_budget,
            valid_path(ds, path@),
            remaining as int == tgt - path_sum(ds, path@),
            prefixes_positive(ds, tgt, path@),
            path@.len() == 0 ==> remaining as int == tgt,
            path@.len() > 0 ==> remaining > 0,
            search_from(
                ds,
                tol,
                bud,
                SearchState {
                    remaining: remaining as int,
                    path: path@,
                    cursor: cursor as int,
                    iterations: iterations as int,
                    best: opt_view(best),
                },
            ) == search_from(ds, tol, bud, st0),
        decreases iteration_budget - iterations,
    {
        let ghost st_pre = SearchState {
            remaining: remaining as int,
            path: path@,
            cursor: cursor as int,
            iterations: iterations as int,
            best: opt_view(best),
        };
        proof {
            lemma_path_sum_nonneg(ds, path@);
            assert(remaining <= 0x7fff_ffff);
        }
        let d = catalog.damage_at(cursor);
        proof {
            assert(d as int == ds[cursor as int]);
        }
        remaining = remaining - d as i64;
        path.push(cursor);
        iterations = iterations + 1;
        proof {
            lemma_path_sum_push(ds, st_pre.path, cursor);
            assert(valid_path(ds, path@));
            assert(prefixes_positive(ds, tgt, path@)) by {
                assert forall|k: int| 1 <= k < path@.len() implies tgt - path_sum(
                    ds,
                    #[trigger] path@.take(k),
                ) > 0 by {
                    if k < st_pre.path.len() {
                        assert(path@.take(k) =~= st_pre.path.take(k));
                    } else {
                        assert(path@.take(k) =~= st_pre.path);
                    }
                }
            }
        }
        if remaining <= 0 {
            let overshoot = -remaining;
            let ghost best_pre = opt_view(best);
            let replace = match &best {
                None => true,
                Some(b) => overshoot < b.remainder,
            };
            if replace {
                best = Some(BestSolution { path: clone_path(&path), remainder: overshoot });
            }
            proof {
                assert(opt_view(best) == update_best(best_pre, path@, overshoot as int));
            }
            if overshoot <= tolerance {
                let r = SearchOutcome::GoodEnough { path, remainder: overshoot };
                proof {
                    assert(r@ == search_from(ds, tol, bud, st_pre));
                }
                return r;
            }
            if iterations >= iteration_budget {
                let r = SearchOutcome::BudgetExhausted { best };
                proof {
                    assert(r@ == search_from(ds, tol, bud, st_pre));
                }
                return r;
            }
            let ghost leaf_path = path@;
            let ghost bt = backtrack_spec(ds, remaining as int, path@);
            loop
                invariant
                    catalog.wf(),
                    ds == catalog.damages(),
                    ds.len() == catalog@.len(),
                    damages_positive(ds),
                    tgt == target as int,
                    valid_path(ds, path@),
                    path@ == leaf_path.take(path@.len() as int),
                    path@.len() <= leaf_path.len(),
                    prefixes_positive(ds, tgt, leaf_path),
                    valid_path(ds, leaf_path),
                    remaining as int == tgt - path_sum(ds, path@),
                    -0x2_0000_0000 <= remaining as int,
                    backtrack_spec(ds, remaining as int, path@) == bt,
                decreases path@.len(),
            {
                if path.len() == 0 {
                    let r = SearchOutcome::Exhausted { best };
                    proof {
                        assert(bt == None::<(int, Seq<usize>, int)>);
                        assert(r@ == search_from(ds, tol, bud, st_pre));
                    }
                    return r;
                }
                let ghost p_pre = path@;
                let last_opt = path.pop();
                let last = match last_opt {
                    Some(v) => v,
                    None => 0,
                };
                proof {
                    assert(path@ =~= p_pre.drop_last());
                    assert(last == p_pre.last());
                    assert((last as int) < ds.len()) by {
                        assert(p_pre[p_pre.len() - 1] == last);
                    }
                    assert(valid_path(ds, path@));
                    assert(path@ =~= leaf_path.take(path@.len() as int)) by {
                        assert(p_pre =~= leaf_path.take(p_pre.len() as int));
                    }
                    lemma_path_sum_nonneg(ds, path@);
                }
                let dl = catalog.damage_at(last);
                remaining = remaining + dl as i64;
                proof {
                    assert(remaining as int == tgt - path_sum(ds, path@));
                    assert(remaining <= 0x7fff_ffff);
                }
                let clen = catalog.len();
                assert(last < clen);
                if last + 1 < clen {
                    cursor = last + 1;
                    proof {
                        assert(bt == Some((remaining as int, path@, cursor as int)));
                    }
                    break;
                }
            }
            proof {
                if path@.len() > 0 {
                    assert(path@.len() < leaf_path.len());
                    assert(tgt - path_sum(ds, leaf_path.take(path@.len() as int)) > 0);
                }
                assert(prefixes_positive(ds, tgt, path@)) by {
                    assert forall|k: int| 1 <= k < path@.len() implies tgt - path_sum(
                        ds,
                        #[trigger] path@.take(k),
                    ) > 0 by {
                        assert(path@.take(k) =~= leaf_path.take(k));
                    }
                }
                assert(search_from(
                    ds,
                    tol,
                    bud,
                    SearchState {
                        remaining: remaining as int,
                        path: path@,
                        cursor: cursor as int,
                        iterations: iterations as int,
                        best: opt_view(best),
                    },
                ) == search_from(ds, tol, bud, st_pre));
            }
        } else {
            if iterations >= iteration_budget {
                let r = SearchOutcome::BudgetExhausted { best };
                proof {
                    assert(r@ == search_from(ds, tol, bud, st_pre));
                }
                return r;
            }
            cursor = 0;
            proof {
                assert(search_from(
                    ds,
                    tol,
                    bud,
                    SearchState {
                        remaining: remaining as int,
                        path: path@,
                        cursor: 0,
                        iterations: iterations as int,
                        best: opt_view(best),
                    },
                ) == search_from(ds, tol, bud, st_pre));
            }
        }
    }
}

/// Validate the configuration and search: a non-positive budget or a
/// negative tolerance is rejected before any search step, exactly as an
/// invalid configuration; on valid input the outcome is exactly the
/// specification interpreter's.
pub fn run_search(catalog: &Catalog, target: i32, iteration_budget: i32, tolerance: i64) -> (r:
    Result<SearchOutcome, SearchError>)
    requires
        catalog.wf(),
    ensures
        match r {
            Ok(o) => iteration_budget >= 1 && tolerance >= 0 && o@ == search_spec(
                catalog.damages(),
                target as int,
                iteration_budget as int,
                tolerance as int,
            ),
            Err(e) => (iteration_budget < 1 || tolerance < 0) && e
                == SearchError::InvalidConfiguration,
        },
{
    if iteration_budget < 1 || tolerance < 0 {
        return Err(SearchError::InvalidConfiguration);
    }
    Ok(search(catalog, target, iteration_budget, tolerance))
}

} // verus!
