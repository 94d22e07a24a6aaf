//! Threshold policies: how leaf acceptance behaves across attempts.
//!
//! With a fixed policy one search runs with the given tolerance.  With an
//! escalating policy, exhaustion of the whole search space relaxes the
//! acceptance bar: the tolerance grows by a fixed step and the search is
//! re-run from scratch, with no state carried over, until a leaf within
//! tolerance is found, the budget runs out inside an attempt, or the
//! attempt cap is reached.

use vstd::prelude::*;

use crate::engine::{search, search_spec, OutcomeV, SearchOutcome};
use crate::spells::Catalog;

verus! {

/// Which acceptance policy a run uses.
#[derive(Clone, Copy, Debug, PartialEq, Eq, Structural)]
pub enum ThresholdPolicy {
    /// One search with the caller's tolerance, unchanged.
    Fixed,
    /// On exhaustion, raise the tolerance by `step` and search again from
    /// scratch, `max_attempts` searches at most.
    Escalating { step: i64, max_attempts: u32 },
}

/// The outcome of up to `attempts` searches, each re-run from scratch
/// with the tolerance raised by `step` after an exhausted attempt.  A
/// budget-exhausted or good-enough attempt ends the run at once.
pub open spec fn escalate_spec(
    ds: Seq<int>,
    target: int,
    budget: int,
    tolerance: int,
    step: int,
    attempts: int,
) -> OutcomeV
    decreases attempts,
{
    let o = search_spec(ds, target, budget, tolerance);
    if attempts <= 1 {
        o
    } else {
        match o {
            OutcomeV::Exhausted { .. } => escalate_spec(
                ds,
                target,
                budget,
                tolerance + step,
                step,
                attempts - 1,
            ),
            _ => o,
        }
    }
}

/// Search with an escalating tolerance: re-run the whole search with the
/// tolerance raised by `step` each time an attempt ends exhausted, up to
/// `max_attempts` attempts in all; the outcome is exactly
/// [`escalate_spec`].
#[verifier::loop_isolation(false)]
pub fn search_escalating(
    catalog: &Catalog,
    target: i32,
    iteration_budget: i32,
    initial_tolerance: i64,
    step: i64,
    max_attempts: u32,
) -> (r: SearchOutcome)
    requires
        catalog.wf(),
        iteration_budget >= 1,
        initial_tolerance >= 0,
        step >= 0,
        max_attempts >= 1,
        initial_tolerance + step * (max_attempts - 1) <= i64::MAX,
    ensures
        r@ == escalate_spec(
            catalog.damages(),
            target as int,
            iteration_budget as int,
            initial_tolerance as int,
            step as int,
            max_attempts as int,
        ),
{
    let ghost ds = catalog.damages();
    let mut tolerance: i64 = initial_tolerance;
    let mut attempt: u32 = 0;
    loop
        invariant
            attempt < max_attempts,
            tolerance >= 0,
            tolerance as int == initial_tolerance + step * (attempt as int),
            escalate_spec(
                ds,
                target as int,
                iteration_budget as int,
                tolerance as int,
                step as int,
                max_attempts - attempt,
            ) == escalate_spec(
                ds,
                target as int,
                iteration_budget as int,
                initial_tolerance as int,
                step as int,
                max_attempts as int,
            ),
        decreases max_attempts - attempt,
    {
        let o = search(catalog, target, iteration_budget, tolerance);
        let exhausted = match &o {
            SearchOutcome::Exhausted { .. } => true,
            _ => false,
        };
        proof {
            assert(exhausted == (o@ matches OutcomeV::Exhausted { .. }));
        }
        if exhausted && attempt + 1 < max_attempts {
            proof {
                assert((attempt + 1) * (step as int) <= (max_attempts - 1) * (step as int)
                    && (attempt + 1) * (step as int) >= 0) by (nonlinear_arith)
                    requires
                        0 <= attempt as int + 1 <= max_attempts as int - 1,
                        step >= 0,
                ;
                assert((step as int) * (attempt as int + 1) == (step as int) * (attempt as int)
                    + step as int) by (nonlinear_arith);
                assert((step as int) * (attempt as int + 1) == (attempt + 1) * (step as int))
                    by (nonlinear_arith);
                assert((max_attempts - 1) * (step as int) == (step as int) * (max_attempts as int
                    - 1)) by (nonlinear_arith);
            }
            tolerance = tolerance + step;
            attempt = attempt + 1;
        } else {
            return o;
        }
    }
}

/// Search under a policy: a fixed policy is one plain search; an
/// escalating one re-runs it per [`escalate_spec`].
pub fn search_with_policy(
    catalog: &Catalog,
    target: i32,
    iteration_budget: i32,
    tolerance: i64,
    policy: ThresholdPolicy,
) -> (r: SearchOutcome)
    requires
        catalog.wf(),
        iteration_budget >= 1,
        tolerance >= 0,
        match policy {
            ThresholdPolicy::Fixed => true,
            ThresholdPolicy::Escalating { step, max_attempts } => step >= 0 && max_attempts >= 1
                && tolerance + step * (max_attempts - 1) <= i64::MAX,
        },
    ensures
        match policy {
            ThresholdPolicy::Fixed => r@ == search_spec(
                catalog.damages(),
                target as int,
                iteration_budget as int,
                tolerance as int,
            ),
            ThresholdPolicy::Escalating { step, max_attempts } => r@ == escalate_spec(
                catalog.damages(),
                target as int,
                iteration_budget as int,
                tolerance as int,
                step as int,
                max_attempts as int,
            ),
        },
{
    match policy {
        ThresholdPolicy::Fixed => search(catalog, target, iteration_budget, tolerance),
        ThresholdPolicy::Escalating { step, max_attempts } => search_escalating(
            catalog,
            target,
            iteration_budget,
            tolerance,
            step,
            max_attempts,
        ),
    }
}

} // verus!
