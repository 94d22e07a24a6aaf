//! A combinatorial search helper for a tower-defense style game: given a
//! target health value and a catalog of spells with fixed positive damage,
//! a bounded depth-first backtracking search finds a sequence of spell
//! applications whose cumulative damage meets or exceeds the target with
//! the smallest overshoot, and a pure report transform run-length-encodes
//! the chosen sequence for display.

pub mod engine;
pub mod laws;
pub mod policy;
pub mod report;
pub mod spells;

pub use engine::{BestSolution, SearchOutcome};
pub use policy::ThresholdPolicy;
pub use report::{ReportEntry, ResultReport};
pub use spells::{Catalog, SearchError, Spell, SpellRecord};
