//! Dispatching rules and the rule engine that orders tasks by them.

pub mod context;
pub mod engine;
pub mod rules;

pub use context::SchedulingContext;
pub use engine::{EvaluationMode, RuleEngine, TieBreaker};
pub use rules::{Rule, RuleScore};
