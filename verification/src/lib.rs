//! Decision logic of an autonomous optimisation loop: configuration checks,
//! results-table parsing, metric extraction, Pareto comparison, the loop's
//! keep/discard state machine and a UCB1 strategy bandit.

pub mod num;
pub mod text;
pub mod config;
pub mod compare;
pub mod table;
pub mod decide;
pub mod session;
pub mod bandit;
pub mod metrics;
pub mod results;
pub mod hints;
