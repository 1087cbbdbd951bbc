//! Sync and aggregation engine of a ticket dashboard: rule-based
//! categorization, an idempotent ticket store, single-flight sync
//! coordination, remote-page handling and dashboard statistics.

pub mod model;
pub mod text;
pub mod order;
pub mod categorizer;
pub mod errors;
pub mod time_calc;
pub mod store;
pub mod jira;
pub mod sync;
pub mod scheduler;
pub mod aggregation;
