//! Timeline constraint engine: a precedence graph over narrative events, the
//! interval and track layout computed from it, the planner that attaches a new
//! event, and the liveness consistency check over the whole timeline.

pub mod types;
pub mod graph;
pub mod schedule;
pub mod checker;
pub mod planner;
