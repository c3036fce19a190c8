//! Alert deduplication, trace-context propagation and runtime-configuration
//! validation for an anchor service, with their behaviour proved by Verus.

pub mod text;
mod keyed_map;
pub mod alert_dedup;
pub mod trace_context;
pub mod config;
