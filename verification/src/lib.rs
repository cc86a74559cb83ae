//! A metrics collection and re-exposition bridge.
//!
//! Raw text gathered from metric sources is parsed into labelled samples,
//! merged into a registry of counters and gauges, and rendered back into a
//! line-oriented text exposition payload.

pub mod config;
pub mod coordinator;
pub mod exposition;
pub mod identity;
pub mod kernel;
pub mod labels;
pub mod metrics;
pub mod parser;
pub mod registry;
pub mod round_trip;
pub mod sample;
pub mod shared;
pub mod text;
