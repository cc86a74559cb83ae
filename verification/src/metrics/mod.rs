//! The metrics that the bridge declares of its own accord.

pub mod redpanda;
