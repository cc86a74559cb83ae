//! The settings that the process is started with. They are fixed for the
//! lifetime of the process.

use vstd::prelude::*;

verus! {

/// All settings.
#[derive(Debug)]
pub struct Settings {
    pub redpanda: RedpandaConfig,
    pub exporter: ExporterConfig,
}

/// The broker side: where the brokers are and what is watched there.
#[derive(Debug)]
pub struct RedpandaConfig {
    pub brokers: Vec<String>,
    pub topics: Vec<String>,
    pub consumer_groups: Vec<String>,
}

/// The scrape endpoint: the port to listen on and the path to serve.
#[derive(Debug)]
pub struct ExporterConfig {
    pub port: u16,
    pub metrics_path: String,
}

impl Default for ExporterConfig {
    /// Port 9102 and path `/metrics`.
    fn default() -> (r: ExporterConfig)
        ensures
            r.port == 9102,
            r.metrics_path@ == "/metrics"@,
    {
        ExporterConfig { port: 9102, metrics_path: "/metrics".to_string() }
    }
}

} // verus!
