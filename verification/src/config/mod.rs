//! Process configuration.

pub mod settings;
