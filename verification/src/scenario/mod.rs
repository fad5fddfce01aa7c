//! Seeded coding-agent traffic plans.

pub mod config;
pub mod distribution;
pub mod drawing;
pub mod generate;
pub mod graph;
pub mod laws;
pub mod model;
pub mod outline;
pub mod plan;
pub mod settings;
pub mod source;
pub mod steps;
pub mod tool_parallelism;
pub mod totals;
