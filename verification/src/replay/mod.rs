//! Replay of workloads against a live target: what to send, when, and how it went.

pub mod artifacts;
pub mod causal;
pub mod histogram;
pub mod laws;
pub mod options;
pub mod outcomes;
pub mod recorded;
pub mod request;
pub mod result;
pub mod runs;
pub mod stream;
pub mod telemetry;
pub mod wire;
pub mod workload;
