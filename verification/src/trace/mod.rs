//! Request traces: records, loading, and lowering to a causal graph.

pub mod agentic;
pub mod dag;
pub mod flat;
pub mod index;
pub mod laws;
pub mod load;
pub mod record;
pub mod selection;
pub mod spans;
pub mod spool;
