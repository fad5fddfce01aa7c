//! Workload contracts, plans and replay rules for coding-agent load generation.

pub mod agent;
pub mod basics;
pub mod cli;
pub mod compare;
pub mod contracts;
pub mod digest;
pub mod double;
pub mod fidelity;
pub mod groups;
pub mod json;
pub mod numeric;
pub mod ordered;
pub mod replay;
pub mod scenario;
pub mod scheduler;
pub mod text;
pub mod text_map;
pub mod token_shape;
pub mod trace;
