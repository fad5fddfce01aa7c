//! Synthetic tokens that stand for recorded key-value blocks.

pub mod allocated;
pub mod alphabet;
pub mod codeword;
pub mod dictionary;
pub mod error;
pub mod file;
pub mod laws;
pub mod tokenizer;
