//! Why tokens cannot be had.

use crate::text::{decimal, decimal_text};
use vstd::prelude::*;

verus! {

/// Why an alphabet, a dictionary or the tokens of a request cannot be had.
#[derive(Debug)]
pub enum TokenError {
    AlphabetTooSmall,
    AlphabetTooLarge,
    TooFewTokens,
    Tokenizer { path: String, error: String },
    MetadataEncoding { path: String },
    MetadataJson { path: String },
    NoRequests,
    ZeroBlockSize,
    MixedBlockSizes,
    Capacity { alphabet_size: usize, block_size: usize },
    NonceOverflow,
    OtherBlockSize,
    NoCodeword { hash: u64 },
    Length { request_id: String, produced: usize, expected: usize },
}

impl TokenError {
    /// The message.
    pub open spec fn text(self) -> Seq<char> {
        match self {
            TokenError::AlphabetTooSmall => "token alphabet size must be at least two"@,
            TokenError::AlphabetTooLarge => "token alphabet exceeds u32"@,
            TokenError::TooFewTokens => "the safe token alphabet contains fewer than two token IDs"@,
            TokenError::Tokenizer { path, error } => "failed to load tokenizer "@ + path@ + ": "@ + error@,
            TokenError::MetadataEncoding { path } => "tokenizer metadata is not UTF-8 in "@ + path@,
            TokenError::MetadataJson { path } => "invalid tokenizer metadata JSON in "@ + path@,
            TokenError::NoRequests => "cannot build a token dictionary for an empty trace"@,
            TokenError::ZeroBlockSize => "trace block size must be greater than zero"@,
            TokenError::MixedBlockSizes => "all requests must use one trace block size"@,
            TokenError::Capacity { alphabet_size, block_size } => "a token alphabet of "@ + decimal(
                alphabet_size as nat,
            ) + " IDs and block size "@ + decimal(block_size as nat)
                + " cannot encode every u64 trace hash without collisions"@,
            TokenError::NonceOverflow => "codeword nonce overflow"@,
            TokenError::OtherBlockSize => "request block size does not match the token dictionary"@,
            TokenError::NoCodeword { hash } => "missing codeword for sequence hash "@ + decimal(hash as nat),
            TokenError::Length { request_id, produced, expected } => "request "@ + request_id@ + " produced "@
                + decimal(produced as nat) + " tokens, expected "@ + decimal(expected as nat),
        }
    }

    /// The message.
    pub fn message(&self) -> (text: String)
        ensures
            text@ == self.text(),
    {
        match self {
            TokenError::AlphabetTooSmall => "token alphabet size must be at least two".to_string(),
            TokenError::AlphabetTooLarge => "token alphabet exceeds u32".to_string(),
            TokenError::TooFewTokens => "the safe token alphabet contains fewer than two token IDs".to_string(),
            TokenError::Tokenizer { path, error } => {
                let mut text = "failed to load tokenizer ".to_string();
                text.append(path.as_str());
                text.append(": ");
                text.append(error.as_str());
                text
            },
            TokenError::MetadataEncoding { path } => {
                let mut text = "tokenizer metadata is not UTF-8 in ".to_string();
                text.append(path.as_str());
                text
            },
            TokenError::MetadataJson { path } => {
                let mut text = "invalid tokenizer metadata JSON in ".to_string();
                text.append(path.as_str());
                text
            },
            TokenError::NoRequests => "cannot build a token dictionary for an empty trace".to_string(),
            TokenError::ZeroBlockSize => "trace block size must be greater than zero".to_string(),
            TokenError::MixedBlockSizes => "all requests must use one trace block size".to_string(),
            TokenError::Capacity { alphabet_size, block_size } => {
                let mut text = "a token alphabet of ".to_string();
                text.append(decimal_text(*alphabet_size as u64).as_str());
                text.append(" IDs and block size ");
                text.append(decimal_text(*block_size as u64).as_str());
                text.append(" cannot encode every u64 trace hash without collisions");
                text
            },
            TokenError::NonceOverflow => "codeword nonce overflow".to_string(),
            TokenError::OtherBlockSize => "request block size does not match the token dictionary".to_string(),
            TokenError::NoCodeword { hash } => {
                let mut text = "missing codeword for sequence hash ".to_string();
                text.append(decimal_text(*hash).as_str());
                text
            },
            TokenError::Length { request_id, produced, expected } => {
                let mut text = "request ".to_string();
                text.append(request_id.as_str());
                text.append(" produced ");
                text.append(decimal_text(*produced as u64).as_str());
                text.append(" tokens, expected ");
                text.append(decimal_text(*expected as u64).as_str());
                text
            },
        }
    }
}

} // verus!
