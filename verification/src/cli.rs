//! Settings from the command line.

use crate::text::{char_list, debug_quoted, find_char, gather, position_of, quoted, same_text};
use crate::text_map::TextMap;
use crate::token_shape::alphabet::{
    range_outcome, tokenizer_outcome, SafeTokenAlphabet, TokenAlphabetSource,
};
use crate::token_shape::error::TokenError;
use crate::trace::agentic::AgenticTurn;
use vstd::prelude::*;

verus! {

// ---------------------------------------------------------------------------------------------
// Pairs
// ---------------------------------------------------------------------------------------------

/// Why a setting is refused.
#[derive(Debug)]
pub enum SettingError {
    NotAPair { label: String, value: String },
    EmptyHeaderName,
    EmptyPart { label: String },
    Repeated { label: String, name: String },
}

impl SettingError {
    /// What a reader is told.
    pub open spec fn text(self) -> Seq<char> {
        match self {
            SettingError::NotAPair { label, value } => label@ + " "@ + quoted(value@) + " must use NAME=VALUE"@,
            SettingError::EmptyHeaderName => "header name must not be empty"@,
            SettingError::EmptyPart { label } => label@ + " names and values must not be empty"@,
            SettingError::Repeated { label, name } => label@ + " "@ + quoted(name@) + " is declared more than once"@,
        }
    }

    /// Writes what a reader is told.
    pub fn message(&self) -> (message: String)
        ensures
            message@ == self.text(),
    {
        match self {
            SettingError::NotAPair { label, value } => {
                let mut message = label.clone();
                message.append(" ");
                message.append(debug_quoted(value.as_str()).as_str());
                message.append(" must use NAME=VALUE");
                message
            },
            SettingError::EmptyHeaderName => "header name must not be empty".to_string(),
            SettingError::EmptyPart { label } => {
                let mut message = label.clone();
                message.append(" names and values must not be empty");
                message
            },
            SettingError::Repeated { label, name } => {
                let mut message = label.clone();
                message.append(" ");
                message.append(debug_quoted(name.as_str()).as_str());
                message.append(" is declared more than once");
                message
            },
        }
    }
}

/// What stands before and after the first equals sign, where there is one.
pub open spec fn pair_in(text: Seq<char>) -> Option<(Seq<char>, Seq<char>)> {
    let at = position_of(text, '=') as int;
    if at < text.len() {
        Some((text.take(at), text.skip(at + 1)))
    } else {
        None
    }
}

fn is_empty(text: &str) -> (empty: bool)
    ensures
        empty == (text@.len() == 0),
{
    proof {
        reveal_strlit("");
        if text@.len() == 0 {
            assert(text@ =~= ""@);
        }
    }
    same_text(text, "")
}

fn split_pair(text: &str) -> (pair: Option<(String, String)>)
    ensures
        match pair {
            Some((name, value)) => pair_in(text@) == Some((name@, value@)),
            None => pair_in(text@) is None,
        },
{
    let chars = char_list(text);
    let at = find_char(&chars, '=');
    if at == chars.len() {
        return None;
    }
    let name = gather(&chars, 0, at);
    let value = gather(&chars, at + 1, chars.len());
    proof {
        assert(name@ =~= text@.take(at as int));
        assert(value@ =~= text@.skip(at + 1));
    }
    Some((name, value))
}

/// What is wrong with the first `n` headers.
pub open spec fn header_failure(headers: Seq<String>, n: nat) -> Option<Seq<char>>
    decreases n,
{
    if n == 0 {
        None
    } else {
        match header_failure(headers, (n - 1) as nat) {
            Some(text) => Some(text),
            None => match pair_in(headers[n - 1]@) {
                None => Some("header"@ + " "@ + quoted(headers[n - 1]@) + " must use NAME=VALUE"@),
                Some((name, _)) => if name.len() == 0 {
                    Some("header name must not be empty"@)
                } else {
                    None
                },
            },
        }
    }
}

proof fn lemma_header_fails(headers: Seq<String>, n: nat, text: Seq<char>)
    requires
        n < headers.len(),
        header_failure(headers, n + 1) == Some(text),
    ensures
        header_failure(headers, headers.len()) == Some(text),
    decreases headers.len() - n,
{
    if n + 1 < headers.len() {
        assert(header_failure(headers, n + 2) == Some(text));
        lemma_header_fails(headers, n + 1, text);
    }
}

/// Reads headers, each as a name and a value.
pub fn parse_headers(headers: Vec<String>) -> (result: Result<Vec<(String, String)>, SettingError>)
    ensures
        match result {
            Ok(pairs) => {
                &&& header_failure(headers@, headers@.len()) is None
                &&& pairs@.len() == headers@.len()
                &&& forall|i: int|
                    0 <= i < headers@.len() ==> pair_in((#[trigger] headers@[i])@) == Some(
                        (pairs@[i].0@, pairs@[i].1@),
                    )
            },
            Err(error) => header_failure(headers@, headers@.len()) == Some(error.text()),
        },
{
    let mut pairs: Vec<(String, String)> = Vec::with_capacity(headers.len());
    let mut i: usize = 0;
    while i < headers.len()
        invariant
            i <= headers@.len(),
            pairs@.len() == i,
            header_failure(headers@, i as nat) is None,
            forall|k: int|
                0 <= k < i ==> pair_in((#[trigger] headers@[k])@) == Some((pairs@[k].0@, pairs@[k].1@)),
        decreases headers@.len() - i,
    {
        match split_pair(headers[i].as_str()) {
            None => {
                let error = SettingError::NotAPair { label: "header".to_string(), value: headers[i].clone() };
                proof {
                    lemma_header_fails(headers@, i as nat, error.text());
                }
                return Err(error);
            },
            Some((name, value)) => {
                if is_empty(name.as_str()) {
                    let error = SettingError::EmptyHeaderName;
                    proof {
                        lemma_header_fails(headers@, i as nat, error.text());
                    }
                    return Err(error);
                }
                pairs.push((name, value));
            },
        }
        i += 1;
    }
    Ok(pairs)
}

/// What the first `n` settings say, up to the first that is refused.
pub open spec fn settings_of(values: Seq<String>, label: Seq<char>, n: nat) -> Result<
    Map<Seq<char>, Seq<char>>,
    Seq<char>,
>
    decreases n,
{
    if n == 0 {
        Ok(Map::empty())
    } else {
        match settings_of(values, label, (n - 1) as nat) {
            Err(text) => Err(text),
            Ok(settings) => match pair_in(values[n - 1]@) {
                None => Err(label + " "@ + quoted(values[n - 1]@) + " must use NAME=VALUE"@),
                Some((name, value)) => if name.len() == 0 || value.len() == 0 {
                    Err(label + " names and values must not be empty"@)
                } else if settings.contains_key(name) {
                    Err(label + " "@ + quoted(name) + " is declared more than once"@)
                } else {
                    Ok(settings.insert(name, value))
                },
            },
        }
    }
}

proof fn lemma_setting_fails(values: Seq<String>, label: Seq<char>, n: nat, text: Seq<char>)
    requires
        n < values.len(),
        settings_of(values, label, n + 1) == Err::<Map<Seq<char>, Seq<char>>, Seq<char>>(text),
    ensures
        settings_of(values, label, values.len()) == Err::<Map<Seq<char>, Seq<char>>, Seq<char>>(text),
    decreases values.len() - n,
{
    if n + 1 < values.len() {
        assert(settings_of(values, label, n + 2) == Err::<Map<Seq<char>, Seq<char>>, Seq<char>>(text));
        lemma_setting_fails(values, label, n + 1, text);
    }
}

/// Reads settings, each declared once.
pub fn parse_key_values(values: Vec<String>, label: &str) -> (result: Result<TextMap, SettingError>)
    ensures
        match result {
            Ok(settings) => settings_of(values@, label@, values@.len()) == Ok::<
                Map<Seq<char>, Seq<char>>,
                Seq<char>,
            >(settings@),
            Err(error) => settings_of(values@, label@, values@.len()) == Err::<
                Map<Seq<char>, Seq<char>>,
                Seq<char>,
            >(error.text()),
        },
{
    let mut parsed = TextMap::new();
    let mut i: usize = 0;
    while i < values.len()
        invariant
            i <= values@.len(),
            settings_of(values@, label@, i as nat) == Ok::<Map<Seq<char>, Seq<char>>, Seq<char>>(parsed@),
        decreases values@.len() - i,
    {
        match split_pair(values[i].as_str()) {
            None => {
                let error = SettingError::NotAPair { label: label.to_string(), value: values[i].clone() };
                proof {
                    lemma_setting_fails(values@, label@, i as nat, error.text());
                }
                return Err(error);
            },
            Some((name, value)) => {
                if is_empty(name.as_str()) || is_empty(value.as_str()) {
                    let error = SettingError::EmptyPart { label: label.to_string() };
                    proof {
                        lemma_setting_fails(values@, label@, i as nat, error.text());
                    }
                    return Err(error);
                }
                if parsed.insert(name.clone(), value) {
                    let error = SettingError::Repeated { label: label.to_string(), name };
                    proof {
                        lemma_setting_fails(values@, label@, i as nat, error.text());
                    }
                    return Err(error);
                }
            },
        }
        i += 1;
    }
    Ok(parsed)
}

// ---------------------------------------------------------------------------------------------
// Arguments
// ---------------------------------------------------------------------------------------------

/// Which part of a trace to take.
#[derive(Debug, Clone, PartialEq, Eq)]
pub struct TraceSelectionArgs {
    /// Keep only this many earliest model requests.
    pub max_requests: Option<usize>,
    /// Replay one session in isolation.
    pub session_id: Option<String>,
}

/// What the caller declares about the engine.
#[derive(Debug, Clone, PartialEq, Eq)]
pub struct FidelityArgs {
    /// Token identifiers reach the engine without being tokenized again.
    pub token_path_verified: bool,
    /// Cache settings of the engine, each a name and a value.
    pub engine_cache_mode: Vec<String>,
}

/// Where token identifiers come from.
#[derive(Debug, Clone, PartialEq, Eq)]
pub struct TokenArgs {
    /// A tokenizer file or directory, or the name of a model.
    pub tokenizer: Option<String>,
    /// The first identifier of a range that the caller vouches for.
    pub token_start: Option<u32>,
    /// The most identifiers to use.
    pub token_alphabet_size: usize,
    /// Identifiers to leave out.
    pub excluded_token_ids: Vec<u32>,
    /// Accept a range that cannot be checked.
    pub allow_unverified_token_range: bool,
}

/// Where the tokens are to come from.
#[derive(Debug)]
pub enum TokenChoice {
    /// From the files of this tokenizer.
    Tokenizer(String),
    Range { start: u32, size: u32 },
}

/// Why arguments name no source of tokens.
#[derive(Debug, Clone, Copy, PartialEq, Eq, Structural)]
pub enum TokenArgsError {
    RangeAllowedWithoutStart,
    StartWithoutRangeAllowed,
    SizeTooLarge,
    BothGiven,
    NoneGiven,
}

impl TokenArgsError {
    /// What a reader is told.
    pub open spec fn text(self) -> Seq<char> {
        match self {
            TokenArgsError::RangeAllowedWithoutStart => "--allow-unverified-token-range requires --token-start"@,
            TokenArgsError::StartWithoutRangeAllowed =>
                "--token-start requires --allow-unverified-token-range; use --tokenizer for verified token safety"@,
            TokenArgsError::SizeTooLarge => "--token-alphabet-size does not fit u32"@,
            TokenArgsError::BothGiven => "use either --tokenizer or --token-start, not both"@,
            TokenArgsError::NoneGiven =>
                "--tokenizer is required for verified token safety; a manual range requires --token-start and --allow-unverified-token-range"@,
        }
    }

    /// Writes what a reader is told.
    pub fn message(&self) -> (message: &'static str)
        ensures
            message@ == self.text(),
    {
        match self {
            TokenArgsError::RangeAllowedWithoutStart => "--allow-unverified-token-range requires --token-start",
            TokenArgsError::StartWithoutRangeAllowed =>
                "--token-start requires --allow-unverified-token-range; use --tokenizer for verified token safety",
            TokenArgsError::SizeTooLarge => "--token-alphabet-size does not fit u32",
            TokenArgsError::BothGiven => "use either --tokenizer or --token-start, not both",
            TokenArgsError::NoneGiven =>
                "--tokenizer is required for verified token safety; a manual range requires --token-start and --allow-unverified-token-range",
        }
    }
}

impl TokenArgs {
    /// The source that the arguments name.
    pub open spec fn choice(self) -> Result<TokenChoice, TokenArgsError> {
        match (self.tokenizer, self.token_start) {
            (Some(tokenizer), None) => if self.allow_unverified_token_range {
                Err(TokenArgsError::RangeAllowedWithoutStart)
            } else {
                Ok(TokenChoice::Tokenizer(tokenizer))
            },
            (None, Some(start)) => if !self.allow_unverified_token_range {
                Err(TokenArgsError::StartWithoutRangeAllowed)
            } else if self.token_alphabet_size > u32::MAX {
                Err(TokenArgsError::SizeTooLarge)
            } else {
                Ok(TokenChoice::Range { start, size: self.token_alphabet_size as u32 })
            },
            (Some(_), Some(_)) => Err(TokenArgsError::BothGiven),
            (None, None) => Err(TokenArgsError::NoneGiven),
        }
    }

    /// Reads the source that the arguments name.
    pub fn token_source(&self) -> (result: Result<TokenChoice, TokenArgsError>)
        ensures
            result == self.choice(),
    {
        match (&self.tokenizer, self.token_start) {
            (Some(tokenizer), None) => {
                if self.allow_unverified_token_range {
                    Err(TokenArgsError::RangeAllowedWithoutStart)
                } else {
                    Ok(TokenChoice::Tokenizer(tokenizer.clone()))
                }
            },
            (None, Some(start)) => {
                if !self.allow_unverified_token_range {
                    Err(TokenArgsError::StartWithoutRangeAllowed)
                } else if self.token_alphabet_size as u64 > u32::MAX as u64 {
                    Err(TokenArgsError::SizeTooLarge)
                } else {
                    Ok(TokenChoice::Range { start, size: self.token_alphabet_size as u32 })
                }
            },
            (Some(_), Some(_)) => Err(TokenArgsError::BothGiven),
            (None, None) => Err(TokenArgsError::NoneGiven),
        }
    }

    /// Takes the tokens from `source`, up to the size asked for and without those left out.
    pub fn load(self, source: TokenAlphabetSource) -> (result: Result<SafeTokenAlphabet, TokenError>)
        ensures
            self.token_alphabet_size < 2 ==> result == Err::<SafeTokenAlphabet, TokenError>(
                TokenError::AlphabetTooSmall,
            ),
            self.token_alphabet_size >= 2 ==> match source {
                TokenAlphabetSource::UnverifiedRange { start, size } => range_outcome(
                    result,
                    start,
                    size,
                    self.excluded_token_ids@.to_set(),
                ),
                TokenAlphabetSource::Tokenizer(files) => tokenizer_outcome(
                    result,
                    files,
                    self.token_alphabet_size as nat,
                    self.excluded_token_ids@,
                ),
            },
    {
        SafeTokenAlphabet::load(source, self.token_alphabet_size, self.excluded_token_ids.as_slice())
    }
}

// ---------------------------------------------------------------------------------------------
// Inspection
// ---------------------------------------------------------------------------------------------

/// How many of the first `n` turns wait for nothing.
pub open spec fn roots_among(turns: Seq<AgenticTurn>, n: nat) -> nat
    decreases n,
{
    if n == 0 {
        0
    } else {
        roots_among(turns, (n - 1) as nat) + (if turns[n - 1].dependencies@.len() == 0 {
            1nat
        } else {
            0nat
        })
    }
}

/// How many dependencies the first `n` turns have.
pub open spec fn edges_among(turns: Seq<AgenticTurn>, n: nat) -> nat
    decreases n,
{
    if n == 0 {
        0
    } else {
        edges_among(turns, (n - 1) as nat) + turns[n - 1].dependencies@.len()
    }
}

proof fn lemma_edges_grow(turns: Seq<AgenticTurn>, n: nat, m: nat)
    requires
        n <= m,
    ensures
        edges_among(turns, n) <= edges_among(turns, m),
    decreases m,
{
    if n < m {
        lemma_edges_grow(turns, n, (m - 1) as nat);
    }
}

/// Counts the turns that wait for nothing, and the dependencies of all turns.
pub fn count_roots_and_edges(turns: &Vec<AgenticTurn>) -> (counts: (usize, usize))
    requires
        edges_among(turns@, turns@.len()) <= usize::MAX,
    ensures
        counts.0 == roots_among(turns@, turns@.len()),
        counts.1 == edges_among(turns@, turns@.len()),
{
    let mut roots: usize = 0;
    let mut edges: usize = 0;
    let mut i: usize = 0;
    while i < turns.len()
        invariant
            i <= turns@.len(),
            roots == roots_among(turns@, i as nat),
            roots <= i,
            edges == edges_among(turns@, i as nat),
            edges_among(turns@, turns@.len()) <= usize::MAX,
        decreases turns@.len() - i,
    {
        proof {
            lemma_edges_grow(turns@, (i + 1) as nat, turns@.len());
        }
        if turns[i].dependencies.len() == 0 {
            roots += 1;
        }
        edges += turns[i].dependencies.len();
        i += 1;
    }
    (roots, edges)
}

} // verus!
