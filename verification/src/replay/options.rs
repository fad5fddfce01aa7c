//! Settings of a run.

use crate::agent::{is_managed_header, managed, AgentKind};
use crate::double::Real;
use crate::text::{blank, char_list, debug_quoted, decimal, decimal_text, gather, is_blank, quoted};
use crate::text_map::TextMap;
use vstd::prelude::*;
use vstd::utf8::encode_utf8;

verus! {

/// How requests reach the target.
#[derive(Debug, Clone, Copy, PartialEq, Eq, Structural)]
pub enum HttpTransport {
    Auto,
    Http2PriorKnowledge,
}

/// What kind of traffic a run sends.
#[derive(Debug, Clone, Copy, PartialEq, Eq, Structural)]
pub enum TrafficKind {
    SyntheticKvShape,
    CapturedTrace,
}

impl TrafficKind {
    /// The name of the scheduling model.
    pub open spec fn model_name(self) -> Seq<char> {
        match self {
            TrafficKind::CapturedTrace => "agentic_causal"@,
            TrafficKind::SyntheticKvShape => "generated_causal"@,
        }
    }

    /// The name of the scheduling model.
    pub fn scheduling_model(self) -> (name: &'static str)
        ensures
            name@ == self.model_name(),
    {
        match self {
            TrafficKind::CapturedTrace => "agentic_causal",
            TrafficKind::SyntheticKvShape => "generated_causal",
        }
    }
}

/// Settings of a run. Limits and scales are real numbers; times are whole milliseconds.
#[derive(Debug)]
pub struct ReplayOptions {
    pub agent: AgentKind,
    /// The product name that one agent puts into the names of its headers.
    pub product: String,
    pub model: String,
    pub target: String,
    pub output_dir: String,
    pub max_in_flight: usize,
    pub warmup_connections: usize,
    pub http_transport: HttpTransport,
    pub prepare_lookahead_ms: Option<u64>,
    pub result_flush_interval: usize,
    pub max_dispatch_p99_ms: Real,
    pub max_dispatch_max_ms: Real,
    pub start_delay_ms: u64,
    pub timeout_ms: u64,
    pub time_scale: Real,
    pub token_path_verified: bool,
    pub engine_cache_mode: TextMap,
    pub static_headers: Vec<(String, String)>,
}

/// Why a run cannot start with its settings.
#[derive(Debug)]
pub enum OptionsError {
    EmptyModel,
    NothingInFlight,
    TooManyWarmups,
    NoFlushInterval,
    TimeScale,
    DispatchP99,
    DispatchMax,
    ManagedHeader { name: String },
    HeaderName { name: String },
    HeaderValue { name: String },
    NoLookahead,
    OtherAgent,
}

impl OptionsError {
    /// The message.
    pub open spec fn text(self) -> Seq<char> {
        match self {
            OptionsError::EmptyModel => "model must not be empty"@,
            OptionsError::NothingInFlight => "max_in_flight must be greater than zero"@,
            OptionsError::TooManyWarmups => "warmup_connections must not exceed max_in_flight"@,
            OptionsError::NoFlushInterval => "result_flush_interval must be greater than zero"@,
            OptionsError::TimeScale => "time_scale must be a positive finite number"@,
            OptionsError::DispatchP99 => "max_dispatch_p99_ms must be a non-negative finite number"@,
            OptionsError::DispatchMax => "max_dispatch_max_ms must be a non-negative finite number"@,
            OptionsError::ManagedHeader { name } => "static header "@ + quoted(name@) + " is owned by agent-loadgen"@,
            OptionsError::HeaderName { name } => "invalid static header name "@ + quoted(name@),
            OptionsError::HeaderValue { name } => "invalid value for static header "@ + quoted(name@),
            OptionsError::NoLookahead => "prepare_lookahead must be greater than zero"@,
            OptionsError::OtherAgent => "generated scenario agent does not match the request header adapter"@,
        }
    }

    /// The message.
    pub fn message(&self) -> (text: String)
        ensures
            text@ == self.text(),
    {
        match self {
            OptionsError::EmptyModel => "model must not be empty".to_string(),
            OptionsError::NothingInFlight => "max_in_flight must be greater than zero".to_string(),
            OptionsError::TooManyWarmups => "warmup_connections must not exceed max_in_flight".to_string(),
            OptionsError::NoFlushInterval => "result_flush_interval must be greater than zero".to_string(),
            OptionsError::TimeScale => "time_scale must be a positive finite number".to_string(),
            OptionsError::DispatchP99 => "max_dispatch_p99_ms must be a non-negative finite number".to_string(),
            OptionsError::DispatchMax => "max_dispatch_max_ms must be a non-negative finite number".to_string(),
            OptionsError::ManagedHeader { name } => {
                let mut text = "static header ".to_string();
                text.append(debug_quoted(name.as_str()).as_str());
                text.append(" is owned by agent-loadgen");
                text
            },
            OptionsError::HeaderName { name } => {
                let mut text = "invalid static header name ".to_string();
                text.append(debug_quoted(name.as_str()).as_str());
                text
            },
            OptionsError::HeaderValue { name } => {
                let mut text = "invalid value for static header ".to_string();
                text.append(debug_quoted(name.as_str()).as_str());
                text
            },
            OptionsError::NoLookahead => "prepare_lookahead must be greater than zero".to_string(),
            OptionsError::OtherAgent => {
                "generated scenario agent does not match the request header adapter".to_string()
            },
        }
    }
}

/// A byte that a header name may hold.
pub open spec fn name_byte(b: u8) -> bool {
    ||| 48 <= b <= 57
    ||| 65 <= b <= 90
    ||| 94 <= b <= 122
    ||| 35 <= b <= 39
    ||| b == 33 || b == 42 || b == 43 || b == 45 || b == 46 || b == 124 || b == 126
}

/// A header name: one to 65535 bytes, all of them allowed.
pub open spec fn valid_name(name: Seq<char>) -> bool {
    let bytes = encode_utf8(name);
    0 < bytes.len() <= 65535 && forall|i: int| 0 <= i < bytes.len() ==> name_byte(#[trigger] bytes[i])
}

/// A header value: no control bytes but tabs.
pub open spec fn valid_value(value: Seq<char>) -> bool {
    let bytes = encode_utf8(value);
    forall|i: int| 0 <= i < bytes.len() ==> (#[trigger] bytes[i] >= 32 && bytes[i] != 127) || bytes[i] == 9
}

/// `reqwest::header::HeaderName::from_bytes` succeeds: on one to 65535 bytes, each of which may
/// stand in a header name.
#[verifier::external_body]
pub(crate) fn is_header_name(name: &str) -> (valid: bool)
    ensures
        valid == valid_name(name@),
{
    reqwest::header::HeaderName::from_bytes(name.as_bytes()).is_ok()
}

/// `reqwest::header::HeaderValue::from_str` succeeds: on text whose bytes are tabs or neither
/// below 32 nor 127.
#[verifier::external_body]
pub(crate) fn is_header_value(value: &str) -> (valid: bool)
    ensures
        valid == valid_value(value@),
{
    reqwest::header::HeaderValue::from_str(value).is_ok()
}

/// Why a static header cannot be sent.
pub open spec fn header_failure(header: (String, String), product: Seq<char>) -> Option<OptionsError> {
    if managed(header.0@, product) {
        Some(OptionsError::ManagedHeader { name: header.0 })
    } else if !valid_name(header.0@) {
        Some(OptionsError::HeaderName { name: header.0 })
    } else if !valid_value(header.1@) {
        Some(OptionsError::HeaderValue { name: header.0 })
    } else {
        None
    }
}

/// Why one of the first `n` static headers cannot be sent.
pub open spec fn headers_failure(headers: Seq<(String, String)>, product: Seq<char>, n: nat) -> Option<OptionsError>
    decreases n,
{
    if n == 0 {
        None
    } else {
        match headers_failure(headers, product, (n - 1) as nat) {
            Some(error) => Some(error),
            None => header_failure(headers[n - 1], product),
        }
    }
}

/// Why a run cannot start with its settings.
pub open spec fn options_failure(options: ReplayOptions) -> Option<OptionsError> {
    if blank(options.model@) {
        Some(OptionsError::EmptyModel)
    } else if options.max_in_flight == 0 {
        Some(OptionsError::NothingInFlight)
    } else if options.warmup_connections > options.max_in_flight {
        Some(OptionsError::TooManyWarmups)
    } else if options.result_flush_interval == 0 {
        Some(OptionsError::NoFlushInterval)
    } else if !options.time_scale.positive() {
        Some(OptionsError::TimeScale)
    } else if !options.max_dispatch_p99_ms.not_negative() {
        Some(OptionsError::DispatchP99)
    } else if !options.max_dispatch_max_ms.not_negative() {
        Some(OptionsError::DispatchMax)
    } else {
        headers_failure(options.static_headers@, options.product@, options.static_headers@.len())
    }
}

/// Checks the settings of a run.
pub fn validate_options(options: &ReplayOptions) -> (result: Result<(), OptionsError>)
    ensures
        match result {
            Ok(()) => options_failure(*options) is None,
            Err(error) => options_failure(*options) == Some(error),
        },
{
    if is_blank(options.model.as_str()) {
        return Err(OptionsError::EmptyModel);
    }
    if options.max_in_flight == 0 {
        return Err(OptionsError::NothingInFlight);
    }
    if options.warmup_connections > options.max_in_flight {
        return Err(OptionsError::TooManyWarmups);
    }
    if options.result_flush_interval == 0 {
        return Err(OptionsError::NoFlushInterval);
    }
    if !options.time_scale.is_positive() {
        return Err(OptionsError::TimeScale);
    }
    if !options.max_dispatch_p99_ms.is_not_negative() {
        return Err(OptionsError::DispatchP99);
    }
    if !options.max_dispatch_max_ms.is_not_negative() {
        return Err(OptionsError::DispatchMax);
    }
    let headers = &options.static_headers;
    let mut i: usize = 0;
    while i < headers.len()
        invariant
            i <= headers@.len(),
            *headers == options.static_headers,
            headers_failure(headers@, options.product@, i as nat) is None,
            options_failure(*options) == headers_failure(headers@, options.product@, headers@.len()),
        decreases headers@.len() - i,
    {
        let name = headers[i].0.as_str();
        let failure = if is_managed_header(name, options.product.as_str()) {
            Some(OptionsError::ManagedHeader { name: headers[i].0.clone() })
        } else if !is_header_name(name) {
            Some(OptionsError::HeaderName { name: headers[i].0.clone() })
        } else if !is_header_value(headers[i].1.as_str()) {
            Some(OptionsError::HeaderValue { name: headers[i].0.clone() })
        } else {
            None
        };
        assert(failure == header_failure(headers@[i as int], options.product@));
        assert(headers_failure(headers@, options.product@, (i + 1) as nat) == failure);
        if let Some(error) = failure {
            proof {
                lemma_first_failure_stands(headers@, options.product@, (i + 1) as nat, headers@.len());
            }
            return Err(error);
        }
        i += 1;
    }
    Ok(())
}

proof fn lemma_first_failure_stands(headers: Seq<(String, String)>, product: Seq<char>, m: nat, n: nat)
    requires
        m <= n,
        headers_failure(headers, product, m) is Some,
    ensures
        headers_failure(headers, product, n) == headers_failure(headers, product, m),
    decreases n,
{
    if m < n {
        lemma_first_failure_stands(headers, product, m, (n - 1) as nat);
    }
}

/// No setting lets a static header stand in for one that requests set themselves.
pub proof fn law_static_headers_are_unmanaged(options: ReplayOptions, i: int)
    requires
        options_failure(options) is None,
        0 <= i < options.static_headers@.len(),
    ensures
        !managed(options.static_headers@[i].0@, options.product@),
        valid_name(options.static_headers@[i].0@),
        valid_value(options.static_headers@[i].1@),
{
    lemma_no_failure_at(options.static_headers@, options.product@, options.static_headers@.len(), i);
}

proof fn lemma_no_failure_at(headers: Seq<(String, String)>, product: Seq<char>, n: nat, i: int)
    requires
        headers_failure(headers, product, n) is None,
        0 <= i < n,
    ensures
        header_failure(headers[i], product) is None,
    decreases n,
{
    if i < n - 1 {
        lemma_no_failure_at(headers, product, (n - 1) as nat, i);
    }
}

/// Checks how far ahead a recorded stream is prepared.
pub fn validate_lookahead(lookahead_ns: u64) -> (result: Result<(), OptionsError>)
    ensures
        result == (if lookahead_ns == 0 {
            Err(OptionsError::NoLookahead)
        } else {
            Ok(())
        }),
{
    if lookahead_ns == 0 {
        Err(OptionsError::NoLookahead)
    } else {
        Ok(())
    }
}

/// Checks that a scenario was planned for the agent whose headers a run sends.
pub fn validate_agent(options: &ReplayOptions, planned: AgentKind) -> (result: Result<(), OptionsError>)
    ensures
        result == (if options.agent != planned {
            Err(OptionsError::OtherAgent)
        } else {
            Ok(())
        }),
{
    if options.agent != planned {
        Err(OptionsError::OtherAgent)
    } else {
        Ok(())
    }
}

// ---------------------------------------------------------------------------------------------
// Targets
// ---------------------------------------------------------------------------------------------

/// `text` without the slashes at its end.
pub open spec fn unslashed(text: Seq<char>) -> Seq<char>
    decreases text.len(),
{
    if text.len() > 0 && text.last() == '/' {
        unslashed(text.drop_last())
    } else {
        text
    }
}

/// `text` ends with `suffix`.
pub open spec fn ends_with(text: Seq<char>, suffix: Seq<char>) -> bool {
    text.len() >= suffix.len() && text.subrange(text.len() - suffix.len(), text.len() as int) == suffix
}

/// The path of the endpoint.
pub open spec fn endpoint_path() -> Seq<char> {
    "/v1/chat/completions"@
}

/// The endpoint of a target, which may be given with or without its path.
pub open spec fn endpoint_of(target: Seq<char>) -> Seq<char> {
    let base = unslashed(target);
    if ends_with(base, endpoint_path()) {
        base
    } else {
        base + endpoint_path()
    }
}

proof fn lemma_unslashed(text: Seq<char>, n: int)
    requires
        0 <= n <= text.len(),
        forall|i: int| n <= i < text.len() ==> text[i] == '/',
        n > 0 ==> text[n - 1] != '/',
    ensures
        unslashed(text) == text.take(n),
    decreases text.len(),
{
    if n < text.len() {
        lemma_unslashed(text.drop_last(), n);
        assert(text.drop_last().take(n) =~= text.take(n));
    } else {
        assert(text.take(n) =~= text);
    }
}

fn has_suffix(chars: &Vec<char>, end: usize, suffix: &Vec<char>) -> (result: bool)
    requires
        end <= chars@.len(),
    ensures
        result == ends_with(chars@.take(end as int), suffix@),
{
    if end < suffix.len() {
        return false;
    }
    let start = end - suffix.len();
    let ghost tail = chars@.take(end as int).subrange(start as int, end as int);
    let mut i: usize = 0;
    while i < suffix.len()
        invariant
            i <= suffix@.len(),
            start + suffix@.len() == end,
            end <= chars@.len(),
            tail == chars@.take(end as int).subrange(start as int, end as int),
            forall|k: int| 0 <= k < i ==> tail[k] == suffix@[k],
        decreases suffix@.len() - i,
    {
        if chars[start + i] != suffix[i] {
            assert(tail[i as int] != suffix@[i as int]);
            return false;
        }
        i += 1;
    }
    assert(tail =~= suffix@);
    true
}

/// Completes a target to its endpoint.
pub fn normalize_target(target: &str) -> (endpoint: String)
    ensures
        endpoint@ == endpoint_of(target@),
{
    let chars = char_list(target);
    let suffix = char_list("/v1/chat/completions");
    let mut end: usize = chars.len();
    while end > 0 && chars[end - 1] == '/'
        invariant
            end <= chars@.len(),
            forall|i: int| end <= i < chars@.len() ==> chars@[i] == '/',
        decreases end,
    {
        end -= 1;
    }
    proof {
        lemma_unslashed(chars@, end as int);
        assert(chars@.subrange(0, end as int) =~= chars@.take(end as int));
    }
    let mut endpoint = gather(&chars, 0, end);
    if !has_suffix(&chars, end, &suffix) {
        endpoint.append("/v1/chat/completions");
    }
    endpoint
}

/// Completing a target twice changes nothing more.
pub proof fn law_endpoints_are_complete(target: Seq<char>)
    ensures
        endpoint_of(endpoint_of(target)) == endpoint_of(target),
        ends_with(endpoint_of(target), endpoint_path()),
{
    reveal_strlit("/v1/chat/completions");
    let endpoint = endpoint_of(target);
    let base = unslashed(target);
    let path = endpoint_path();
    if !ends_with(base, path) {
        assert(endpoint.subrange(endpoint.len() - path.len(), endpoint.len() as int) =~= path);
    }
    let tail = endpoint.subrange(endpoint.len() - path.len(), endpoint.len() as int);
    assert(tail == path);
    assert(endpoint.last() == tail[path.len() - 1]);
    assert(path[19] == 's');
    assert(unslashed(endpoint) == endpoint);
}

/// Where connections are warmed up: the model list beside the endpoint.
pub open spec fn models_of(endpoint: Seq<char>) -> Seq<char> {
    if ends_with(endpoint, endpoint_path()) {
        endpoint.take(endpoint.len() - endpoint_path().len()) + "/v1/models"@
    } else {
        endpoint
    }
}

/// Finds where to warm up connections.
pub fn models_target(endpoint: &str) -> (target: String)
    ensures
        target@ == models_of(endpoint@),
{
    let chars = char_list(endpoint);
    let suffix = char_list("/v1/chat/completions");
    assert(chars@.take(chars@.len() as int) =~= chars@);
    if has_suffix(&chars, chars.len(), &suffix) {
        let end = chars.len() - suffix.len();
        let mut target = gather(&chars, 0, end);
        assert(chars@.subrange(0, end as int) =~= chars@.take(end as int));
        target.append("/v1/models");
        target
    } else {
        endpoint.to_string()
    }
}

// ---------------------------------------------------------------------------------------------
// Machine limits
// ---------------------------------------------------------------------------------------------

/// Files that a run keeps open besides its connections.
pub const RESERVED_FILE_DESCRIPTORS: usize = 64;

/// Why the limit on open files stands in the way.
#[derive(Debug)]
pub enum FileLimitError {
    Overflow,
    HardLimit { desired: u64, limit: u64 },
}

impl FileLimitError {
    /// The message.
    pub open spec fn text(self) -> Seq<char> {
        match self {
            FileLimitError::Overflow => "the requested open-file limit overflows usize"@,
            FileLimitError::HardLimit { desired, limit } => "max_in_flight requires at least "@ + decimal(
                desired as nat,
            ) + " open files, but RLIMIT_NOFILE hard limit is "@ + decimal(limit as nat),
        }
    }

    /// The message.
    pub fn message(&self) -> (text: String)
        ensures
            text@ == self.text(),
    {
        match self {
            FileLimitError::Overflow => "the requested open-file limit overflows usize".to_string(),
            FileLimitError::HardLimit { desired, limit } => {
                let mut text = "max_in_flight requires at least ".to_string();
                text.append(decimal_text(*desired).as_str());
                text.append(" open files, but RLIMIT_NOFILE hard limit is ");
                text.append(decimal_text(*limit).as_str());
                text
            },
        }
    }
}

/// What to raise the soft limit on open files to, given both limits; nothing where it is high
/// enough.
pub fn prepare_open_file_limit(max_in_flight: usize, soft: u64, hard: u64) -> (result: Result<
    Option<u64>,
    FileLimitError,
>)
    ensures
        result == ({
            let desired = max_in_flight + RESERVED_FILE_DESCRIPTORS;
            if desired > usize::MAX {
                Err(FileLimitError::Overflow)
            } else if soft >= desired {
                Ok(None)
            } else if hard < desired {
                Err(FileLimitError::HardLimit { desired: desired as u64, limit: hard })
            } else {
                Ok(Some(desired as u64))
            }
        }),
{
    let desired = match max_in_flight.checked_add(RESERVED_FILE_DESCRIPTORS) {
        Some(desired) => desired as u64,
        None => return Err(FileLimitError::Overflow),
    };
    if soft >= desired {
        return Ok(None);
    }
    if hard < desired {
        return Err(FileLimitError::HardLimit { desired, limit: hard });
    }
    Ok(Some(desired))
}

/// A duration in nanoseconds, or the longest one that fits.
pub fn duration_ns(nanoseconds: u128) -> (result: u64)
    ensures
        result == (if nanoseconds <= u64::MAX {
            nanoseconds as u64
        } else {
            u64::MAX
        }),
{
    if nanoseconds <= u64::MAX as u128 {
        nanoseconds as u64
    } else {
        u64::MAX
    }
}

} // verus!
