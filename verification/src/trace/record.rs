//! Trace records and the entries compiled from them.

use crate::contracts::{AgentContext, TraceRequest};
use crate::numeric::{ceil_div, div_ceil, saturating_i64, signed};
use crate::text::{decimal, decimal_text, same_text};
use vstd::prelude::*;

verus! {

/// A terminal event of a request trace.
#[derive(Debug)]
pub struct TraceRecord {
    pub schema: String,
    pub event_type: String,
    pub event_time_unix_ms: u64,
    pub agent_context: Option<AgentContext>,
    pub request: Option<RequestMetrics>,
    pub tool: Option<ToolMetrics>,
}

/// A direct record, or the nested `event` of a wrapped record, before its required fields are
/// known to be there.
#[derive(Debug)]
pub struct TraceRecordFields {
    pub schema: Option<String>,
    pub event_type: Option<String>,
    pub event_time_unix_ms: Option<u64>,
    pub agent_context: Option<AgentContext>,
    pub request: Option<RequestMetrics>,
    pub tool: Option<ToolMetrics>,
}

/// What the trace says of one request.
#[derive(Debug)]
pub struct RequestMetrics {
    pub request_id: String,
    pub x_request_id: Option<String>,
    pub model: Option<String>,
    pub input_tokens: Option<u64>,
    pub output_tokens: Option<u64>,
    pub request_received_ms: Option<u64>,
    /// Service time in whole milliseconds, never negative.
    pub total_time_ms: Option<u64>,
    pub replay: Option<ReplayMetrics>,
}

/// The token shape of a request input.
#[derive(Debug)]
pub struct ReplayMetrics {
    pub trace_block_size: usize,
    pub input_length: usize,
    pub input_sequence_hashes: Vec<u64>,
}

/// What the trace says of one tool call.
#[derive(Debug)]
pub struct ToolMetrics {
    pub tool_call_id: String,
    pub tool_class: String,
    pub claude: Option<ClaudeToolReplayMetrics>,
    pub started_at_unix_ms: Option<u64>,
    pub ended_at_unix_ms: Option<u64>,
    /// Duration in whole milliseconds, never negative.
    pub duration_ms: Option<u64>,
    pub status: Option<String>,
    pub output_bytes: Option<u64>,
    pub output_tokens: Option<u64>,
    pub error_type: Option<String>,
}

/// Evidence from one agent alone, which disambiguates a subagent launch and join.
#[derive(Debug)]
pub struct ClaudeToolReplayMetrics {
    pub source_request_id: String,
    pub consumer_request_id: Option<String>,
    pub child_session_id: Option<String>,
    pub execution_mode: String,
}

/// One line of a trace: a JSON object, or any other JSON value.
pub enum JsonLineEnvelope {
    Object(TraceRecordEnvelope),
    Other,
}

/// A line that is an object: its own fields and the event that it may wrap.
pub struct TraceRecordEnvelope {
    pub record: TraceRecordFields,
    pub event: Option<TraceEventEnvelope>,
}

/// A wrapped event: a JSON object, or any other JSON value.
pub enum TraceEventEnvelope {
    Object(TraceRecordFields),
    Other,
}

/// A compiled request with its recorded interval.
#[derive(Debug)]
pub struct RequestEntry {
    pub request: TraceRequest,
    pub start_ms: i64,
    pub end_ms: i64,
}

/// A compiled tool call with its recorded interval.
#[derive(Debug)]
pub struct ToolEntry {
    pub session_id: String,
    pub start_ms: i64,
    pub end_ms: i64,
    pub tool_call_id: String,
    pub tool_class: String,
    pub claude: Option<ClaudeToolReplayMetrics>,
    pub status: String,
    pub duration_ms: u64,
    pub output_bytes: Option<u64>,
    pub output_tokens: Option<u64>,
    pub error_type: Option<String>,
}

/// Why a record cannot be used.
#[derive(Debug)]
pub enum RecordError {
    NoSchema,
    NoEventType,
    NoEventTime,
    NoRequestMetrics,
    NoReplayMetrics,
    ZeroBlockSize,
    ZeroInputLength,
    HashCount { request_id: String, found: usize, expected: usize },
    InputLengthMismatch { request_id: String },
    NoOutputTokens,
    OutputTokensTooLarge,
    ZeroOutputTokens { request_id: String },
    NoReceivedTime,
}

impl RecordError {
    /// The words of the error.
    pub open spec fn text(self) -> Seq<char> {
        match self {
            RecordError::NoSchema => "trace record has no schema"@,
            RecordError::NoEventType => "trace record has no event_type"@,
            RecordError::NoEventTime => "trace record has no event_time_unix_ms"@,
            RecordError::NoRequestMetrics => "request_end has no request metrics"@,
            RecordError::NoReplayMetrics => "request_end has no replay metrics"@,
            RecordError::ZeroBlockSize => "trace_block_size must be greater than zero"@,
            RecordError::ZeroInputLength => "input_length must be greater than zero"@,
            RecordError::HashCount { request_id, found, expected } => "request "@ + request_id@ + " has "@
                + decimal(found as nat) + " replay hashes, expected "@ + decimal(expected as nat),
            RecordError::InputLengthMismatch { request_id } => "request "@ + request_id@
                + " input_tokens does not match replay input_length"@,
            RecordError::NoOutputTokens => "request has no output_tokens"@,
            RecordError::OutputTokensTooLarge => "output_tokens does not fit u32"@,
            RecordError::ZeroOutputTokens { request_id } => "request "@ + request_id@ + " has zero output tokens"@,
            RecordError::NoReceivedTime => "request has no request_received_ms"@,
        }
    }

    /// Puts the error in words.
    pub fn message(&self) -> (text: String)
        ensures
            text@ == self.text(),
    {
        match self {
            RecordError::NoSchema => "trace record has no schema".to_string(),
            RecordError::NoEventType => "trace record has no event_type".to_string(),
            RecordError::NoEventTime => "trace record has no event_time_unix_ms".to_string(),
            RecordError::NoRequestMetrics => "request_end has no request metrics".to_string(),
            RecordError::NoReplayMetrics => "request_end has no replay metrics".to_string(),
            RecordError::ZeroBlockSize => "trace_block_size must be greater than zero".to_string(),
            RecordError::ZeroInputLength => "input_length must be greater than zero".to_string(),
            RecordError::HashCount { request_id, found, expected } => {
                let mut text = "request ".to_string();
                text.append(request_id.as_str());
                text.append(" has ");
                text.append(decimal_text(*found as u64).as_str());
                text.append(" replay hashes, expected ");
                text.append(decimal_text(*expected as u64).as_str());
                text
            },
            RecordError::InputLengthMismatch { request_id } => {
                let mut text = "request ".to_string();
                text.append(request_id.as_str());
                text.append(" input_tokens does not match replay input_length");
                text
            },
            RecordError::NoOutputTokens => "request has no output_tokens".to_string(),
            RecordError::OutputTokensTooLarge => "output_tokens does not fit u32".to_string(),
            RecordError::ZeroOutputTokens { request_id } => {
                let mut text = "request ".to_string();
                text.append(request_id.as_str());
                text.append(" has zero output tokens");
                text
            },
            RecordError::NoReceivedTime => "request has no request_received_ms".to_string(),
        }
    }
}

impl TraceRecordFields {
    /// The event type is there and reads `name`.
    pub open spec fn has_type(self, name: Seq<char>) -> bool {
        self.event_type matches Some(event_type) && event_type@ == name
    }

    /// The record with its required fields, or the first one that is missing.
    pub open spec fn finished(self) -> Result<TraceRecord, RecordError> {
        match (self.schema, self.event_type, self.event_time_unix_ms) {
            (None, _, _) => Err(RecordError::NoSchema),
            (_, None, _) => Err(RecordError::NoEventType),
            (_, _, None) => Err(RecordError::NoEventTime),
            (Some(schema), Some(event_type), Some(event_time_unix_ms)) => Ok(
                TraceRecord {
                    schema,
                    event_type,
                    event_time_unix_ms,
                    agent_context: self.agent_context,
                    request: self.request,
                    tool: self.tool,
                },
            ),
        }
    }

    pub fn finish(self) -> (result: Result<TraceRecord, RecordError>)
        ensures
            result == self.finished(),
    {
        match self.schema {
            None => Err(RecordError::NoSchema),
            Some(schema) => match self.event_type {
                None => Err(RecordError::NoEventType),
                Some(event_type) => match self.event_time_unix_ms {
                    None => Err(RecordError::NoEventTime),
                    Some(event_time_unix_ms) => Ok(
                        TraceRecord {
                            schema,
                            event_type,
                            event_time_unix_ms,
                            agent_context: self.agent_context,
                            request: self.request,
                            tool: self.tool,
                        },
                    ),
                },
            },
        }
    }
}

/// The fields that a line stands for: its own, or those of the event that it wraps.
pub open spec fn line_fields(line: JsonLineEnvelope) -> Option<TraceRecordFields> {
    match line {
        JsonLineEnvelope::Other => None,
        JsonLineEnvelope::Object(envelope) => match envelope.event {
            Some(TraceEventEnvelope::Object(fields)) => Some(fields),
            Some(TraceEventEnvelope::Other) => None,
            None => Some(envelope.record),
        },
    }
}

/// The record on a line. Lines that are no objects and request payloads hold none, whatever
/// else they lack.
pub open spec fn line_record(line: JsonLineEnvelope) -> Result<Option<TraceRecord>, RecordError> {
    match line_fields(line) {
        None => Ok(None),
        Some(fields) => if fields.has_type("request_payload"@) {
            Ok(None)
        } else {
            match fields.finished() {
                Ok(record) => Ok(Some(record)),
                Err(error) => Err(error),
            }
        },
    }
}

/// Reads the record on a line.
pub fn parse_trace_record(line: JsonLineEnvelope) -> (result: Result<Option<TraceRecord>, RecordError>)
    ensures
        result == line_record(line),
{
    let envelope = match line {
        JsonLineEnvelope::Object(envelope) => envelope,
        JsonLineEnvelope::Other => {
            return Ok(None);
        },
    };
    let fields = match envelope.event {
        Some(TraceEventEnvelope::Object(fields)) => fields,
        Some(TraceEventEnvelope::Other) => {
            return Ok(None);
        },
        None => envelope.record,
    };
    let payload = match &fields.event_type {
        Some(event_type) => same_text(event_type.as_str(), "request_payload"),
        None => false,
    };
    if payload {
        return Ok(None);
    }
    match fields.finish() {
        Ok(record) => Ok(Some(record)),
        Err(error) => Err(error),
    }
}

/// When a request that was received at `received` completed, by its service time, or else by
/// the time of its event.
pub open spec fn completed_ms(received: u64, total_time_ms: Option<u64>, event_time_unix_ms: u64) -> u64 {
    let total = match total_time_ms {
        Some(total) => total as int,
        None => if event_time_unix_ms > received {
            event_time_unix_ms - received
        } else {
            0
        },
    };
    if received + total > u64::MAX {
        u64::MAX
    } else {
        (received + total) as u64
    }
}

/// The request that a terminal record describes, or what is wrong with it.
pub open spec fn request_entry(record: TraceRecord) -> Result<RequestEntry, RecordError> {
    match record.request {
        None => Err(RecordError::NoRequestMetrics),
        Some(metrics) => match metrics.replay {
            None => Err(RecordError::NoReplayMetrics),
            Some(replay) => {
                let expected = ceil_div(replay.input_length as nat, replay.trace_block_size as nat);
                if replay.trace_block_size == 0 {
                    Err(RecordError::ZeroBlockSize)
                } else if replay.input_length == 0 {
                    Err(RecordError::ZeroInputLength)
                } else if replay.input_sequence_hashes@.len() != expected {
                    Err(
                        RecordError::HashCount {
                            request_id: metrics.request_id,
                            found: replay.input_sequence_hashes@.len() as usize,
                            expected: expected as usize,
                        },
                    )
                } else if metrics.input_tokens is Some && metrics.input_tokens->0 != replay.input_length {
                    Err(RecordError::InputLengthMismatch { request_id: metrics.request_id })
                } else if metrics.output_tokens is None {
                    Err(RecordError::NoOutputTokens)
                } else if metrics.output_tokens->0 > u32::MAX {
                    Err(RecordError::OutputTokensTooLarge)
                } else if metrics.output_tokens->0 == 0 {
                    Err(RecordError::ZeroOutputTokens { request_id: metrics.request_id })
                } else if metrics.request_received_ms is None {
                    Err(RecordError::NoReceivedTime)
                } else {
                    let received = metrics.request_received_ms->0;
                    Ok(
                        RequestEntry {
                            start_ms: signed(received),
                            end_ms: signed(
                                completed_ms(received, metrics.total_time_ms, record.event_time_unix_ms),
                            ),
                            request: TraceRequest {
                                ordinal: 0,
                                source_request_id: metrics.request_id,
                                source_x_request_id: metrics.x_request_id,
                                source_model: metrics.model,
                                input_tokens: replay.input_length,
                                output_tokens: metrics.output_tokens->0 as u32,
                                request_received_ms: received,
                                trace_block_size: replay.trace_block_size,
                                input_sequence_hashes: replay.input_sequence_hashes,
                                agent_context: record.agent_context,
                            },
                        },
                    )
                }
            },
        },
    }
}

/// Compiles the request that a terminal record describes.
pub fn compile_request(record: TraceRecord) -> (result: Result<RequestEntry, RecordError>)
    ensures
        result == request_entry(record),
{
    let TraceRecord { event_time_unix_ms, agent_context, request, schema: _, event_type: _, tool: _ } = record;
    let metrics = match request {
        Some(metrics) => metrics,
        None => {
            return Err(RecordError::NoRequestMetrics);
        },
    };
    let replay = match metrics.replay {
        Some(replay) => replay,
        None => {
            return Err(RecordError::NoReplayMetrics);
        },
    };
    if replay.trace_block_size == 0 {
        return Err(RecordError::ZeroBlockSize);
    }
    if replay.input_length == 0 {
        return Err(RecordError::ZeroInputLength);
    }
    let expected = div_ceil(replay.input_length, replay.trace_block_size);
    if replay.input_sequence_hashes.len() != expected {
        return Err(
            RecordError::HashCount {
                request_id: metrics.request_id,
                found: replay.input_sequence_hashes.len(),
                expected,
            },
        );
    }
    if let Some(input_tokens) = metrics.input_tokens {
        if input_tokens != replay.input_length as u64 {
            return Err(RecordError::InputLengthMismatch { request_id: metrics.request_id });
        }
    }
    let output_tokens = match metrics.output_tokens {
        Some(output_tokens) => output_tokens,
        None => {
            return Err(RecordError::NoOutputTokens);
        },
    };
    if output_tokens > u32::MAX as u64 {
        return Err(RecordError::OutputTokensTooLarge);
    }
    if output_tokens == 0 {
        return Err(RecordError::ZeroOutputTokens { request_id: metrics.request_id });
    }
    let received = match metrics.request_received_ms {
        Some(received) => received,
        None => {
            return Err(RecordError::NoReceivedTime);
        },
    };
    let total = match metrics.total_time_ms {
        Some(total) => total,
        None => event_time_unix_ms.saturating_sub(received),
    };
    let completed = received.saturating_add(total);
    Ok(
        RequestEntry {
            start_ms: saturating_i64(received),
            end_ms: saturating_i64(completed),
            request: TraceRequest {
                ordinal: 0,
                source_request_id: metrics.request_id,
                source_x_request_id: metrics.x_request_id,
                source_model: metrics.model,
                input_tokens: replay.input_length,
                output_tokens: output_tokens as u32,
                request_received_ms: received,
                trace_block_size: replay.trace_block_size,
                input_sequence_hashes: replay.input_sequence_hashes,
                agent_context,
            },
        },
    )
}

/// When a tool call ended: as recorded, or else at the time of its event.
pub open spec fn tool_end_ms(tool: ToolMetrics, event_time_unix_ms: u64) -> i64 {
    match tool.ended_at_unix_ms {
        Some(ended) => signed(ended),
        None => signed(event_time_unix_ms),
    }
}

/// When a tool call started: as recorded, or else its duration before its end.
pub open spec fn tool_start_ms(tool: ToolMetrics, end_ms: i64) -> i64 {
    match (tool.started_at_unix_ms, tool.duration_ms) {
        (Some(started), _) => signed(started),
        (None, Some(duration)) => (end_ms - signed(duration)) as i64,
        (None, None) => end_ms,
    }
}

/// A tool call that tells its session and does not end before it starts.
pub open spec fn tool_is_placed(record: TraceRecord) -> bool {
    record.agent_context is Some && record.tool is Some && ({
        let end_ms = tool_end_ms(record.tool->0, record.event_time_unix_ms);
        tool_start_ms(record.tool->0, end_ms) <= end_ms
    })
}

/// `entry` is the tool call that `record` describes.
pub open spec fn is_tool_entry(record: TraceRecord, entry: ToolEntry) -> bool {
    let tool = record.tool->0;
    let end_ms = tool_end_ms(tool, record.event_time_unix_ms);
    let start_ms = tool_start_ms(tool, end_ms);
    &&& entry.session_id == record.agent_context->0.session_id
    &&& entry.end_ms == end_ms
    &&& entry.start_ms == start_ms
    &&& entry.tool_call_id == tool.tool_call_id
    &&& entry.tool_class == tool.tool_class
    &&& entry.claude == tool.claude
    &&& entry.status@ == match tool.status {
        Some(status) => status@,
        None => if record.event_type@ == "tool_error"@ {
            "error"@
        } else {
            "succeeded"@
        },
    }
    &&& entry.duration_ms == match tool.duration_ms {
        Some(duration) => duration as int,
        None => end_ms - start_ms,
    }
    &&& entry.output_bytes == tool.output_bytes
    &&& entry.output_tokens == tool.output_tokens
    &&& entry.error_type == tool.error_type
}

/// Compiles the tool call that a terminal record describes, where it can be placed in time.
pub fn compile_tool(record: TraceRecord) -> (result: Option<ToolEntry>)
    ensures
        match result {
            Some(entry) => tool_is_placed(record) && is_tool_entry(record, entry),
            None => !tool_is_placed(record),
        },
{
    let TraceRecord { event_time_unix_ms, agent_context, tool, event_type, schema: _, request: _ } = record;
    let context = match agent_context {
        Some(context) => context,
        None => {
            return None;
        },
    };
    let tool = match tool {
        Some(tool) => tool,
        None => {
            return None;
        },
    };
    let end_ms = match tool.ended_at_unix_ms {
        Some(ended) => saturating_i64(ended),
        None => saturating_i64(event_time_unix_ms),
    };
    let start_ms = match tool.started_at_unix_ms {
        Some(started) => saturating_i64(started),
        None => match tool.duration_ms {
            Some(duration) => end_ms - saturating_i64(duration),
            None => end_ms,
        },
    };
    if end_ms < start_ms {
        return None;
    }
    let duration_ms = match tool.duration_ms {
        Some(duration) => duration,
        None => (end_ms - start_ms) as u64,
    };
    let status = match tool.status {
        Some(status) => status,
        None => if same_text(event_type.as_str(), "tool_error") {
            "error".to_string()
        } else {
            "succeeded".to_string()
        },
    };
    Some(
        ToolEntry {
            session_id: context.session_id,
            start_ms,
            end_ms,
            tool_call_id: tool.tool_call_id,
            tool_class: tool.tool_class,
            claude: tool.claude,
            status,
            duration_ms,
            output_bytes: tool.output_bytes,
            output_tokens: tool.output_tokens,
            error_type: tool.error_type,
        },
    )
}

} // verus!
