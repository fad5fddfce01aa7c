//! Streamed responses: framing, and what counts as output.

use crate::json::{
    field_of, json_of, json_value, json_views, print_value, printed, read_json, Json, JsonView,
};
use vstd::prelude::*;

verus! {

// ---------------------------------------------------------------------------------------------
// Framing
// ---------------------------------------------------------------------------------------------

/// An ASCII white space byte.
pub open spec fn space_byte(b: u8) -> bool {
    b == 32 || b == 9 || b == 10 || b == 12 || b == 13
}

/// `bytes` without white space at its start.
pub open spec fn trimmed_start(bytes: Seq<u8>) -> Seq<u8>
    decreases bytes.len(),
{
    if bytes.len() > 0 && space_byte(bytes[0]) {
        trimmed_start(bytes.drop_first())
    } else {
        bytes
    }
}

/// `bytes` without white space at its end.
pub open spec fn trimmed_end(bytes: Seq<u8>) -> Seq<u8>
    decreases bytes.len(),
{
    if bytes.len() > 0 && space_byte(bytes.last()) {
        trimmed_end(bytes.drop_last())
    } else {
        bytes
    }
}

/// `bytes` without white space at either end.
pub open spec fn trimmed(bytes: Seq<u8>) -> Seq<u8> {
    trimmed_end(trimmed_start(bytes))
}

/// A line without its line ending.
pub open spec fn unended(line: Seq<u8>) -> Seq<u8>
    decreases line.len(),
{
    if line.len() > 0 && (line.last() == 10 || line.last() == 13) {
        unended(line.drop_last())
    } else {
        line
    }
}

/// The bytes of the field name that starts a data line.
pub open spec fn data_prefix() -> Seq<u8> {
    seq![100u8, 97, 116, 97, 58]
}

/// The bytes of the mark that ends a stream.
pub open spec fn done_mark() -> Seq<u8> {
    seq![91u8, 68, 79, 78, 69, 93]
}

/// What a line carries: nothing but for a data line that is neither empty nor the end mark.
pub open spec fn payload_of(line: Seq<u8>) -> Option<Seq<u8>> {
    let text = unended(line);
    if text.len() < 5 || text.take(5) != data_prefix() {
        None
    } else {
        let data = trimmed(text.skip(5));
        if data == done_mark() || data.len() == 0 {
            None
        } else {
            Some(data)
        }
    }
}

/// Where the first line feed stands; the length where there is none.
pub open spec fn line_feed(bytes: Seq<u8>) -> nat
    decreases bytes.len(),
{
    if bytes.len() == 0 || bytes[0] == 10 {
        0
    } else {
        line_feed(bytes.drop_first()) + 1
    }
}

/// The next payload in `buffer`, and what is left behind it.
pub open spec fn next_payload(buffer: Seq<u8>) -> (Option<Seq<u8>>, Seq<u8>)
    decreases buffer.len(),
{
    let at = line_feed(buffer) as int;
    if at >= buffer.len() {
        (None, buffer)
    } else {
        let rest = buffer.skip(at + 1);
        match payload_of(buffer.take(at + 1)) {
            Some(payload) => (Some(payload), rest),
            None => next_payload(rest),
        }
    }
}

/// All payloads in `buffer`, and what is left behind the last line.
pub open spec fn all_payloads(buffer: Seq<u8>) -> (Seq<Seq<u8>>, Seq<u8>)
    decreases buffer.len(),
{
    let at = line_feed(buffer) as int;
    if at >= buffer.len() {
        (Seq::empty(), buffer)
    } else {
        let (later, left) = all_payloads(buffer.skip(at + 1));
        match payload_of(buffer.take(at + 1)) {
            Some(payload) => (seq![payload] + later, left),
            None => (later, left),
        }
    }
}

proof fn lemma_line_feed(bytes: Seq<u8>, n: int)
    requires
        0 <= n <= bytes.len(),
        forall|i: int| 0 <= i < n ==> bytes[i] != 10,
        n < bytes.len() ==> bytes[n] == 10,
    ensures
        line_feed(bytes) == n,
    decreases bytes.len(),
{
    if n > 0 {
        lemma_line_feed(bytes.drop_first(), n - 1);
    }
}

proof fn lemma_line_feed_is_first(bytes: Seq<u8>)
    ensures
        line_feed(bytes) <= bytes.len(),
        forall|i: int| 0 <= i < line_feed(bytes) ==> bytes[i] != 10,
        line_feed(bytes) < bytes.len() ==> bytes[line_feed(bytes) as int] == 10,
    decreases bytes.len(),
{
    if bytes.len() > 0 && bytes[0] != 10 {
        let rest = bytes.drop_first();
        lemma_line_feed_is_first(rest);
        assert forall|i: int| 0 <= i < line_feed(bytes) implies bytes[i] != 10 by {
            if i > 0 {
                assert(bytes[i] == rest[i - 1]);
            }
        }
    }
}

/// Taking payloads one at a time takes all of them.
pub proof fn law_one_by_one_is_all(buffer: Seq<u8>)
    ensures
        match next_payload(buffer) {
            (Some(payload), rest) => all_payloads(buffer) == (seq![payload] + all_payloads(rest).0, all_payloads(
                rest,
            ).1),
            (None, rest) => all_payloads(buffer) == (Seq::<Seq<u8>>::empty(), rest),
        },
    decreases buffer.len(),
{
    let at = line_feed(buffer) as int;
    if at < buffer.len() {
        if payload_of(buffer.take(at + 1)) is None {
            law_one_by_one_is_all(buffer.skip(at + 1));
        }
    }
}

/// How a response is cut into chunks does not matter: what is left of one chunk, followed by the
/// next, gives what both together would have given.
pub proof fn law_chunks_do_not_matter(a: Seq<u8>, b: Seq<u8>)
    ensures
        all_payloads(a + b).0 == all_payloads(a).0 + all_payloads(all_payloads(a).1 + b).0,
        all_payloads(a + b).1 == all_payloads(all_payloads(a).1 + b).1,
    decreases a.len(),
{
    let at = line_feed(a) as int;
    lemma_line_feed_is_first(a);
    if at < a.len() {
        let whole = a + b;
        assert forall|i: int| 0 <= i < at implies whole[i] != 10 by {
            assert(whole[i] == a[i]);
        }
        lemma_line_feed(whole, at);
        assert(whole.take(at + 1) =~= a.take(at + 1));
        assert(whole.skip(at + 1) =~= a.skip(at + 1) + b);
        law_chunks_do_not_matter(a.skip(at + 1), b);
        assert(all_payloads(whole).0 =~= all_payloads(a).0 + all_payloads(all_payloads(a).1 + b).0);
    } else {
        assert(all_payloads(a).0 + all_payloads(a + b).0 =~= all_payloads(a + b).0);
    }
}

proof fn lemma_trimmed_start(bytes: Seq<u8>, n: int)
    requires
        0 <= n <= bytes.len(),
        forall|i: int| 0 <= i < n ==> space_byte(#[trigger] bytes[i]),
        n < bytes.len() ==> !space_byte(bytes[n]),
    ensures
        trimmed_start(bytes) == bytes.skip(n),
    decreases bytes.len(),
{
    if n > 0 {
        assert(space_byte(bytes[0]));
        let rest = bytes.drop_first();
        assert forall|i: int| 0 <= i < n - 1 implies space_byte(#[trigger] rest[i]) by {
            assert(rest[i] == bytes[i + 1]);
        }
        lemma_trimmed_start(rest, n - 1);
        assert(rest.skip(n - 1) =~= bytes.skip(n));
    } else {
        assert(bytes.skip(0) =~= bytes);
    }
}

proof fn lemma_trimmed_end(bytes: Seq<u8>, n: int)
    requires
        0 <= n <= bytes.len(),
        forall|i: int| n <= i < bytes.len() ==> space_byte(#[trigger] bytes[i]),
        n > 0 ==> !space_byte(bytes[n - 1]),
    ensures
        trimmed_end(bytes) == bytes.take(n),
    decreases bytes.len(),
{
    if n < bytes.len() {
        assert(space_byte(bytes[bytes.len() - 1]));
        lemma_trimmed_end(bytes.drop_last(), n);
        assert(bytes.drop_last().take(n) =~= bytes.take(n));
    } else {
        assert(bytes.take(n) =~= bytes);
    }
}

proof fn lemma_unended(line: Seq<u8>, n: int)
    requires
        0 <= n <= line.len(),
        forall|i: int| n <= i < line.len() ==> line[i] == 10 || line[i] == 13,
        n > 0 ==> line[n - 1] != 10 && line[n - 1] != 13,
    ensures
        unended(line) == line.take(n),
    decreases line.len(),
{
    if n < line.len() {
        lemma_unended(line.drop_last(), n);
        assert(line.drop_last().take(n) =~= line.take(n));
    } else {
        assert(line.take(n) =~= line);
    }
}

fn is_space(b: u8) -> (result: bool)
    ensures
        result == space_byte(b),
{
    b == 32 || b == 9 || b == 10 || b == 12 || b == 13
}

/// Takes white space off both ends.
pub fn trim_ascii(bytes: &[u8]) -> (result: &[u8])
    ensures
        result@ == trimmed(bytes@),
{
    let mut start: usize = 0;
    while start < bytes.len() && is_space(bytes[start])
        invariant
            start <= bytes@.len(),
            forall|i: int| 0 <= i < start ==> space_byte(#[trigger] bytes@[i]),
        decreases bytes@.len() - start,
    {
        start += 1;
    }
    proof {
        lemma_trimmed_start(bytes@, start as int);
    }
    let ghost rest = bytes@.skip(start as int);
    let mut end: usize = bytes.len();
    while end > start && is_space(bytes[end - 1])
        invariant
            start <= end <= bytes@.len(),
            rest == bytes@.skip(start as int),
            forall|i: int| end - start <= i < rest.len() ==> space_byte(#[trigger] rest[i]),
        decreases end,
    {
        assert(rest[end - 1 - start] == bytes@[end - 1]);
        end -= 1;
    }
    proof {
        if end > start {
            assert(rest[end - start - 1] == bytes@[end - 1]);
        }
        lemma_trimmed_end(rest, end - start);
    }
    let result = vstd::slice::slice_subrange(bytes, start, end);
    assert(result@ =~= rest.take(end - start));
    result
}

fn copy_bytes(bytes: &[u8]) -> (copy: Vec<u8>)
    ensures
        copy@ == bytes@,
{
    let mut copy: Vec<u8> = Vec::with_capacity(bytes.len());
    let mut i: usize = 0;
    while i < bytes.len()
        invariant
            i <= bytes@.len(),
            copy@ == bytes@.take(i as int),
        decreases bytes@.len() - i,
    {
        copy.push(bytes[i]);
        i += 1;
        assert(copy@ =~= bytes@.take(i as int));
    }
    assert(bytes@.take(i as int) =~= bytes@);
    copy
}

fn line_payload(line: &[u8]) -> (result: Option<Vec<u8>>)
    ensures
        match result {
            Some(payload) => payload_of(line@) == Some(payload@),
            None => payload_of(line@) is None,
        },
{
    let mut end: usize = line.len();
    while end > 0 && (line[end - 1] == 10 || line[end - 1] == 13)
        invariant
            end <= line@.len(),
            forall|i: int| end <= i < line@.len() ==> line@[i] == 10 || line@[i] == 13,
        decreases end,
    {
        end -= 1;
    }
    proof {
        lemma_unended(line@, end as int);
    }
    let ghost text = line@.take(end as int);
    if end < 5 {
        return None;
    }
    if line[0] != 100 || line[1] != 97 || line[2] != 116 || line[3] != 97 || line[4] != 58 {
        proof {
            let start = text.take(5);
            assert(start[0] == line@[0] && start[1] == line@[1] && start[2] == line@[2] && start[3] == line@[3]
                && start[4] == line@[4]);
        }
        return None;
    }
    assert(text.take(5) =~= data_prefix());
    let body = vstd::slice::slice_subrange(line, 5, end);
    assert(body@ =~= text.skip(5));
    let data = trim_ascii(body);
    let done = data.len() == 6 && data[0] == 91 && data[1] == 68 && data[2] == 79 && data[3] == 78 && data[4] == 69
        && data[5] == 93;
    proof {
        if done {
            assert(data@ =~= done_mark());
        } else if data@ == done_mark() {
            assert(data@[0] == 91 && data@[1] == 68 && data@[2] == 79 && data@[3] == 78 && data@[4] == 69
                && data@[5] == 93);
        }
    }
    if done || data.len() == 0 {
        return None;
    }
    Some(copy_bytes(data))
}

// ---------------------------------------------------------------------------------------------
// What responses say
// ---------------------------------------------------------------------------------------------

/// A value that shows something.
pub open spec fn shows(value: JsonView) -> bool {
    match value {
        JsonView::Null => false,
        JsonView::Text(text) => text.len() > 0,
        JsonView::Array(items) => items.len() > 0,
        JsonView::Object(fields) => fields.len() > 0,
        _ => true,
    }
}

/// A field that shows something.
pub open spec fn field_shows(value: JsonView, name: Seq<char>) -> bool {
    match value.field(name) {
        Some(inner) => shows(inner),
        None => false,
    }
}

/// A choice that carries output: content, reasoning or tool calls, or plain text.
pub open spec fn choice_shows(choice: JsonView) -> bool {
    match choice.field("delta"@) {
        None => field_shows(choice, "text"@),
        Some(delta) => field_shows(delta, "content"@) || field_shows(delta, "reasoning_content"@) || field_shows(
            delta,
            "tool_calls"@,
        ),
    }
}

/// A chunk that carries output.
pub open spec fn carries_output(value: JsonView) -> bool {
    match value.field("choices"@) {
        Some(JsonView::Array(choices)) => any_shows(choices),
        _ => false,
    }
}

/// One of the choices carries output.
pub open spec fn any_shows(choices: Seq<JsonView>) -> bool {
    exists|i: int| 0 <= i < choices.len() && choice_shows(#[trigger] choices[i])
}

/// The output length that a chunk reports.
pub open spec fn reported_tokens(value: JsonView) -> Option<u64> {
    match value.inner("usage"@, "completion_tokens"@) {
        Some(tokens) => tokens.whole(),
        None => None,
    }
}

/// Tells whether a value shows something.
pub fn nonempty_value(value: &Json) -> (result: bool)
    ensures
        result == shows(value@),
{
    match value {
        Json::Null => false,
        Json::Text(text) => {
            let chars = crate::text::char_list(text.as_str());
            chars.len() > 0
        },
        Json::Array(items) => {
            assert(value@->Array_0.len() == items@.len());
            items.len() > 0
        },
        Json::Object(fields) => {
            assert(value@->Object_0.len() == fields@.len());
            fields.len() > 0
        },
        _ => true,
    }
}

fn shows_field(value: &Json, name: &str) -> (result: bool)
    ensures
        result == field_shows(value@, name@),
{
    match value.get(name) {
        Some(inner) => nonempty_value(inner),
        None => false,
    }
}

/// Tells whether a chunk carries output.
pub fn chunk_contains_output(value: &Json) -> (result: bool)
    ensures
        result == carries_output(value@),
{
    let choices = match value.get("choices") {
        Some(choices) => match choices.as_array() {
            Some(items) => items,
            None => return false,
        },
        None => return false,
    };
    let ghost views = json_views(choices@);
    let mut i: usize = 0;
    while i < choices.len()
        invariant
            i <= choices@.len(),
            views == json_views(choices@),
            value@.field("choices"@) == Some(JsonView::Array(views)),
            forall|k: int| 0 <= k < i ==> !choice_shows(#[trigger] views[k]),
        decreases choices@.len() - i,
    {
        let choice = &choices[i];
        assert(views[i as int] == choice@);
        let found = match choice.get("delta") {
            None => shows_field(choice, "text"),
            Some(delta) => shows_field(delta, "content") || shows_field(delta, "reasoning_content") || shows_field(
                delta,
                "tool_calls",
            ),
        };
        if found {
            assert(choice_shows(views[i as int]));
            assert(any_shows(views));
            return true;
        }
        i += 1;
    }
    assert(!any_shows(views));
    false
}

/// Why a response stream fails.
#[derive(Debug)]
pub enum StreamError {
    /// The target reported an error; its value, as JSON text.
    Reported { error: String },
    /// A payload is not JSON.
    Malformed,
    Incomplete,
}

impl StreamError {
    /// The message.
    pub open spec fn text(self) -> Seq<char> {
        match self {
            StreamError::Reported { error } => "the response stream returned an error: "@ + error@,
            StreamError::Malformed => "the response contains invalid SSE JSON"@,
            StreamError::Incomplete => "the response stream ended with an incomplete SSE line"@,
        }
    }

    /// The message.
    pub fn message(&self) -> (text: String)
        ensures
            text@ == self.text(),
    {
        match self {
            StreamError::Reported { error } => {
                let mut text = "the response stream returned an error: ".to_string();
                text.append(error.as_str());
                text
            },
            StreamError::Malformed => "the response contains invalid SSE JSON".to_string(),
            StreamError::Incomplete => "the response stream ended with an incomplete SSE line".to_string(),
        }
    }
}

/// What a response stream shows so far.
#[derive(Debug, Clone, Copy, PartialEq, Eq, Structural)]
pub struct StreamMetrics {
    /// When output first showed.
    pub ttft_ns: Option<u64>,
    /// How many tokens the target says it wrote.
    pub output_tokens: Option<u64>,
}

/// The metrics after one more chunk.
pub open spec fn observed(metrics: StreamMetrics, value: JsonView, elapsed_ns: u64) -> StreamMetrics {
    StreamMetrics {
        ttft_ns: if metrics.ttft_ns is None && carries_output(value) {
            Some(elapsed_ns)
        } else {
            metrics.ttft_ns
        },
        output_tokens: match reported_tokens(value) {
            Some(tokens) => Some(tokens),
            None => metrics.output_tokens,
        },
    }
}

/// What taking note of a payload gives: an error where the target reports one in it.
pub open spec fn is_observation(result: Result<(), StreamError>, value: JsonView) -> bool {
    match result {
        Ok(()) => value.field("error"@) is None,
        Err(error) => value.field("error"@) matches Some(reported) && error is Reported && error->error@
            == printed(reported),
    }
}

/// Reads a response stream.
#[derive(Debug)]
pub struct StreamReader {
    buffer: Vec<u8>,
    metrics: StreamMetrics,
}

impl StreamReader {
    /// What has not been cut into lines yet.
    pub closed spec fn unread(&self) -> Seq<u8> {
        self.buffer@
    }

    /// What the stream shows so far.
    pub closed spec fn shown(&self) -> StreamMetrics {
        self.metrics
    }

    pub fn new() -> (reader: Self)
        ensures
            reader.unread() == Seq::<u8>::empty(),
            reader.shown() == (StreamMetrics { ttft_ns: None, output_tokens: None }),
    {
        StreamReader {
            buffer: Vec::new(),
            metrics: StreamMetrics { ttft_ns: None, output_tokens: None },
        }
    }

    /// Takes one more chunk of the response.
    pub fn push(&mut self, chunk: &[u8])
        ensures
            final(self).unread() == old(self).unread() + chunk@,
            final(self).shown() == old(self).shown(),
    {
        let mut i: usize = 0;
        assert(self.buffer@ =~= old(self).buffer@ + chunk@.take(0));
        while i < chunk.len()
            invariant
                i <= chunk@.len(),
                self.buffer@ == old(self).buffer@ + chunk@.take(i as int),
                self.metrics == old(self).metrics,
            decreases chunk@.len() - i,
        {
            self.buffer.push(chunk[i]);
            i += 1;
            assert(self.buffer@ =~= old(self).buffer@ + chunk@.take(i as int));
        }
        assert(chunk@.take(i as int) =~= chunk@);
    }

    /// Takes out the next payload.
    pub fn next_data(&mut self) -> (result: Option<Vec<u8>>)
        ensures
            match result {
                Some(payload) => next_payload(old(self).unread()) == (Some(payload@), final(self).unread()),
                None => next_payload(old(self).unread()) == (None::<Seq<u8>>, final(self).unread()),
            },
            final(self).shown() == old(self).shown(),
    {
        loop
            invariant
                next_payload(self.buffer@) == next_payload(old(self).buffer@),
                self.metrics == old(self).metrics,
            decreases self.buffer@.len(),
        {
            let mut at: usize = 0;
            while at < self.buffer.len() && self.buffer[at] != 10
                invariant
                    at <= self.buffer@.len(),
                    forall|i: int| 0 <= i < at ==> self.buffer@[i] != 10,
                decreases self.buffer@.len() - at,
            {
                at += 1;
            }
            proof {
                lemma_line_feed(self.buffer@, at as int);
            }
            if at >= self.buffer.len() {
                return None;
            }
            let ghost whole = self.buffer@;
            let mut rest = self.buffer.split_off(at + 1);
            std::mem::swap(&mut rest, &mut self.buffer);
            assert(rest@ =~= whole.take(at + 1));
            assert(self.buffer@ =~= whole.skip(at + 1));
            if let Some(payload) = line_payload(rest.as_slice()) {
                return Some(payload);
            }
        }
    }

    /// Takes note of one payload and of when it came.
    pub fn observe_payload(&mut self, payload: &[u8], elapsed_ns: u64) -> (result: Result<(), StreamError>)
        ensures
            final(self).unread() == old(self).unread(),
            match json_value(payload@) {
                None => final(self).shown() == old(self).shown() && result == Err::<(), StreamError>(
                    StreamError::Malformed,
                ),
                Some(value) => {
                    &&& final(self).shown() == observed(old(self).shown(), value, elapsed_ns)
                    &&& is_observation(result, value)
                },
            },
    {
        let value = match read_json(payload) {
            Ok(value) => value,
            Err(_) => return Err(StreamError::Malformed),
        };
        let result = match field_of(&value, "error") {
            Some(reported) => Err(StreamError::Reported { error: print_value(reported) }),
            None => Ok(()),
        };
        self.observe(&json_of(value), elapsed_ns);
        result
    }

    /// Takes note of what one payload, read as JSON, shows, and of when it came.
    pub fn observe(&mut self, value: &Json, elapsed_ns: u64)
        ensures
            final(self).unread() == old(self).unread(),
            final(self).shown() == observed(old(self).shown(), value@, elapsed_ns),
    {
        if self.metrics.ttft_ns.is_none() && chunk_contains_output(value) {
            self.metrics = StreamMetrics { ttft_ns: Some(elapsed_ns), output_tokens: self.metrics.output_tokens };
        }
        let tokens = match value.get("usage") {
            Some(usage) => match usage.get("completion_tokens") {
                Some(tokens) => tokens.as_u64(),
                None => None,
            },
            None => None,
        };
        if tokens.is_some() {
            self.metrics = StreamMetrics { ttft_ns: self.metrics.ttft_ns, output_tokens: tokens };
        }
    }

    /// Ends the stream: nothing but white space may be left.
    pub fn finish(self) -> (result: Result<StreamMetrics, StreamError>)
        ensures
            match result {
                Ok(metrics) => metrics == self.shown() && forall|i: int|
                    0 <= i < self.unread().len() ==> space_byte(#[trigger] self.unread()[i]),
                Err(error) => error == StreamError::Incomplete && exists|i: int|
                    0 <= i < self.unread().len() && !space_byte(#[trigger] self.unread()[i]),
            },
    {
        let mut i: usize = 0;
        while i < self.buffer.len()
            invariant
                i <= self.buffer@.len(),
                forall|k: int| 0 <= k < i ==> space_byte(#[trigger] self.buffer@[k]),
            decreases self.buffer@.len() - i,
        {
            if !is_space(self.buffer[i]) {
                assert(!space_byte(self.unread()[i as int]));
                return Err(StreamError::Incomplete);
            }
            i += 1;
        }
        Ok(self.metrics)
    }
}

} // verus!
