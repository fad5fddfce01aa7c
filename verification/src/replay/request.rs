//! Requests: what goes over the wire.

use crate::agent::{agent_headers, headers_of};
use crate::compare::context_view;
use crate::contracts::{clone_optional, optional_text, AgentContext, AgentContextView, TraceRequest};
use crate::json::{Json, JsonView};
use crate::replay::options::ReplayOptions;
use crate::scenario::model::{AttemptView, GeneratedCompactionAttempt};
use crate::text::{decimal, decimal_text, same_text};
use crate::text_map::entry_views;
use crate::token_shape::dictionary::{spelled, spelling_failure, TokenDictionary};
use crate::token_shape::error::TokenError;
use vstd::prelude::*;

verus! {

/// How one request is to be carried out.
#[derive(Debug)]
pub struct RequestExecution {
    pub output_budget_tokens: Option<u32>,
    pub compaction_attempt: Option<GeneratedCompactionAttempt>,
}

/// What a request stands for.
#[derive(Debug)]
pub struct PreparedMetadata {
    pub ordinal: usize,
    pub source_request_id: String,
    pub source_x_request_id: Option<String>,
    pub replay_request_id: String,
    pub agent_context: Option<AgentContext>,
    pub input_tokens: usize,
    pub expected_output_tokens: Option<u32>,
    pub compaction_attempt: Option<GeneratedCompactionAttempt>,
}

/// Mathematical view of [`PreparedMetadata`].
#[verifier::ext_equal]
pub struct MetadataView {
    pub ordinal: usize,
    pub source_request_id: Seq<char>,
    pub source_x_request_id: Option<Seq<char>>,
    pub replay_request_id: Seq<char>,
    pub agent_context: Option<AgentContextView>,
    pub input_tokens: usize,
    pub expected_output_tokens: Option<u32>,
    pub compaction_attempt: Option<AttemptView>,
}

/// The view of an optional attempt.
pub open spec fn attempt_view(attempt: Option<GeneratedCompactionAttempt>) -> Option<AttemptView> {
    match attempt {
        Some(attempt) => Some(attempt@),
        None => None,
    }
}

impl View for PreparedMetadata {
    type V = MetadataView;

    open spec fn view(&self) -> MetadataView {
        MetadataView {
            ordinal: self.ordinal,
            source_request_id: self.source_request_id@,
            source_x_request_id: optional_text(self.source_x_request_id),
            replay_request_id: self.replay_request_id@,
            agent_context: context_view(self.agent_context),
            input_tokens: self.input_tokens,
            expected_output_tokens: self.expected_output_tokens,
            compaction_attempt: attempt_view(self.compaction_attempt),
        }
    }
}

/// A request that is ready to be sent.
#[derive(Debug)]
pub struct PreparedRequest {
    pub metadata: PreparedMetadata,
    pub headers: Vec<(String, String)>,
    pub body: Json,
}

/// Mathematical view of a [`PreparedRequest`].
#[verifier::ext_equal]
pub struct PreparedView {
    pub metadata: MetadataView,
    pub headers: Seq<(Seq<char>, Seq<char>)>,
    pub body: JsonView,
}

impl View for PreparedRequest {
    type V = PreparedView;

    open spec fn view(&self) -> PreparedView {
        PreparedView {
            metadata: self.metadata@,
            headers: entry_views(self.headers@),
            body: self.body@,
        }
    }
}

// ---------------------------------------------------------------------------------------------
// Building values
// ---------------------------------------------------------------------------------------------

/// The views of fields.
pub open spec fn field_views(fields: Seq<(String, Json)>) -> Seq<(Seq<char>, JsonView)> {
    Seq::new(fields.len(), |i: int| (fields[i].0@, fields[i].1@))
}

fn text_value(text: &str) -> (value: Json)
    ensures
        value@ == JsonView::Text(text@),
{
    Json::Text(text.to_string())
}

fn with_field(fields: Vec<(String, Json)>, name: &str, value: Json) -> (more: Vec<(String, Json)>)
    ensures
        field_views(more@) == field_views(fields@).push((name@, value@)),
{
    let mut more = fields;
    more.push((name.to_string(), value));
    assert(field_views(more@) =~= field_views(fields@).push((name@, value@)));
    more
}

fn object(fields: Vec<(String, Json)>) -> (value: Json)
    ensures
        value@ == JsonView::Object(field_views(fields@)),
{
    let value = Json::Object(fields);
    assert(value@->Object_0 =~= field_views(fields@));
    value
}

fn no_fields() -> (fields: Vec<(String, Json)>)
    ensures
        field_views(fields@) == Seq::<(Seq<char>, JsonView)>::empty(),
{
    let fields: Vec<(String, Json)> = Vec::new();
    assert(field_views(fields@) =~= Seq::<(Seq<char>, JsonView)>::empty());
    fields
}

fn list_one(item: Json) -> (value: Json)
    ensures
        value@ == JsonView::Array(seq![item@]),
{
    let mut items: Vec<Json> = Vec::new();
    items.push(item);
    let value = Json::Array(items);
    assert(value@->Array_0 =~= seq![item@]);
    value
}

fn list_two(first: Json, second: Json) -> (value: Json)
    ensures
        value@ == JsonView::Array(seq![first@, second@]),
{
    let mut items: Vec<Json> = Vec::new();
    items.push(first);
    items.push(second);
    let value = Json::Array(items);
    assert(value@->Array_0 =~= seq![first@, second@]);
    value
}

/// Tokens as numbers.
pub open spec fn token_numbers(tokens: Seq<u32>) -> Seq<JsonView> {
    Seq::new(tokens.len(), |i: int| JsonView::Number(decimal(tokens[i] as nat)))
}

fn token_list(tokens: &Vec<u32>) -> (value: Json)
    ensures
        value@ == JsonView::Array(token_numbers(tokens@)),
{
    let mut items: Vec<Json> = Vec::with_capacity(tokens.len());
    let mut i: usize = 0;
    while i < tokens.len()
        invariant
            i <= tokens@.len(),
            items@.len() == i,
            forall|k: int| 0 <= k < i ==> (#[trigger] items@[k])@ == JsonView::Number(decimal(tokens@[k] as nat)),
        decreases tokens@.len() - i,
    {
        items.push(Json::Number(decimal_text(tokens[i] as u64)));
        i += 1;
    }
    let value = Json::Array(items);
    assert(value@->Array_0 =~= token_numbers(tokens@));
    value
}

// ---------------------------------------------------------------------------------------------
// Bodies
// ---------------------------------------------------------------------------------------------

/// One message.
pub open spec fn message_view(role: Seq<char>, content: Seq<char>) -> JsonView {
    JsonView::Object(seq![("content"@, JsonView::Text(content)), ("role"@, JsonView::Text(role))])
}

/// The message in which an assistant calls a tool.
pub open spec fn tool_call_view() -> JsonView {
    JsonView::Object(
        seq![
            ("content"@, JsonView::Null),
            ("role"@, JsonView::Text("assistant"@)),
            (
                "tool_calls"@,
                JsonView::Array(
                    seq![
                        JsonView::Object(
                            seq![
                                (
                                    "function"@,
                                    JsonView::Object(
                                        seq![
                                            ("arguments"@, JsonView::Text("{}"@)),
                                            ("name"@, JsonView::Text("shape_tool"@)),
                                        ],
                                    ),
                                ),
                                ("id"@, JsonView::Text("agent-loadgen-shape-tool"@)),
                                ("type"@, JsonView::Text("function"@)),
                            ],
                        ),
                    ],
                ),
            ),
        ],
    )
}

/// The message in which the tool answers.
pub open spec fn tool_result_view() -> JsonView {
    JsonView::Object(
        seq![
            ("content"@, JsonView::Text("shape replay"@)),
            ("role"@, JsonView::Text("tool"@)),
            ("tool_call_id"@, JsonView::Text("agent-loadgen-shape-tool"@)),
        ],
    )
}

/// The messages of a request, by what triggered it.
pub open spec fn messages_view(trigger: Option<Seq<char>>) -> JsonView {
    if trigger == Some("tool_result"@) {
        JsonView::Array(seq![tool_call_view(), tool_result_view()])
    } else if trigger == Some("other"@) {
        JsonView::Array(seq![message_view("assistant"@, "shape replay"@)])
    } else {
        JsonView::Array(seq![message_view("user"@, "shape replay"@)])
    }
}

fn message(role: &str, content: &str) -> (value: Json)
    ensures
        value@ == message_view(role@, content@),
{
    let fields = with_field(no_fields(), "content", text_value(content));
    let value = object(with_field(fields, "role", text_value(role)));
    assert(value@->Object_0 =~= message_view(role@, content@)->Object_0);
    value
}

fn tool_call() -> (value: Json)
    ensures
        value@ == tool_call_view(),
{
    let inner = with_field(no_fields(), "arguments", text_value("{}"));
    let function = object(with_field(inner, "name", text_value("shape_tool")));
    let ghost function_view = function@;
    let call = with_field(no_fields(), "function", function);
    let call = with_field(call, "id", text_value("agent-loadgen-shape-tool"));
    let call = object(with_field(call, "type", text_value("function")));
    let ghost call_view = call@;
    let fields = with_field(no_fields(), "content", Json::Null);
    let fields = with_field(fields, "role", text_value("assistant"));
    let value = object(with_field(fields, "tool_calls", list_one(call)));
    proof {
        let calls = tool_call_view()->Object_0[2].1->Array_0;
        assert(function_view->Object_0 =~= calls[0]->Object_0[0].1->Object_0);
        assert(call_view->Object_0 =~= calls[0]->Object_0);
        assert(value@->Object_0 =~= tool_call_view()->Object_0);
    }
    value
}

fn tool_result() -> (value: Json)
    ensures
        value@ == tool_result_view(),
{
    let fields = with_field(no_fields(), "content", text_value("shape replay"));
    let fields = with_field(fields, "role", text_value("tool"));
    let value = object(with_field(fields, "tool_call_id", text_value("agent-loadgen-shape-tool")));
    assert(value@->Object_0 =~= tool_result_view()->Object_0);
    value
}

/// Writes the messages of a request.
pub fn messages_for_trigger(trigger: &Option<String>) -> (value: Json)
    ensures
        value@ == messages_view(optional_text(*trigger)),
{
    match trigger {
        Some(text) => {
            if same_text(text.as_str(), "tool_result") {
                list_two(tool_call(), tool_result())
            } else if same_text(text.as_str(), "other") {
                list_one(message("assistant", "shape replay"))
            } else {
                list_one(message("user", "shape replay"))
            }
        },
        None => list_one(message("user", "shape replay")),
    }
}

/// What triggered a request.
pub open spec fn trigger_of(context: Option<AgentContextView>) -> Option<Seq<char>> {
    match context {
        Some(context) => context.input_trigger,
        None => None,
    }
}

/// The body of a request. A request with an output budget is held to it.
pub open spec fn body_view(
    model: Seq<char>,
    trigger: Option<Seq<char>>,
    tokens: Seq<u32>,
    budget: Option<u32>,
) -> JsonView {
    let held = match budget {
        Some(limit) => seq![
            ("ignore_eos"@, JsonView::Bool(true)),
            ("max_tokens"@, JsonView::Number(decimal(limit as nat))),
        ],
        None => Seq::empty(),
    };
    JsonView::Object(
        held + seq![
            ("messages"@, messages_view(trigger)),
            ("model"@, JsonView::Text(model)),
            (
                "nvext"@,
                JsonView::Object(seq![("token_data"@, JsonView::Array(token_numbers(tokens)))]),
            ),
            ("stream"@, JsonView::Bool(true)),
            ("stream_options"@, JsonView::Object(seq![("include_usage"@, JsonView::Bool(true))])),
            ("temperature"@, JsonView::Number("0.0"@)),
        ],
    )
}

fn request_body(model: &str, trigger: &Option<String>, tokens: &Vec<u32>, budget: Option<u32>) -> (value: Json)
    ensures
        value@ == body_view(model@, optional_text(*trigger), tokens@, budget),
{
    let mut fields = no_fields();
    if let Some(limit) = budget {
        fields = with_field(fields, "ignore_eos", Json::Bool(true));
        fields = with_field(fields, "max_tokens", Json::Number(decimal_text(limit as u64)));
    }
    fields = with_field(fields, "messages", messages_for_trigger(trigger));
    fields = with_field(fields, "model", text_value(model));
    let data = object(with_field(no_fields(), "token_data", token_list(tokens)));
    let ghost data_view = data@;
    fields = with_field(fields, "nvext", data);
    fields = with_field(fields, "stream", Json::Bool(true));
    let usage = object(with_field(no_fields(), "include_usage", Json::Bool(true)));
    let ghost usage_view = usage@;
    fields = with_field(fields, "stream_options", usage);
    fields = with_field(fields, "temperature", Json::Number("0.0".to_string()));
    let value = object(fields);
    proof {
        assert(data_view->Object_0 =~= seq![("token_data"@, JsonView::Array(token_numbers(tokens@)))]);
        assert(usage_view->Object_0 =~= seq![("include_usage"@, JsonView::Bool(true))]);
        assert(value@->Object_0 =~= body_view(model@, optional_text(*trigger), tokens@, budget)->Object_0);
    }
    value
}

// ---------------------------------------------------------------------------------------------
// Preparation
// ---------------------------------------------------------------------------------------------

/// The identifier under which a request is sent.
pub open spec fn replay_id(run_id: Seq<char>, ordinal: usize) -> Seq<char> {
    "agent-loadgen-"@ + run_id + "-"@ + decimal(ordinal as nat)
}

/// The request that is sent for a recorded or planned one.
pub open spec fn prepared_view(
    run_id: Seq<char>,
    options: ReplayOptions,
    tokens: Seq<u32>,
    request: TraceRequest,
    execution: RequestExecution,
) -> PreparedView {
    let context = context_view(request.agent_context);
    PreparedView {
        metadata: MetadataView {
            ordinal: request.ordinal,
            source_request_id: request.source_request_id@,
            source_x_request_id: optional_text(request.source_x_request_id),
            replay_request_id: replay_id(run_id, request.ordinal),
            agent_context: context,
            input_tokens: request.input_tokens,
            expected_output_tokens: execution.output_budget_tokens,
            compaction_attempt: attempt_view(execution.compaction_attempt),
        },
        headers: seq![("x-request-id"@, replay_id(run_id, request.ordinal))] + entry_views(options.static_headers@)
            + headers_of(options.agent, options.product@, context),
        body: body_view(options.model@, trigger_of(context), tokens, execution.output_budget_tokens),
    }
}

/// What preparing a request gives: the request, or why its input cannot be spelled.
pub open spec fn preparation(
    run_id: Seq<char>,
    options: ReplayOptions,
    dictionary: TokenDictionary,
    request: TraceRequest,
    execution: RequestExecution,
) -> Result<PreparedView, TokenError> {
    match spelling_failure(dictionary.block(), request) {
        Some(error) => Err(error),
        None => Ok(
            prepared_view(
                run_id,
                options,
                spelled(
                    dictionary.block() as nat,
                    dictionary.token_ids(),
                    request.input_sequence_hashes@,
                    request.input_tokens as nat,
                ),
                request,
                execution,
            ),
        ),
    }
}

fn add_entry(entries: &mut Vec<(String, String)>, name: String, value: String)
    ensures
        entry_views(final(entries)@) == entry_views(old(entries)@).push((name@, value@)),
{
    entries.push((name, value));
    assert(entry_views(entries@) =~= entry_views(old(entries)@).push((name@, value@)));
}

fn request_headers(id: &str, options: &ReplayOptions, context: &Option<AgentContext>) -> (headers: Vec<
    (String, String),
>)
    ensures
        entry_views(headers@) == seq![("x-request-id"@, id@)] + entry_views(options.static_headers@) + headers_of(
            options.agent,
            options.product@,
            context_view(*context),
        ),
{
    let mut headers: Vec<(String, String)> = Vec::new();
    headers.push(("x-request-id".to_string(), id.to_string()));
    let ghost first = seq![("x-request-id"@, id@)];
    assert(entry_views(headers@) =~= first + entry_views(options.static_headers@).take(0));
    let mut i: usize = 0;
    while i < options.static_headers.len()
        invariant
            i <= options.static_headers@.len(),
            entry_views(headers@) == first + entry_views(options.static_headers@).take(i as int),
        decreases options.static_headers@.len() - i,
    {
        let ghost views = entry_views(options.static_headers@);
        add_entry(&mut headers, options.static_headers[i].0.clone(), options.static_headers[i].1.clone());
        i += 1;
        assert(views.take(i as int) =~= views.take(i - 1).push(views[i - 1]));
        assert(entry_views(headers@) =~= first + views.take(i as int));
    }
    let ghost fixed = first + entry_views(options.static_headers@);
    assert(entry_views(options.static_headers@).take(i as int) =~= entry_views(options.static_headers@));
    let own = agent_headers(options.agent, options.product.as_str(), context);
    let mut j: usize = 0;
    assert(entry_views(headers@) =~= fixed + entry_views(own@).take(0));
    while j < own.len()
        invariant
            j <= own@.len(),
            entry_views(headers@) == fixed + entry_views(own@).take(j as int),
        decreases own@.len() - j,
    {
        let ghost views = entry_views(own@);
        add_entry(&mut headers, own[j].0.clone(), own[j].1.clone());
        j += 1;
        assert(views.take(j as int) =~= views.take(j - 1).push(views[j - 1]));
        assert(entry_views(headers@) =~= fixed + views.take(j as int));
    }
    assert(entry_views(own@).take(j as int) =~= entry_views(own@));
    headers
}

/// Prepares a request: spells its input, and writes its headers and its body.
pub fn prepare_request(
    run_id: &str,
    options: &ReplayOptions,
    dictionary: &TokenDictionary,
    request: TraceRequest,
    execution: RequestExecution,
) -> (result: Result<PreparedRequest, TokenError>)
    ensures
        match result {
            Ok(prepared) => preparation(run_id@, *options, *dictionary, request, execution)
                == Ok::<PreparedView, TokenError>(prepared@),
            Err(error) => preparation(run_id@, *options, *dictionary, request, execution)
                == Err::<PreparedView, TokenError>(error),
        },
{
    let mut replay_request_id = "agent-loadgen-".to_string();
    replay_request_id.append(run_id);
    replay_request_id.append("-");
    replay_request_id.append(decimal_text(request.ordinal as u64).as_str());
    let tokens = match dictionary.synthesize(&request) {
        Ok(tokens) => tokens,
        Err(error) => return Err(error),
    };
    let trigger = match &request.agent_context {
        Some(context) => clone_optional(&context.input_trigger),
        None => None,
    };
    let body = request_body(options.model.as_str(), &trigger, &tokens, execution.output_budget_tokens);
    let headers = request_headers(replay_request_id.as_str(), options, &request.agent_context);
    let TraceRequest { ordinal, source_request_id, source_x_request_id, agent_context, input_tokens, .. } = request;
    let metadata = PreparedMetadata {
        ordinal,
        source_request_id,
        source_x_request_id,
        replay_request_id,
        agent_context,
        input_tokens,
        expected_output_tokens: execution.output_budget_tokens,
        compaction_attempt: execution.compaction_attempt,
    };
    Ok(PreparedRequest { metadata, headers, body })
}

} // verus!
