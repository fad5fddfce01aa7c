//! What goes over the wire, where it goes, and what comes back beside it.

use crate::agent::{
    dialect_headers, final_headers, headers_of, lineage_headers, lowered, managed, managed_names, product_header,
    same_name, AgentKind,
};
use crate::contracts::AgentContextView;
use crate::fidelity::how_many;
use crate::groups::{lemma_places, places};
use crate::json::JsonView;
use crate::replay::options::{
    endpoint_of, ends_with, header_failure, headers_failure, models_of, options_failure, unslashed, valid_name,
    valid_value, ReplayOptions,
};
use crate::replay::request::{
    body_view, message_view, messages_view, prepared_view, replay_id, token_numbers, tool_call_view,
    tool_result_view, RequestExecution,
};
use crate::replay::result::RequestResult;
use crate::replay::telemetry::{
    all_records, file_failure, files_failure, is_summary, joined, left_over, matched_of, record_failure,
    record_ids, request_names, taken, telemetry_of, used_after, used_by, EngineTelemetryRecord,
    TelemetryJoinSummary,
};
use crate::contracts::TraceRequest;
use crate::text::{blank, decimal, law_decimals_differ};
use crate::text_map::entry_views;
use vstd::prelude::*;

verus! {

// ---------------------------------------------------------------------------------------------
// Headers
// ---------------------------------------------------------------------------------------------

/// Every request of a session says which session it belongs to, which one that came from, and whether
/// it is the last one, where these are known.
pub proof fn law_headers_name_the_session(kind: AgentKind, product: Seq<char>, context: AgentContextView)
    ensures
        ({
            let headers = headers_of(kind, product, Some(context));
            &&& headers.contains(("x-dynamo-session-id"@, context.session_id))
            &&& context.parent_session_id is Some ==> headers.contains(
                ("x-dynamo-parent-session-id"@, context.parent_session_id->0),
            )
            &&& context.session_final == Some(true) ==> headers.contains(("x-dynamo-session-final"@, "true"@))
            &&& context.session_final == Some(false) ==> headers.contains(("x-dynamo-session-final"@, "false"@))
        }),
        headers_of(kind, product, None).len() == 0,
{
    let headers = headers_of(kind, product, Some(context));
    let lineage = lineage_headers(context);
    assert(headers[0] == ("x-dynamo-session-id"@, context.session_id));
    if context.parent_session_id is Some {
        assert(headers[1] == ("x-dynamo-parent-session-id"@, context.parent_session_id->0));
    }
    if context.session_final is Some {
        assert(headers[headers.len() - 1] == final_headers(context)[0]);
    }
}

/// Each agent names the session, and its parent, in its own words. A child of the first agent goes by
/// the session of its parent, and by its own name as an agent.
pub proof fn law_agents_speak_their_dialect(product: Seq<char>, context: AgentContextView)
    ensures
        ({
            let first = headers_of(AgentKind::ClaudeCode, product, Some(context));
            let codex = headers_of(AgentKind::Codex, product, Some(context));
            let opencode = headers_of(AgentKind::Opencode, product, Some(context));
            &&& codex.contains(("thread-id"@, context.session_id))
            &&& opencode.contains(("x-session-id"@, context.session_id))
            &&& context.parent_session_id is None ==> first.contains(
                ("x-"@ + product + "-session-id"@, context.session_id),
            )
            &&& context.parent_session_id is Some ==> {
                let parent = context.parent_session_id->0;
                &&& first.contains(("x-"@ + product + "-session-id"@, parent))
                &&& first.contains(("x-"@ + product + "-agent-id"@, context.session_id))
                &&& first.contains(("x-"@ + product + "-parent-agent-id"@, parent))
                &&& codex.contains(("x-codex-parent-thread-id"@, parent))
                &&& opencode.contains(("x-parent-session-id"@, parent))
            }
            &&& context.compaction is Some ==> codex.contains(
                (
                    "x-codex-turn-metadata"@,
                    "{\"compaction\":"@ + context.compaction->0 + ",\"request_kind\":\"compaction\"}"@,
                ),
            )
        }),
{
    let first = headers_of(AgentKind::ClaudeCode, product, Some(context));
    let codex = headers_of(AgentKind::Codex, product, Some(context));
    let opencode = headers_of(AgentKind::Opencode, product, Some(context));
    let at = lineage_headers(context).len() as int;
    reveal_strlit("-");
    reveal_strlit("session-id");
    reveal_strlit("agent-id");
    reveal_strlit("parent-agent-id");
    reveal_strlit("-session-id");
    reveal_strlit("-agent-id");
    reveal_strlit("-parent-agent-id");
    assert(product_header(product, "session-id"@) =~= "x-"@ + product + "-session-id"@);
    assert(product_header(product, "agent-id"@) =~= "x-"@ + product + "-agent-id"@);
    assert(product_header(product, "parent-agent-id"@) =~= "x-"@ + product + "-parent-agent-id"@);
    let own = dialect_headers(AgentKind::ClaudeCode, product, context);
    assert(first[at] == own[0]);
    let thread = dialect_headers(AgentKind::Codex, product, context);
    assert(codex[at] == thread[0]);
    let open = dialect_headers(AgentKind::Opencode, product, context);
    assert(opencode[at] == open[0]);
    if context.parent_session_id is Some {
        assert(first[at + 1] == own[1]);
        assert(first[at + 2] == own[2]);
        assert(codex[at + 1] == thread[1]);
        assert(opencode[at + 1] == open[1]);
    }
    if context.compaction is Some {
        assert(codex[at + thread.len() - 1] == thread[thread.len() - 1]);
    }
}

/// A request carries no header beyond those: their number follows from what its context says.
pub proof fn law_headers_say_nothing_else(kind: AgentKind, product: Seq<char>, context: AgentContextView)
    ensures
        ({
            let parent: int = if context.parent_session_id is Some {
                1
            } else {
                0
            };
            let last: int = if context.session_final is Some {
                1
            } else {
                0
            };
            let dialect: int = match kind {
                AgentKind::ClaudeCode => 1 + 2 * parent,
                AgentKind::Codex => 1 + parent + if context.compaction is Some {
                    1int
                } else {
                    0
                },
                AgentKind::Opencode => 1 + parent,
            };
            headers_of(kind, product, Some(context)).len() == 1 + parent + dialect + last
        }),
{
}

/// Letters count the same in either case, and nothing else does.
pub proof fn law_letter_case_is_set_aside(c: char)
    ensures
        65 <= c as u32 <= 90 ==> lowered(c) as u32 == c as u32 + 32,
        !(65 <= c as u32 <= 90) ==> lowered(c) == c,
{
}

/// A header that some agent sends for some session, or the one that names a request.
pub open spec fn is_sent(name: Seq<char>, product: Seq<char>) -> bool {
    ||| name == "x-request-id"@
    ||| exists|kind: AgentKind, context: AgentContextView, i: int|
        0 <= i < headers_of(kind, product, Some(context)).len() && (#[trigger] headers_of(
            kind,
            product,
            Some(context),
        )[i]).0 == name
}

/// A static header may not have the name of a header that requests set themselves, whatever its letter
/// case; every other name it may have.
pub proof fn law_only_sent_headers_are_managed(name: Seq<char>, product: Seq<char>)
    ensures
        managed("x-request-id"@, product),
        managed(name, product) ==> exists|sent: Seq<char>| #[trigger]
            is_sent(sent, product) && sent.len() == name.len() && forall|i: int|
            0 <= i < name.len() ==> lowered(#[trigger] name[i]) == lowered(sent[i]),
{
    let names = managed_names(product);
    assert(names[0] == "x-request-id"@);
    assert(same_name("x-request-id"@, names[0]));
    if managed(name, product) {
        let k = choose|k: int| 0 <= k < names.len() && same_name(name, #[trigger] names[k]);
        let context = AgentContextView {
            session_id: Seq::empty(),
            parent_session_id: Some(Seq::empty()),
            session_final: Some(true),
            input_trigger: None,
            compaction: Some(Seq::empty()),
        };
        let first = headers_of(AgentKind::ClaudeCode, product, Some(context));
        let codex = headers_of(AgentKind::Codex, product, Some(context));
        let opencode = headers_of(AgentKind::Opencode, product, Some(context));
        assert(first[0].0 == names[1]);
        assert(first[1].0 == names[2]);
        assert(first[5].0 == names[3]);
        assert(first[2].0 == names[4]);
        assert(first[3].0 == names[5]);
        assert(first[4].0 == names[6]);
        assert(codex[2].0 == names[7]);
        assert(codex[3].0 == names[8]);
        assert(codex[4].0 == names[9]);
        assert(opencode[2].0 == names[10]);
        assert(opencode[3].0 == names[11]);
        assert(is_sent(names[k], product));
    }
}

// ---------------------------------------------------------------------------------------------
// Settings
// ---------------------------------------------------------------------------------------------

/// Settings hold exactly where the model has a name, something may be in flight, no more connections
/// are warmed up than may be used, results are flushed, the time scale and the limits are numbers that
/// make sense, and every static header can be sent and is not one that requests set themselves.
pub proof fn law_settings_hold(options: ReplayOptions)
    ensures
        options_failure(options) is None <==> {
            &&& !blank(options.model@)
            &&& options.max_in_flight >= 1
            &&& options.warmup_connections <= options.max_in_flight
            &&& options.result_flush_interval >= 1
            &&& options.time_scale.positive()
            &&& options.max_dispatch_p99_ms.not_negative()
            &&& options.max_dispatch_max_ms.not_negative()
            &&& forall|i: int|
                0 <= i < options.static_headers@.len() ==> {
                    let header = #[trigger] options.static_headers@[i];
                    &&& !managed(header.0@, options.product@)
                    &&& valid_name(header.0@)
                    &&& valid_value(header.1@)
                }
        },
{
    lemma_headers_hold(options.static_headers@, options.product@, options.static_headers@.len());
}

proof fn lemma_headers_hold(headers: Seq<(String, String)>, product: Seq<char>, n: nat)
    requires
        n <= headers.len(),
    ensures
        headers_failure(headers, product, n) is None <==> forall|i: int|
            0 <= i < n ==> {
                let header = #[trigger] headers[i];
                &&& !managed(header.0@, product)
                &&& valid_name(header.0@)
                &&& valid_value(header.1@)
            },
    decreases n,
{
    if n > 0 {
        lemma_headers_hold(headers, product, (n - 1) as nat);
        let header = headers[n - 1];
        assert(header_failure(header, product) is None <==> !managed(header.0@, product) && valid_name(header.0@)
            && valid_value(header.1@));
        if headers_failure(headers, product, n) is None {
            assert(headers_failure(headers, product, (n - 1) as nat) is None);
        }
    }
}

/// A target may be given as its base, as its endpoint, or as either with slashes behind it: the
/// endpoint is the same.
pub proof fn law_targets_may_be_given_either_way(base: Seq<char>, slashes: Seq<char>)
    requires
        base.len() > 0 ==> base.last() != '/',
        forall|i: int| 0 <= i < slashes.len() ==> slashes[i] == '/',
        !ends_with(base, "/v1/chat/completions"@),
    ensures
        endpoint_of(base + slashes) == base + "/v1/chat/completions"@,
        endpoint_of(base + "/v1/chat/completions"@ + slashes) == base + "/v1/chat/completions"@,
        models_of(endpoint_of(base + slashes)) == base + "/v1/models"@,
{
    reveal_strlit("/v1/chat/completions");
    let path = "/v1/chat/completions"@;
    let whole = base + path;
    assert(path.last() == 's');
    assert(whole.last() == path.last());
    lemma_unslashed_all(base, slashes);
    lemma_unslashed_all(whole, slashes);
    assert(whole.subrange(whole.len() - path.len(), whole.len() as int) =~= path);
    assert(whole.take(whole.len() - path.len()) =~= base);
}

proof fn lemma_unslashed_all(base: Seq<char>, slashes: Seq<char>)
    requires
        base.len() > 0 ==> base.last() != '/',
        forall|i: int| 0 <= i < slashes.len() ==> slashes[i] == '/',
    ensures
        unslashed(base + slashes) == base,
    decreases slashes.len(),
{
    let whole = base + slashes;
    if slashes.len() > 0 {
        assert(whole.last() == slashes[slashes.len() - 1]);
        lemma_unslashed_all(base, slashes.drop_last());
        assert(whole.drop_last() =~= base + slashes.drop_last());
    } else {
        assert(whole =~= base);
    }
}

// ---------------------------------------------------------------------------------------------
// Bodies
// ---------------------------------------------------------------------------------------------

/// An object with a field of this name and value.
pub open spec fn says(value: JsonView, name: Seq<char>, inner: JsonView) -> bool {
    value is Object && value->Object_0.contains((name, inner))
}

/// A body carries its tokens as they are, asks for a stream with usage at zero temperature, and is held
/// to a length exactly where there is one to hold it to.
pub proof fn law_bodies_carry_their_tokens(
    model: Seq<char>,
    trigger: Option<Seq<char>>,
    tokens: Seq<u32>,
    budget: Option<u32>,
)
    ensures
        ({
            let body = body_view(model, trigger, tokens, budget);
            &&& says(body, "model"@, JsonView::Text(model))
            &&& says(body, "stream"@, JsonView::Bool(true))
            &&& says(body, "temperature"@, JsonView::Number("0.0"@))
            &&& exists|usage: JsonView|
                says(body, "stream_options"@, usage) && #[trigger] says(usage, "include_usage"@, JsonView::Bool(true))
            &&& exists|data: JsonView, numbers: Seq<JsonView>|
                {
                    &&& says(body, "nvext"@, data)
                    &&& #[trigger] says(data, "token_data"@, JsonView::Array(numbers))
                    &&& numbers.len() == tokens.len()
                    &&& forall|i: int|
                        0 <= i < tokens.len() ==> #[trigger] numbers[i] == JsonView::Number(decimal(tokens[i] as nat))
                }
            &&& budget is Some ==> says(body, "max_tokens"@, JsonView::Number(decimal(budget->0 as nat))) && says(
                body,
                "ignore_eos"@,
                JsonView::Bool(true),
            )
            &&& body->Object_0.len() == if budget is Some {
                8int
            } else {
                6
            }
        }),
{
    let body = body_view(model, trigger, tokens, budget);
    let fields = body->Object_0;
    let at: int = if budget is Some {
        2
    } else {
        0
    };
    let data = JsonView::Object(seq![("token_data"@, JsonView::Array(token_numbers(tokens)))]);
    let usage = JsonView::Object(seq![("include_usage"@, JsonView::Bool(true))]);
    assert(fields[at + 1] == ("model"@, JsonView::Text(model)));
    assert(fields[at + 2] == ("nvext"@, data));
    assert(fields[at + 3] == ("stream"@, JsonView::Bool(true)));
    assert(fields[at + 4] == ("stream_options"@, usage));
    assert(fields[at + 5] == ("temperature"@, JsonView::Number("0.0"@)));
    assert(data->Object_0[0] == ("token_data"@, JsonView::Array(token_numbers(tokens))));
    assert(usage->Object_0[0] == ("include_usage"@, JsonView::Bool(true)));
    assert(says(usage, "include_usage"@, JsonView::Bool(true)));
    assert(says(data, "token_data"@, JsonView::Array(token_numbers(tokens))));
    if budget is Some {
        assert(fields[0] == ("ignore_eos"@, JsonView::Bool(true)));
        assert(fields[1] == ("max_tokens"@, JsonView::Number(decimal(budget->0 as nat))));
    }
}

/// The last message of a request is one of whoever triggered it: of a tool after a result, of the
/// assistant where it went on by itself, and of the user otherwise.
pub proof fn law_messages_end_with_their_trigger(
    model: Seq<char>,
    trigger: Option<Seq<char>>,
    tokens: Seq<u32>,
    budget: Option<u32>,
)
    ensures
        ({
            let body = body_view(model, trigger, tokens, budget);
            exists|messages: Seq<JsonView>|
                {
                    &&& #[trigger] says(body, "messages"@, JsonView::Array(messages))
                    &&& messages.len() > 0
                    &&& says(
                        messages.last(),
                        "role"@,
                        JsonView::Text(
                            if trigger == Some("tool_result"@) {
                                "tool"@
                            } else if trigger == Some("other"@) {
                                "assistant"@
                            } else {
                                "user"@
                            },
                        ),
                    )
                    &&& trigger == Some("tool_result"@) ==> messages.len() == 2 && says(
                        messages[0],
                        "role"@,
                        JsonView::Text("assistant"@),
                    )
                }
        }),
{
    let body = body_view(model, trigger, tokens, budget);
    let fields = body->Object_0;
    let at: int = if budget is Some {
        2
    } else {
        0
    };
    let messages = messages_view(trigger)->Array_0;
    reveal_strlit("tool_result");
    reveal_strlit("other");
    assert("tool_result"@.len() != "other"@.len());
    assert(fields[at] == ("messages"@, JsonView::Array(messages)));
    assert(says(body, "messages"@, JsonView::Array(messages)));
    assert(tool_result_view()->Object_0[1] == ("role"@, JsonView::Text("tool"@)));
    assert(tool_call_view()->Object_0[1] == ("role"@, JsonView::Text("assistant"@)));
    assert(message_view("assistant"@, "shape replay"@)->Object_0[1] == ("role"@, JsonView::Text("assistant"@)));
    assert(message_view("user"@, "shape replay"@)->Object_0[1] == ("role"@, JsonView::Text("user"@)));
}

/// No two requests of a run go by one identifier.
pub proof fn law_replayed_requests_are_told_apart(run_id: Seq<char>, a: usize, b: usize)
    requires
        replay_id(run_id, a) == replay_id(run_id, b),
    ensures
        a == b,
{
    let head = "agent-loadgen-"@ + run_id + "-"@;
    assert(replay_id(run_id, a).skip(head.len() as int) =~= decimal(a as nat));
    assert(replay_id(run_id, b).skip(head.len() as int) =~= decimal(b as nat));
    law_decimals_differ(a as nat, b as nat);
}

/// What is sent stands for its source: its metadata repeat the source, its headers name it, carry every
/// static header and those of its agent, and its body holds what the source triggers and is held to.
pub proof fn law_requests_stand_for_their_source(
    run_id: Seq<char>,
    options: ReplayOptions,
    tokens: Seq<u32>,
    request: TraceRequest,
    execution: RequestExecution,
    i: int,
)
    requires
        0 <= i < options.static_headers@.len() || i == -1,
    ensures
        ({
            let sent = prepared_view(run_id, options, tokens, request, execution);
            let own = headers_of(options.agent, options.product@, sent.metadata.agent_context);
            &&& sent.metadata.ordinal == request.ordinal
            &&& sent.metadata.source_request_id == request.source_request_id@
            &&& sent.metadata.input_tokens == request.input_tokens
            &&& sent.metadata.expected_output_tokens == execution.output_budget_tokens
            &&& sent.metadata.compaction_attempt is Some <==> execution.compaction_attempt is Some
            &&& sent.metadata.agent_context is Some <==> request.agent_context is Some
            &&& request.agent_context is Some ==> sent.metadata.agent_context == Some(request.agent_context->0@)
            &&& sent.headers.contains(("x-request-id"@, sent.metadata.replay_request_id))
            &&& i >= 0 ==> sent.headers.contains((options.static_headers@[i].0@, options.static_headers@[i].1@))
            &&& sent.headers.len() == 1 + options.static_headers@.len() + own.len()
            &&& sent.headers.skip(1 + options.static_headers@.len() as int) == own
            &&& sent.body == body_view(
                options.model@,
                if request.agent_context is Some {
                    request.agent_context->0@.input_trigger
                } else {
                    None
                },
                tokens,
                execution.output_budget_tokens,
            )
        }),
{
    let sent = prepared_view(run_id, options, tokens, request, execution);
    let own = headers_of(options.agent, options.product@, sent.metadata.agent_context);
    assert(sent.headers[0] == ("x-request-id"@, sent.metadata.replay_request_id));
    assert(entry_views(options.static_headers@).len() == options.static_headers@.len());
    if i >= 0 {
        assert(sent.headers[1 + i] == (options.static_headers@[i].0@, options.static_headers@[i].1@));
    }
    assert(sent.headers.skip(1 + options.static_headers@.len() as int) =~= own);
}

// ---------------------------------------------------------------------------------------------
// Telemetry
// ---------------------------------------------------------------------------------------------

/// A request goes by a name: as it was sent, or as its source was.
pub open spec fn goes_by(request: RequestResult, name: Seq<char>) -> bool {
    ||| request.replay_request_id@ == name
    ||| request.source_request_id@ == name
    ||| request.source_x_request_id is Some && request.source_x_request_id->0@ == name
}

/// Request `i` is the first that goes by a name.
pub open spec fn claims(requests: Seq<RequestResult>, i: int, name: Seq<char>) -> bool {
    goes_by(requests[i], name) && forall|j: int| 0 <= j < i ==> !goes_by(#[trigger] requests[j], name)
}

proof fn lemma_used_after(used: Set<Seq<char>>, names: Seq<Seq<char>>, name: Seq<char>)
    ensures
        used_after(used, names).contains(name) <==> used.contains(name) || names.contains(name),
    decreases names.len(),
{
    if names.len() > 0 {
        let rest = names.drop_last();
        lemma_used_after(used, rest, name);
        if names.contains(name) && names.last() != name {
            let k = names.index_of(name);
            assert(rest[k] == name);
        }
        if rest.contains(name) {
            let k = rest.index_of(name);
            assert(names[k] == name);
        }
        if names.last() == name {
            assert(names[names.len() - 1] == name);
        }
    }
}

proof fn lemma_names(request: RequestResult, name: Seq<char>)
    ensures
        request_names(request).contains(name) <==> goes_by(request, name),
{
    let names = request_names(request);
    assert(names[0] == request.replay_request_id@);
    assert(names[names.len() - 1] == request.source_request_id@);
    if request.source_x_request_id is Some {
        assert(names[1] == request.source_x_request_id->0@);
    }
}

proof fn lemma_used_by(requests: Seq<RequestResult>, n: nat, name: Seq<char>)
    requires
        n <= requests.len(),
    ensures
        used_by(requests, n).contains(name) <==> exists|j: int| 0 <= j < n && goes_by(#[trigger] requests[j], name),
    decreases n,
{
    if n > 0 {
        lemma_used_by(requests, (n - 1) as nat, name);
        lemma_used_after(used_by(requests, (n - 1) as nat), request_names(requests[n - 1]), name);
        lemma_names(requests[n - 1], name);
        if exists|j: int| 0 <= j < n && goes_by(#[trigger] requests[j], name) {
            let j = choose|j: int| 0 <= j < n && goes_by(#[trigger] requests[j], name);
            if j < n - 1 {
                assert(goes_by(requests[j], name));
            }
        }
        if goes_by(requests[n - 1], name) {
            assert(goes_by(requests[n - 1], name));
        }
    }
}

proof fn lemma_taken(records: Seq<EngineTelemetryRecord>, used: Set<Seq<char>>, name: Seq<char>)
    requires
        records.len() <= usize::MAX,
    ensures
        forall|k: int|
            0 <= k < taken(records, used, name).len() ==> (#[trigger] taken(records, used, name)[k]).request_id@ == name
                && !used.contains(name) && records.contains(taken(records, used, name)[k]),
        forall|j: int|
            0 <= j < records.len() && (#[trigger] records[j]).request_id@ == name && !used.contains(name) ==> taken(
                records,
                used,
                name,
            ).contains(records[j]),
{
    let ids = record_ids(records);
    let found = places(ids, name, records.len());
    lemma_places(ids, name, records.len());
    assert forall|k: int| 0 <= k < taken(records, used, name).len() implies (#[trigger] taken(
        records,
        used,
        name,
    )[k]).request_id@ == name && !used.contains(name) && records.contains(taken(records, used, name)[k]) by {
        assert(found[k] < records.len());
        assert(ids[found[k] as int] == Some(records[found[k] as int].request_id@));
    }
    assert forall|j: int|
        0 <= j < records.len() && (#[trigger] records[j]).request_id@ == name && !used.contains(name) implies taken(
        records,
        used,
        name,
    ).contains(records[j]) by {
        assert(ids[j] == Some(name));
        let k = found.index_of(j as usize);
        assert(taken(records, used, name)[k] == records[j]);
    }
}

proof fn lemma_joined(records: Seq<EngineTelemetryRecord>, used: Set<Seq<char>>, names: Seq<Seq<char>>)
    requires
        records.len() <= usize::MAX,
    ensures
        forall|k: int|
            0 <= k < joined(records, used, names).len() ==> {
                let record = #[trigger] joined(records, used, names)[k];
                names.contains(record.request_id@) && !used.contains(record.request_id@) && records.contains(record)
            },
        forall|j: int|
            0 <= j < records.len() && names.contains((#[trigger] records[j]).request_id@) && !used.contains(
                records[j].request_id@,
            ) ==> joined(records, used, names).contains(records[j]),
    decreases names.len(),
{
    if names.len() > 0 {
        let rest = names.drop_last();
        let name = names.last();
        let before = joined(records, used, rest);
        let held = used_after(used, rest);
        let more = taken(records, held, name);
        let all = joined(records, used, names);
        lemma_joined(records, used, rest);
        lemma_taken(records, held, name);
        lemma_used_after(used, rest, name);
        assert forall|k: int| 0 <= k < all.len() implies {
            let record = #[trigger] all[k];
            names.contains(record.request_id@) && !used.contains(record.request_id@) && records.contains(record)
        } by {
            if k < before.len() {
                assert(all[k] == before[k]);
                let at = rest.index_of(before[k].request_id@);
                assert(names[at] == before[k].request_id@);
            } else {
                assert(all[k] == more[k - before.len()]);
                assert(names[names.len() - 1] == name);
            }
        }
        assert forall|j: int|
            0 <= j < records.len() && names.contains((#[trigger] records[j]).request_id@) && !used.contains(
                records[j].request_id@,
            ) implies all.contains(records[j]) by {
            let id = records[j].request_id@;
            if rest.contains(id) {
                let k = before.index_of(records[j]);
                assert(all[k] == records[j]);
            } else {
                let at = names.index_of(id);
                assert(at == names.len() - 1 || rest[at] == id);
                assert(more.contains(records[j]));
                let k = more.index_of(records[j]);
                assert(all[before.len() + k] == records[j]);
            }
        }
    }
}

/// A record goes to the first request that goes by its name, and to no other: what a request gets are
/// records under its names, and every record under a name that no earlier request goes by.
pub proof fn law_records_go_to_the_first_that_claims_them(
    records: Seq<EngineTelemetryRecord>,
    requests: Seq<RequestResult>,
    i: int,
)
    requires
        records.len() <= usize::MAX,
        0 <= i < requests.len(),
    ensures
        forall|k: int|
            0 <= k < telemetry_of(records, requests, i).len() ==> {
                let record = #[trigger] telemetry_of(records, requests, i)[k];
                records.contains(record) && claims(requests, i, record.request_id@)
            },
        forall|j: int|
            0 <= j < records.len() && claims(requests, i, (#[trigger] records[j]).request_id@) ==> telemetry_of(
                records,
                requests,
                i,
            ).contains(records[j]),
{
    let used = used_by(requests, i as nat);
    let names = request_names(requests[i]);
    lemma_joined(records, used, names);
    assert forall|k: int| 0 <= k < telemetry_of(records, requests, i).len() implies {
        let record = #[trigger] telemetry_of(records, requests, i)[k];
        records.contains(record) && claims(requests, i, record.request_id@)
    } by {
        let id = telemetry_of(records, requests, i)[k].request_id@;
        lemma_names(requests[i], id);
        lemma_used_by(requests, i as nat, id);
    }
    assert forall|j: int|
        0 <= j < records.len() && claims(requests, i, (#[trigger] records[j]).request_id@) implies telemetry_of(
        records,
        requests,
        i,
    ).contains(records[j]) by {
        let id = records[j].request_id@;
        lemma_names(requests[i], id);
        lemma_used_by(requests, i as nat, id);
    }
}

/// The summary of a join counts the requests that got a record and those that got none, and the records
/// whose name no request goes by.
pub proof fn law_joins_are_counted(
    summary: TelemetryJoinSummary,
    records: Seq<EngineTelemetryRecord>,
    requests: Seq<RequestResult>,
    output: String,
)
    requires
        is_summary(summary, records, requests, output),
    ensures
        summary.request_records == requests.len(),
        summary.telemetry_records == records.len(),
        summary.matched_requests == how_many(
            requests.len(),
            |i: int| telemetry_of(records, requests, i).len() > 0,
        ),
        summary.matched_requests + summary.unmatched_requests == summary.request_records,
        summary.unmatched_telemetry_records == how_many(
            records.len(),
            |j: int| !(exists|i: int| 0 <= i < requests.len() && goes_by(#[trigger] requests[i], records[j].request_id@)),
        ),
{
    lemma_matched(records, requests, requests.len());
    lemma_left(records, requests, records.len());
}

proof fn lemma_matched(records: Seq<EngineTelemetryRecord>, requests: Seq<RequestResult>, n: nat)
    ensures
        matched_of(records, requests, n) == how_many(n, |i: int| telemetry_of(records, requests, i).len() > 0),
    decreases n,
{
    if n > 0 {
        lemma_matched(records, requests, (n - 1) as nat);
    }
}

proof fn lemma_left(records: Seq<EngineTelemetryRecord>, requests: Seq<RequestResult>, n: nat)
    ensures
        left_over(records, used_by(requests, requests.len()), n) == how_many(
            n,
            |j: int| !(exists|i: int| 0 <= i < requests.len() && goes_by(#[trigger] requests[i], records[j].request_id@)),
        ),
    decreases n,
{
    if n > 0 {
        lemma_left(records, requests, (n - 1) as nat);
        lemma_used_by(requests, requests.len(), records[n - 1].request_id@);
    }
}

/// Requests of different runs go by different identifiers.
pub proof fn law_runs_are_told_apart(a: Seq<char>, b: Seq<char>, ordinal: usize)
    requires
        replay_id(a, ordinal) == replay_id(b, ordinal),
    ensures
        a == b,
{
    let head = "agent-loadgen-"@;
    let left = replay_id(a, ordinal);
    let right = replay_id(b, ordinal);
    assert(left.len() == head.len() + a.len() + "-"@.len() + decimal(ordinal as nat).len());
    assert(right.len() == head.len() + b.len() + "-"@.len() + decimal(ordinal as nat).len());
    assert(left.subrange(head.len() as int, (head.len() + a.len()) as int) =~= a);
    assert(right.subrange(head.len() as int, (head.len() + b.len()) as int) =~= b);
}

/// A telemetry record is accepted exactly where it has an identifier and its queue time, if it has one,
/// is finite and not negative.
pub proof fn law_records_are_checked(record: EngineTelemetryRecord, path: String)
    ensures
        record_failure(record, path) is None <==> !blank(record.request_id@) && (record.queue_time_ms is None
            || record.queue_time_ms->0.bits < 0x7ff0_0000_0000_0000 || record.queue_time_ms->0.bits
            == 0x8000_0000_0000_0000),
{
}

/// Files are read one after the other, each from its first record to its last; all of them are accepted
/// exactly where every record is.
pub proof fn law_every_record_of_every_file_is_read(
    files: Seq<(String, Vec<EngineTelemetryRecord>)>,
    n: nat,
)
    requires
        0 < n <= files.len(),
    ensures
        ({
            let before = all_records(files, (n - 1) as nat);
            let own = files[n - 1].1@;
            &&& all_records(files, n).len() == before.len() + own.len()
            &&& all_records(files, n).take(before.len() as int) == before
            &&& all_records(files, n).skip(before.len() as int) == own
        }),
        files_failure(files, n) is None <==> files_failure(files, (n - 1) as nat) is None && forall|k: int|
            0 <= k < files[n - 1].1@.len() ==> record_failure(#[trigger] files[n - 1].1@[k], files[n - 1].0) is None,
{
    let before = all_records(files, (n - 1) as nat);
    let own = files[n - 1].1@;
    assert(all_records(files, n).take(before.len() as int) =~= before);
    assert(all_records(files, n).skip(before.len() as int) =~= own);
    lemma_file(files[n - 1], own.len());
}

proof fn lemma_file(file: (String, Vec<EngineTelemetryRecord>), n: nat)
    requires
        n <= file.1@.len(),
    ensures
        file_failure(file, n) is None <==> forall|k: int|
            0 <= k < n ==> record_failure(#[trigger] file.1@[k], file.0) is None,
    decreases n,
{
    if n > 0 {
        lemma_file(file, (n - 1) as nat);
        if file_failure(file, n) is None {
            assert(file_failure(file, (n - 1) as nat) is None);
        }
    }
}

} // verus!
