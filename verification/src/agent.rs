//! The agents whose traffic is modelled, and the headers that mark it.

use crate::contracts::{texts, AgentContext, AgentContextView};
use crate::text::char_list;
use crate::text_map::entry_views;
use vstd::prelude::*;

verus! {

/// A coding agent.
#[derive(Debug, Clone, Copy, PartialEq, Eq, Structural)]
pub enum AgentKind {
    ClaudeCode,
    Codex,
    Opencode,
}

/// The headers that every agent sends for a session.
pub open spec fn lineage_headers(context: AgentContextView) -> Seq<(Seq<char>, Seq<char>)> {
    let own = seq![("x-dynamo-session-id"@, context.session_id)];
    match context.parent_session_id {
        Some(parent) => own.push(("x-dynamo-parent-session-id"@, parent)),
        None => own,
    }
}

/// What a Codex turn that compacts its context says of itself.
pub open spec fn turn_metadata(compaction: Seq<char>) -> Seq<char> {
    "{\"compaction\":"@ + compaction + ",\"request_kind\":\"compaction\"}"@
}

/// The name of a header that carries the name of a product.
pub open spec fn product_header(product: Seq<char>, field: Seq<char>) -> Seq<char> {
    "x-"@ + product + "-"@ + field
}

fn product_header_name(product: &str, field: &str) -> (name: String)
    ensures
        name@ == product_header(product@, field@),
{
    let mut name = "x-".to_string();
    name.append(product);
    name.append("-");
    name.append(field);
    name
}

/// The headers that an agent adds in its own dialect. The first one puts its product name into
/// the names of its headers.
pub open spec fn dialect_headers(kind: AgentKind, product: Seq<char>, context: AgentContextView) -> Seq<(Seq<char>, Seq<char>)> {
    match kind {
        AgentKind::ClaudeCode => match context.parent_session_id {
            Some(parent) => seq![
                (product_header(product, "session-id"@), parent),
                (product_header(product, "agent-id"@), context.session_id),
                (product_header(product, "parent-agent-id"@), parent),
            ],
            None => seq![(product_header(product, "session-id"@), context.session_id)],
        },
        AgentKind::Codex => {
            let own = seq![("thread-id"@, context.session_id)];
            let lineage = match context.parent_session_id {
                Some(parent) => own.push(("x-codex-parent-thread-id"@, parent)),
                None => own,
            };
            match context.compaction {
                Some(compaction) => lineage.push(("x-codex-turn-metadata"@, turn_metadata(compaction))),
                None => lineage,
            }
        },
        AgentKind::Opencode => {
            let own = seq![("x-session-id"@, context.session_id)];
            match context.parent_session_id {
                Some(parent) => own.push(("x-parent-session-id"@, parent)),
                None => own,
            }
        },
    }
}

/// The header that marks the last request of a session.
pub open spec fn final_headers(context: AgentContextView) -> Seq<(Seq<char>, Seq<char>)> {
    match context.session_final {
        Some(true) => seq![("x-dynamo-session-final"@, "true"@)],
        Some(false) => seq![("x-dynamo-session-final"@, "false"@)],
        None => Seq::empty(),
    }
}

/// The headers of a request.
pub open spec fn headers_of(kind: AgentKind, product: Seq<char>, context: Option<AgentContextView>) -> Seq<
    (Seq<char>, Seq<char>),
> {
    match context {
        Some(context) => lineage_headers(context) + dialect_headers(kind, product, context) + final_headers(context),
        None => Seq::empty(),
    }
}

fn add_header(headers: &mut Vec<(String, String)>, name: String, value: String)
    ensures
        entry_views(final(headers)@) == entry_views(old(headers)@).push((name@, value@)),
{
    headers.push((name, value));
    assert(entry_views(headers@) =~= entry_views(old(headers)@).push((name@, value@)));
}

/// Lists the headers that mark a request as one of the agent's.
pub fn agent_headers(kind: AgentKind, product: &str, context: &Option<AgentContext>) -> (headers: Vec<
    (String, String),
>)
    ensures
        entry_views(headers@) == headers_of(kind, product@, crate::compare::context_view(*context)),
{
    let mut headers: Vec<(String, String)> = Vec::new();
    let context = match context {
        Some(context) => context,
        None => {
            assert(entry_views(headers@) =~= Seq::<(Seq<char>, Seq<char>)>::empty());
            return headers;
        },
    };
    add_header(&mut headers, "x-dynamo-session-id".to_string(), context.session_id.clone());
    if let Some(parent) = &context.parent_session_id {
        add_header(&mut headers, "x-dynamo-parent-session-id".to_string(), parent.clone());
    }
    assert(entry_views(headers@) =~= lineage_headers(context@));
    match kind {
        AgentKind::ClaudeCode => {
            if let Some(parent) = &context.parent_session_id {
                add_header(&mut headers, product_header_name(product, "session-id"), parent.clone());
                add_header(&mut headers, product_header_name(product, "agent-id"), context.session_id.clone());
                add_header(&mut headers, product_header_name(product, "parent-agent-id"), parent.clone());
            } else {
                add_header(&mut headers, product_header_name(product, "session-id"), context.session_id.clone());
            }
        },
        AgentKind::Codex => {
            add_header(&mut headers, "thread-id".to_string(), context.session_id.clone());
            if let Some(parent) = &context.parent_session_id {
                add_header(&mut headers, "x-codex-parent-thread-id".to_string(), parent.clone());
            }
            if let Some(compaction) = &context.compaction {
                let mut value = "{\"compaction\":".to_string();
                value.append(compaction.as_str());
                value.append(",\"request_kind\":\"compaction\"}");
                add_header(&mut headers, "x-codex-turn-metadata".to_string(), value);
            }
        },
        AgentKind::Opencode => {
            add_header(&mut headers, "x-session-id".to_string(), context.session_id.clone());
            if let Some(parent) = &context.parent_session_id {
                add_header(&mut headers, "x-parent-session-id".to_string(), parent.clone());
            }
        },
    }
    assert(entry_views(headers@) =~= lineage_headers(context@) + dialect_headers(kind, product@, context@));
    if let Some(finality) = context.session_final {
        let value = if finality {
            "true"
        } else {
            "false"
        };
        add_header(&mut headers, "x-dynamo-session-final".to_string(), value.to_string());
    }
    assert(entry_views(headers@) =~= lineage_headers(context@) + dialect_headers(kind, product@, context@) + final_headers(
        context@,
    ));
    headers
}

// ---------------------------------------------------------------------------------------------
// Headers that belong to the load generator
// ---------------------------------------------------------------------------------------------

/// The names that requests set themselves.
pub open spec fn managed_names(product: Seq<char>) -> Seq<Seq<char>> {
    seq![
        "x-request-id"@,
        "x-dynamo-session-id"@,
        "x-dynamo-parent-session-id"@,
        "x-dynamo-session-final"@,
        product_header(product, "session-id"@),
        product_header(product, "agent-id"@),
        product_header(product, "parent-agent-id"@),
        "thread-id"@,
        "x-codex-parent-thread-id"@,
        "x-codex-turn-metadata"@,
        "x-session-id"@,
        "x-parent-session-id"@,
    ]
}

/// A character in lower case; letters beyond ASCII stay.
pub open spec fn lowered(c: char) -> char {
    if 'A' <= c <= 'Z' {
        (c as u32 + 32) as char
    } else {
        c
    }
}

/// The same name, letter case aside.
pub open spec fn same_name(a: Seq<char>, b: Seq<char>) -> bool {
    a.len() == b.len() && forall|i: int| 0 <= i < a.len() ==> lowered(#[trigger] a[i]) == lowered(b[i])
}

/// A static header must not have this name.
pub open spec fn managed(name: Seq<char>, product: Seq<char>) -> bool {
    exists|i: int| 0 <= i < managed_names(product).len() && same_name(name, #[trigger] managed_names(product)[i])
}

fn lower(c: char) -> (result: char)
    ensures
        result == lowered(c),
{
    match c {
        'A' => 'a',
        'B' => 'b',
        'C' => 'c',
        'D' => 'd',
        'E' => 'e',
        'F' => 'f',
        'G' => 'g',
        'H' => 'h',
        'I' => 'i',
        'J' => 'j',
        'K' => 'k',
        'L' => 'l',
        'M' => 'm',
        'N' => 'n',
        'O' => 'o',
        'P' => 'p',
        'Q' => 'q',
        'R' => 'r',
        'S' => 's',
        'T' => 't',
        'U' => 'u',
        'V' => 'v',
        'W' => 'w',
        'X' => 'x',
        'Y' => 'y',
        'Z' => 'z',
        _ => c,
    }
}

fn is_same_name(a: &str, b: &str) -> (same: bool)
    ensures
        same == same_name(a@, b@),
{
    let left = char_list(a);
    let right = char_list(b);
    if left.len() != right.len() {
        return false;
    }
    let mut i: usize = 0;
    while i < left.len()
        invariant
            i <= left@.len(),
            left@ == a@,
            right@ == b@,
            left@.len() == right@.len(),
            forall|k: int| 0 <= k < i ==> lowered(#[trigger] left@[k]) == lowered(right@[k]),
        decreases left@.len() - i,
    {
        if lower(left[i]) != lower(right[i]) {
            assert(lowered(a@[i as int]) != lowered(b@[i as int]));
            return false;
        }
        i += 1;
    }
    true
}

fn list_managed_names(product: &str) -> (names: Vec<String>)
    ensures
        texts(names@) == managed_names(product@),
{
    let names: Vec<String> = vec![
        "x-request-id".to_string(),
        "x-dynamo-session-id".to_string(),
        "x-dynamo-parent-session-id".to_string(),
        "x-dynamo-session-final".to_string(),
        product_header_name(product, "session-id"),
        product_header_name(product, "agent-id"),
        product_header_name(product, "parent-agent-id"),
        "thread-id".to_string(),
        "x-codex-parent-thread-id".to_string(),
        "x-codex-turn-metadata".to_string(),
        "x-session-id".to_string(),
        "x-parent-session-id".to_string(),
    ];
    assert(texts(names@) =~= managed_names(product@));
    names
}

/// Tells whether requests set a header of this name themselves.
pub fn is_managed_header(name: &str, product: &str) -> (result: bool)
    ensures
        result == managed(name@, product@),
{
    let names = list_managed_names(product);
    let mut i: usize = 0;
    while i < names.len()
        invariant
            i <= names@.len(),
            texts(names@) == managed_names(product@),
            forall|k: int| 0 <= k < i ==> !same_name(name@, #[trigger] managed_names(product@)[k]),
        decreases names@.len() - i,
    {
        assert(texts(names@)[i as int] == names@[i as int]@);
        if is_same_name(name, names[i].as_str()) {
            return true;
        }
        i += 1;
    }
    assert(managed_names(product@).len() == names@.len());
    false
}

/// Every header of an agent is one that a static header must not be.
pub proof fn law_agent_headers_are_managed(
    kind: AgentKind,
    product: Seq<char>,
    context: Option<AgentContextView>,
    i: int,
)
    requires
        0 <= i < headers_of(kind, product, context).len(),
    ensures
        managed(headers_of(kind, product, context)[i].0, product),
{
    let names = managed_names(product);
    let name = headers_of(kind, product, context)[i].0;
    assert(names.len() == 12);
    assert(names[1] == "x-dynamo-session-id"@);
    assert(names[2] == "x-dynamo-parent-session-id"@);
    assert(names[3] == "x-dynamo-session-final"@);
    assert(names[4] == product_header(product, "session-id"@));
    assert(names[5] == product_header(product, "agent-id"@));
    assert(names[6] == product_header(product, "parent-agent-id"@));
    assert(names[7] == "thread-id"@);
    assert(names[8] == "x-codex-parent-thread-id"@);
    assert(names[9] == "x-codex-turn-metadata"@);
    assert(names[10] == "x-session-id"@);
    assert(names[11] == "x-parent-session-id"@);
    assert(exists|k: int| 0 <= k < names.len() && name == #[trigger] names[k]);
    let k = choose|k: int| 0 <= k < names.len() && name == #[trigger] names[k];
    assert(same_name(name, names[k]));
}

/// Only Codex describes its compactions, and only where a request has one to describe.
pub proof fn law_only_codex_describes_compaction(
    kind: AgentKind,
    product: Seq<char>,
    context: AgentContextView,
    i: int,
)
    requires
        0 <= i < headers_of(kind, product, Some(context)).len(),
        headers_of(kind, product, Some(context))[i].0 == "x-codex-turn-metadata"@,
    ensures
        kind == AgentKind::Codex,
        context.compaction is Some,
{
    reveal_strlit("x-codex-turn-metadata");
    reveal_strlit("x-dynamo-session-id");
    reveal_strlit("x-dynamo-parent-session-id");
    reveal_strlit("x-dynamo-session-final");
    reveal_strlit("session-id");
    reveal_strlit("agent-id");
    reveal_strlit("parent-agent-id");
    reveal_strlit("thread-id");
    reveal_strlit("x-codex-parent-thread-id");
    reveal_strlit("x-session-id");
    reveal_strlit("x-parent-session-id");
    assert("x-codex-turn-metadata"@.len() == 21);
    assert("x-codex-turn-metadata"@.last() == 'a');
    assert("x-dynamo-session-id"@.len() == 19);
    assert("x-dynamo-parent-session-id"@.len() == 26);
    assert("x-dynamo-session-final"@.len() == 22);
    assert(product_header(product, "session-id"@).last() == 'd');
    assert(product_header(product, "agent-id"@).last() == 'd');
    assert(product_header(product, "parent-agent-id"@).last() == 'd');
    assert("thread-id"@.len() == 9);
    assert("x-codex-parent-thread-id"@.len() == 24);
    assert("x-session-id"@.len() == 12);
    assert("x-parent-session-id"@.len() == 19);
}

} // verus!
