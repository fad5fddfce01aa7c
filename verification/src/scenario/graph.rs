//! Plans as Graphviz graphs.

use crate::groups::{lemma_places, places, TextGroups};
use crate::scenario::model::{GeneratedNode, GeneratedScenario, GeneratedSession, GeneratedSessionTopology};
use crate::text::{decimal, decimal_text, same_text, text_at_or_before, text_precedes};
use vstd::hash_map::StringHashMap;
use vstd::prelude::*;

verus! {

/// Graph artifacts written beside a generated scenario.
#[derive(Debug, Clone, PartialEq, Eq)]
pub struct PlanGraphArtifacts {
    pub dot_path: String,
    pub svg_path: Option<String>,
}

/// Why a plan cannot be drawn.
#[derive(Debug, Clone, Copy, PartialEq, Eq, Structural)]
pub enum GraphError {
    MissingContext { ordinal: usize },
    UnknownSession { ordinal: usize },
    MissingDependency { ordinal: usize, dependency: usize },
    SourceWithoutContext,
    TargetWithoutContext,
    SourceOfUnknownSession,
    TargetOfUnknownSession,
}

impl GraphError {
    /// What a reader is told.
    pub open spec fn text(self) -> Seq<char> {
        match self {
            GraphError::MissingContext { ordinal } => "generated node "@ + decimal(ordinal as nat)
                + " is missing agent context"@,
            GraphError::UnknownSession { ordinal } => "generated node "@ + decimal(ordinal as nat)
                + " references an unknown session"@,
            GraphError::MissingDependency { ordinal, dependency } => "generated node "@ + decimal(ordinal as nat)
                + " has missing dependency "@ + decimal(dependency as nat),
            GraphError::SourceWithoutContext => "generated dependency source is missing agent context"@,
            GraphError::TargetWithoutContext => "generated dependency target is missing agent context"@,
            GraphError::SourceOfUnknownSession => "generated dependency source references an unknown session"@,
            GraphError::TargetOfUnknownSession => "generated dependency target references an unknown session"@,
        }
    }

    /// Writes what a reader is told.
    pub fn message(&self) -> (message: String)
        ensures
            message@ == self.text(),
    {
        match self {
            GraphError::MissingContext { ordinal } => {
                let mut message = "generated node ".to_string();
                message.append(decimal_text(*ordinal as u64).as_str());
                message.append(" is missing agent context");
                message
            },
            GraphError::UnknownSession { ordinal } => {
                let mut message = "generated node ".to_string();
                message.append(decimal_text(*ordinal as u64).as_str());
                message.append(" references an unknown session");
                message
            },
            GraphError::MissingDependency { ordinal, dependency } => {
                let mut message = "generated node ".to_string();
                message.append(decimal_text(*ordinal as u64).as_str());
                message.append(" has missing dependency ");
                message.append(decimal_text(*dependency as u64).as_str());
                message
            },
            GraphError::SourceWithoutContext => "generated dependency source is missing agent context".to_string(),
            GraphError::TargetWithoutContext => "generated dependency target is missing agent context".to_string(),
            GraphError::SourceOfUnknownSession => "generated dependency source references an unknown session".to_string(),
            GraphError::TargetOfUnknownSession => "generated dependency target references an unknown session".to_string(),
        }
    }
}

// ---------------------------------------------------------------------------------------------
// Labels
// ---------------------------------------------------------------------------------------------

/// A character as it stands in a quoted label.
pub open spec fn escaped_char(c: char) -> Seq<char> {
    if c == '\\' {
        seq!['\\', '\\']
    } else if c == '"' {
        seq!['\\', '"']
    } else if c == '\n' {
        seq!['\\', 'n']
    } else {
        seq![c]
    }
}

/// A text as it stands in a quoted label.
pub open spec fn dot_escaped(text: Seq<char>) -> Seq<char>
    decreases text.len(),
{
    if text.len() == 0 {
        Seq::empty()
    } else {
        dot_escaped(text.drop_last()) + escaped_char(text.last())
    }
}

/// Writes `value` for a quoted label.
pub fn dot_escape(value: &str) -> (text: String)
    ensures
        text@ == dot_escaped(value@),
{
    let mut text = String::new();
    for c in it: value.chars()
        invariant
            it.seq() == value@,
            text@ == dot_escaped(value@.take(it.index())),
    {
        proof {
            let next = value@.take(it.index() + 1);
            assert(next.drop_last() =~= value@.take(it.index()));
            assert(next.last() == c);
        }
        let ghost before = text@;
        if c == '\\' {
            text.push('\\');
            text.push('\\');
        } else if c == '"' {
            text.push('\\');
            text.push('"');
        } else if c == '\n' {
            text.push('\\');
            text.push('n');
        } else {
            text.push(c);
        }
        assert(text@ =~= before + escaped_char(c));
    }
    assert(value@.take(value@.len() as int) =~= value@);
    text
}

/// An action with spaces for underscores.
pub open spec fn spaced(action: Seq<char>) -> Seq<char> {
    Seq::new(
        action.len(),
        |i: int|
            if action[i] == '_' {
                ' '
            } else {
                action[i]
            },
    )
}

fn push_spaced(text: &mut String, action: &str)
    ensures
        final(text)@ == old(text)@ + spaced(action@),
{
    let ghost start = text@;
    for c in it: action.chars()
        invariant
            it.seq() == action@,
            text@ == start + spaced(action@).take(it.index()),
    {
        if c == '_' {
            text.push(' ');
        } else {
            text.push(c);
        }
        assert(text@ =~= start + spaced(action@).take(it.index() + 1));
    }
    assert(spaced(action@).take(action@.len() as int) =~= spaced(action@));
}

/// What follows the last hyphen.
pub open spec fn last_part(text: Seq<char>) -> Seq<char>
    decreases text.len(),
{
    if text.len() == 0 || text.last() == '-' {
        Seq::empty()
    } else {
        last_part(text.drop_last()).push(text.last())
    }
}

/// The name of a session's cluster.
pub open spec fn cluster_name(session: GeneratedSession) -> Seq<char> {
    decimal(session.top_level_session_index as nat) + "_"@ + last_part(session.session_id@)
}

/// Names a session's cluster.
pub fn session_cluster_id(session: &GeneratedSession) -> (name: String)
    ensures
        name@ == cluster_name(*session),
{
    let mut part = String::new();
    for c in it: session.session_id.as_str().chars()
        invariant
            it.seq() == session.session_id@,
            part@ == last_part(session.session_id@.take(it.index())),
    {
        proof {
            let next = session.session_id@.take(it.index() + 1);
            assert(next.drop_last() =~= session.session_id@.take(it.index()));
            assert(next.last() == c);
        }
        if c == '-' {
            part = String::new();
            assert(part@ =~= Seq::<char>::empty());
        } else {
            part.push(c);
        }
    }
    assert(session.session_id@.take(session.session_id@.len() as int) =~= session.session_id@);
    let mut name = decimal_text(session.top_level_session_index as u64);
    name.append("_");
    name.append(part.as_str());
    name
}

/// The color of an action's nodes.
pub open spec fn color_of(action: Seq<char>) -> Seq<char> {
    if action == "text"@ {
        "#dbeafe"@
    } else if action == "tool"@ {
        "#ffedd5"@
    } else if action == "parallel_tools"@ {
        "#fee2e2"@
    } else if action == "subagent"@ {
        "#ccfbf1"@
    } else if action == "swarm"@ {
        "#dcfce7"@
    } else if action == "complete"@ {
        "#f3e8ff"@
    } else if action == "compaction_attempt"@ {
        "#fef3c7"@
    } else {
        "#e5e7eb"@
    }
}

/// Picks the color of an action's nodes.
pub fn action_color(action: &str) -> (color: &'static str)
    ensures
        color@ == color_of(action@),
{
    if same_text(action, "text") {
        "#dbeafe"
    } else if same_text(action, "tool") {
        "#ffedd5"
    } else if same_text(action, "parallel_tools") {
        "#fee2e2"
    } else if same_text(action, "subagent") {
        "#ccfbf1"
    } else if same_text(action, "swarm") {
        "#dcfce7"
    } else if same_text(action, "complete") {
        "#f3e8ff"
    } else if same_text(action, "compaction_attempt") {
        "#fef3c7"
    } else {
        "#e5e7eb"
    }
}

/// The attributes of an edge.
pub open spec fn edge_text(relation: Seq<char>, delay_ms: u64) -> Seq<char> {
    let delay = if delay_ms > 0 {
        " + "@ + decimal(delay_ms as nat) + " ms"@
    } else {
        Seq::empty()
    };
    let color = if relation == "spawn"@ {
        ", color=\"#0f766e\""@
    } else if relation == "blocking join"@ || relation == "join"@ {
        ", color=\"#7c3aed\""@
    } else {
        Seq::empty()
    };
    "label=\""@ + relation + delay + "\""@ + color
}

/// Writes the attributes of an edge.
pub fn edge_label(relation: &str, delay_ms: u64) -> (label: String)
    ensures
        label@ == edge_text(relation@, delay_ms),
{
    let mut label = "label=\"".to_string();
    label.append(relation);
    if delay_ms > 0 {
        label.append(" + ");
        label.append(decimal_text(delay_ms).as_str());
        label.append(" ms");
    }
    label.append("\"");
    if same_text(relation, "spawn") {
        label.append(", color=\"#0f766e\"");
    } else if same_text(relation, "blocking join") || same_text(relation, "join") {
        label.append(", color=\"#7c3aed\"");
    }
    assert(label@ =~= edge_text(relation@, delay_ms));
    label
}

/// The lines of a node's label.
pub open spec fn node_caption(ordinal: usize, node: GeneratedNode) -> Seq<char> {
    let arrival = match node.initial_arrival_ms {
        Some(arrival_ms) => "\ninitial arrival "@ + decimal(arrival_ms as nat) + " ms"@,
        None => Seq::empty(),
    };
    let tools = if node.tool_events@.len() > 0 {
        "\n"@ + decimal(node.tool_events@.len()) + " tool calls"@
    } else {
        Seq::empty()
    };
    let spawns = if node.spawned_session_ids@.len() > 0 {
        "\nspawns "@ + decimal(node.spawned_session_ids@.len()) + " child sessions"@
    } else {
        Seq::empty()
    };
    let compaction = if node.compaction_attempt is Some {
        "\ncompaction attempt"@
    } else {
        Seq::empty()
    };
    "node "@ + decimal(ordinal as nat) + " · "@ + spaced(node.action@) + "\nISL "@ + decimal(
        node.request.input_tokens as nat,
    ) + " · OSL "@ + decimal(node.request.output_tokens as nat) + arrival + tools + spawns + compaction
}

/// The attributes of a node.
pub open spec fn node_text(ordinal: usize, node: GeneratedNode) -> Seq<char> {
    "label=\""@ + dot_escaped(node_caption(ordinal, node)) + "\", fillcolor=\""@ + color_of(node.action@) + "\""@
}

/// Writes the attributes of a node.
pub fn node_attributes(ordinal: usize, node: &GeneratedNode) -> (attributes: String)
    ensures
        attributes@ == node_text(ordinal, *node),
{
    let mut caption = "node ".to_string();
    caption.append(decimal_text(ordinal as u64).as_str());
    caption.append(" · ");
    push_spaced(&mut caption, node.action.as_str());
    caption.append("\nISL ");
    caption.append(decimal_text(node.request.input_tokens as u64).as_str());
    caption.append(" · OSL ");
    caption.append(decimal_text(node.request.output_tokens as u64).as_str());
    if let Some(arrival_ms) = node.initial_arrival_ms {
        caption.append("\ninitial arrival ");
        caption.append(decimal_text(arrival_ms).as_str());
        caption.append(" ms");
    }
    if node.tool_events.len() > 0 {
        caption.append("\n");
        caption.append(decimal_text(node.tool_events.len() as u64).as_str());
        caption.append(" tool calls");
    }
    if node.spawned_session_ids.len() > 0 {
        caption.append("\nspawns ");
        caption.append(decimal_text(node.spawned_session_ids.len() as u64).as_str());
        caption.append(" child sessions");
    }
    if node.compaction_attempt.is_some() {
        caption.append("\ncompaction attempt");
    }
    assert(caption@ =~= node_caption(ordinal, *node));
    let mut attributes = "label=\"".to_string();
    attributes.append(dot_escape(caption.as_str()).as_str());
    attributes.append("\", fillcolor=\"");
    attributes.append(action_color(node.action.as_str()));
    attributes.append("\"");
    attributes
}

// ---------------------------------------------------------------------------------------------
// Sessions
// ---------------------------------------------------------------------------------------------

/// The session that a node belongs to.
pub open spec fn session_of(node: GeneratedNode) -> Option<Seq<char>> {
    match node.request.agent_context {
        Some(context) => Some(context.session_id@),
        None => None,
    }
}

/// The sessions that nodes belong to.
pub open spec fn sessions_of(nodes: Seq<GeneratedNode>) -> Seq<Option<Seq<char>>> {
    Seq::new(nodes.len(), |i: int| session_of(nodes[i]))
}

/// What a session hangs under.
pub open spec fn parent_of(session: GeneratedSession) -> Option<Seq<char>> {
    match session.parent_session_id {
        Some(parent) => Some(parent@),
        None => None,
    }
}

/// What sessions hang under.
pub open spec fn parents_of(sessions: Seq<GeneratedSession>) -> Seq<Option<Seq<char>>> {
    Seq::new(sessions.len(), |i: int| parent_of(sessions[i]))
}

/// Where a new place goes in an order: behind the last of the places that it may follow.
pub open spec fn slot(order: Seq<usize>, follows: spec_fn(usize) -> bool) -> nat
    decreases order.len(),
{
    if order.len() == 0 || follows(order.last()) {
        order.len()
    } else {
        slot(order.drop_last(), follows)
    }
}

/// The first `n` of `members`, arranged by the names of their sessions; equal names keep their
/// order.
pub open spec fn by_session_id(sessions: Seq<GeneratedSession>, members: Seq<usize>, n: nat) -> Seq<usize>
    decreases n,
{
    if n == 0 {
        Seq::empty()
    } else {
        let before = by_session_id(sessions, members, (n - 1) as nat);
        let next = members[n - 1];
        before.insert(
            slot(
                before,
                |place: usize|
                    text_at_or_before(sessions[place as int].session_id@, sessions[next as int].session_id@),
            ) as int,
            next,
        )
    }
}

/// The sessions right below a session, by name.
pub open spec fn children_of(sessions: Seq<GeneratedSession>, i: int) -> Seq<usize> {
    let members = places(parents_of(sessions), sessions[i].session_id@, sessions.len());
    by_session_id(sessions, members, members.len())
}

/// The first `n` sessions without a parent, arranged by the number of their tree; equal numbers
/// keep their order.
pub open spec fn roots_of(sessions: Seq<GeneratedSession>, n: nat) -> Seq<usize>
    decreases n,
{
    if n == 0 {
        Seq::empty()
    } else {
        let before = roots_of(sessions, (n - 1) as nat);
        if parent_of(sessions[n - 1]) is None {
            before.insert(
                slot(
                    before,
                    |place: usize|
                        sessions[place as int].top_level_session_index <= sessions[n - 1].top_level_session_index,
                ) as int,
                (n - 1) as usize,
            )
        } else {
            before
        }
    }
}

proof fn lemma_slot(order: Seq<usize>, follows: spec_fn(usize) -> bool, k: int)
    requires
        0 <= k <= order.len(),
        k > 0 ==> follows(order[k - 1]),
        forall|j: int| k <= j < order.len() ==> !follows(#[trigger] order[j]),
    ensures
        slot(order, follows) == k,
    decreases order.len(),
{
    if k < order.len() {
        assert(!follows(order[order.len() - 1]));
        let rest = order.drop_last();
        assert forall|j: int| k <= j < rest.len() implies !follows(#[trigger] rest[j]) by {
            assert(rest[j] == order[j]);
        }
        lemma_slot(rest, follows, k);
    }
}

proof fn lemma_slot_fits(order: Seq<usize>, follows: spec_fn(usize) -> bool)
    ensures
        slot(order, follows) <= order.len(),
    decreases order.len(),
{
    if order.len() > 0 && !follows(order.last()) {
        lemma_slot_fits(order.drop_last(), follows);
    }
}

/// Arranging keeps each member.
proof fn lemma_arranged(sessions: Seq<GeneratedSession>, members: Seq<usize>, n: nat)
    requires
        n <= members.len(),
    ensures
        by_session_id(sessions, members, n).len() == n,
        forall|k: int| 0 <= k < n ==> members.contains(#[trigger] by_session_id(sessions, members, n)[k]),
        forall|k: int| 0 <= k < n ==> by_session_id(sessions, members, n).contains(#[trigger] members[k]),
    decreases n,
{
    if n > 0 {
        lemma_arranged(sessions, members, (n - 1) as nat);
        let before = by_session_id(sessions, members, (n - 1) as nat);
        let next = members[n - 1];
        let follows = |place: usize|
            text_at_or_before(sessions[place as int].session_id@, sessions[next as int].session_id@);
        lemma_slot_fits(before, follows);
        let at = slot(before, follows) as int;
        let after = by_session_id(sessions, members, n);
        assert(after == before.insert(at, next));
        assert forall|k: int| 0 <= k < n implies members.contains(#[trigger] after[k]) by {
            if k < at {
                assert(after[k] == before[k]);
            } else if k > at {
                assert(after[k] == before[k - 1]);
            }
        }
        assert forall|k: int| 0 <= k < n implies after.contains(#[trigger] members[k]) by {
            if k < n - 1 {
                assert(before.contains(members[k]));
                let j = before.index_of(members[k]);
                if j < at {
                    assert(after[j] == before[j]);
                } else {
                    assert(after[j + 1] == before[j]);
                }
            } else {
                assert(after[at] == next);
            }
        }
    }
}

/// The children of a session are the sessions that name it as their parent.
proof fn lemma_children(sessions: Seq<GeneratedSession>, i: int)
    requires
        sessions.len() <= usize::MAX,
    ensures
        forall|k: int|
            0 <= k < children_of(sessions, i).len() ==> (#[trigger] children_of(sessions, i)[k]) < sessions.len()
                && parent_of(sessions[children_of(sessions, i)[k] as int]) == Some(sessions[i].session_id@),
        forall|j: int|
            0 <= j < sessions.len() && (#[trigger] parent_of(sessions[j])) == Some(sessions[i].session_id@)
                ==> children_of(sessions, i).contains(j as usize),
{
    let name = sessions[i].session_id@;
    let members = places(parents_of(sessions), name, sessions.len());
    lemma_places(parents_of(sessions), name, sessions.len());
    lemma_arranged(sessions, members, members.len());
    let children = children_of(sessions, i);
    assert forall|k: int| 0 <= k < children.len() implies (#[trigger] children[k]) < sessions.len() && parent_of(
        sessions[children[k] as int],
    ) == Some(name) by {
        assert(members.contains(children[k]));
        let m = members.index_of(children[k]);
        assert(members[m] == children[k]);
    }
    assert forall|j: int| 0 <= j < sessions.len() && (#[trigger] parent_of(sessions[j])) == Some(name) implies children.contains(
        j as usize,
    ) by {
        assert(parents_of(sessions)[j] == Some(name));
        assert(members.contains(j as usize));
        let m = members.index_of(j as usize);
        assert(children.contains(members[m]));
    }
}

/// The roots are the sessions without a parent.
proof fn lemma_roots(sessions: Seq<GeneratedSession>, n: nat)
    requires
        n <= sessions.len() <= usize::MAX,
    ensures
        forall|k: int|
            0 <= k < roots_of(sessions, n).len() ==> (#[trigger] roots_of(sessions, n)[k]) < n && parent_of(
                sessions[roots_of(sessions, n)[k] as int],
            ) is None,
    decreases n,
{
    if n > 0 {
        lemma_roots(sessions, (n - 1) as nat);
        let before = roots_of(sessions, (n - 1) as nat);
        let follows = |place: usize|
            sessions[place as int].top_level_session_index <= sessions[n - 1].top_level_session_index;
        lemma_slot_fits(before, follows);
        let at = slot(before, follows) as int;
        let after = roots_of(sessions, n);
        assert forall|k: int| 0 <= k < after.len() implies (#[trigger] after[k]) < n && parent_of(
            sessions[after[k] as int],
        ) is None by {
            if parent_of(sessions[n - 1]) is None {
                assert(after == before.insert(at, (n - 1) as usize));
                if k < at {
                    assert(after[k] == before[k]);
                } else if k > at {
                    assert(after[k] == before[k - 1]);
                }
            }
        }
    }
}

/// Below a session, no line of descent has `fuel` sessions or more.
pub open spec fn nests(sessions: Seq<GeneratedSession>, i: int, fuel: nat) -> bool
    decreases fuel,
{
    fuel > 0 && forall|j: int|
        0 <= j < sessions.len() && (#[trigger] parent_of(sessions[j])) == Some(sessions[i].session_id@) ==> nests(
            sessions,
            j,
            (fuel - 1) as nat,
        )
}

/// No line of descent from a session without a parent comes round to a session twice.
pub open spec fn all_nest(sessions: Seq<GeneratedSession>) -> bool {
    forall|i: int|
        0 <= i < sessions.len() && (#[trigger] parent_of(sessions[i])) is None ==> nests(sessions, i, sessions.len())
}

/// No two sessions have the same name.
pub open spec fn distinct_sessions(sessions: Seq<GeneratedSession>) -> bool {
    forall|i: int, j: int|
        0 <= i < j < sessions.len() ==> (#[trigger] sessions[i]).session_id@ != (#[trigger] sessions[j]).session_id@
}

/// A line of descent: from a session without a parent, each session right below the one before.
spec fn is_line(sessions: Seq<GeneratedSession>, line: Seq<int>) -> bool {
    &&& line.len() > 0
    &&& line.no_duplicates()
    &&& forall|k: int| 0 <= k < line.len() ==> 0 <= (#[trigger] line[k]) < sessions.len()
    &&& parent_of(sessions[line[0]]) is None
    &&& forall|k: int|
        0 < k < line.len() ==> parent_of(sessions[#[trigger] line[k]]) == Some(sessions[line[k - 1]].session_id@)
}

proof fn lemma_line_is_short(line: Seq<int>, n: nat)
    requires
        line.no_duplicates(),
        forall|k: int| 0 <= k < line.len() ==> 0 <= (#[trigger] line[k]) < n,
    ensures
        line.len() <= n,
{
    line.unique_seq_to_set();
    let all = vstd::set_lib::set_int_range(0, n as int);
    vstd::set_lib::lemma_int_range(0, n as int);
    assert(line.to_set().subset_of(all));
    vstd::set_lib::lemma_len_subset(line.to_set(), all);
}

proof fn lemma_line_ends(sessions: Seq<GeneratedSession>, line: Seq<int>, fuel: nat)
    requires
        distinct_sessions(sessions),
        is_line(sessions, line),
        line.len() + fuel == sessions.len() + 1,
    ensures
        nests(sessions, line.last(), fuel),
    decreases fuel,
{
    lemma_line_is_short(line, sessions.len());
    let i = line.last();
    assert forall|j: int|
        0 <= j < sessions.len() && (#[trigger] parent_of(sessions[j])) == Some(sessions[i].session_id@) implies nests(
        sessions,
        j,
        (fuel - 1) as nat,
    ) by {
        let longer = line.push(j);
        if line.contains(j) {
            let k = line.index_of(j);
            if k > 0 {
                assert(parent_of(sessions[line[k]]) == Some(sessions[line[k - 1]].session_id@));
                assert(line[k - 1] == i);
                assert(line[line.len() - 1] == i);
            }
        }
        assert forall|k: int| 0 < k < longer.len() implies parent_of(sessions[#[trigger] longer[k]]) == Some(
            sessions[longer[k - 1]].session_id@,
        ) by {
            if k < line.len() {
                assert(longer[k] == line[k] && longer[k - 1] == line[k - 1]);
            }
        }
        assert forall|k: int| 0 <= k < longer.len() implies 0 <= (#[trigger] longer[k]) < sessions.len() by {
            if k < line.len() {
                assert(longer[k] == line[k]);
            }
        }
        assert(longer[0] == line[0]);
        lemma_line_ends(sessions, longer, (fuel - 1) as nat);
        assert(longer.last() == j);
    }
}

/// A plan whose sessions have different names can always be drawn: none of them stands below
/// itself.
pub proof fn law_distinct_sessions_nest(sessions: Seq<GeneratedSession>)
    requires
        distinct_sessions(sessions),
    ensures
        all_nest(sessions),
{
    assert forall|i: int| 0 <= i < sessions.len() && (#[trigger] parent_of(sessions[i])) is None implies nests(
        sessions,
        i,
        sessions.len(),
    ) by {
        let line = seq![i];
        lemma_line_ends(sessions, line, sessions.len());
    }
}

/// Puts the sessions under their parents.
fn group_children(sessions: &Vec<GeneratedSession>) -> (groups: TextGroups)
    ensures
        forall|name: Seq<char>| #[trigger]
            groups.under(name) == places(parents_of(sessions@), name, sessions@.len()),
{
    let mut groups = TextGroups::new();
    let mut i: usize = 0;
    while i < sessions.len()
        invariant
            i <= sessions@.len(),
            forall|name: Seq<char>| #[trigger] groups.under(name) == places(parents_of(sessions@), name, i as nat),
        decreases sessions@.len() - i,
    {
        assert(parents_of(sessions@)[i as int] == parent_of(sessions@[i as int]));
        if let Some(parent) = &sessions[i].parent_session_id {
            groups.push(parent.as_str(), i);
        }
        i += 1;
    }
    groups
}

/// Arranges members by the names of their sessions.
fn arrange(sessions: &Vec<GeneratedSession>, members: &Vec<usize>) -> (order: Vec<usize>)
    requires
        forall|k: int| 0 <= k < members@.len() ==> (#[trigger] members@[k]) < sessions@.len(),
    ensures
        order@ == by_session_id(sessions@, members@, members@.len()),
{
    let mut order: Vec<usize> = Vec::with_capacity(members.len());
    let mut n: usize = 0;
    while n < members.len()
        invariant
            n <= members@.len(),
            forall|k: int| 0 <= k < members@.len() ==> (#[trigger] members@[k]) < sessions@.len(),
            order@ == by_session_id(sessions@, members@, n as nat),
            order@.len() == n,
            forall|k: int| 0 <= k < order@.len() ==> (#[trigger] order@[k]) < sessions@.len(),
        decreases members@.len() - n,
    {
        let next = members[n];
        let ghost follows = |place: usize|
            text_at_or_before(sessions@[place as int].session_id@, sessions@[next as int].session_id@);
        let mut at: usize = order.len();
        while at > 0 && !text_precedes(sessions[order[at - 1]].session_id.as_str(), sessions[next].session_id.as_str())
            invariant
                at <= order@.len(),
                next < sessions@.len(),
                forall|k: int| 0 <= k < order@.len() ==> (#[trigger] order@[k]) < sessions@.len(),
                follows == (|place: usize|
                    text_at_or_before(sessions@[place as int].session_id@, sessions@[next as int].session_id@)),
                forall|j: int| at <= j < order@.len() ==> !follows(#[trigger] order@[j]),
            decreases at,
        {
            at -= 1;
        }
        proof {
            lemma_slot(order@, follows, at as int);
            lemma_arranged(sessions@, members@, (n + 1) as nat);
        }
        let ghost before = order@;
        order.insert(at, next);
        n += 1;
        assert(order@ == by_session_id(sessions@, members@, n as nat));
        assert forall|k: int| 0 <= k < order@.len() implies (#[trigger] order@[k]) < sessions@.len() by {
            assert(members@.contains(order@[k]));
            let m = members@.index_of(order@[k]);
            assert(members@[m] == order@[k]);
        }
    }
    order
}

/// Lists the sessions right below a session, by name.
fn list_children(sessions: &Vec<GeneratedSession>, groups: &TextGroups, i: usize) -> (children: Vec<usize>)
    requires
        i < sessions@.len(),
        forall|name: Seq<char>| #[trigger]
            groups.under(name) == places(parents_of(sessions@), name, sessions@.len()),
    ensures
        children@ == children_of(sessions@, i as int),
        forall|k: int|
            0 <= k < children@.len() ==> (#[trigger] children@[k]) < sessions@.len() && parent_of(
                sessions@[children@[k] as int],
            ) == Some(sessions@[i as int].session_id@),
{
    proof {
        assert(sessions@.len() == sessions.len());
        lemma_children(sessions@, i as int);
        lemma_places(parents_of(sessions@), sessions@[i as int].session_id@, sessions@.len());
    }
    match groups.get(sessions[i].session_id.as_str()) {
        Some(members) => arrange(sessions, members),
        None => Vec::new(),
    }
}

/// Lists the sessions without a parent, by the number of their tree.
fn list_roots(sessions: &Vec<GeneratedSession>) -> (roots: Vec<usize>)
    ensures
        roots@ == roots_of(sessions@, sessions@.len()),
{
    let mut roots: Vec<usize> = Vec::new();
    let mut n: usize = 0;
    while n < sessions.len()
        invariant
            n <= sessions@.len(),
            roots@ == roots_of(sessions@, n as nat),
        decreases sessions@.len() - n,
    {
        proof {
            lemma_roots(sessions@, n as nat);
        }
        if sessions[n].parent_session_id.is_none() {
            let ghost last = n as nat + 1;
            let ghost follows = |place: usize|
                sessions@[place as int].top_level_session_index <= sessions@[last - 1].top_level_session_index;
            let mut at: usize = roots.len();
            while at > 0 && sessions[roots[at - 1]].top_level_session_index > sessions[n].top_level_session_index
                invariant
                    at <= roots@.len(),
                    n < sessions@.len(),
                    last == n + 1,
                    forall|k: int| 0 <= k < roots@.len() ==> (#[trigger] roots@[k]) < n,
                    follows == (|place: usize|
                        sessions@[place as int].top_level_session_index <= sessions@[last - 1].top_level_session_index),
                    forall|j: int| at <= j < roots@.len() ==> !follows(#[trigger] roots@[j]),
                decreases at,
            {
                at -= 1;
            }
            proof {
                lemma_slot(roots@, follows, at as int);
            }
            roots.insert(at, n);
        }
        n += 1;
        assert(roots@ == roots_of(sessions@, n as nat));
    }
    roots
}

/// Tells whether descent below a session comes to an end.
fn descent_ends(sessions: &Vec<GeneratedSession>, groups: &TextGroups, i: usize, fuel: usize) -> (result: bool)
    requires
        i < sessions@.len(),
        forall|name: Seq<char>| #[trigger]
            groups.under(name) == places(parents_of(sessions@), name, sessions@.len()),
    ensures
        result == nests(sessions@, i as int, fuel as nat),
    decreases fuel,
{
    if fuel == 0 {
        return false;
    }
    let children = list_children(sessions, groups, i);
    let mut k: usize = 0;
    while k < children.len()
        invariant
            k <= children@.len(),
            0 < fuel,
            i < sessions@.len(),
            children@ == children_of(sessions@, i as int),
            forall|name: Seq<char>| #[trigger]
                groups.under(name) == places(parents_of(sessions@), name, sessions@.len()),
            forall|k: int|
                0 <= k < children@.len() ==> (#[trigger] children@[k]) < sessions@.len() && parent_of(
                    sessions@[children@[k] as int],
                ) == Some(sessions@[i as int].session_id@),
            forall|m: int| 0 <= m < k ==> nests(sessions@, (#[trigger] children@[m]) as int, (fuel - 1) as nat),
        decreases children@.len() - k,
    {
        if !descent_ends(sessions, groups, children[k], fuel - 1) {
            assert(parent_of(sessions@[children@[k as int] as int]) == Some(sessions@[i as int].session_id@));
            return false;
        }
        k += 1;
    }
    proof {
        assert(sessions@.len() == sessions.len());
        lemma_children(sessions@, i as int);
        assert forall|j: int|
            0 <= j < sessions@.len() && (#[trigger] parent_of(sessions@[j])) == Some(
                sessions@[i as int].session_id@,
            ) implies nests(sessions@, j, (fuel - 1) as nat) by {
            let m = children@.index_of(j as usize);
            assert(children@[m] == j as usize);
        }
    }
    true
}

/// Tells whether the sessions can be drawn: no line of descent comes round to a session twice.
pub fn sessions_nest(sessions: &Vec<GeneratedSession>) -> (result: bool)
    ensures
        result == all_nest(sessions@),
{
    let groups = group_children(sessions);
    let mut i: usize = 0;
    while i < sessions.len()
        invariant
            i <= sessions@.len(),
            forall|name: Seq<char>| #[trigger]
                groups.under(name) == places(parents_of(sessions@), name, sessions@.len()),
            forall|k: int|
                0 <= k < i && (#[trigger] parent_of(sessions@[k])) is None ==> nests(sessions@, k, sessions@.len()),
        decreases sessions@.len() - i,
    {
        if sessions[i].parent_session_id.is_none() && !descent_ends(sessions, &groups, i, sessions.len()) {
            assert(parent_of(sessions@[i as int]) is None);
            return false;
        }
        i += 1;
    }
    true
}

// ---------------------------------------------------------------------------------------------
// Clusters
// ---------------------------------------------------------------------------------------------

/// Two spaces for each level.
pub open spec fn padding(level: nat) -> Seq<char>
    decreases level,
{
    if level == 0 {
        Seq::empty()
    } else {
        padding((level - 1) as nat) + "  "@
    }
}

fn push_padding(dot: &mut String, level: usize)
    ensures
        final(dot)@ == old(dot)@ + padding(level as nat),
{
    let ghost start = dot@;
    let mut i: usize = 0;
    assert(start =~= start + padding(0));
    while i < level
        invariant
            i <= level,
            dot@ == start + padding(i as nat),
        decreases level - i,
    {
        dot.append("  ");
        i += 1;
        assert(dot@ =~= start + padding(i as nat));
    }
}

/// The first lines of a session's cluster.
pub open spec fn cluster_head(session: GeneratedSession, level: nat) -> Seq<char> {
    let kind = if session.parent_session_id is Some {
        "subagent session"@
    } else {
        "parent session"@
    };
    padding(level) + "subgraph cluster_session_"@ + cluster_name(session) + " {\n"@ + padding(level) + "  label=\""@
        + kind + " · depth "@ + decimal(session.depth as nat) + " · "@ + dot_escaped(session.session_id@) + "\";\n"@
        + padding(level) + "  color=\"#cbd5e1\"; style=\"rounded\"; penwidth=1;\n"@
}

fn push_cluster_head(dot: &mut String, session: &GeneratedSession, level: usize)
    ensures
        final(dot)@ == old(dot)@ + cluster_head(*session, level as nat),
{
    push_padding(dot, level);
    dot.append("subgraph cluster_session_");
    dot.append(session_cluster_id(session).as_str());
    dot.append(" {\n");
    push_padding(dot, level);
    dot.append("  label=\"");
    if session.parent_session_id.is_some() {
        dot.append("subagent session");
    } else {
        dot.append("parent session");
    }
    dot.append(" · depth ");
    dot.append(decimal_text(session.depth as u64).as_str());
    dot.append(" · ");
    dot.append(dot_escape(session.session_id.as_str()).as_str());
    dot.append("\";\n");
    push_padding(dot, level);
    dot.append("  color=\"#cbd5e1\"; style=\"rounded\"; penwidth=1;\n");
    assert(dot@ =~= old(dot)@ + cluster_head(*session, level as nat));
}

/// The lines of the first `n` listed nodes.
pub open spec fn node_lines(nodes: Seq<GeneratedNode>, listed: Seq<usize>, n: nat, level: nat) -> Seq<char>
    decreases n,
{
    if n == 0 {
        Seq::empty()
    } else {
        let ordinal = listed[n - 1];
        node_lines(nodes, listed, (n - 1) as nat, level) + padding(level) + "  n"@ + decimal(ordinal as nat) + " ["@
            + node_text(ordinal, nodes[ordinal as int]) + "];\n"@
    }
}

fn push_node_lines(dot: &mut String, nodes: &Vec<GeneratedNode>, listed: &Vec<usize>, level: usize)
    requires
        forall|k: int| 0 <= k < listed@.len() ==> (#[trigger] listed@[k]) < nodes@.len(),
    ensures
        final(dot)@ == old(dot)@ + node_lines(nodes@, listed@, listed@.len(), level as nat),
{
    let ghost start = dot@;
    let mut n: usize = 0;
    assert(start =~= start + node_lines(nodes@, listed@, 0, level as nat));
    while n < listed.len()
        invariant
            n <= listed@.len(),
            forall|k: int| 0 <= k < listed@.len() ==> (#[trigger] listed@[k]) < nodes@.len(),
            dot@ == start + node_lines(nodes@, listed@, n as nat, level as nat),
        decreases listed@.len() - n,
    {
        let ordinal = listed[n];
        push_padding(dot, level);
        dot.append("  n");
        dot.append(decimal_text(ordinal as u64).as_str());
        dot.append(" [");
        dot.append(node_attributes(ordinal, &nodes[ordinal]).as_str());
        dot.append("];\n");
        n += 1;
        assert(dot@ =~= start + node_lines(nodes@, listed@, n as nat, level as nat));
    }
}

/// The nodes of a session, in order.
pub open spec fn nodes_in(nodes: Seq<GeneratedNode>, session: GeneratedSession) -> Seq<usize> {
    places(sessions_of(nodes), session.session_id@, nodes.len())
}

/// The cluster of a session, down to `fuel` levels.
pub open spec fn cluster(
    sessions: Seq<GeneratedSession>,
    nodes: Seq<GeneratedNode>,
    i: int,
    level: nat,
    fuel: nat,
) -> Seq<char>
    decreases fuel, 0nat,
{
    if fuel == 0 {
        Seq::empty()
    } else {
        let listed = nodes_in(nodes, sessions[i]);
        let children = children_of(sessions, i);
        cluster_head(sessions[i], level) + node_lines(nodes, listed, listed.len(), level) + clusters(
            sessions,
            nodes,
            children,
            children.len(),
            level + 1,
            (fuel - 1) as nat,
        ) + padding(level) + "}\n"@
    }
}

/// The clusters of the first `k` listed sessions.
pub open spec fn clusters(
    sessions: Seq<GeneratedSession>,
    nodes: Seq<GeneratedNode>,
    listed: Seq<usize>,
    k: nat,
    level: nat,
    fuel: nat,
) -> Seq<char>
    decreases fuel, k,
{
    if k == 0 {
        Seq::empty()
    } else {
        clusters(sessions, nodes, listed, (k - 1) as nat, level, fuel) + cluster(
            sessions,
            nodes,
            listed[k - 1] as int,
            level,
            fuel,
        )
    }
}

/// Draws the cluster of a session.
fn write_session_cluster(
    dot: &mut String,
    sessions: &Vec<GeneratedSession>,
    nodes: &Vec<GeneratedNode>,
    children_by_session: &TextGroups,
    nodes_by_session: &TextGroups,
    i: usize,
    level: usize,
    fuel: usize,
)
    requires
        i < sessions@.len(),
        nests(sessions@, i as int, fuel as nat),
        level + fuel <= sessions@.len() + 1,
        forall|name: Seq<char>| #[trigger]
            children_by_session.under(name) == places(parents_of(sessions@), name, sessions@.len()),
        forall|name: Seq<char>| #[trigger]
            nodes_by_session.under(name) == places(sessions_of(nodes@), name, nodes@.len()),
    ensures
        final(dot)@ == old(dot)@ + cluster(sessions@, nodes@, i as int, level as nat, fuel as nat),
    decreases fuel,
{
    let ghost start = dot@;
    let session = &sessions[i];
    push_cluster_head(dot, session, level);
    let ghost listed = nodes_in(nodes@, *session);
    proof {
        assert(nodes@.len() == nodes.len());
        lemma_places(sessions_of(nodes@), session.session_id@, nodes@.len());
    }
    match nodes_by_session.get(session.session_id.as_str()) {
        Some(listed) => {
            push_node_lines(dot, nodes, listed, level);
        },
        None => {},
    }
    let ghost headed = cluster_head(*session, level as nat) + node_lines(nodes@, listed, listed.len(), level as nat);
    assert(dot@ =~= start + headed);
    let children = list_children(sessions, children_by_session, i);
    let mut k: usize = 0;
    proof {
        assert(sessions@.len() == sessions.len());
        assert(dot@ =~= start + headed + clusters(sessions@, nodes@, children@, 0, level as nat + 1, (fuel - 1) as nat));
    }
    while k < children.len()
        invariant
            k <= children@.len(),
            0 < fuel,
            i < sessions@.len(),
            sessions@.len() <= usize::MAX,
            nests(sessions@, i as int, fuel as nat),
            level + fuel <= sessions@.len() + 1,
            children@ == children_of(sessions@, i as int),
            forall|name: Seq<char>| #[trigger]
                children_by_session.under(name) == places(parents_of(sessions@), name, sessions@.len()),
            forall|name: Seq<char>| #[trigger]
                nodes_by_session.under(name) == places(sessions_of(nodes@), name, nodes@.len()),
            forall|k: int|
                0 <= k < children@.len() ==> (#[trigger] children@[k]) < sessions@.len() && parent_of(
                    sessions@[children@[k] as int],
                ) == Some(sessions@[i as int].session_id@),
            dot@ == start + headed + clusters(
                sessions@,
                nodes@,
                children@,
                k as nat,
                level as nat + 1,
                (fuel - 1) as nat,
            ),
        decreases children@.len() - k,
    {
        let child = children[k];
        assert(parent_of(sessions@[child as int]) == Some(sessions@[i as int].session_id@));
        assert(nests(sessions@, child as int, (fuel - 1) as nat));
        write_session_cluster(
            dot,
            sessions,
            nodes,
            children_by_session,
            nodes_by_session,
            child,
            level + 1,
            fuel - 1,
        );
        k += 1;
        assert(dot@ =~= start + headed + clusters(
            sessions@,
            nodes@,
            children@,
            k as nat,
            level as nat + 1,
            (fuel - 1) as nat,
        ));
    }
    push_padding(dot, level);
    dot.append("}\n");
    assert(dot@ =~= start + cluster(sessions@, nodes@, i as int, level as nat, fuel as nat));
}

/// The first lines of a session tree.
pub open spec fn tree_head(root: GeneratedSession) -> Seq<char> {
    "  subgraph cluster_tree_"@ + decimal(root.top_level_session_index as nat) + " {\n"@
        + "    label=\"top-level session tree "@ + decimal(root.top_level_session_index as nat) + " · stream "@
        + decimal(root.top_level_stream_slot as nat) + "\";\n"@
        + "    color=\"#94a3b8\"; style=\"rounded,dashed\"; penwidth=1.25;\n"@
}

fn push_tree_head(dot: &mut String, root: &GeneratedSession)
    ensures
        final(dot)@ == old(dot)@ + tree_head(*root),
{
    dot.append("  subgraph cluster_tree_");
    dot.append(decimal_text(root.top_level_session_index as u64).as_str());
    dot.append(" {\n");
    dot.append("    label=\"top-level session tree ");
    dot.append(decimal_text(root.top_level_session_index as u64).as_str());
    dot.append(" · stream ");
    dot.append(decimal_text(root.top_level_stream_slot as u64).as_str());
    dot.append("\";\n");
    dot.append("    color=\"#94a3b8\"; style=\"rounded,dashed\"; penwidth=1.25;\n");
    assert(dot@ =~= old(dot)@ + tree_head(*root));
}

/// The session tree below a root.
pub open spec fn tree(sessions: Seq<GeneratedSession>, nodes: Seq<GeneratedNode>, root: usize) -> Seq<char> {
    tree_head(sessions[root as int]) + cluster(sessions, nodes, root as int, 1, sessions.len()) + "  }\n"@
}

fn push_tree(
    dot: &mut String,
    sessions: &Vec<GeneratedSession>,
    nodes: &Vec<GeneratedNode>,
    children_by_session: &TextGroups,
    nodes_by_session: &TextGroups,
    root: usize,
)
    requires
        root < sessions@.len(),
        nests(sessions@, root as int, sessions@.len()),
        forall|name: Seq<char>| #[trigger]
            children_by_session.under(name) == places(parents_of(sessions@), name, sessions@.len()),
        forall|name: Seq<char>| #[trigger]
            nodes_by_session.under(name) == places(sessions_of(nodes@), name, nodes@.len()),
    ensures
        final(dot)@ == old(dot)@ + tree(sessions@, nodes@, root),
{
    push_tree_head(dot, &sessions[root]);
    write_session_cluster(
        dot,
        sessions,
        nodes,
        children_by_session,
        nodes_by_session,
        root,
        1,
        sessions.len(),
    );
    dot.append("  }\n");
    assert(dot@ =~= old(dot)@ + tree(sessions@, nodes@, root));
}

/// The session trees below the first `k` roots.
pub open spec fn trees(sessions: Seq<GeneratedSession>, nodes: Seq<GeneratedNode>, roots: Seq<usize>, k: nat) -> Seq<
    char,
>
    decreases k,
{
    if k == 0 {
        Seq::empty()
    } else {
        trees(sessions, nodes, roots, (k - 1) as nat) + tree(sessions, nodes, roots[k - 1])
    }
}

fn push_trees(
    dot: &mut String,
    sessions: &Vec<GeneratedSession>,
    nodes: &Vec<GeneratedNode>,
    children_by_session: &TextGroups,
    nodes_by_session: &TextGroups,
)
    requires
        all_nest(sessions@),
        forall|name: Seq<char>| #[trigger]
            children_by_session.under(name) == places(parents_of(sessions@), name, sessions@.len()),
        forall|name: Seq<char>| #[trigger]
            nodes_by_session.under(name) == places(sessions_of(nodes@), name, nodes@.len()),
    ensures
        final(dot)@ == old(dot)@ + trees(
            sessions@,
            nodes@,
            roots_of(sessions@, sessions@.len()),
            roots_of(sessions@, sessions@.len()).len(),
        ),
{
    let ghost start = dot@;
    let roots = list_roots(sessions);
    proof {
        assert(sessions@.len() == sessions.len());
        lemma_roots(sessions@, sessions@.len());
    }
    let mut k: usize = 0;
    assert(start =~= start + trees(sessions@, nodes@, roots@, 0));
    while k < roots.len()
        invariant
            k <= roots@.len(),
            all_nest(sessions@),
            roots@ == roots_of(sessions@, sessions@.len()),
            forall|k: int|
                0 <= k < roots@.len() ==> (#[trigger] roots@[k]) < sessions@.len() && parent_of(
                    sessions@[roots@[k] as int],
                ) is None,
            forall|name: Seq<char>| #[trigger]
                children_by_session.under(name) == places(parents_of(sessions@), name, sessions@.len()),
            forall|name: Seq<char>| #[trigger]
                nodes_by_session.under(name) == places(sessions_of(nodes@), name, nodes@.len()),
            dot@ == start + trees(sessions@, nodes@, roots@, k as nat),
        decreases roots@.len() - k,
    {
        let root = roots[k];
        assert(parent_of(sessions@[root as int]) is None);
        push_tree(dot, sessions, nodes, children_by_session, nodes_by_session, root);
        k += 1;
        assert(dot@ =~= start + trees(sessions@, nodes@, roots@, k as nat));
    }
}

// ---------------------------------------------------------------------------------------------
// Edges
// ---------------------------------------------------------------------------------------------

/// The last of the first `n` sessions with a name.
pub open spec fn session_named(sessions: Seq<GeneratedSession>, name: Seq<char>, n: nat) -> Option<usize>
    decreases n,
{
    if n == 0 {
        None
    } else if sessions[n - 1].session_id@ == name {
        Some((n - 1) as usize)
    } else {
        session_named(sessions, name, (n - 1) as nat)
    }
}

/// Finds the last session with each name.
fn index_sessions(sessions: &Vec<GeneratedSession>) -> (index: StringHashMap<usize>)
    ensures
        forall|name: Seq<char>| #[trigger]
            index@.contains_key(name) == (session_named(sessions@, name, sessions@.len()) is Some),
        forall|name: Seq<char>| #[trigger]
            index@.contains_key(name) ==> Some(index@[name]) == session_named(sessions@, name, sessions@.len())
                && index@[name] < sessions@.len(),
{
    let mut index: StringHashMap<usize> = StringHashMap::with_capacity(sessions.len());
    let mut i: usize = 0;
    while i < sessions.len()
        invariant
            i <= sessions@.len(),
            forall|name: Seq<char>| #[trigger]
                index@.contains_key(name) == (session_named(sessions@, name, i as nat) is Some),
            forall|name: Seq<char>| #[trigger]
                index@.contains_key(name) ==> Some(index@[name]) == session_named(sessions@, name, i as nat)
                    && index@[name] < i,
        decreases sessions@.len() - i,
    {
        index.insert(sessions[i].session_id.clone(), i);
        i += 1;
    }
    index
}

/// How a node follows another.
pub open spec fn relation_of(
    source: GeneratedNode,
    target: GeneratedNode,
    sessions: Seq<GeneratedSession>,
) -> Result<Seq<char>, GraphError> {
    match (source.request.agent_context, target.request.agent_context) {
        (None, _) => Err(GraphError::SourceWithoutContext),
        (_, None) => Err(GraphError::TargetWithoutContext),
        (Some(from), Some(to)) => {
            let source_id = from.session_id@;
            let target_id = to.session_id@;
            if source_id == target_id {
                if source.action@ == "subagent"@ || source.action@ == "swarm"@ {
                    Ok("parent continues"@)
                } else {
                    Ok("continue"@)
                }
            } else if to.parent_session_id matches Some(parent) && parent@ == source_id {
                Ok("spawn"@)
            } else if from.parent_session_id matches Some(parent) && parent@ == target_id {
                Ok("blocking join"@)
            } else {
                match (
                    session_named(sessions, source_id, sessions.len()),
                    session_named(sessions, target_id, sessions.len()),
                ) {
                    (None, _) => Err(GraphError::SourceOfUnknownSession),
                    (_, None) => Err(GraphError::TargetOfUnknownSession),
                    (Some(i), Some(j)) => {
                        let earlier = sessions[i as int];
                        let later = sessions[j as int];
                        if earlier.parent_session_id is None && later.parent_session_id is None
                            && earlier.top_level_stream_slot == later.top_level_stream_slot {
                            Ok("stream restart"@)
                        } else {
                            Ok("cross-session"@)
                        }
                    },
                }
            }
        },
    }
}

fn names(parent: &Option<String>, id: &str) -> (result: bool)
    ensures
        result == (parent matches Some(parent) && parent@ == id@),
{
    match parent {
        Some(parent) => same_text(parent.as_str(), id),
        None => false,
    }
}

/// Tells how a node follows another.
fn edge_relation(
    source: &GeneratedNode,
    target: &GeneratedNode,
    sessions: &Vec<GeneratedSession>,
    index: &StringHashMap<usize>,
) -> (result: Result<&'static str, GraphError>)
    requires
        forall|name: Seq<char>| #[trigger]
            index@.contains_key(name) == (session_named(sessions@, name, sessions@.len()) is Some),
        forall|name: Seq<char>| #[trigger]
            index@.contains_key(name) ==> Some(index@[name]) == session_named(sessions@, name, sessions@.len())
                && index@[name] < sessions@.len(),
    ensures
        match result {
            Ok(relation) => relation_of(*source, *target, sessions@) == Ok::<Seq<char>, GraphError>(relation@),
            Err(error) => relation_of(*source, *target, sessions@) == Err::<Seq<char>, GraphError>(error),
        },
{
    let from = match &source.request.agent_context {
        Some(context) => context,
        None => return Err(GraphError::SourceWithoutContext),
    };
    let to = match &target.request.agent_context {
        Some(context) => context,
        None => return Err(GraphError::TargetWithoutContext),
    };
    if same_text(from.session_id.as_str(), to.session_id.as_str()) {
        if same_text(source.action.as_str(), "subagent") || same_text(source.action.as_str(), "swarm") {
            return Ok("parent continues");
        }
        return Ok("continue");
    }
    if names(&to.parent_session_id, from.session_id.as_str()) {
        return Ok("spawn");
    }
    if names(&from.parent_session_id, to.session_id.as_str()) {
        return Ok("blocking join");
    }
    let earlier = match index.get(from.session_id.as_str()) {
        Some(i) => *i,
        None => return Err(GraphError::SourceOfUnknownSession),
    };
    let later = match index.get(to.session_id.as_str()) {
        Some(j) => *j,
        None => return Err(GraphError::TargetOfUnknownSession),
    };
    if sessions[earlier].parent_session_id.is_none() && sessions[later].parent_session_id.is_none()
        && sessions[earlier].top_level_stream_slot == sessions[later].top_level_stream_slot {
        return Ok("stream restart");
    }
    Ok("cross-session")
}

/// Edges and how each follows: the node it comes from, and the relation.
pub open spec fn edge_views(edges: Seq<(usize, &'static str)>) -> Seq<(usize, Seq<char>)> {
    Seq::new(edges.len(), |i: int| (edges[i].0, edges[i].1@))
}

/// The lines of the first `k` edges into a join.
pub open spec fn join_lines(target: usize, edges: Seq<(usize, Seq<char>)>, k: nat) -> Seq<char>
    decreases k,
{
    if k == 0 {
        Seq::empty()
    } else {
        join_lines(target, edges, (k - 1) as nat) + "  n"@ + decimal(edges[k - 1].0 as nat) + " -> join_"@ + decimal(
            target as nat,
        ) + " [label=\"child complete\", color=\"#7c3aed\"];\n"@
    }
}

/// The line of a join.
pub open spec fn join_head(target: usize, count: nat) -> Seq<char> {
    "  join_"@ + decimal(target as nat) + " [shape=diamond, style=\"filled\", label=\"join all "@ + decimal(count)
        + " children\", fillcolor=\"#ede9fe\", color=\"#7c3aed\", fontname=\"Helvetica\", fontsize=9, margin=\"0.04,0.02\"];\n"@
}

/// The line from a join to its node.
pub open spec fn join_tail(target: usize, delay_ms: u64) -> Seq<char> {
    "  join_"@ + decimal(target as nat) + " -> n"@ + decimal(target as nat) + " ["@ + edge_text("join"@, delay_ms)
        + "];\n"@
}

/// A node that waits for children, behind a join of its own.
pub open spec fn join_text(target: usize, edges: Seq<(usize, Seq<char>)>, delay_ms: u64) -> Seq<char> {
    join_head(target, edges.len()) + join_lines(target, edges, edges.len()) + join_tail(target, delay_ms)
}

fn push_join_head(dot: &mut String, target_ordinal: usize, count: usize)
    ensures
        final(dot)@ == old(dot)@ + join_head(target_ordinal, count as nat),
{
    dot.append("  join_");
    dot.append(decimal_text(target_ordinal as u64).as_str());
    dot.append(" [shape=diamond, style=\"filled\", label=\"join all ");
    dot.append(decimal_text(count as u64).as_str());
    dot.append(
        " children\", fillcolor=\"#ede9fe\", color=\"#7c3aed\", fontname=\"Helvetica\", fontsize=9, margin=\"0.04,0.02\"];\n",
    );
    assert(dot@ =~= old(dot)@ + join_head(target_ordinal, count as nat));
}

fn push_join_tail(dot: &mut String, target_ordinal: usize, delay_ms: u64)
    ensures
        final(dot)@ == old(dot)@ + join_tail(target_ordinal, delay_ms),
{
    dot.append("  join_");
    dot.append(decimal_text(target_ordinal as u64).as_str());
    dot.append(" -> n");
    dot.append(decimal_text(target_ordinal as u64).as_str());
    dot.append(" [");
    dot.append(edge_label("join", delay_ms).as_str());
    dot.append("];\n");
    assert(dot@ =~= old(dot)@ + join_tail(target_ordinal, delay_ms));
}

/// Draws a node that waits for children.
pub fn write_blocking_join(
    dot: &mut String,
    target_ordinal: usize,
    dependencies: &Vec<(usize, &'static str)>,
    delay_ms: u64,
)
    ensures
        final(dot)@ == old(dot)@ + join_text(target_ordinal, edge_views(dependencies@), delay_ms),
{
    let ghost start = dot@;
    let ghost edges = edge_views(dependencies@);
    push_join_head(dot, target_ordinal, dependencies.len());
    let ghost headed = start + join_head(target_ordinal, edges.len());
    let mut k: usize = 0;
    assert(headed =~= headed + join_lines(target_ordinal, edges, 0));
    while k < dependencies.len()
        invariant
            k <= dependencies@.len(),
            edges == edge_views(dependencies@),
            dot@ == headed + join_lines(target_ordinal, edges, k as nat),
        decreases dependencies@.len() - k,
    {
        dot.append("  n");
        dot.append(decimal_text(dependencies[k].0 as u64).as_str());
        dot.append(" -> join_");
        dot.append(decimal_text(target_ordinal as u64).as_str());
        dot.append(" [label=\"child complete\", color=\"#7c3aed\"];\n");
        k += 1;
        assert(dot@ =~= headed + join_lines(target_ordinal, edges, k as nat));
    }
    push_join_tail(dot, target_ordinal, delay_ms);
    assert(dot@ =~= start + join_text(target_ordinal, edges, delay_ms));
}

/// The lines of the first `k` plain edges.
pub open spec fn plain_lines(target: usize, edges: Seq<(usize, Seq<char>)>, delay_ms: u64, k: nat) -> Seq<char>
    decreases k,
{
    if k == 0 {
        Seq::empty()
    } else {
        plain_lines(target, edges, delay_ms, (k - 1) as nat) + "  n"@ + decimal(edges[k - 1].0 as nat) + " -> n"@
            + decimal(target as nat) + " ["@ + edge_text(edges[k - 1].1, delay_ms) + "];\n"@
    }
}

/// A node's edges: behind a join where it waits for more than one child and for nothing else.
pub open spec fn edges_text(target: usize, edges: Seq<(usize, Seq<char>)>, delay_ms: u64) -> Seq<char> {
    if edges.len() > 1 && forall|k: int| 0 <= k < edges.len() ==> (#[trigger] edges[k]).1 == "blocking join"@ {
        join_text(target, edges, delay_ms)
    } else {
        plain_lines(target, edges, delay_ms, edges.len())
    }
}

fn push_edges(dot: &mut String, target_ordinal: usize, dependencies: &Vec<(usize, &'static str)>, delay_ms: u64)
    ensures
        final(dot)@ == old(dot)@ + edges_text(target_ordinal, edge_views(dependencies@), delay_ms),
{
    let ghost start = dot@;
    let ghost edges = edge_views(dependencies@);
    let mut joins = dependencies.len() > 1;
    let mut k: usize = 0;
    while joins && k < dependencies.len()
        invariant
            k <= dependencies@.len(),
            edges == edge_views(dependencies@),
            joins ==> dependencies@.len() > 1 && forall|m: int| 0 <= m < k ==> (#[trigger] edges[m]).1 == "blocking join"@,
            !joins ==> dependencies@.len() <= 1 || exists|m: int|
                0 <= m < edges.len() && (#[trigger] edges[m]).1 != "blocking join"@,
        decreases dependencies@.len() - k + (if joins {
            1int
        } else {
            0
        }),
    {
        if same_text(dependencies[k].1, "blocking join") {
            assert(edges[k as int].1 == "blocking join"@);
            k += 1;
        } else {
            assert(edges[k as int].1 != "blocking join"@);
            joins = false;
        }
    }
    if joins {
        write_blocking_join(dot, target_ordinal, dependencies, delay_ms);
        return;
    }
    let mut k: usize = 0;
    assert(start =~= start + plain_lines(target_ordinal, edges, delay_ms, 0));
    while k < dependencies.len()
        invariant
            k <= dependencies@.len(),
            edges == edge_views(dependencies@),
            dot@ == start + plain_lines(target_ordinal, edges, delay_ms, k as nat),
        decreases dependencies@.len() - k,
    {
        dot.append("  n");
        dot.append(decimal_text(dependencies[k].0 as u64).as_str());
        dot.append(" -> n");
        dot.append(decimal_text(target_ordinal as u64).as_str());
        dot.append(" [");
        dot.append(edge_label(dependencies[k].1, delay_ms).as_str());
        dot.append("];\n");
        k += 1;
        assert(dot@ =~= start + plain_lines(target_ordinal, edges, delay_ms, k as nat));
    }
}

/// Why one of the first `k` dependencies of a node cannot be drawn.
pub open spec fn dependency_failure(
    sessions: Seq<GeneratedSession>,
    nodes: Seq<GeneratedNode>,
    ordinal: int,
    k: nat,
) -> Option<GraphError>
    decreases k,
{
    if k == 0 {
        None
    } else {
        match dependency_failure(sessions, nodes, ordinal, (k - 1) as nat) {
            Some(error) => Some(error),
            None => {
                let dependency = nodes[ordinal].dependencies@[k - 1];
                if dependency >= nodes.len() {
                    Some(GraphError::MissingDependency { ordinal: ordinal as usize, dependency })
                } else {
                    match relation_of(nodes[dependency as int], nodes[ordinal], sessions) {
                        Err(error) => Some(error),
                        Ok(_) => None,
                    }
                }
            },
        }
    }
}

/// The edges into a node.
pub open spec fn edges_into(sessions: Seq<GeneratedSession>, nodes: Seq<GeneratedNode>, ordinal: int) -> Seq<
    (usize, Seq<char>),
> {
    let dependencies = nodes[ordinal].dependencies@;
    Seq::new(
        dependencies.len(),
        |k: int|
            (
                dependencies[k],
                match relation_of(nodes[dependencies[k] as int], nodes[ordinal], sessions) {
                    Ok(relation) => relation,
                    Err(_) => Seq::empty(),
                },
            ),
    )
}

fn list_edges(
    sessions: &Vec<GeneratedSession>,
    nodes: &Vec<GeneratedNode>,
    index: &StringHashMap<usize>,
    ordinal: usize,
) -> (result: Result<Vec<(usize, &'static str)>, GraphError>)
    requires
        ordinal < nodes@.len(),
        forall|name: Seq<char>| #[trigger]
            index@.contains_key(name) == (session_named(sessions@, name, sessions@.len()) is Some),
        forall|name: Seq<char>| #[trigger]
            index@.contains_key(name) ==> Some(index@[name]) == session_named(sessions@, name, sessions@.len())
                && index@[name] < sessions@.len(),
    ensures
        match result {
            Ok(edges) => dependency_failure(
                sessions@,
                nodes@,
                ordinal as int,
                nodes@[ordinal as int].dependencies@.len(),
            ) is None && edge_views(edges@) == edges_into(sessions@, nodes@, ordinal as int),
            Err(error) => dependency_failure(
                sessions@,
                nodes@,
                ordinal as int,
                nodes@[ordinal as int].dependencies@.len(),
            ) == Some(error),
        },
{
    let node = &nodes[ordinal];
    let mut edges: Vec<(usize, &'static str)> = Vec::with_capacity(node.dependencies.len());
    let mut k: usize = 0;
    while k < node.dependencies.len()
        invariant
            ordinal < nodes@.len(),
            *node == nodes@[ordinal as int],
            k <= node.dependencies@.len(),
            edges@.len() == k,
            dependency_failure(sessions@, nodes@, ordinal as int, k as nat) is None,
            forall|m: int|
                0 <= m < k ==> edge_views(edges@)[m] == #[trigger] edges_into(sessions@, nodes@, ordinal as int)[m],
            forall|name: Seq<char>| #[trigger]
                index@.contains_key(name) == (session_named(sessions@, name, sessions@.len()) is Some),
            forall|name: Seq<char>| #[trigger]
                index@.contains_key(name) ==> Some(index@[name]) == session_named(sessions@, name, sessions@.len())
                    && index@[name] < sessions@.len(),
        decreases node.dependencies@.len() - k,
    {
        let dependency = node.dependencies[k];
        if dependency >= nodes.len() {
            let error = GraphError::MissingDependency { ordinal, dependency };
            proof {
                lemma_dependency_fails(sessions@, nodes@, ordinal as int, k as nat, error);
            }
            return Err(error);
        }
        match edge_relation(&nodes[dependency], node, sessions, index) {
            Ok(relation) => {
                let ghost before = edges@;
                edges.push((dependency, relation));
                proof {
                    let all = edges_into(sessions@, nodes@, ordinal as int);
                    assert forall|m: int| 0 <= m < k + 1 implies edge_views(edges@)[m] == #[trigger] all[m] by {
                        if m < k {
                            assert(edge_views(before)[m] == all[m]);
                            assert(edges@[m] == before[m]);
                        }
                    }
                }
            },
            Err(error) => {
                proof {
                    lemma_dependency_fails(sessions@, nodes@, ordinal as int, k as nat, error);
                }
                return Err(error);
            },
        }
        k += 1;
    }
    assert(edge_views(edges@) =~= edges_into(sessions@, nodes@, ordinal as int));
    Ok(edges)
}

proof fn lemma_dependency_fails(
    sessions: Seq<GeneratedSession>,
    nodes: Seq<GeneratedNode>,
    ordinal: int,
    k: nat,
    error: GraphError,
)
    requires
        k < nodes[ordinal].dependencies@.len(),
        dependency_failure(sessions, nodes, ordinal, k + 1) == Some(error),
    ensures
        dependency_failure(sessions, nodes, ordinal, nodes[ordinal].dependencies@.len()) == Some(error),
    decreases nodes[ordinal].dependencies@.len() - k,
{
    if k + 1 < nodes[ordinal].dependencies@.len() {
        assert(dependency_failure(sessions, nodes, ordinal, k + 2) == Some(error));
        lemma_dependency_fails(sessions, nodes, ordinal, k + 1, error);
    }
}

/// Why one of the first `n` nodes belongs to no session.
pub open spec fn node_failure(sessions: Seq<GeneratedSession>, nodes: Seq<GeneratedNode>, n: nat) -> Option<GraphError>
    decreases n,
{
    if n == 0 {
        None
    } else {
        match node_failure(sessions, nodes, (n - 1) as nat) {
            Some(error) => Some(error),
            None => match session_of(nodes[n - 1]) {
                None => Some(GraphError::MissingContext { ordinal: (n - 1) as usize }),
                Some(name) => if session_named(sessions, name, sessions.len()) is None {
                    Some(GraphError::UnknownSession { ordinal: (n - 1) as usize })
                } else {
                    None
                },
            },
        }
    }
}

proof fn lemma_node_fails(sessions: Seq<GeneratedSession>, nodes: Seq<GeneratedNode>, n: nat, error: GraphError)
    requires
        n < nodes.len(),
        node_failure(sessions, nodes, n + 1) == Some(error),
    ensures
        node_failure(sessions, nodes, nodes.len()) == Some(error),
    decreases nodes.len() - n,
{
    if n + 1 < nodes.len() {
        assert(node_failure(sessions, nodes, n + 2) == Some(error));
        lemma_node_fails(sessions, nodes, n + 1, error);
    }
}

/// Puts the nodes under their sessions.
fn group_nodes(sessions: &Vec<GeneratedSession>, nodes: &Vec<GeneratedNode>, index: &StringHashMap<usize>) -> (result:
    Result<TextGroups, GraphError>)
    requires
        forall|name: Seq<char>| #[trigger]
            index@.contains_key(name) == (session_named(sessions@, name, sessions@.len()) is Some),
    ensures
        match result {
            Ok(groups) => node_failure(sessions@, nodes@, nodes@.len()) is None && forall|name: Seq<char>| #[trigger]
                groups.under(name) == places(sessions_of(nodes@), name, nodes@.len()),
            Err(error) => node_failure(sessions@, nodes@, nodes@.len()) == Some(error),
        },
{
    let mut groups = TextGroups::new();
    let mut i: usize = 0;
    while i < nodes.len()
        invariant
            i <= nodes@.len(),
            node_failure(sessions@, nodes@, i as nat) is None,
            forall|name: Seq<char>| #[trigger] groups.under(name) == places(sessions_of(nodes@), name, i as nat),
            forall|name: Seq<char>| #[trigger]
                index@.contains_key(name) == (session_named(sessions@, name, sessions@.len()) is Some),
        decreases nodes@.len() - i,
    {
        assert(sessions_of(nodes@)[i as int] == session_of(nodes@[i as int]));
        match &nodes[i].request.agent_context {
            None => {
                let error = GraphError::MissingContext { ordinal: i };
                proof {
                    lemma_node_fails(sessions@, nodes@, i as nat, error);
                }
                return Err(error);
            },
            Some(context) => {
                if !index.contains_key(context.session_id.as_str()) {
                    let error = GraphError::UnknownSession { ordinal: i };
                    proof {
                        lemma_node_fails(sessions@, nodes@, i as nat, error);
                    }
                    return Err(error);
                }
                groups.push(context.session_id.as_str(), i);
            },
        }
        i += 1;
    }
    Ok(groups)
}

/// Why the edges into one of the first `n` nodes cannot be drawn.
pub open spec fn edge_failure(sessions: Seq<GeneratedSession>, nodes: Seq<GeneratedNode>, n: nat) -> Option<GraphError>
    decreases n,
{
    if n == 0 {
        None
    } else {
        match edge_failure(sessions, nodes, (n - 1) as nat) {
            Some(error) => Some(error),
            None => dependency_failure(sessions, nodes, n - 1, nodes[n - 1].dependencies@.len()),
        }
    }
}

proof fn lemma_edge_fails(sessions: Seq<GeneratedSession>, nodes: Seq<GeneratedNode>, n: nat, error: GraphError)
    requires
        n < nodes.len(),
        edge_failure(sessions, nodes, n + 1) == Some(error),
    ensures
        edge_failure(sessions, nodes, nodes.len()) == Some(error),
    decreases nodes.len() - n,
{
    if n + 1 < nodes.len() {
        assert(edge_failure(sessions, nodes, n + 2) == Some(error));
        lemma_edge_fails(sessions, nodes, n + 1, error);
    }
}

/// The edges into the first `n` nodes.
pub open spec fn all_edges(sessions: Seq<GeneratedSession>, nodes: Seq<GeneratedNode>, n: nat) -> Seq<char>
    decreases n,
{
    if n == 0 {
        Seq::empty()
    } else {
        all_edges(sessions, nodes, (n - 1) as nat) + edges_text(
            (n - 1) as usize,
            edges_into(sessions, nodes, n - 1),
            nodes[n - 1].delay_after_dependencies_ms,
        )
    }
}

fn push_all_edges(
    dot: &mut String,
    sessions: &Vec<GeneratedSession>,
    nodes: &Vec<GeneratedNode>,
    index: &StringHashMap<usize>,
) -> (failure: Option<GraphError>)
    requires
        forall|name: Seq<char>| #[trigger]
            index@.contains_key(name) == (session_named(sessions@, name, sessions@.len()) is Some),
        forall|name: Seq<char>| #[trigger]
            index@.contains_key(name) ==> Some(index@[name]) == session_named(sessions@, name, sessions@.len())
                && index@[name] < sessions@.len(),
    ensures
        failure == edge_failure(sessions@, nodes@, nodes@.len()),
        failure is None ==> final(dot)@ == old(dot)@ + all_edges(sessions@, nodes@, nodes@.len()),
{
    let ghost start = dot@;
    let mut n: usize = 0;
    assert(start =~= start + all_edges(sessions@, nodes@, 0));
    while n < nodes.len()
        invariant
            n <= nodes@.len(),
            edge_failure(sessions@, nodes@, n as nat) is None,
            dot@ == start + all_edges(sessions@, nodes@, n as nat),
            forall|name: Seq<char>| #[trigger]
                index@.contains_key(name) == (session_named(sessions@, name, sessions@.len()) is Some),
            forall|name: Seq<char>| #[trigger]
                index@.contains_key(name) ==> Some(index@[name]) == session_named(sessions@, name, sessions@.len())
                    && index@[name] < sessions@.len(),
        decreases nodes@.len() - n,
    {
        match list_edges(sessions, nodes, index, n) {
            Err(error) => {
                proof {
                    lemma_edge_fails(sessions@, nodes@, n as nat, error);
                }
                return Some(error);
            },
            Ok(edges) => {
                push_edges(dot, n, &edges, nodes[n].delay_after_dependencies_ms);
            },
        }
        n += 1;
        assert(dot@ =~= start + all_edges(sessions@, nodes@, n as nat));
    }
    None
}

// ---------------------------------------------------------------------------------------------
// The graph
// ---------------------------------------------------------------------------------------------

/// The lines that say how a graph looks.
pub open spec fn style() -> Seq<char> {
    "digraph agent_loadgen_plan {\n"@
        + "  graph [rankdir=LR, compound=true, newrank=true, pad=0.25, nodesep=0.35, ranksep=0.75, fontname=\"Helvetica\"];\n"@
        + "  node [shape=box, style=\"rounded,filled\", fontname=\"Helvetica\", fontsize=10, margin=\"0.08,0.05\", color=\"#4b5563\"];\n"@
        + "  edge [fontname=\"Helvetica\", fontsize=9, color=\"#6b7280\", arrowsize=0.7];\n"@
}

/// The title of a graph.
pub open spec fn title(topology: GeneratedSessionTopology, requests: nat) -> Seq<char> {
    "  label=\"agent-loadgen generated plan\\n"@ + decimal(topology.configured_top_level_sessions as nat)
        + " top-level session trees · "@ + decimal(topology.configured_concurrent_sessions as nat)
        + " concurrent streams · "@ + decimal(topology.generated_subagent_sessions as nat) + " child sessions · "@
        + decimal(requests) + " model requests\";\n"@ + "  labelloc=t;\n"@ + "  fontsize=18;\n\n"@
}

fn push_style(dot: &mut String)
    ensures
        final(dot)@ == old(dot)@ + style(),
{
    dot.append("digraph agent_loadgen_plan {\n");
    dot.append(
        "  graph [rankdir=LR, compound=true, newrank=true, pad=0.25, nodesep=0.35, ranksep=0.75, fontname=\"Helvetica\"];\n",
    );
    dot.append(
        "  node [shape=box, style=\"rounded,filled\", fontname=\"Helvetica\", fontsize=10, margin=\"0.08,0.05\", color=\"#4b5563\"];\n",
    );
    dot.append("  edge [fontname=\"Helvetica\", fontsize=9, color=\"#6b7280\", arrowsize=0.7];\n");
    assert(dot@ =~= old(dot)@ + style());
}

fn push_title(dot: &mut String, topology: &GeneratedSessionTopology, requests: usize)
    ensures
        final(dot)@ == old(dot)@ + title(*topology, requests as nat),
{
    dot.append("  label=\"agent-loadgen generated plan\\n");
    dot.append(decimal_text(topology.configured_top_level_sessions as u64).as_str());
    dot.append(" top-level session trees · ");
    dot.append(decimal_text(topology.configured_concurrent_sessions as u64).as_str());
    dot.append(" concurrent streams · ");
    dot.append(decimal_text(topology.generated_subagent_sessions as u64).as_str());
    dot.append(" child sessions · ");
    dot.append(decimal_text(requests as u64).as_str());
    dot.append(" model requests\";\n");
    dot.append("  labelloc=t;\n");
    dot.append("  fontsize=18;\n\n");
    assert(dot@ =~= old(dot)@ + title(*topology, requests as nat));
}

/// Why a plan cannot be drawn, if it cannot.
pub open spec fn graph_failure(scenario: GeneratedScenario) -> Option<GraphError> {
    match node_failure(scenario.sessions@, scenario.nodes@, scenario.nodes@.len()) {
        Some(error) => Some(error),
        None => edge_failure(scenario.sessions@, scenario.nodes@, scenario.nodes@.len()),
    }
}

/// The graph of a plan: its session trees with their nodes, then the edges into each node.
pub open spec fn graph_text(scenario: GeneratedScenario) -> Seq<char> {
    let sessions = scenario.sessions@;
    let nodes = scenario.nodes@;
    let roots = roots_of(sessions, sessions.len());
    style() + title(scenario.session_topology, nodes.len()) + trees(sessions, nodes, roots, roots.len()) + all_edges(
        sessions,
        nodes,
        nodes.len(),
    ) + "}\n"@
}

/// Draws a plan as a Graphviz graph.
///
/// The graph is a causal overview, not a forecast in wall-clock time: it shows the delay that was
/// drawn before each request, while the time a model takes is known only when a run takes place.
pub fn render_plan_dot(scenario: &GeneratedScenario) -> (result: Result<String, GraphError>)
    requires
        all_nest(scenario.sessions@),
    ensures
        match result {
            Ok(dot) => graph_failure(*scenario) is None && dot@ == graph_text(*scenario),
            Err(error) => graph_failure(*scenario) == Some(error),
        },
{
    let index = index_sessions(&scenario.sessions);
    let children_by_session = group_children(&scenario.sessions);
    let nodes_by_session = match group_nodes(&scenario.sessions, &scenario.nodes, &index) {
        Ok(groups) => groups,
        Err(error) => return Err(error),
    };
    let mut dot = String::new();
    push_style(&mut dot);
    push_title(&mut dot, &scenario.session_topology, scenario.nodes.len());
    push_trees(&mut dot, &scenario.sessions, &scenario.nodes, &children_by_session, &nodes_by_session);
    match push_all_edges(&mut dot, &scenario.sessions, &scenario.nodes, &index) {
        Some(error) => return Err(error),
        None => {},
    }
    dot.append("}\n");
    assert(dot@ =~= graph_text(*scenario));
    Ok(dot)
}

} // verus!
