//! What the drawing of a plan shows.

use crate::groups::{lemma_places, places};
use crate::scenario::graph::{
    all_edges, by_session_id, children_of, cluster, cluster_head, clusters, dependency_failure,
    distinct_sessions, dot_escaped, edge_failure, edge_text, edges_into, edges_text, escaped_char, graph_failure, graph_text, join_head, join_lines,
    join_tail, last_part, node_failure, node_caption, node_lines, node_text, nodes_in, padding, parent_of, parents_of,
    plain_lines, relation_of, roots_of, session_named, session_of, sessions_of, slot, spaced, tree, trees,
    GraphError,
};
use crate::scenario::model::{GeneratedNode, GeneratedScenario, GeneratedSession};
use crate::text::{
    decimal, lemma_bytes_order_total, lemma_bytes_order_transitive, text_at_or_before,
};
use vstd::prelude::*;
use vstd::utf8::encode_utf8;

verus! {

/// `part` stands somewhere in `text`.
pub open spec fn appears(part: Seq<char>, text: Seq<char>) -> bool {
    exists|before: Seq<char>, after: Seq<char>| #[trigger] (before + part + after) == text
}

proof fn lemma_appears_in_more(part: Seq<char>, text: Seq<char>, left: Seq<char>, right: Seq<char>)
    requires
        appears(part, text),
    ensures
        appears(part, left + text + right),
{
    let (before, after) = choose|before: Seq<char>, after: Seq<char>| #[trigger] (before + part + after) == text;
    let more = (left + before) + part + (after + right);
    assert(more =~= left + text + right);
}

proof fn lemma_appears_whole(part: Seq<char>)
    ensures
        appears(part, part),
{
    assert(Seq::<char>::empty() + part + Seq::<char>::empty() =~= part);
}

proof fn lemma_appears_within(part: Seq<char>, middle: Seq<char>, text: Seq<char>)
    requires
        appears(part, middle),
        appears(middle, text),
    ensures
        appears(part, text),
{
    let (before, after) = choose|before: Seq<char>, after: Seq<char>| #[trigger] (before + middle + after) == text;
    lemma_appears_in_more(part, middle, before, after);
}

// ---------------------------------------------------------------------------------------------
// Labels
// ---------------------------------------------------------------------------------------------

/// Labels keep their text, character by character: backslashes and quotes get a backslash before them, a
/// line feed is written as one, and nothing else changes.
pub proof fn law_labels_are_escaped_by_character(a: Seq<char>, b: Seq<char>, c: char)
    ensures
        dot_escaped(a + b) == dot_escaped(a) + dot_escaped(b),
        dot_escaped(seq!['\\']) == seq!['\\', '\\'],
        dot_escaped(seq!['"']) == seq!['\\', '"'],
        dot_escaped(seq!['\n']) == seq!['\\', 'n'],
        c != '\\' && c != '"' && c != '\n' ==> dot_escaped(seq![c]) == seq![c],
        dot_escaped(Seq::<char>::empty()) == Seq::<char>::empty(),
    decreases b.len(),
{
    lemma_single(c);
    lemma_single('\\');
    lemma_single('"');
    lemma_single('\n');
    if b.len() == 0 {
        assert(a + b =~= a);
        assert(dot_escaped(a) + dot_escaped(b) =~= dot_escaped(a));
    } else {
        law_labels_are_escaped_by_character(a, b.drop_last(), c);
        assert((a + b).drop_last() =~= a + b.drop_last());
        assert((a + b).last() == b.last());
        assert(dot_escaped(a + b) =~= dot_escaped(a) + dot_escaped(b));
    }
}

proof fn lemma_single(c: char)
    ensures
        dot_escaped(seq![c]) == escaped_char(c),
{
    let one = seq![c];
    assert(one.drop_last() =~= Seq::<char>::empty());
    assert(one.last() == c);
    assert(dot_escaped(one.drop_last()) == Seq::<char>::empty());
    assert(dot_escaped(one) =~= escaped_char(c));
}

/// No label breaks out of its quotes: every quote in it comes behind a backslash, and it stays on one
/// line.
pub proof fn law_labels_stay_in_their_quotes(text: Seq<char>, i: int)
    requires
        0 <= i < dot_escaped(text).len(),
    ensures
        dot_escaped(text)[i] != '\n',
        dot_escaped(text)[i] == '"' ==> i > 0 && dot_escaped(text)[i - 1] == '\\',
    decreases text.len(),
{
    let rest = dot_escaped(text.drop_last());
    if i < rest.len() {
        law_labels_stay_in_their_quotes(text.drop_last(), i);
    }
}

/// Actions are shown with spaces for underscores.
pub proof fn law_actions_are_shown_in_words(action: Seq<char>, i: int)
    requires
        0 <= i < action.len(),
    ensures
        spaced(action).len() == action.len(),
        action[i] == '_' ==> spaced(action)[i] == ' ',
        action[i] != '_' ==> spaced(action)[i] == action[i],
{
}

// ---------------------------------------------------------------------------------------------
// Order
// ---------------------------------------------------------------------------------------------

proof fn lemma_slot(order: Seq<usize>, follows: spec_fn(usize) -> bool)
    ensures
        slot(order, follows) <= order.len(),
        slot(order, follows) > 0 ==> follows(order[slot(order, follows) - 1]),
        forall|k: int| slot(order, follows) <= k < order.len() ==> !follows(#[trigger] order[k]),
    decreases order.len(),
{
    if order.len() > 0 && !follows(order.last()) {
        let rest = order.drop_last();
        lemma_slot(rest, follows);
        assert forall|k: int| slot(order, follows) <= k < order.len() implies !follows(#[trigger] order[k]) by {
            if k < rest.len() {
                assert(rest[k] == order[k]);
            }
        }
    }
}

/// Identifiers of sessions rise, or stay the same, along a list of them.
pub open spec fn rises_by_id(sessions: Seq<GeneratedSession>, order: Seq<usize>) -> bool {
    forall|j: int, k: int|
        0 <= j < k < order.len() ==> text_at_or_before(
            sessions[#[trigger] order[j] as int].session_id@,
            sessions[#[trigger] order[k] as int].session_id@,
        )
}

proof fn lemma_by_session_id(sessions: Seq<GeneratedSession>, members: Seq<usize>, n: nat)
    requires
        n <= members.len(),
    ensures
        by_session_id(sessions, members, n).len() == n,
        rises_by_id(sessions, by_session_id(sessions, members, n)),
        forall|place: usize| #[trigger]
            by_session_id(sessions, members, n).contains(place) <==> members.take(n as int).contains(place),
    decreases n,
{
    if n == 0 {
        assert(members.take(0) =~= Seq::<usize>::empty());
    } else {
        lemma_by_session_id(sessions, members, (n - 1) as nat);
        let before = by_session_id(sessions, members, (n - 1) as nat);
        let next = members[n - 1];
        let follows = |place: usize|
            text_at_or_before(sessions[place as int].session_id@, sessions[next as int].session_id@);
        let at = slot(before, follows) as int;
        lemma_slot(before, follows);
        let order = by_session_id(sessions, members, n);
        assert(order == before.insert(at, next));
        assert forall|j: int, k: int| 0 <= j < k < order.len() implies text_at_or_before(
            sessions[#[trigger] order[j] as int].session_id@,
            sessions[#[trigger] order[k] as int].session_id@,
        ) by {
            let a = if j < at {
                j
            } else {
                j - 1
            };
            let b = if k < at {
                k
            } else {
                k - 1
            };
            if j == at {
                assert(order[j] == next);
                assert(order[k] == before[b]);
                assert(!follows(before[b]));
                lemma_bytes_order_total(
                    encode_utf8(sessions[before[b] as int].session_id@),
                    encode_utf8(sessions[next as int].session_id@),
                );
            } else if k == at {
                assert(order[k] == next);
                assert(order[j] == before[j]);
                assert(follows(before[at - 1]));
                if j < at - 1 {
                    assert(text_at_or_before(
                        sessions[before[j] as int].session_id@,
                        sessions[before[at - 1] as int].session_id@,
                    ));
                    lemma_bytes_order_transitive(
                        encode_utf8(sessions[before[j] as int].session_id@),
                        encode_utf8(sessions[before[at - 1] as int].session_id@),
                        encode_utf8(sessions[next as int].session_id@),
                    );
                }
            } else {
                assert(order[j] == before[a]);
                assert(order[k] == before[b]);
            }
        }
        let now = members.take(n as int);
        let earlier = members.take(n - 1);
        assert forall|place: usize| #[trigger] order.contains(place) <==> now.contains(place) by {
            if order.contains(place) {
                let k = order.index_of(place);
                if k == at {
                    assert(now[n - 1] == place);
                } else {
                    let b = if k < at {
                        k
                    } else {
                        k - 1
                    };
                    assert(before[b] == place);
                    assert(before.contains(place));
                    let e = earlier.index_of(place);
                    assert(now[e] == place);
                }
            }
            if now.contains(place) {
                let k = now.index_of(place);
                if k == n - 1 {
                    assert(order[at] == place);
                } else {
                    assert(earlier[k] == place);
                    assert(before.contains(place));
                    let b = before.index_of(place);
                    let o = if b < at {
                        b
                    } else {
                        b + 1
                    };
                    assert(order[o] == place);
                }
            }
        }
    }
}

/// The children of a session are those that name it as their parent, in order of their identifiers.
pub proof fn law_children_are_drawn_in_order(sessions: Seq<GeneratedSession>, i: int, j: int)
    requires
        sessions.len() <= usize::MAX,
        0 <= i < sessions.len(),
        0 <= j < sessions.len(),
    ensures
        children_of(sessions, i).contains(j as usize) <==> sessions[j].parent_session_id is Some
            && sessions[j].parent_session_id->0@ == sessions[i].session_id@,
        rises_by_id(sessions, children_of(sessions, i)),
{
    let parents = parents_of(sessions);
    let members = places(parents, sessions[i].session_id@, sessions.len());
    lemma_places(parents, sessions[i].session_id@, sessions.len());
    lemma_by_session_id(sessions, members, members.len());
    assert(members.take(members.len() as int) =~= members);
    assert(parents[j] == parent_of(sessions[j]));
    if members.contains(j as usize) {
        let k = members.index_of(j as usize);
        assert(parents[members[k] as int] == Some(sessions[i].session_id@));
    }
}

/// Session `j` has no parent.
pub open spec fn is_root(sessions: Seq<GeneratedSession>, j: int) -> bool {
    sessions[j].parent_session_id is None
}

/// The trees of the first `n` sessions: each of those without a parent, in order of their numbers.
pub open spec fn lists_trees(sessions: Seq<GeneratedSession>, order: Seq<usize>, n: nat) -> bool {
    &&& forall|j: int| 0 <= j < n && #[trigger] is_root(sessions, j) ==> order.contains(j as usize)
    &&& forall|k: int|
        0 <= k < order.len() ==> (#[trigger] order[k]) < n && sessions[order[k] as int].parent_session_id is None
    &&& forall|j: int, k: int|
        0 <= j < k < order.len() ==> sessions[#[trigger] order[j] as int].top_level_session_index
            <= sessions[#[trigger] order[k] as int].top_level_session_index
}

proof fn lemma_tree_joins(sessions: Seq<GeneratedSession>, before: Seq<usize>, n: nat, at: int)
    requires
        0 < n <= sessions.len(),
        sessions.len() <= usize::MAX,
        lists_trees(sessions, before, (n - 1) as nat),
        sessions[n - 1].parent_session_id is None,
        0 <= at <= before.len(),
        at > 0 ==> sessions[before[at - 1] as int].top_level_session_index
            <= sessions[n - 1].top_level_session_index,
        forall|k: int|
            at <= k < before.len() ==> sessions[#[trigger] before[k] as int].top_level_session_index
                > sessions[n - 1].top_level_session_index,
    ensures
        lists_trees(sessions, before.insert(at, (n - 1) as usize), n),
{
    let order = before.insert(at, (n - 1) as usize);
    let old_at = |k: int|
        if k < at {
            k
        } else {
            k - 1
        };
    assert forall|j: int| 0 <= j < n && #[trigger] is_root(sessions, j) implies order.contains(j as usize) by {
        if j == n - 1 {
            assert(order[at] == j as usize);
        } else {
            assert(before.contains(j as usize));
            let b = before.index_of(j as usize);
            if b < at {
                assert(order[b] == j as usize);
            } else {
                assert(order[b + 1] == j as usize);
            }
        }
    }
    assert forall|k: int| 0 <= k < order.len() implies (#[trigger] order[k]) < n
        && sessions[order[k] as int].parent_session_id is None by {
        if k != at {
            assert(order[k] == before[old_at(k)]);
        }
    }
    assert forall|j: int, k: int| 0 <= j < k < order.len() implies sessions[
        #[trigger] order[j] as int].top_level_session_index
        <= sessions[#[trigger] order[k] as int].top_level_session_index by {
        if j == at {
            assert(order[k] == before[old_at(k)]);
        } else if k == at {
            assert(order[j] == before[j]);
            assert(sessions[before[j] as int].top_level_session_index
                <= sessions[before[at - 1] as int].top_level_session_index);
        } else {
            assert(order[j] == before[old_at(j)]);
            assert(order[k] == before[old_at(k)]);
        }
    }
}

proof fn lemma_roots(sessions: Seq<GeneratedSession>, n: nat)
    requires
        n <= sessions.len(),
        sessions.len() <= usize::MAX,
    ensures
        lists_trees(sessions, roots_of(sessions, n), n),
    decreases n,
{
    if n > 0 {
        lemma_roots(sessions, (n - 1) as nat);
        let before = roots_of(sessions, (n - 1) as nat);
        if parent_of(sessions[n - 1]) is None {
            let follows = |place: usize|
                sessions[place as int].top_level_session_index <= sessions[n - 1].top_level_session_index;
            lemma_slot(before, follows);
            lemma_tree_joins(sessions, before, n, slot(before, follows) as int);
        }
    }
}

/// A tree is drawn for each session without a parent, in order of their numbers.
pub proof fn law_trees_are_drawn_in_order(sessions: Seq<GeneratedSession>, j: int, k: int)
    requires
        sessions.len() <= usize::MAX,
        0 <= j < k < roots_of(sessions, sessions.len()).len(),
    ensures
        ({
            let roots = roots_of(sessions, sessions.len());
            &&& sessions[roots[j] as int].top_level_session_index <= sessions[roots[k] as int].top_level_session_index
            &&& sessions[roots[k] as int].parent_session_id is None
        }),
        forall|i: int|
            0 <= i < sessions.len() && #[trigger] is_root(sessions, i) ==> roots_of(sessions, sessions.len()).contains(
                i as usize,
            ),
{
    lemma_roots(sessions, sessions.len());
    let roots = roots_of(sessions, sessions.len());
    assert(sessions[roots[j] as int].top_level_session_index <= sessions[roots[k] as int].top_level_session_index);
}

// ---------------------------------------------------------------------------------------------
// Nodes and edges
// ---------------------------------------------------------------------------------------------

/// The line of a node.
pub open spec fn node_line(ordinal: usize, node: GeneratedNode) -> Seq<char> {
    "  n"@ + decimal(ordinal as nat) + " ["@ + node_text(ordinal, node) + "];\n"@
}

proof fn lemma_node_lines(nodes: Seq<GeneratedNode>, listed: Seq<usize>, n: nat, level: nat, k: int)
    requires
        0 <= k < n <= listed.len(),
    ensures
        appears(node_line(listed[k], nodes[listed[k] as int]), node_lines(nodes, listed, n, level)),
    decreases n,
{
    let before = node_lines(nodes, listed, (n - 1) as nat, level);
    let line = node_line(listed[n - 1], nodes[listed[n - 1] as int]);
    let all = node_lines(nodes, listed, n, level);
    assert(all =~= before + padding(level) + line);
    if k < n - 1 {
        lemma_node_lines(nodes, listed, (n - 1) as nat, level, k);
        lemma_appears_in_more(
            node_line(listed[k], nodes[listed[k] as int]),
            before,
            Seq::empty(),
            padding(level) + line,
        );
        assert(Seq::<char>::empty() + before + (padding(level) + line) =~= all);
    } else {
        lemma_appears_whole(line);
        lemma_appears_in_more(line, line, before + padding(level), Seq::empty());
        assert(before + padding(level) + line + Seq::<char>::empty() =~= all);
    }
}

/// Every request is drawn in the box of its session.
pub proof fn law_requests_are_drawn_in_their_session(
    sessions: Seq<GeneratedSession>,
    nodes: Seq<GeneratedNode>,
    i: int,
    level: nat,
    fuel: nat,
    ordinal: int,
)
    requires
        fuel > 0,
        nodes.len() <= usize::MAX,
        0 <= ordinal < nodes.len(),
        nodes[ordinal].request.agent_context is Some,
        nodes[ordinal].request.agent_context->0.session_id@ == sessions[i].session_id@,
    ensures
        appears(node_line(ordinal as usize, nodes[ordinal]), cluster(sessions, nodes, i, level, fuel)),
{
    let listed = nodes_in(nodes, sessions[i]);
    let names = sessions_of(nodes);
    lemma_places(names, sessions[i].session_id@, nodes.len());
    assert(names[ordinal] == Some(sessions[i].session_id@));
    let k = listed.index_of(ordinal as usize);
    let lines = node_lines(nodes, listed, listed.len(), level);
    lemma_node_lines(nodes, listed, listed.len(), level, k);
    let children = children_of(sessions, i);
    let inner = clusters(sessions, nodes, children, children.len(), level + 1, (fuel - 1) as nat);
    let head = cluster_head(sessions[i], level);
    let tail = inner + padding(level) + "}\n"@;
    lemma_appears_in_more(node_line(ordinal as usize, nodes[ordinal]), lines, head, tail);
    assert(head + lines + tail =~= cluster(sessions, nodes, i, level, fuel));
}

proof fn lemma_clusters(
    sessions: Seq<GeneratedSession>,
    nodes: Seq<GeneratedNode>,
    listed: Seq<usize>,
    n: nat,
    level: nat,
    fuel: nat,
    k: int,
)
    requires
        0 <= k < n <= listed.len(),
    ensures
        appears(
            cluster(sessions, nodes, listed[k] as int, level, fuel),
            clusters(sessions, nodes, listed, n, level, fuel),
        ),
    decreases n,
{
    let before = clusters(sessions, nodes, listed, (n - 1) as nat, level, fuel);
    let last = cluster(sessions, nodes, listed[n - 1] as int, level, fuel);
    let all = clusters(sessions, nodes, listed, n, level, fuel);
    assert(all =~= before + last);
    if k < n - 1 {
        lemma_clusters(sessions, nodes, listed, (n - 1) as nat, level, fuel, k);
        lemma_appears_in_more(
            cluster(sessions, nodes, listed[k] as int, level, fuel),
            before,
            Seq::empty(),
            last,
        );
        assert(Seq::<char>::empty() + before + last =~= all);
    } else {
        lemma_appears_whole(last);
        lemma_appears_in_more(last, last, before, Seq::empty());
        assert(before + last + Seq::<char>::empty() =~= all);
    }
}

/// The box of a child is drawn in the box of its parent.
pub proof fn law_children_are_drawn_in_their_parent(
    sessions: Seq<GeneratedSession>,
    nodes: Seq<GeneratedNode>,
    i: int,
    j: int,
    level: nat,
    fuel: nat,
)
    requires
        fuel > 0,
        sessions.len() <= usize::MAX,
        0 <= i < sessions.len(),
        0 <= j < sessions.len(),
        sessions[j].parent_session_id is Some,
        sessions[j].parent_session_id->0@ == sessions[i].session_id@,
    ensures
        appears(
            cluster(sessions, nodes, j, level + 1, (fuel - 1) as nat),
            cluster(sessions, nodes, i, level, fuel),
        ),
{
    law_children_are_drawn_in_order(sessions, i, j);
    let children = children_of(sessions, i);
    let k = children.index_of(j as usize);
    let listed = nodes_in(nodes, sessions[i]);
    let lines = node_lines(nodes, listed, listed.len(), level);
    let head = cluster_head(sessions[i], level);
    let inner = clusters(sessions, nodes, children, children.len(), level + 1, (fuel - 1) as nat);
    lemma_clusters(sessions, nodes, children, children.len(), level + 1, (fuel - 1) as nat, k);
    let tail = padding(level) + "}\n"@;
    lemma_appears_in_more(
        cluster(sessions, nodes, j, level + 1, (fuel - 1) as nat),
        inner,
        head + lines,
        tail,
    );
    assert(head + lines + inner + tail =~= cluster(sessions, nodes, i, level, fuel));
}

proof fn lemma_trees(
    sessions: Seq<GeneratedSession>,
    nodes: Seq<GeneratedNode>,
    roots: Seq<usize>,
    n: nat,
    k: int,
)
    requires
        0 <= k < n <= roots.len(),
    ensures
        appears(
            cluster(sessions, nodes, roots[k] as int, 1, sessions.len()),
            trees(sessions, nodes, roots, n),
        ),
    decreases n,
{
    let before = trees(sessions, nodes, roots, (n - 1) as nat);
    let last = tree(sessions, nodes, roots[n - 1]);
    let all = trees(sessions, nodes, roots, n);
    if k < n - 1 {
        lemma_trees(sessions, nodes, roots, (n - 1) as nat, k);
        lemma_appears_in_more(
            cluster(sessions, nodes, roots[k] as int, 1, sessions.len()),
            before,
            Seq::empty(),
            last,
        );
        assert(Seq::<char>::empty() + before + last =~= all);
    } else {
        let inner = cluster(sessions, nodes, roots[k] as int, 1, sessions.len());
        let head = crate::scenario::graph::tree_head(sessions[roots[k] as int]);
        lemma_appears_whole(inner);
        lemma_appears_in_more(inner, inner, before + head, "  }\n"@);
        assert(before + head + inner + "  }\n"@ =~= all);
    }
}

/// Every session without a parent is drawn, with everything in its box.
pub proof fn law_every_tree_is_drawn(scenario: GeneratedScenario, i: int)
    requires
        scenario.sessions@.len() <= usize::MAX,
        0 <= i < scenario.sessions@.len(),
        scenario.sessions@[i].parent_session_id is None,
    ensures
        appears(
            cluster(scenario.sessions@, scenario.nodes@, i, 1, scenario.sessions@.len()),
            graph_text(scenario),
        ),
{
    let sessions = scenario.sessions@;
    let nodes = scenario.nodes@;
    let roots = roots_of(sessions, sessions.len());
    lemma_roots(sessions, sessions.len());
    assert(is_root(sessions, i));
    let k = roots.index_of(i as usize);
    lemma_trees(sessions, nodes, roots, roots.len(), k);
    let inner = trees(sessions, nodes, roots, roots.len());
    let head = crate::scenario::graph::style() + crate::scenario::graph::title(
        scenario.session_topology,
        nodes.len(),
    );
    let tail = all_edges(sessions, nodes, nodes.len()) + "}\n"@;
    lemma_appears_in_more(cluster(sessions, nodes, i, 1, sessions.len()), inner, head, tail);
    assert(head + inner + tail =~= graph_text(scenario));
}

/// An arrow from one request straight to another.
pub open spec fn arrow(source: usize, target: usize) -> Seq<char> {
    "  n"@ + decimal(source as nat) + " -> n"@ + decimal(target as nat) + " ["@
}

/// An arrow from one request to where the children of another join.
pub open spec fn join_arrow(source: usize, target: usize) -> Seq<char> {
    "  n"@ + decimal(source as nat) + " -> join_"@ + decimal(target as nat) + " ["@
}

proof fn lemma_plain_lines(target: usize, edges: Seq<(usize, Seq<char>)>, delay_ms: u64, n: nat, k: int)
    requires
        0 <= k < n <= edges.len(),
    ensures
        appears(arrow(edges[k].0, target), plain_lines(target, edges, delay_ms, n)),
    decreases n,
{
    let before = plain_lines(target, edges, delay_ms, (n - 1) as nat);
    let all = plain_lines(target, edges, delay_ms, n);
    let tail = crate::scenario::graph::edge_text(edges[n - 1].1, delay_ms) + "];\n"@;
    let line = arrow(edges[n - 1].0, target);
    if k < n - 1 {
        lemma_plain_lines(target, edges, delay_ms, (n - 1) as nat, k);
        lemma_appears_in_more(arrow(edges[k].0, target), before, Seq::empty(), line + tail);
        assert(Seq::<char>::empty() + before + (line + tail) =~= all);
    } else {
        lemma_appears_whole(line);
        lemma_appears_in_more(line, line, before, tail);
        assert(before + line + tail =~= all);
    }
}

proof fn lemma_join_lines(target: usize, edges: Seq<(usize, Seq<char>)>, n: nat, k: int)
    requires
        0 <= k < n <= edges.len(),
    ensures
        appears(join_arrow(edges[k].0, target), join_lines(target, edges, n)),
    decreases n,
{
    reveal_strlit(" [label=\"child complete\", color=\"#7c3aed\"];\n");
    reveal_strlit(" [");
    let before = join_lines(target, edges, (n - 1) as nat);
    let all = join_lines(target, edges, n);
    let label = " [label=\"child complete\", color=\"#7c3aed\"];\n"@;
    let tail = label.skip(2);
    assert(label =~= " ["@ + tail);
    let line = join_arrow(edges[n - 1].0, target);
    if k < n - 1 {
        lemma_join_lines(target, edges, (n - 1) as nat, k);
        lemma_appears_in_more(join_arrow(edges[k].0, target), before, Seq::empty(), line + tail);
        assert(Seq::<char>::empty() + before + (line + tail) =~= all);
    } else {
        lemma_appears_whole(line);
        lemma_appears_in_more(line, line, before, tail);
        assert(before + line + tail =~= all);
    }
}

proof fn lemma_edges_text(target: usize, edges: Seq<(usize, Seq<char>)>, delay_ms: u64, k: int)
    requires
        0 <= k < edges.len(),
    ensures
        appears(arrow(edges[k].0, target), edges_text(target, edges, delay_ms)) || appears(
            join_arrow(edges[k].0, target),
            edges_text(target, edges, delay_ms),
        ),
        edges.len() == 1 ==> appears(arrow(edges[k].0, target), edges_text(target, edges, delay_ms)),
{
    if edges.len() > 1 && forall|j: int| 0 <= j < edges.len() ==> (#[trigger] edges[j]).1 == "blocking join"@ {
        lemma_join_lines(target, edges, edges.len(), k);
        let head = join_head(target, edges.len());
        let tail = join_tail(target, delay_ms);
        lemma_appears_in_more(
            join_arrow(edges[k].0, target),
            join_lines(target, edges, edges.len()),
            head,
            tail,
        );
    } else {
        lemma_plain_lines(target, edges, delay_ms, edges.len(), k);
    }
}

proof fn lemma_all_edges(
    sessions: Seq<GeneratedSession>,
    nodes: Seq<GeneratedNode>,
    n: nat,
    ordinal: int,
)
    requires
        0 <= ordinal < n <= nodes.len(),
    ensures
        appears(
            edges_text(
                ordinal as usize,
                edges_into(sessions, nodes, ordinal),
                nodes[ordinal].delay_after_dependencies_ms,
            ),
            all_edges(sessions, nodes, n),
        ),
    decreases n,
{
    let before = all_edges(sessions, nodes, (n - 1) as nat);
    let all = all_edges(sessions, nodes, n);
    let last = edges_text(
        (n - 1) as usize,
        edges_into(sessions, nodes, n - 1),
        nodes[n - 1].delay_after_dependencies_ms,
    );
    let wanted = edges_text(
        ordinal as usize,
        edges_into(sessions, nodes, ordinal),
        nodes[ordinal].delay_after_dependencies_ms,
    );
    if ordinal < n - 1 {
        lemma_all_edges(sessions, nodes, (n - 1) as nat, ordinal);
        lemma_appears_in_more(wanted, before, Seq::empty(), last);
        assert(Seq::<char>::empty() + before + last =~= all);
    } else {
        lemma_appears_whole(last);
        lemma_appears_in_more(last, last, before, Seq::empty());
        assert(before + last + Seq::<char>::empty() =~= all);
    }
}

/// Every dependency is drawn: as an arrow from what a request waits for, straight to the request, or to
/// where the children that it waits for join.
pub proof fn law_every_dependency_is_drawn(scenario: GeneratedScenario, ordinal: int, k: int)
    requires
        0 <= ordinal < scenario.nodes@.len(),
        0 <= k < scenario.nodes@[ordinal].dependencies@.len(),
    ensures
        appears(
            arrow(scenario.nodes@[ordinal].dependencies@[k], ordinal as usize),
            graph_text(scenario),
        ) || appears(
            join_arrow(scenario.nodes@[ordinal].dependencies@[k], ordinal as usize),
            graph_text(scenario),
        ),
        scenario.nodes@[ordinal].dependencies@.len() == 1 ==> appears(
            arrow(scenario.nodes@[ordinal].dependencies@[k], ordinal as usize),
            graph_text(scenario),
        ),
{
    let sessions = scenario.sessions@;
    let nodes = scenario.nodes@;
    let edges = edges_into(sessions, nodes, ordinal);
    let own = edges_text(ordinal as usize, edges, nodes[ordinal].delay_after_dependencies_ms);
    let source = nodes[ordinal].dependencies@[k];
    assert(edges[k].0 == source);
    lemma_edges_text(ordinal as usize, edges, nodes[ordinal].delay_after_dependencies_ms, k);
    lemma_all_edges(sessions, nodes, nodes.len(), ordinal);
    let roots = roots_of(sessions, sessions.len());
    let inner = all_edges(sessions, nodes, nodes.len());
    let head = crate::scenario::graph::style() + crate::scenario::graph::title(
        scenario.session_topology,
        nodes.len(),
    ) + trees(sessions, nodes, roots, roots.len());
    lemma_appears_in_more(own, inner, head, "}\n"@);
    assert(head + inner + "}\n"@ =~= graph_text(scenario));
    if appears(arrow(source, ordinal as usize), own) {
        lemma_appears_within(arrow(source, ordinal as usize), own, graph_text(scenario));
    }
    if appears(join_arrow(source, ordinal as usize), own) {
        lemma_appears_within(join_arrow(source, ordinal as usize), own, graph_text(scenario));
    }
}

/// What a dependency is called: within one session it continues it, and the parent goes on where it
/// has delegated; from a parent to its child it spawns it; from a child to its parent it joins it;
/// between two trees of one stream it restarts the stream.
pub proof fn law_dependencies_are_called_what_they_are(
    source: GeneratedNode,
    target: GeneratedNode,
    sessions: Seq<GeneratedSession>,
)
    requires
        source.request.agent_context is Some,
        target.request.agent_context is Some,
    ensures
        ({
            let from = source.request.agent_context->0;
            let to = target.request.agent_context->0;
            let delegates = source.action@ == "subagent"@ || source.action@ == "swarm"@;
            let relation = relation_of(source, target, sessions);
            &&& from.session_id@ == to.session_id@ && delegates ==> relation == Ok::<Seq<char>, GraphError>(
                "parent continues"@,
            )
            &&& from.session_id@ == to.session_id@ && !delegates ==> relation == Ok::<Seq<char>, GraphError>(
                "continue"@,
            )
            &&& from.session_id@ != to.session_id@ && to.parent_session_id is Some && to.parent_session_id->0@
                == from.session_id@ ==> relation == Ok::<Seq<char>, GraphError>("spawn"@)
            &&& from.session_id@ != to.session_id@ && !(to.parent_session_id is Some && to.parent_session_id->0@
                == from.session_id@) && from.parent_session_id is Some && from.parent_session_id->0@ == to.session_id@
                ==> relation == Ok::<Seq<char>, GraphError>("blocking join"@)
        }),
{
}

/// A plan cannot be drawn exactly where a request is of no known session, waits for no known request, or
/// where some dependency cannot be told.
pub proof fn law_whole_plans_can_be_drawn(scenario: GeneratedScenario, ordinal: int, k: int)
    requires
        graph_failure(scenario) is None,
        0 <= ordinal < scenario.nodes@.len(),
    ensures
        scenario.nodes@[ordinal].request.agent_context is Some,
        exists|i: int|
            0 <= i < scenario.sessions@.len() && (#[trigger] scenario.sessions@[i]).session_id@
                == scenario.nodes@[ordinal].request.agent_context->0.session_id@,
        0 <= k < scenario.nodes@[ordinal].dependencies@.len() ==> scenario.nodes@[ordinal].dependencies@[k]
            < scenario.nodes@.len() && relation_of(
            scenario.nodes@[scenario.nodes@[ordinal].dependencies@[k] as int],
            scenario.nodes@[ordinal],
            scenario.sessions@,
        ) is Ok,
{
    let sessions = scenario.sessions@;
    let nodes = scenario.nodes@;
    lemma_nodes_known(sessions, nodes, nodes.len(), ordinal);
    let name = nodes[ordinal].request.agent_context->0.session_id@;
    lemma_named(sessions, name, sessions.len());
    if 0 <= k < nodes[ordinal].dependencies@.len() {
        lemma_edges_known(sessions, nodes, nodes.len(), ordinal);
        lemma_dependencies_known(sessions, nodes, ordinal, nodes[ordinal].dependencies@.len(), k);
    }
}

proof fn lemma_named(sessions: Seq<GeneratedSession>, name: Seq<char>, n: nat)
    requires
        n <= sessions.len(),
    ensures
        session_named(sessions, name, n) is Some ==> exists|i: int|
            0 <= i < n && (#[trigger] sessions[i]).session_id@ == name,
    decreases n,
{
    if n > 0 {
        lemma_named(sessions, name, (n - 1) as nat);
        if sessions[n - 1].session_id@ == name {
            assert(sessions[n - 1].session_id@ == name);
        }
    }
}

proof fn lemma_nodes_known(sessions: Seq<GeneratedSession>, nodes: Seq<GeneratedNode>, n: nat, i: int)
    requires
        node_failure(sessions, nodes, n) is None,
        0 <= i < n,
    ensures
        session_of(nodes[i]) is Some,
        session_named(sessions, session_of(nodes[i])->0, sessions.len()) is Some,
    decreases n,
{
    if i < n - 1 {
        lemma_nodes_known(sessions, nodes, (n - 1) as nat, i);
    }
}

proof fn lemma_edges_known(sessions: Seq<GeneratedSession>, nodes: Seq<GeneratedNode>, n: nat, i: int)
    requires
        edge_failure(sessions, nodes, n) is None,
        0 <= i < n,
    ensures
        dependency_failure(sessions, nodes, i, nodes[i].dependencies@.len()) is None,
    decreases n,
{
    if i < n - 1 {
        lemma_edges_known(sessions, nodes, (n - 1) as nat, i);
    }
}

proof fn lemma_dependencies_known(
    sessions: Seq<GeneratedSession>,
    nodes: Seq<GeneratedNode>,
    ordinal: int,
    n: nat,
    k: int,
)
    requires
        dependency_failure(sessions, nodes, ordinal, n) is None,
        0 <= k < n,
    ensures
        nodes[ordinal].dependencies@[k] < nodes.len(),
        relation_of(nodes[nodes[ordinal].dependencies@[k] as int], nodes[ordinal], sessions) is Ok,
    decreases n,
{
    if k < n - 1 {
        lemma_dependencies_known(sessions, nodes, ordinal, (n - 1) as nat, k);
    }
}

/// The box of a session goes by what stands behind the last hyphen of its identifier.
pub proof fn law_boxes_go_by_the_last_part(head: Seq<char>, tail: Seq<char>)
    requires
        forall|i: int| 0 <= i < tail.len() ==> #[trigger] tail[i] != '-',
    ensures
        last_part(head + seq!['-'] + tail) == tail,
        last_part(tail) == tail,
    decreases tail.len(),
{
    let whole = head + seq!['-'] + tail;
    if tail.len() == 0 {
        assert(whole.last() == '-');
        assert(last_part(whole) =~= tail);
        assert(last_part(tail) =~= tail);
    } else {
        let rest = tail.drop_last();
        assert forall|i: int| 0 <= i < rest.len() implies #[trigger] rest[i] != '-' by {
            assert(rest[i] == tail[i]);
        }
        law_boxes_go_by_the_last_part(head, rest);
        assert(tail[tail.len() - 1] != '-');
        assert(whole.last() == tail.last());
        assert(whole.drop_last() =~= head + seq!['-'] + rest);
        assert(rest.push(tail.last()) =~= tail);
    }
}

proof fn lemma_named_at(sessions: Seq<GeneratedSession>, n: nat, i: int)
    requires
        distinct_sessions(sessions),
        0 <= i < n <= sessions.len(),
        sessions.len() <= usize::MAX,
    ensures
        session_named(sessions, sessions[i].session_id@, n) == Some(i as usize),
    decreases n,
{
    if i < n - 1 {
        assert(sessions[i].session_id@ != sessions[n - 1].session_id@);
        lemma_named_at(sessions, (n - 1) as nat, i);
    }
}

/// Between sessions that are no parent and child, a dependency restarts a stream exactly where both are
/// top-level sessions of one stream.
pub proof fn law_streams_restart_between_their_trees(
    source: GeneratedNode,
    target: GeneratedNode,
    sessions: Seq<GeneratedSession>,
    i: int,
    j: int,
)
    requires
        distinct_sessions(sessions),
        sessions.len() <= usize::MAX,
        0 <= i < sessions.len(),
        0 <= j < sessions.len(),
        i != j,
        source.request.agent_context is Some,
        target.request.agent_context is Some,
        source.request.agent_context->0.session_id@ == sessions[i].session_id@,
        target.request.agent_context->0.session_id@ == sessions[j].session_id@,
        !(target.request.agent_context->0.parent_session_id is Some
            && target.request.agent_context->0.parent_session_id->0@ == sessions[i].session_id@),
        !(source.request.agent_context->0.parent_session_id is Some
            && source.request.agent_context->0.parent_session_id->0@ == sessions[j].session_id@),
    ensures
        relation_of(source, target, sessions) == Ok::<Seq<char>, GraphError>(
            if sessions[i].parent_session_id is None && sessions[j].parent_session_id is None
                && sessions[i].top_level_stream_slot == sessions[j].top_level_stream_slot {
                "stream restart"@
            } else {
                "cross-session"@
            },
        ),
{
    lemma_named_at(sessions, sessions.len(), i);
    lemma_named_at(sessions, sessions.len(), j);
    if i < j {
        assert(sessions[i].session_id@ != sessions[j].session_id@);
    } else {
        assert(sessions[j].session_id@ != sessions[i].session_id@);
    }
}

/// An arrow says what its dependency is called, and how long the request stays behind it.
pub proof fn law_arrows_tell_their_delay(relation: Seq<char>, delay_ms: u64)
    ensures
        appears(relation, edge_text(relation, delay_ms)),
        delay_ms > 0 ==> appears(relation + " + "@ + decimal(delay_ms as nat) + " ms"@, edge_text(relation, delay_ms)),
        delay_ms == 0 ==> appears("label=\""@ + relation + "\""@, edge_text(relation, delay_ms)),
{
    let whole = edge_text(relation, delay_ms);
    let color = if relation == "spawn"@ {
        ", color=\"#0f766e\""@
    } else if relation == "blocking join"@ || relation == "join"@ {
        ", color=\"#7c3aed\""@
    } else {
        Seq::empty()
    };
    let head = "label=\""@;
    let quote = "\""@;
    if delay_ms > 0 {
        let delay = " + "@ + decimal(delay_ms as nat) + " ms"@;
        let part = relation + " + "@ + decimal(delay_ms as nat) + " ms"@;
        assert(head + part + (quote + color) =~= whole);
        assert(head + relation + (delay + quote + color) =~= whole);
    } else {
        let part = head + relation + quote;
        assert(Seq::<char>::empty() + part + color =~= whole);
        assert(head + relation + (quote + color) =~= whole);
    }
}

/// The caption of a request shows its number and both of its lengths.
pub proof fn law_captions_show_lengths(ordinal: usize, node: GeneratedNode)
    ensures
        appears("node "@ + decimal(ordinal as nat), node_caption(ordinal, node)),
        appears("\nISL "@ + decimal(node.request.input_tokens as nat), node_caption(ordinal, node)),
        appears(" · OSL "@ + decimal(node.request.output_tokens as nat), node_caption(ordinal, node)),
{
    let whole = node_caption(ordinal, node);
    let a = "node "@ + decimal(ordinal as nat);
    let b = " · "@ + spaced(node.action@);
    let c = "\nISL "@ + decimal(node.request.input_tokens as nat);
    let d = " · OSL "@ + decimal(node.request.output_tokens as nat);
    let bare = a + b + c + d;
    let tail = whole.skip(bare.len() as int);
    assert(bare =~= whole.take(bare.len() as int));
    assert(whole =~= bare + tail);
    assert(Seq::<char>::empty() + a + (b + c + d + tail) =~= whole);
    assert((a + b) + c + (d + tail) =~= whole);
    assert((a + b + c) + d + tail =~= whole);
}

} // verus!
