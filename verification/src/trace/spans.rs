//! How much of a delay tools account for. Spans that overlap count once.

use crate::groups::{lemma_places, places, TextGroups};
use crate::trace::record::ToolEntry;
use vstd::prelude::*;

verus! {

/// A tool of a session runs during a millisecond.
pub open spec fn runs_tool(tools: Seq<ToolEntry>, session: Seq<char>, ms: int) -> bool {
    exists|k: int| 0 <= k < tools.len() && #[trigger] spans(tools[k], session, ms)
}

/// A tool call of a session covers a millisecond.
pub open spec fn spans(tool: ToolEntry, session: Seq<char>, ms: int) -> bool {
    tool.session_id@ == session && tool.start_ms <= ms < tool.end_ms
}

/// During how many of the `n` milliseconds from `from` on a tool of a session runs.
pub open spec fn tool_time(tools: Seq<ToolEntry>, session: Seq<char>, from: int, n: nat) -> nat
    decreases n,
{
    if n == 0 {
        0
    } else {
        tool_time(tools, session, from, (n - 1) as nat) + (if runs_tool(tools, session, from + n - 1) {
            1nat
        } else {
            0nat
        })
    }
}

proof fn lemma_tool_time_step(
    tools: Seq<ToolEntry>,
    session: Seq<char>,
    from: int,
    n: nat,
    more: nat,
    running: bool,
)
    requires
        forall|ms: int| from + n <= ms < from + n + more ==> #[trigger] runs_tool(tools, session, ms) == running,
    ensures
        tool_time(tools, session, from, n + more) == tool_time(tools, session, from, n) + (if running {
            more
        } else {
            0
        }),
    decreases more,
{
    if more > 0 {
        lemma_tool_time_step(tools, session, from, n, (more - 1) as nat, running);
        assert(runs_tool(tools, session, from + (n + more) - 1) == running);
    }
}

/// However many tools run at once, they account for no more than the time that passes.
pub proof fn law_tools_fit_in_time(tools: Seq<ToolEntry>, session: Seq<char>, from: int, n: nat)
    ensures
        tool_time(tools, session, from, n) <= n,
    decreases n,
{
    if n > 0 {
        law_tools_fit_in_time(tools, session, from, (n - 1) as nat);
    }
}

/// The sessions of tool calls.
pub open spec fn tool_sessions(tools: Seq<ToolEntry>) -> Seq<Option<Seq<char>>> {
    Seq::new(tools.len(), |i: int| Some(tools[i].session_id@))
}

/// Puts tool calls under their sessions.
pub(crate) fn group_tools(tools: &Vec<ToolEntry>) -> (groups: TextGroups)
    ensures
        forall|session: Seq<char>| #[trigger]
            groups.under(session) == places(tool_sessions(tools@), session, tools@.len()),
{
    let mut groups = TextGroups::new();
    let mut i: usize = 0;
    while i < tools.len()
        invariant
            i <= tools@.len(),
            forall|session: Seq<char>| #[trigger]
                groups.under(session) == places(tool_sessions(tools@), session, i as nat),
        decreases tools@.len() - i,
    {
        assert(tool_sessions(tools@)[i as int] == Some(tools@[i as int].session_id@));
        groups.push(tools[i].session_id.as_str(), i);
        i += 1;
    }
    groups
}

/// The farthest end of the tool calls that cover a millisecond, or else the nearest start after it
/// that lies before `limit`.
fn reach(
    tools: &Vec<ToolEntry>,
    listed: &Vec<usize>,
    Ghost(session): Ghost<Seq<char>>,
    ms: i128,
    limit: i128,
) -> (result: (bool, i128))
    requires
        listed@ == places(tool_sessions(tools@), session, tools@.len()),
        ms < limit,
    ensures
        ms < result.1 <= limit,
        forall|t: int| ms <= t < result.1 ==> #[trigger] runs_tool(tools@, session, t) == result.0,
{
    proof {
        assert(tools@.len() == tools.len());
        lemma_places(tool_sessions(tools@), session, tools@.len());
    }
    let mut end: i128 = ms;
    let mut next: i128 = limit;
    let mut k: usize = 0;
    while k < listed.len()
        invariant
            k <= listed@.len(),
            ms < limit,
            listed@ == places(tool_sessions(tools@), session, tools@.len()),
            forall|j: int| 0 <= j < listed@.len() ==> (#[trigger] listed@[j]) < tools@.len(),
            forall|j: int|
                0 <= j < listed@.len() ==> tools@[(#[trigger] listed@[j]) as int].session_id@ == session,
            end >= ms,
            ms < next <= limit,
            forall|t: int| ms <= t < end ==> #[trigger] runs_tool(tools@, session, t),
            forall|j: int, t: int|
                0 <= j < k && ms <= t < next && #[trigger] spans(tools@[listed@[j] as int], session, t) ==> end > ms,
        decreases listed@.len() - k,
    {
        assert(listed@[k as int] < tools@.len());
        let tool = &tools[listed[k]];
        let ghost at = listed@[k as int] as int;
        let first = tool.start_ms as i128;
        let last = tool.end_ms as i128;
        let ghost before = end;
        if first <= ms && ms < last {
            if last > end {
                end = last;
            }
            proof {
                assert forall|t: int| ms <= t < end implies #[trigger] runs_tool(tools@, session, t) by {
                    if t >= before {
                        assert(spans(tools@[at], session, t));
                    }
                }
            }
        } else if first > ms && first < next {
            next = first;
        }
        k += 1;
    }
    if end > ms {
        let stop = if end < limit {
            end
        } else {
            limit
        };
        (true, stop)
    } else {
        proof {
            assert forall|t: int| ms <= t < next implies !(#[trigger] runs_tool(tools@, session, t)) by {
                if runs_tool(tools@, session, t) {
                    let i = choose|i: int| 0 <= i < tools@.len() && #[trigger] spans(tools@[i], session, t);
                    assert(tool_sessions(tools@)[i] == Some(session));
                    let j = listed@.index_of(i as usize);
                    assert(spans(tools@[listed@[j] as int], session, t));
                }
            }
        }
        (false, next)
    }
}

/// During how many of the `delay_ms` milliseconds from `from` on a tool of a session runs.
pub(crate) fn measure_tools(
    tools: &Vec<ToolEntry>,
    groups: &TextGroups,
    session: &str,
    from: i64,
    delay_ms: u64,
) -> (result: u64)
    requires
        forall|name: Seq<char>| #[trigger]
            groups.under(name) == places(tool_sessions(tools@), name, tools@.len()),
    ensures
        result == tool_time(tools@, session@, from as int, delay_ms as nat),
        result <= delay_ms,
{
    let none: Vec<usize> = Vec::new();
    let listed = match groups.get(session) {
        Some(listed) => listed,
        None => &none,
    };
    assert(listed@ =~= places(tool_sessions(tools@), session@, tools@.len()));
    let limit = from as i128 + delay_ms as i128;
    let mut ms = from as i128;
    let mut total: u64 = 0;
    while ms < limit
        invariant
            from <= ms <= limit,
            limit == from + delay_ms,
            listed@ == places(tool_sessions(tools@), session@, tools@.len()),
            total == tool_time(tools@, session@, from as int, (ms - from) as nat),
            total <= ms - from,
        decreases limit - ms,
    {
        let (running, stop) = reach(tools, listed, Ghost(session@), ms, limit);
        proof {
            lemma_tool_time_step(
                tools@,
                session@,
                from as int,
                (ms - from) as nat,
                (stop - ms) as nat,
                running,
            );
        }
        if running {
            total = total + (stop - ms) as u64;
        }
        ms = stop;
    }
    total
}

} // verus!
