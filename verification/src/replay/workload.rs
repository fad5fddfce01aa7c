//! Workloads: graphs of requests that the causal scheduler can run.

use crate::contracts::TraceRequest;
use crate::replay::options::ReplayOptions;
use crate::replay::request::{prepare_request, preparation, PreparedRequest, PreparedView, RequestExecution};
use crate::scenario::model::{GeneratedCompactionAttempt, GeneratedScenario};
use crate::token_shape::dictionary::TokenDictionary;
use crate::token_shape::error::TokenError;
use crate::trace::agentic::AgenticTrace;
use vstd::prelude::*;

verus! {

/// A graph of requests with what each one waits for.
pub trait CausalWorkload: Sized {
    /// How many requests there are.
    spec fn count(&self) -> nat;

    /// The requests that must complete first.
    spec fn waits_for(&self, i: int) -> Seq<usize>;

    /// When a request that waits for nothing arrives, in milliseconds.
    spec fn arrival(&self, i: int) -> Option<u64>;

    /// How long a request stays behind its latest dependency, in milliseconds.
    spec fn delay(&self, i: int) -> u64;

    /// The request as it is sent.
    spec fn plan(&self, i: int) -> Result<PreparedView, TokenError>;

    /// What messages call the workload.
    spec fn label(&self) -> Seq<char>;

    fn node_count(&self) -> (count: usize)
        ensures
            count == self.count(),
    ;

    fn dependencies(&self, ordinal: usize) -> (dependencies: &Vec<usize>)
        requires
            ordinal < self.count(),
        ensures
            dependencies@ == self.waits_for(ordinal as int),
    ;

    fn initial_arrival_ms(&self, ordinal: usize) -> (arrival: Option<u64>)
        requires
            ordinal < self.count(),
        ensures
            arrival == self.arrival(ordinal as int),
    ;

    fn delay_after_dependencies_ms(&self, ordinal: usize) -> (delay: u64)
        requires
            ordinal < self.count(),
        ensures
            delay == self.delay(ordinal as int),
    ;

    fn prepare(&self, ordinal: usize) -> (result: Result<PreparedRequest, TokenError>)
        requires
            ordinal < self.count(),
        ensures
            match result {
                Ok(prepared) => self.plan(ordinal as int) == Ok::<PreparedView, TokenError>(prepared@),
                Err(error) => self.plan(ordinal as int) == Err::<PreparedView, TokenError>(error),
            },
    ;

    fn name(&self) -> (name: &'static str)
        ensures
            name@ == self.label(),
    ;
}

/// A captured trace, lowered to its causal graph.
pub struct CapturedWorkload<'a> {
    pub trace: &'a AgenticTrace,
    pub dictionary: &'a TokenDictionary,
    pub run_id: &'a str,
    pub options: &'a ReplayOptions,
}

/// Captured requests are held to the output length that was recorded.
pub open spec fn captured_execution(request: TraceRequest) -> RequestExecution {
    RequestExecution { output_budget_tokens: Some(request.output_tokens), compaction_attempt: None }
}

impl<'a> CausalWorkload for CapturedWorkload<'a> {
    open spec fn count(&self) -> nat {
        self.trace.turns@.len()
    }

    open spec fn waits_for(&self, i: int) -> Seq<usize> {
        self.trace.turns@[i].dependencies@
    }

    open spec fn arrival(&self, i: int) -> Option<u64> {
        self.trace.turns@[i].root_arrival_ms
    }

    open spec fn delay(&self, i: int) -> u64 {
        self.trace.turns@[i].delay_after_dependencies_ms
    }

    open spec fn plan(&self, i: int) -> Result<PreparedView, TokenError> {
        let request = self.trace.turns@[i].request;
        preparation(self.run_id@, *self.options, *self.dictionary, request, captured_execution(request))
    }

    open spec fn label(&self) -> Seq<char> {
        "captured agentic replay"@
    }

    fn node_count(&self) -> (count: usize) {
        self.trace.turns.len()
    }

    fn dependencies(&self, ordinal: usize) -> (dependencies: &Vec<usize>) {
        &self.trace.turns[ordinal].dependencies
    }

    fn initial_arrival_ms(&self, ordinal: usize) -> (arrival: Option<u64>) {
        self.trace.turns[ordinal].root_arrival_ms
    }

    fn delay_after_dependencies_ms(&self, ordinal: usize) -> (delay: u64) {
        self.trace.turns[ordinal].delay_after_dependencies_ms
    }

    fn prepare(&self, ordinal: usize) -> (result: Result<PreparedRequest, TokenError>) {
        let turn = &self.trace.turns[ordinal];
        let execution = RequestExecution {
            output_budget_tokens: Some(turn.request.output_tokens),
            compaction_attempt: None,
        };
        prepare_request(self.run_id, self.options, self.dictionary, turn.request.clone(), execution)
    }

    fn name(&self) -> (name: &'static str) {
        "captured agentic replay"
    }
}

/// A generated scenario.
pub struct GeneratedWorkload<'a> {
    pub scenario: &'a GeneratedScenario,
    pub dictionary: &'a TokenDictionary,
    pub run_id: &'a str,
    pub options: &'a ReplayOptions,
}

fn clone_attempt(attempt: &Option<GeneratedCompactionAttempt>) -> (copy: Option<GeneratedCompactionAttempt>)
    ensures
        copy == *attempt,
{
    match attempt {
        Some(attempt) => Some(
            GeneratedCompactionAttempt {
                operation_id: attempt.operation_id.clone(),
                phase: attempt.phase.clone(),
                attempt: attempt.attempt,
                expected_effect: attempt.expected_effect,
                abort_after_ms: attempt.abort_after_ms,
            },
        ),
        None => None,
    }
}

impl<'a> CausalWorkload for GeneratedWorkload<'a> {
    open spec fn count(&self) -> nat {
        self.scenario.nodes@.len()
    }

    open spec fn waits_for(&self, i: int) -> Seq<usize> {
        self.scenario.nodes@[i].dependencies@
    }

    open spec fn arrival(&self, i: int) -> Option<u64> {
        self.scenario.nodes@[i].initial_arrival_ms
    }

    open spec fn delay(&self, i: int) -> u64 {
        self.scenario.nodes@[i].delay_after_dependencies_ms
    }

    open spec fn plan(&self, i: int) -> Result<PreparedView, TokenError> {
        let node = self.scenario.nodes@[i];
        preparation(
            self.run_id@,
            *self.options,
            *self.dictionary,
            node.request,
            RequestExecution {
                output_budget_tokens: node.output_budget_tokens,
                compaction_attempt: node.compaction_attempt,
            },
        )
    }

    open spec fn label(&self) -> Seq<char> {
        "generated scenario"@
    }

    fn node_count(&self) -> (count: usize) {
        self.scenario.nodes.len()
    }

    fn dependencies(&self, ordinal: usize) -> (dependencies: &Vec<usize>) {
        &self.scenario.nodes[ordinal].dependencies
    }

    fn initial_arrival_ms(&self, ordinal: usize) -> (arrival: Option<u64>) {
        self.scenario.nodes[ordinal].initial_arrival_ms
    }

    fn delay_after_dependencies_ms(&self, ordinal: usize) -> (delay: u64) {
        self.scenario.nodes[ordinal].delay_after_dependencies_ms
    }

    fn prepare(&self, ordinal: usize) -> (result: Result<PreparedRequest, TokenError>) {
        let node = &self.scenario.nodes[ordinal];
        let execution = RequestExecution {
            output_budget_tokens: node.output_budget_tokens,
            compaction_attempt: clone_attempt(&node.compaction_attempt),
        };
        prepare_request(self.run_id, self.options, self.dictionary, node.request.clone(), execution)
    }

    fn name(&self) -> (name: &'static str) {
        "generated scenario"
    }
}

} // verus!
