//! Generating a scenario from a configuration.

use crate::contracts::TraceManifest;
use crate::digest::{hex_digest, hex_of, sha256};
use crate::scenario::config::GENERATOR_SCHEMA_VERSION;
use crate::scenario::config::ResolvedGeneratorConfig;
use crate::scenario::model::{
    node_views, operation_views, session_views, GeneratedNode, GeneratedScenario, GeneratedSessionTopology,
    NodeView,
};
use crate::scenario::outline::{planned, Env, Plan, PlanError, SamplingTables};
use crate::scenario::plan::Builder;
use crate::scenario::source::{
    extends, normals_of, seeded_draws, Draws, LogNormalSampler, LogNormals, SampleSource, Seeded,
};
use crate::scenario::tool_parallelism::{parallelism, summarize_tool_parallelism};
use crate::trace::load::lemma_push_to_set;
use std::collections::HashSet;
use vstd::prelude::*;

verus! {

/// The sum of the input and output lengths of the first `n` nodes.
pub open spec fn plan_totals(nodes: Seq<NodeView>, n: nat) -> (nat, nat)
    decreases n,
{
    if n == 0 {
        (0, 0)
    } else {
        let (input, output) = plan_totals(nodes, (n - 1) as nat);
        (input + nodes[n - 1].request.input_tokens as nat, output + nodes[n - 1].request.output_tokens as nat)
    }
}

/// The hashes in the first `n` nodes.
pub open spec fn plan_hashes(nodes: Seq<NodeView>, n: nat) -> Set<u64>
    decreases n,
{
    if n == 0 {
        Set::empty()
    } else {
        plan_hashes(nodes, (n - 1) as nat).union(nodes[n - 1].request.input_sequence_hashes.to_set())
    }
}

/// The latest initial arrival among the first `n` nodes, or zero.
pub open spec fn last_arrival(nodes: Seq<NodeView>, n: nat) -> u64
    decreases n,
{
    if n == 0 {
        0
    } else {
        let earlier = last_arrival(nodes, (n - 1) as nat);
        match nodes[n - 1].initial_arrival_ms {
            Some(arrival) => if arrival > earlier {
                arrival
            } else {
                earlier
            },
            None => earlier,
        }
    }
}

/// Why a plan has no totals.
pub open spec fn totals_failure(nodes: Seq<NodeView>) -> Option<PlanError> {
    if nodes.len() == 0 {
        Some(PlanError::NoRequests)
    } else if plan_totals(nodes, nodes.len()).0 > u64::MAX {
        Some(PlanError::InputTotalOverflow)
    } else if plan_totals(nodes, nodes.len()).1 > u64::MAX {
        Some(PlanError::OutputTotalOverflow)
    } else {
        None
    }
}

/// `manifest` totals a plan.
pub open spec fn is_plan_manifest(manifest: TraceManifest, p: Plan, block_size: usize, digest: Seq<char>) -> bool {
    let n = p.nodes.len();
    &&& manifest.request_count == n
    &&& manifest.session_count == p.sessions.len()
    &&& manifest.requests_with_agent_context == n
    &&& manifest.first_request_received_ms == 0
    &&& manifest.last_request_received_ms == last_arrival(p.nodes, n)
    &&& manifest.duration_ms == last_arrival(p.nodes, n)
    &&& (manifest.input_tokens as nat, manifest.output_tokens as nat) == plan_totals(p.nodes, n)
    &&& manifest.distinct_sequence_hashes == plan_hashes(p.nodes, n).len()
    &&& manifest.trace_block_size == block_size
    &&& manifest.source_digest_sha256@ == digest
}

/// Why the sampled numbers `d` give no scenario.
pub open spec fn scenario_failure(d: Draws, e: Env) -> Option<PlanError> {
    match planned(d, e) {
        Err(error) => Some(error),
        Ok(p) => match totals_failure(p.nodes) {
            Some(error) => Some(error),
            None => match parallelism(p.nodes, p.nodes.len()) {
                Err(error) => Some(error),
                Ok(_) => None,
            },
        },
    }
}

impl GeneratedScenario {
    /// The plan that the scenario holds, less the state of its making.
    pub open spec fn holds(self, p: Plan) -> bool {
        &&& session_views(self.sessions@) == p.sessions
        &&& node_views(self.nodes@) == p.nodes
        &&& operation_views(self.compaction_operations@) == p.operations
    }
}

/// `scenario` is the one that the plan `p` of a profile, given as bytes, makes; its own digest
/// is still open.
pub open spec fn is_scenario(scenario: GeneratedScenario, p: Plan, e: Env, profile: Seq<u8>) -> bool {
    &&& scenario.schema_version == GENERATOR_SCHEMA_VERSION
    &&& scenario.profile_digest_sha256@ == hex_of(sha256(profile))
    &&& scenario.scenario_digest_sha256@ == Seq::<char>::empty()
    &&& scenario.config == e.config
    &&& scenario.holds(p)
    &&& scenario.session_topology == GeneratedSessionTopology {
        configured_top_level_sessions: e.config.num_sessions,
        configured_concurrent_sessions: e.config.concurrent_sessions,
        generated_subagent_sessions: (if p.sessions.len() > e.config.num_sessions {
            p.sessions.len() - e.config.num_sessions
        } else {
            0
        }) as usize,
    }
    &&& parallelism(p.nodes, p.nodes.len()) == Ok::<_, PlanError>(scenario.tool_parallelism)
    &&& is_plan_manifest(
        scenario.trace_manifest,
        p,
        e.config.block_size,
        scenario.profile_digest_sha256@,
    )
}

proof fn lemma_totals_grow(nodes: Seq<NodeView>, n: nat, m: nat)
    requires
        n <= m,
    ensures
        plan_totals(nodes, n).0 <= plan_totals(nodes, m).0,
        plan_totals(nodes, n).1 <= plan_totals(nodes, m).1,
    decreases m,
{
    if n < m {
        lemma_totals_grow(nodes, n, (m - 1) as nat);
    }
}

fn trace_manifest(
    nodes: &Vec<GeneratedNode>,
    session_count: usize,
    block_size: usize,
    digest: String,
) -> (result: Result<TraceManifest, PlanError>)
    ensures
        match result {
            Ok(manifest) => {
                &&& totals_failure(node_views(nodes@)) is None
                &&& forall|p: Plan|
                    #![trigger is_plan_manifest(manifest, p, block_size, digest@)]
                    p.nodes == node_views(nodes@) && p.sessions.len() == session_count ==> is_plan_manifest(
                        manifest,
                        p,
                        block_size,
                        digest@,
                    )
            },
            Err(error) => totals_failure(node_views(nodes@)) == Some(error),
        },
{
    let ghost views = node_views(nodes@);
    let ghost total = nodes@.len();
    if nodes.len() == 0 {
        return Err(PlanError::NoRequests);
    }
    let mut hashes: HashSet<u64> = HashSet::new();
    let mut input_tokens: u64 = 0;
    let mut output_tokens: u64 = 0;
    let mut output_fits = true;
    let mut last: u64 = 0;
    let mut i: usize = 0;
    while i < nodes.len()
        invariant
            i <= nodes@.len(),
            total == nodes@.len(),
            total > 0,
            views == node_views(nodes@),
            input_tokens == plan_totals(views, i as nat).0,
            output_fits ==> output_tokens == plan_totals(views, i as nat).1,
            !output_fits ==> plan_totals(views, i as nat).1 > u64::MAX,
            last == last_arrival(views, i as nat),
            hashes@ == plan_hashes(views, i as nat),
        decreases nodes@.len() - i,
    {
        let node = &nodes[i];
        assert(views[i as int] == node@);
        input_tokens = match input_tokens.checked_add(node.request.input_tokens as u64) {
            Some(sum) => sum,
            None => {
                proof {
                    lemma_totals_grow(views, i as nat + 1, total);
                }
                return Err(PlanError::InputTotalOverflow);
            },
        };
        if output_fits {
            match output_tokens.checked_add(node.request.output_tokens as u64) {
                Some(sum) => {
                    output_tokens = sum;
                },
                None => {
                    output_fits = false;
                },
            }
        }
        if let Some(arrival) = node.initial_arrival_ms {
            if arrival > last {
                last = arrival;
            }
        }
        let list = &node.request.input_sequence_hashes;
        let mut k: usize = 0;
        let ghost past = plan_hashes(views, i as nat);
        assert(list@.take(0) =~= Seq::empty());
        assert(hashes@ =~= past.union(list@.take(0).to_set()));
        while k < list.len()
            invariant
                k <= list@.len(),
                hashes@ == past.union(list@.take(k as int).to_set()),
            decreases list@.len() - k,
        {
            hashes.insert(list[k]);
            proof {
                assert(list@.take(k + 1) =~= list@.take(k as int).push(list@[k as int]));
                lemma_push_to_set(list@.take(k as int), list@[k as int]);
                assert(hashes@ =~= past.union(list@.take(k + 1).to_set()));
            }
            k += 1;
        }
        assert(list@.take(k as int) =~= list@);
        i += 1;
    }
    if !output_fits {
        return Err(PlanError::OutputTotalOverflow);
    }
    Ok(
        TraceManifest {
            request_count: nodes.len(),
            session_count,
            requests_with_agent_context: nodes.len(),
            first_request_received_ms: 0,
            last_request_received_ms: last,
            duration_ms: last,
            input_tokens,
            output_tokens,
            distinct_sequence_hashes: hashes.len(),
            trace_block_size: block_size,
            source_digest_sha256: digest,
        },
    )
}

/// Plans a scenario with numbers from `source`, which is handed back. `profile` holds the bytes
/// that stand for the configuration in its digest.
pub fn generate_from<S: SampleSource>(
    config: ResolvedGeneratorConfig,
    tables: SamplingTables,
    profile: &[u8],
    source: S,
) -> (result: (Result<GeneratedScenario, PlanError>, S))
    requires
        source.valid(),
        source.drawn().is_blank(),
    ensures
        result.1.valid(),
        forall|d: Draws| #[trigger] extends(d, result.1.drawn()) ==> extends(d, source.drawn()),
        match result.0 {
            Ok(scenario) => {
                &&& config.failure(tables.sums) is None
                &&& forall|d: Draws| #[trigger]
                    extends(d, result.1.drawn()) ==> {
                        &&& scenario_failure(d, (Env { config, tables })) is None
                        &&& is_scenario(
                            scenario,
                            planned(d, (Env { config, tables }))->Ok_0,
                            (Env { config, tables }),
                            profile@,
                        )
                    }
            },
            Err(error) => match config.failure(tables.sums) {
                Some(cause) => error == (PlanError::Config { error: cause }),
                None => forall|d: Draws| #[trigger]
                    extends(d, result.1.drawn()) ==> scenario_failure(d, (Env { config, tables })) == Some(error),
            },
        },
{
    if let Err(error) = config.validate(&tables.sums) {
        return (Err(PlanError::Config { error }), source);
    }
    proof {
        config.law_valid_is_ready(tables.sums);
    }
    let env = Env { config, tables };
    let mut builder = Builder::new(source);
    if let Err(error) = builder.start(&env.config) {
        return (Err(error), builder.into_source());
    }
    if let Err(error) = builder.generate_streams(&env) {
        return (Err(error), builder.into_source());
    }
    let ghost p = builder.plan();
    let (source, sessions, nodes, compaction_operations) = builder.into_parts();
    let profile_digest_sha256 = hex_digest(profile);
    let trace_manifest = match trace_manifest(
        &nodes,
        sessions.len(),
        env.config.block_size,
        profile_digest_sha256.clone(),
    ) {
        Ok(manifest) => manifest,
        Err(error) => {
            return (Err(error), source);
        },
    };
    let tool_parallelism = match summarize_tool_parallelism(&nodes) {
        Ok(summary) => summary,
        Err(error) => {
            return (Err(error), source);
        },
    };
    let session_topology = GeneratedSessionTopology {
        configured_top_level_sessions: env.config.num_sessions,
        configured_concurrent_sessions: env.config.concurrent_sessions,
        generated_subagent_sessions: sessions.len().saturating_sub(env.config.num_sessions),
    };
    proof {
        assert(is_plan_manifest(trace_manifest, p, env.config.block_size, profile_digest_sha256@));
    }
    let scenario = GeneratedScenario {
        schema_version: GENERATOR_SCHEMA_VERSION,
        profile_digest_sha256,
        scenario_digest_sha256: String::new(),
        config: env.config,
        session_topology,
        sessions,
        nodes,
        tool_parallelism,
        compaction_operations,
        trace_manifest,
    };
    proof {
        assert(scenario.scenario_digest_sha256@ =~= Seq::<char>::empty());
        assert(is_scenario(scenario, p, (Env { config, tables }), profile@));
    }
    (Ok(scenario), source)
}

/// `sealed` is `scenario` with its own digest, over the bytes that stand for it.
pub open spec fn is_sealed(sealed: GeneratedScenario, scenario: GeneratedScenario, bytes: Seq<u8>) -> bool {
    &&& sealed.scenario_digest_sha256@ == hex_of(sha256(bytes))
    &&& sealed == (GeneratedScenario { scenario_digest_sha256: sealed.scenario_digest_sha256, ..scenario })
}

/// What a configuration, its tables, a profile and a way of making log-normal numbers give: the
/// scenario that is planned with the numbers of the configuration's seed, or the first thing that
/// is wrong.
pub open spec fn is_generated(
    result: Result<GeneratedScenario, PlanError>,
    e: Env,
    profile: Seq<u8>,
    normals: LogNormals,
) -> bool {
    let d = seeded_draws(e.config.seed, normals);
    match result {
        Ok(scenario) => {
            &&& e.config.failure(e.tables.sums) is None
            &&& scenario_failure(d, e) is None
            &&& is_scenario(scenario, planned(d, e)->Ok_0, e, profile)
        },
        Err(error) => match e.config.failure(e.tables.sums) {
            Some(cause) => error == (PlanError::Config { error: cause }),
            None => scenario_failure(d, e) == Some(error),
        },
    }
}

impl GeneratedScenario {
    /// Plans a scenario with numbers from a generator that starts at the configuration's seed.
    pub fn generate<L: LogNormalSampler>(
        config: ResolvedGeneratorConfig,
        tables: SamplingTables,
        profile: &[u8],
        sampler: L,
    ) -> (result: Result<GeneratedScenario, PlanError>)
        ensures
            is_generated(result, (Env { config, tables }), profile@, normals_of(sampler)),
    {
        let source = Seeded::new(config.seed, sampler);
        let ghost start = source.drawn();
        let (result, source) = generate_from(config, tables, profile, source);
        proof {
            source.law_seed_gives_the_numbers();
            let d = seeded_draws(source.drawn().origin.seed, source.drawn().origin.normals);
            assert(extends(d, start));
            assert(d.origin == start.origin) by {
                reveal(extends);
            }
        }
        result
    }

    /// Puts in the scenario's own digest, over the bytes that stand for it.
    pub fn seal(self, bytes: &[u8]) -> (sealed: GeneratedScenario)
        ensures
            is_sealed(sealed, self, bytes@),
    {
        let mut sealed = self;
        sealed.scenario_digest_sha256 = hex_digest(bytes);
        sealed
    }
}

} // verus!
