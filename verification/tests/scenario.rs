//! Profiles, plans and their graphs.

use agent_loadgen::agent::AgentKind;
use agent_loadgen::contracts::{AgentContext, TraceRequest};
use agent_loadgen::digest::hex_digest;
use agent_loadgen::double::Real;
use agent_loadgen::replay::causal::{CausalScheduler, CausalStep, ScaledOffsets};
use agent_loadgen::replay::options::{HttpTransport, ReplayOptions};
use agent_loadgen::replay::workload::{CausalWorkload, GeneratedWorkload};
use agent_loadgen::scenario::config::{
    BehaviorOverrides, CompactionOverrides, ConfigError, ConfigSums, GeneratorConfig, LimitOverrides, LoadOverrides,
    ResolvedGeneratorConfig, SubagentOverrides, TokenOverrides, ToolClass, ToolOverrides, TrajectoryOverrides,
};
use agent_loadgen::scenario::distribution::UIntDistribution;
use agent_loadgen::scenario::generate::generate_from;
use agent_loadgen::scenario::graph::{
    action_color, dot_escape, edge_label, node_attributes, render_plan_dot, session_cluster_id, sessions_nest,
    write_blocking_join, GraphError,
};
use agent_loadgen::scenario::model::{
    CompactionExpectedEffect, GeneratedNode, GeneratedScenario, GeneratedSession, GeneratedToolEvent,
};
use agent_loadgen::scenario::outline::{PlanError, SamplingTables};
use agent_loadgen::scenario::source::{LogNormalSampler, SampleSource, Script, Seeded};
use agent_loadgen::scenario::tool_parallelism::summarize_tool_parallelism;
use agent_loadgen::text_map::TextMap;
use agent_loadgen::token_shape::alphabet::SafeTokenAlphabet;
use agent_loadgen::token_shape::dictionary::TokenDictionary;
use rand::rngs::StdRng;
use rand_distr::{Distribution, LogNormal};

fn double(value: f64) -> Real {
    Real { bits: value.to_bits() }
}

fn float(value: Real) -> f64 {
    f64::from_bits(value.bits)
}

fn sums(config: &ResolvedGeneratorConfig) -> ConfigSums {
    let with_parallel = float(config.tool_probability) + float(config.parallel_tool_probability);
    let with_subagent = with_parallel + float(config.subagent_probability);
    let with_swarm = with_subagent + float(config.swarm_probability);
    let with_completion = with_swarm + float(config.completion_probability);
    let mut tool_weight = 0.0;
    for class in &config.tool_classes {
        tool_weight += float(class.weight);
    }
    ConfigSums {
        with_parallel: double(with_parallel),
        with_subagent: double(with_subagent),
        with_swarm: double(with_swarm),
        with_completion: double(with_completion),
        leaf_completion: double(with_parallel + float(config.completion_probability)),
        tool_weight: double(tool_weight),
    }
}

fn picked(config: &ResolvedGeneratorConfig, total: f64, draw: u64) -> usize {
    let mut value = draw as f64 * (1.0 / (1u64 << 53) as f64) * total;
    for (index, class) in config.tool_classes.iter().enumerate() {
        if value < float(class.weight) {
            return index;
        }
        value -= float(class.weight);
    }
    config.tool_classes.len() - 1
}

fn tables(config: &ResolvedGeneratorConfig) -> SamplingTables {
    let sums = sums(config);
    let total = float(sums.tool_weight);
    let mut tool_draws = Vec::new();
    for index in 0..config.tool_classes.len() {
        let mut low: u64 = 0;
        let mut high: u64 = 1 << 53;
        while low < high {
            let middle = low + (high - low) / 2;
            if picked(config, total, middle) <= index {
                low = middle + 1;
            } else {
                high = middle;
            }
        }
        tool_draws.push(low);
    }
    SamplingTables {
        sums,
        tool_draws,
        compaction_trigger_tokens: (config.context_window_tokens as f64 * float(config.compaction_trigger_fraction))
            as usize,
    }
}

struct Rounded;

impl LogNormalSampler for Rounded {
    fn sample(&mut self, rng: &mut StdRng, median: Real, sigma: Real) -> u64 {
        LogNormal::new(float(median).ln(), float(sigma)).unwrap().sample(rng).round() as u64
    }
}

fn generate(config: ResolvedGeneratorConfig) -> Result<GeneratedScenario, PlanError> {
    let tables = tables(&config);
    let profile = format!("{:?}", config);
    let scenario = GeneratedScenario::generate(config, tables, profile.as_bytes(), Rounded)?;
    let bytes = format!("{:?}{:?}{:?}", scenario.sessions, scenario.nodes, scenario.compaction_operations);
    Ok(scenario.seal(bytes.as_bytes()))
}

fn config(agent: AgentKind) -> ResolvedGeneratorConfig {
    let mut config = ResolvedGeneratorConfig::preset(agent, 42);
    config.num_sessions = 3;
    config.concurrent_sessions = 3;
    config.turns = UIntDistribution::fixed(4);
    config.subagent_turns = UIntDistribution::fixed(2);
    config.system_prefix_tokens = UIntDistribution::fixed(64);
    config.tool_catalog_tokens = UIntDistribution::fixed(64);
    config.repository_tokens = UIntDistribution::fixed(32);
    config.session_tokens = UIntDistribution::fixed(16);
    config.user_tokens = UIntDistribution::fixed(16);
    config.output_tokens = UIntDistribution::fixed(8);
    config.context_window_tokens = 512;
    config.compaction_trigger_fraction = double(0.75);
    config.max_nodes = 500;
    config.max_sessions = 100;
    config.max_total_input_tokens = 1_000_000;
    config
}

fn profile(schema_version: u32) -> GeneratorConfig {
    GeneratorConfig {
        schema_version,
        agent: AgentKind::Codex,
        seed: 0,
        load: LoadOverrides::default(),
        trajectory: TrajectoryOverrides::default(),
        tokens: TokenOverrides::default(),
        behavior: BehaviorOverrides::default(),
        compaction: CompactionOverrides::default(),
        subagents: SubagentOverrides::default(),
        tools: ToolOverrides::default(),
        limits: LimitOverrides::default(),
    }
}

fn resolve(profile: GeneratorConfig) -> Result<ResolvedGeneratorConfig, ConfigError> {
    let merged = profile.clone().merge()?;
    let sums = sums(&merged);
    profile.resolve(&sums)
}

// -- plans ------------------------------------------------------------------------------------

#[test]
fn generation_is_seed_deterministic() {
    let first = generate(config(AgentKind::Codex)).unwrap();
    let second = generate(config(AgentKind::Codex)).unwrap();
    assert_eq!(first.scenario_digest_sha256, second.scenario_digest_sha256);
    assert_eq!(first.nodes.len(), second.nodes.len());
}

#[test]
fn another_seed_gives_another_plan() {
    let first = generate(config(AgentKind::Codex)).unwrap();
    let mut other = config(AgentKind::Codex);
    other.seed = 43;
    let second = generate(other).unwrap();
    assert_ne!(first.scenario_digest_sha256, second.scenario_digest_sha256);
    assert_eq!(first.scenario_digest_sha256.len(), 64);
    assert_ne!(first.profile_digest_sha256, second.profile_digest_sha256);
}

#[test]
fn graph_dependencies_only_point_backward() {
    let scenario = generate(config(AgentKind::ClaudeCode)).unwrap();
    assert!(scenario.nodes.iter().enumerate().all(|(ordinal, node)| {
        node.dependencies.iter().all(|dependency| *dependency < ordinal)
    }));
    assert!(scenario.nodes.iter().any(|node| node.action == "tool"));
    assert!(scenario
        .nodes
        .iter()
        .filter(|node| node.action == "tool")
        .all(|node| !node.tool_events.is_empty()));
}

#[test]
fn profile_preserves_global_prefix_sharing() {
    let scenario = generate(config(AgentKind::Opencode)).unwrap();
    let roots = scenario.nodes.iter().filter(|node| node.initial_arrival_ms.is_some()).collect::<Vec<_>>();
    assert_eq!(roots.len(), 3);
    assert_eq!(&roots[0].request.input_sequence_hashes[..8], &roots[1].request.input_sequence_hashes[..8]);
}

#[test]
fn compaction_rewrites_a_window_and_emits_metadata() {
    let mut config = config(AgentKind::Codex);
    config.num_sessions = 1;
    config.concurrent_sessions = 1;
    config.context_window_tokens = 160;
    config.compaction_trigger_fraction = double(0.75);
    let scenario = generate(config).unwrap();
    let compactions =
        scenario.nodes.iter().filter(|node| node.action == "compaction_attempt").collect::<Vec<_>>();
    assert!(!compactions.is_empty());
    assert_eq!(scenario.compaction_operations.len(), compactions.len());
    assert!(compactions.iter().all(|node| {
        node.request.agent_context.as_ref().and_then(|context| context.compaction.as_ref()).is_some()
    }));
    assert!(scenario.nodes.iter().any(|node| node.window_epoch > 0));
}

#[test]
fn compaction_attempts_share_identity_and_apply_once() {
    let mut config = config(AgentKind::Codex);
    config.num_sessions = 1;
    config.concurrent_sessions = 1;
    config.context_window_tokens = 160;
    config.compaction_trigger_fraction = double(0.75);
    config.compaction_abort_probability = double(1.0);
    config.compaction_retry_probability = double(1.0);
    config.compaction_max_attempts = 3;

    let scenario = generate(config).unwrap();
    let operation = scenario.compaction_operations.first().unwrap();
    assert_eq!(operation.attempts.len(), 3);
    assert_eq!(operation.applied_attempt, 2);
    assert_eq!(operation.expected_apply_count, 1);

    let attempts = operation.attempts.iter().map(|ordinal| &scenario.nodes[*ordinal]).collect::<Vec<_>>();
    assert_eq!(
        attempts
            .iter()
            .map(|node| node.compaction_attempt.as_ref().unwrap().expected_effect)
            .collect::<Vec<_>>(),
        vec![
            CompactionExpectedEffect::NoMutationAborted,
            CompactionExpectedEffect::ApplyOnce,
            CompactionExpectedEffect::DuplicateNoop,
        ]
    );
    assert!(attempts.iter().enumerate().all(|(index, node)| {
        let attempt = node.compaction_attempt.as_ref().unwrap();
        attempt.operation_id == operation.operation_id
            && attempt.phase == operation.phase
            && attempt.attempt == index + 1
            && node.output_budget_tokens.is_none()
    }));
}

#[test]
fn blocking_swarm_joins_all_children() {
    let mut config = config(AgentKind::ClaudeCode);
    config.num_sessions = 1;
    config.concurrent_sessions = 1;
    config.turns = UIntDistribution::fixed(2);
    config.subagent_turns = UIntDistribution::fixed(1);
    config.tool_probability = double(0.0);
    config.parallel_tool_probability = double(0.0);
    config.subagent_probability = double(0.0);
    config.swarm_probability = double(1.0);
    config.completion_probability = double(0.0);
    config.fanout = UIntDistribution::fixed(3);
    config.blocking_probability = double(1.0);
    config.compaction_enabled = false;
    let scenario = generate(config).unwrap();
    assert_eq!(scenario.sessions.len(), 4);
    let root_completion = scenario
        .nodes
        .iter()
        .find(|node| {
            node.action == "complete" && node.request.agent_context.as_ref().unwrap().parent_session_id.is_none()
        })
        .unwrap();
    assert_eq!(root_completion.dependencies.len(), 3);
    let swarm = scenario.nodes.iter().find(|node| node.action == "swarm").unwrap();
    assert_eq!(swarm.spawned_session_ids.len(), 3);
    assert!(scenario.sessions.iter().skip(1).all(|session| {
        session.parent_session_id.as_deref() == Some(scenario.sessions[0].session_id.as_str())
    }));
}

#[test]
fn closed_loop_slot_restarts_after_its_previous_root_completes() {
    let mut config = config(AgentKind::Codex);
    config.concurrent_sessions = 1;
    config.turns = UIntDistribution::fixed(1);
    config.tool_probability = double(0.0);
    config.parallel_tool_probability = double(0.0);
    config.subagent_probability = double(0.0);
    config.swarm_probability = double(0.0);
    config.completion_probability = double(0.0);
    config.compaction_enabled = false;
    config.restart_delay_ms = UIntDistribution::fixed(17);

    let scenario = generate(config).unwrap();
    assert_eq!(scenario.nodes.len(), 3);
    assert_eq!(scenario.nodes[0].initial_arrival_ms, Some(0));
    assert!(scenario.nodes[0].dependencies.is_empty());
    assert_eq!(scenario.nodes[1].initial_arrival_ms, None);
    assert_eq!(scenario.nodes[1].dependencies, vec![0]);
    assert_eq!(scenario.nodes[1].delay_after_dependencies_ms, 17);
    assert_eq!(scenario.nodes[2].dependencies, vec![1]);
    assert_eq!(scenario.nodes[2].delay_after_dependencies_ms, 17);
    assert!(scenario.sessions.iter().all(|session| session.top_level_stream_slot == 0));
}

#[test]
fn reports_call_and_time_weighted_tool_parallelism() {
    let mut config = config(AgentKind::Codex);
    config.num_sessions = 1;
    config.concurrent_sessions = 1;
    config.turns = UIntDistribution::fixed(2);
    config.tool_probability = double(0.0);
    config.parallel_tool_probability = double(1.0);
    config.subagent_probability = double(0.0);
    config.swarm_probability = double(0.0);
    config.completion_probability = double(0.0);
    config.compaction_enabled = false;
    config.parallel_count = UIntDistribution::fixed(3);
    for class in &mut config.tool_classes {
        class.latency_ms = UIntDistribution::fixed(10);
    }

    let scenario = generate(config).unwrap();
    let parallelism = scenario.tool_parallelism;
    assert_eq!(parallelism.tool_phases, 1);
    assert_eq!(parallelism.parallel_tool_phases, 1);
    assert_eq!(parallelism.tool_calls, 3);
    assert_eq!(parallelism.parallel_tool_calls, 3);
    assert_eq!(parallelism.parallel_tool_calls as f64 / parallelism.tool_calls as f64, 1.0);
    assert_eq!(parallelism.tool_work_ms, 30);
    assert_eq!(parallelism.tool_wall_ms, 10);
    assert_eq!(parallelism.parallel_wall_ms, 10);
    assert_eq!(parallelism.parallel_wall_ms as f64 / parallelism.tool_wall_ms as f64, 1.0);
    assert_eq!(parallelism.tool_work_ms as f64 / parallelism.tool_wall_ms as f64, 3.0);
}

#[test]
fn scripted_numbers_fix_the_scenario() {
    let first_config = config(AgentKind::Codex);
    let second_config = config(AgentKind::Codex);
    let first_tables = tables(&first_config);
    let second_tables = tables(&second_config);
    let (first, _) = generate_from(first_config, first_tables, b"profile", Script::new(vec![7, 9, 11]));
    let (second, _) = generate_from(second_config, second_tables, b"profile", Script::new(vec![7, 9, 11]));
    let first = first.unwrap();
    let second = second.unwrap();
    assert_eq!(format!("{:?}", first.nodes), format!("{:?}", second.nodes));
    assert_eq!(first.profile_digest_sha256, hex_digest(b"profile"));
}

#[test]
fn every_session_ends_with_a_completion() {
    for seed in 0..8 {
        let mut config = config(AgentKind::Codex);
        config.seed = seed;
        let scenario = generate(config).unwrap();
        for session in &scenario.sessions {
            let last = scenario
                .nodes
                .iter()
                .filter(|node| node.request.agent_context.as_ref().unwrap().session_id == session.session_id)
                .last()
                .unwrap();
            assert_eq!(last.action, "complete");
        }
    }
}

#[test]
fn plans_stay_within_their_limits() {
    let mut limited = config(AgentKind::Codex);
    limited.max_total_input_tokens = 1;
    assert_eq!(
        generate(limited).err().unwrap().message(),
        "generated scenario exceeds max_total_input_tokens (1)"
    );
    let mut invalid = config(AgentKind::Codex);
    invalid.num_sessions = 0;
    assert_eq!(generate(invalid).err().unwrap().message(), "num_sessions must be greater than zero");
    let mut late = config(AgentKind::Codex);
    late.startup_interval_ms = u64::MAX;
    assert_eq!(generate(late).err().unwrap().message(), "session startup timestamp overflow");
}

#[test]
fn seeded_sources_stay_in_range() {
    let mut source = Seeded::new(1, Rounded);
    for _ in 0..100 {
        let value = UIntDistribution::uniform(3, 5).sample(&mut source);
        assert!((3..=5).contains(&value));
        let value = UIntDistribution::log_normal(double(100.0), double(2.0), 90, 110).sample(&mut source);
        assert!((90..=110).contains(&value));
    }
    assert_eq!(UIntDistribution::fixed(9).sample(&mut source), 9);
    let mut again = Seeded::new(1, Rounded);
    let mut other = Seeded::new(2, Rounded);
    let mut once_more = Seeded::new(1, Rounded);
    let word = again.word();
    assert_eq!(word, once_more.word());
    assert_ne!(word, other.word());
    assert_ne!(word, again.word());
}

#[test]
fn scripts_give_their_numbers_and_then_zeros() {
    let mut script = Script::new(vec![8, 1]);
    assert_eq!(script.range(2, 5), 5);
    assert_eq!(script.range(2, 5), 2);
    assert_eq!(script.word(), 0);
}

#[test]
fn a_phase_waits_for_its_longest_tool() {
    let mut node = sample_node();
    node.tool_events = vec![tool_event(5), tool_event(12), tool_event(7)];
    let mut single = sample_node();
    single.tool_events = vec![tool_event(4)];
    let summary = summarize_tool_parallelism(&vec![node, single, sample_node()]).unwrap();
    assert_eq!(summary.tool_phases, 2);
    assert_eq!(summary.parallel_tool_phases, 1);
    assert_eq!(summary.tool_calls, 4);
    assert_eq!(summary.parallel_tool_calls, 3);
    assert_eq!(summary.tool_work_ms, 28);
    assert_eq!(summary.tool_wall_ms, 16);
    assert_eq!(summary.parallel_wall_ms, 7);
}

#[test]
fn tool_times_do_not_overflow() {
    let mut node = sample_node();
    node.tool_events = vec![tool_event(u64::MAX), tool_event(1)];
    assert_eq!(
        summarize_tool_parallelism(&vec![node]).unwrap_err().message(),
        "generated tool work time overflow"
    );
}

// -- profiles ---------------------------------------------------------------------------------

#[test]
fn rejects_trajectories_that_can_have_zero_turns() {
    let mut config = profile(3);
    config.trajectory.turns = Some(UIntDistribution::uniform(0, 2));
    assert!(resolve(config).is_err());
}

#[test]
fn zero_turns_are_named() {
    let mut config = profile(4);
    config.trajectory.turns = Some(UIntDistribution::uniform(0, 2));
    assert_eq!(resolve(config).unwrap_err().message(), "turns must always be greater than zero");
}

#[test]
fn other_schemas_are_refused() {
    assert_eq!(
        resolve(profile(3)).unwrap_err().message(),
        "unsupported generator schema version 3, expected 4"
    );
}

fn refusal(change: impl Fn(&mut ResolvedGeneratorConfig)) -> String {
    let mut config = ResolvedGeneratorConfig::preset(AgentKind::Codex, 7);
    change(&mut config);
    let sums = sums(&config);
    config.validate(&sums).unwrap_err().message()
}

#[test]
fn presets_are_valid() {
    for agent in [AgentKind::ClaudeCode, AgentKind::Codex, AgentKind::Opencode] {
        let config = ResolvedGeneratorConfig::preset(agent, 7);
        let sums = sums(&config);
        assert!(config.validate(&sums).is_ok());
        assert_eq!(config.seed, 7);
    }
}

#[test]
fn every_setting_is_checked() {
    assert_eq!(refusal(|config| config.concurrent_sessions = 0), "concurrent_sessions must be greater than zero");
    assert_eq!(
        refusal(|config| config.concurrent_sessions = config.num_sessions + 1),
        "concurrent_sessions must not exceed num_sessions"
    );
    assert_eq!(
        refusal(|config| config.max_sessions = 1),
        "generation limits cannot hold all configured top-level sessions"
    );
    assert_eq!(refusal(|config| config.block_size = 0), "token block size must be greater than zero");
    assert_eq!(
        refusal(|config| config.context_window_tokens = 1),
        "context window must be at least one token block"
    );
    assert_eq!(refusal(|config| config.max_total_input_tokens = 0), "generation limits must be greater than zero");
    assert_eq!(
        refusal(|config| config.turns = UIntDistribution::uniform(2, 1)),
        "turns uniform minimum exceeds its maximum"
    );
    assert_eq!(
        refusal(|config| config.turns = UIntDistribution::log_normal(double(0.0), double(1.0), 1, 2)),
        "turns log-normal median must be positive and finite"
    );
    assert_eq!(
        refusal(|config| config.turns = UIntDistribution::log_normal(double(1.0), double(f64::NAN), 1, 2)),
        "turns log-normal sigma must be positive and finite"
    );
    assert_eq!(
        refusal(|config| config.turns = UIntDistribution::log_normal(double(1.0), double(1.0), 2, 1)),
        "turns log-normal minimum exceeds its maximum"
    );
    assert_eq!(
        refusal(|config| config.output_tokens = UIntDistribution::uniform(1, 1 << 32)),
        "output tokens must fit u32"
    );
    assert_eq!(
        refusal(|config| config.tool_probability = double(1.5)),
        "tool_probability must be between zero and one"
    );
    assert_eq!(
        refusal(|config| config.compaction_max_attempts = 0),
        "compaction_max_attempts must be greater than zero"
    );
    assert_eq!(
        refusal(|config| {
            config.compaction_max_attempts = 1;
            config.compaction_retry_probability = double(0.5);
        }),
        "compaction_max_attempts must be at least two when retries are enabled"
    );
    assert_eq!(
        refusal(|config| {
            config.tool_probability = double(0.9);
            config.swarm_probability = double(0.9);
        }),
        "behavior action probabilities sum to more than one"
    );
    assert_eq!(
        refusal(|config| config.compaction_trigger_fraction = double(-0.5)),
        "compaction trigger fraction must be between zero and one"
    );
    assert_eq!(refusal(|config| config.tool_classes.clear()), "at least one tool class is required");
    assert_eq!(
        refusal(|config| config.tool_classes[0].name = " \t".to_string()),
        "tool class names must be non-empty and unique"
    );
    assert_eq!(
        refusal(|config| config.tool_classes[1].name = config.tool_classes[0].name.clone()),
        "tool class names must be non-empty and unique"
    );
    assert_eq!(
        refusal(|config| {
            config.tool_classes[0].name = "a\"b".to_string();
            config.tool_classes[0].weight = double(0.0);
        }),
        "tool class \"a\\\"b\" has an invalid weight"
    );
    assert_eq!(
        refusal(|config| {
            config.tool_classes[0].weight = double(f64::MAX);
            config.tool_classes[1].weight = double(f64::MAX);
        }),
        "tool class weights are invalid"
    );
}

#[test]
fn overrides_replace_the_preset() {
    let mut overridden = profile(4);
    overridden.seed = 9;
    overridden.load.num_sessions = Some(5);
    overridden.load.concurrent_sessions = Some(2);
    overridden.tokens.block_size = Some(32);
    overridden.behavior.tool_probability = Some(double(0.25));
    overridden.compaction.enabled = Some(false);
    overridden.tools.classes = Some(vec![ToolClass {
        name: "only".to_string(),
        weight: double(1.0),
        latency_ms: UIntDistribution::fixed(1),
        result_tokens: UIntDistribution::fixed(2),
        error_probability: double(0.0),
    }]);
    let resolved = resolve(overridden).unwrap();
    assert_eq!(resolved.seed, 9);
    assert_eq!(resolved.num_sessions, 5);
    assert_eq!(resolved.concurrent_sessions, 2);
    assert_eq!(resolved.block_size, 32);
    assert_eq!(resolved.tool_probability, double(0.25));
    assert!(!resolved.compaction_enabled);
    assert_eq!(resolved.tool_classes.len(), 1);
    let preset = ResolvedGeneratorConfig::preset(AgentKind::Codex, 9);
    assert_eq!(resolved.context_window_tokens, preset.context_window_tokens);
}

#[test]
fn draws_below_a_probability_follow_double_arithmetic() {
    for probability in [0.0, 0.1, 0.5, 0.54, 0.999, 1.0] {
        let bound = double(probability);
        for draw in [0u64, 1, 1 << 40, 1 << 52, (1 << 53) - 1] {
            let uniform = draw as f64 * (1.0 / (1u64 << 53) as f64);
            assert_eq!(bound.is_above_draw(draw << 11), uniform < probability);
        }
    }
    assert_eq!(double(0.5).count_draws_below(), 1 << 52);
    assert_eq!(double(1.0).count_draws_below(), 1 << 53);
}

// -- graphs -----------------------------------------------------------------------------------

fn swarm_config(blocking_probability: f64) -> ResolvedGeneratorConfig {
    let mut config = ResolvedGeneratorConfig::preset(AgentKind::Codex, 7);
    config.num_sessions = 1;
    config.concurrent_sessions = 1;
    config.turns = UIntDistribution::fixed(2);
    config.subagent_turns = UIntDistribution::fixed(1);
    config.tool_probability = double(0.0);
    config.parallel_tool_probability = double(0.0);
    config.subagent_probability = double(0.0);
    config.swarm_probability = double(1.0);
    config.completion_probability = double(0.0);
    config.fanout = UIntDistribution::fixed(2);
    config.blocking_probability = double(blocking_probability);
    config.compaction_enabled = false;
    config
}

fn draw(scenario: &GeneratedScenario) -> Result<String, GraphError> {
    assert!(sessions_nest(&scenario.sessions));
    render_plan_dot(scenario)
}

#[test]
fn every_plan_can_be_drawn() {
    for seed in 0..12 {
        for agent in [AgentKind::ClaudeCode, AgentKind::Codex, AgentKind::Opencode] {
            let mut config = config(agent);
            config.seed = seed;
            let scenario = generate(config).unwrap();
            let mut names: Vec<&String> = scenario.sessions.iter().map(|session| &session.session_id).collect();
            names.sort();
            names.dedup();
            assert_eq!(names.len(), scenario.sessions.len());
            assert!(draw(&scenario).unwrap().ends_with("}\n"));
        }
    }
}

#[test]
fn every_plan_runs_to_its_end() {
    let scenario = generate(swarm_config(1.0)).unwrap();
    let manifest = &scenario.trace_manifest;
    let alphabet = SafeTokenAlphabet::from_unverified_range(0, 1024, &[]).unwrap();
    let dictionary =
        TokenDictionary::new(manifest.trace_block_size, manifest.distinct_sequence_hashes, alphabet).unwrap();
    let options = ReplayOptions {
        agent: AgentKind::Codex,
        product: "product".to_string(),
        model: "test-model".to_string(),
        target: "http://localhost:8000".to_string(),
        output_dir: "out".to_string(),
        max_in_flight: 4,
        warmup_connections: 0,
        http_transport: HttpTransport::Auto,
        prepare_lookahead_ms: None,
        result_flush_interval: 1,
        max_dispatch_p99_ms: double(10.0),
        max_dispatch_max_ms: double(50.0),
        start_delay_ms: 0,
        timeout_ms: 1000,
        time_scale: double(1.0),
        token_path_verified: true,
        engine_cache_mode: TextMap::new(),
        static_headers: Vec::new(),
    };
    let workload =
        GeneratedWorkload { scenario: &scenario, dictionary: &dictionary, run_id: "run", options: &options };
    assert_eq!(workload.name(), "generated scenario");
    let offsets = ScaledOffsets {
        arrival_ns: scenario.nodes.iter().map(|node| node.initial_arrival_ms.map(|ms| ms * 1_000_000)).collect(),
        delay_ns: scenario.nodes.iter().map(|node| Some(node.delay_after_dependencies_ms * 1_000_000)).collect(),
    };
    let mut scheduler = CausalScheduler::start(&workload, offsets).unwrap();
    let mut now_ns: u64 = 0;
    let mut flying = Vec::new();
    let mut sent = 0;
    loop {
        match scheduler.next_step(now_ns) {
            CausalStep::Dispatch => {
                let due = scheduler.take_due(now_ns);
                sent += due.len();
                flying.extend(due.into_iter().map(|due| due.ordinal));
            }
            CausalStep::Sleep { until_ns } => now_ns = until_ns,
            CausalStep::SleepOrComplete { .. } | CausalStep::Complete => {
                now_ns += 1_000;
                scheduler.complete(flying.remove(0), now_ns).unwrap();
            }
            CausalStep::Finish => break,
        }
    }
    assert_eq!(sent, scenario.nodes.len());
    assert!(scheduler.finish().is_ok());
}

#[test]
fn graph_marks_spawn_and_blocking_join() {
    let scenario = generate(swarm_config(1.0)).unwrap();

    let dot = draw(&scenario).unwrap();
    assert!(dot.contains("subgraph cluster_tree_0"));
    assert!(dot.contains("subagent session"));
    assert!(dot.contains("label=\"spawn"));
    assert!(dot.contains("shape=diamond"));
    assert!(dot.contains("label=\"join all 2 children\""));
    assert!(dot.contains("label=\"join"));
    assert!(!dot.contains("label=\"blocking join +"));
}

#[test]
fn graph_marks_non_blocking_parent_continuation() {
    let scenario = generate(swarm_config(0.0)).unwrap();
    assert!(draw(&scenario).unwrap().contains("label=\"parent continues"));
}

#[test]
fn graph_marks_top_level_stream_restart() {
    let mut config = swarm_config(0.0);
    config.num_sessions = 2;
    config.turns = UIntDistribution::fixed(1);
    config.swarm_probability = double(0.0);
    let scenario = generate(config).unwrap();

    assert!(draw(&scenario).unwrap().contains("label=\"stream restart"));
}

#[test]
fn graph_escapes_dot_labels() {
    assert_eq!(dot_escape("line \"one\"\nline two"), "line \\\"one\\\"\\nline two");
}

#[test]
fn graph_requires_current_profile_schema() {
    let scenario = generate(resolve(profile(4)).unwrap()).unwrap();
    assert!(draw(&scenario).unwrap().contains("agent-loadgen generated plan"));
}

fn tool_event(latency_ms: u64) -> GeneratedToolEvent {
    GeneratedToolEvent { class: "shell".to_string(), latency_ms, result_tokens: 1, failed: false, retried: false }
}

fn sample_node() -> GeneratedNode {
    GeneratedNode {
        node_id: "node".to_string(),
        action: "parallel_tools".to_string(),
        dependencies: Vec::new(),
        delay_after_dependencies_ms: 0,
        initial_arrival_ms: Some(4),
        window_epoch: 0,
        tool_events: Vec::new(),
        spawned_session_ids: Vec::new(),
        output_budget_tokens: Some(2),
        compaction_attempt: None,
        request: TraceRequest {
            ordinal: 0,
            source_request_id: "node".to_string(),
            source_x_request_id: None,
            source_model: None,
            input_tokens: 32,
            output_tokens: 2,
            request_received_ms: 0,
            trace_block_size: 16,
            input_sequence_hashes: vec![1, 2],
            agent_context: Some(AgentContext {
                session_id: "tree-a".to_string(),
                parent_session_id: None,
                session_final: None,
                compaction: None,
                input_trigger: None,
            }),
        },
    }
}

fn session(session_id: &str, parent: Option<&str>, index: usize) -> GeneratedSession {
    GeneratedSession {
        session_id: session_id.to_string(),
        parent_session_id: parent.map(str::to_string),
        depth: if parent.is_some() { 1 } else { 0 },
        top_level_session_index: index,
        top_level_stream_slot: 0,
    }
}

#[test]
fn labels_and_colors() {
    assert_eq!(dot_escape("a\\b"), "a\\\\b");
    assert_eq!(session_cluster_id(&session("generated-07-session-3", None, 2)), "2_3");
    assert_eq!(session_cluster_id(&session("plain", None, 0)), "0_plain");
    assert_eq!(edge_label("continue", 0), "label=\"continue\"");
    assert_eq!(edge_label("spawn", 5), "label=\"spawn + 5 ms\", color=\"#0f766e\"");
    assert_eq!(edge_label("blocking join", 0), "label=\"blocking join\", color=\"#7c3aed\"");
    assert_eq!(action_color("text"), "#dbeafe");
    assert_eq!(action_color("tool"), "#ffedd5");
    assert_eq!(action_color("parallel_tools"), "#fee2e2");
    assert_eq!(action_color("subagent"), "#ccfbf1");
    assert_eq!(action_color("swarm"), "#dcfce7");
    assert_eq!(action_color("complete"), "#f3e8ff");
    assert_eq!(action_color("compaction_attempt"), "#fef3c7");
    assert_eq!(action_color("other"), "#e5e7eb");
    let mut node = sample_node();
    node.tool_events = vec![tool_event(1), tool_event(2)];
    assert_eq!(
        node_attributes(3, &node),
        "label=\"node 3 · parallel tools\\nISL 32 · OSL 2\\ninitial arrival 4 ms\\n2 tool calls\", fillcolor=\"#fee2e2\""
    );
    let mut dot = String::new();
    write_blocking_join(&mut dot, 4, &vec![(1, "blocking join"), (2, "blocking join")], 3);
    assert_eq!(
        dot,
        "  join_4 [shape=diamond, style=\"filled\", label=\"join all 2 children\", fillcolor=\"#ede9fe\", color=\"#7c3aed\", fontname=\"Helvetica\", fontsize=9, margin=\"0.04,0.02\"];\n  n1 -> join_4 [label=\"child complete\", color=\"#7c3aed\"];\n  n2 -> join_4 [label=\"child complete\", color=\"#7c3aed\"];\n  join_4 -> n4 [label=\"join + 3 ms\", color=\"#7c3aed\"];\n"
    );
}

fn small_scenario() -> GeneratedScenario {
    let mut scenario = generate(swarm_config(0.0)).unwrap();
    scenario.sessions = vec![session("tree-a", None, 0), session("tree-b", None, 1), session("c-1", Some("tree-a"), 0)];
    scenario.nodes = vec![sample_node(), sample_node()];
    scenario.nodes[1].action = "text".to_string();
    scenario.nodes[1].initial_arrival_ms = None;
    scenario.nodes[1].dependencies = vec![0];
    scenario.nodes[1].delay_after_dependencies_ms = 9;
    scenario.session_topology.configured_top_level_sessions = 2;
    scenario.session_topology.configured_concurrent_sessions = 1;
    scenario.session_topology.generated_subagent_sessions = 1;
    scenario
}

#[test]
fn a_graph_in_full() {
    let scenario = small_scenario();
    let expected = concat_lines(&[
        "digraph agent_loadgen_plan {",
        "  graph [rankdir=LR, compound=true, newrank=true, pad=0.25, nodesep=0.35, ranksep=0.75, fontname=\"Helvetica\"];",
        "  node [shape=box, style=\"rounded,filled\", fontname=\"Helvetica\", fontsize=10, margin=\"0.08,0.05\", color=\"#4b5563\"];",
        "  edge [fontname=\"Helvetica\", fontsize=9, color=\"#6b7280\", arrowsize=0.7];",
        "  label=\"agent-loadgen generated plan\\n2 top-level session trees · 1 concurrent streams · 1 child sessions · 2 model requests\";",
        "  labelloc=t;",
        "  fontsize=18;",
        "",
        "  subgraph cluster_tree_0 {",
        "    label=\"top-level session tree 0 · stream 0\";",
        "    color=\"#94a3b8\"; style=\"rounded,dashed\"; penwidth=1.25;",
        "  subgraph cluster_session_0_a {",
        "    label=\"parent session · depth 0 · tree-a\";",
        "    color=\"#cbd5e1\"; style=\"rounded\"; penwidth=1;",
        "    n0 [label=\"node 0 · parallel tools\\nISL 32 · OSL 2\\ninitial arrival 4 ms\", fillcolor=\"#fee2e2\"];",
        "    n1 [label=\"node 1 · text\\nISL 32 · OSL 2\", fillcolor=\"#dbeafe\"];",
        "    subgraph cluster_session_0_1 {",
        "      label=\"subagent session · depth 1 · c-1\";",
        "      color=\"#cbd5e1\"; style=\"rounded\"; penwidth=1;",
        "    }",
        "  }",
        "  }",
        "  subgraph cluster_tree_1 {",
        "    label=\"top-level session tree 1 · stream 0\";",
        "    color=\"#94a3b8\"; style=\"rounded,dashed\"; penwidth=1.25;",
        "  subgraph cluster_session_1_b {",
        "    label=\"parent session · depth 0 · tree-b\";",
        "    color=\"#cbd5e1\"; style=\"rounded\"; penwidth=1;",
        "  }",
        "  }",
        "  n0 -> n1 [label=\"continue + 9 ms\"];",
        "}",
    ]);
    assert_eq!(draw(&scenario).unwrap(), expected);
}

fn concat_lines(lines: &[&str]) -> String {
    let mut text = String::new();
    for line in lines {
        text.push_str(line);
        text.push('\n');
    }
    text
}

#[test]
fn graphs_refuse_broken_plans() {
    let mut scenario = small_scenario();
    scenario.nodes[1].request.agent_context = None;
    assert_eq!(draw(&scenario).unwrap_err().message(), "generated node 1 is missing agent context");

    let mut scenario = small_scenario();
    scenario.sessions.remove(0);
    assert_eq!(draw(&scenario).unwrap_err().message(), "generated node 0 references an unknown session");

    let mut scenario = small_scenario();
    scenario.nodes[1].dependencies = vec![0, 7];
    assert_eq!(draw(&scenario).unwrap_err().message(), "generated node 1 has missing dependency 7");
    assert_eq!(
        GraphError::SourceWithoutContext.message(),
        "generated dependency source is missing agent context"
    );
    assert_eq!(
        GraphError::TargetOfUnknownSession.message(),
        "generated dependency target references an unknown session"
    );
}

#[test]
fn sessions_below_themselves_do_not_nest() {
    assert!(sessions_nest(&vec![session("a", None, 0), session("b", Some("a"), 0), session("c", Some("b"), 0)]));
    assert!(!sessions_nest(&vec![session("a", None, 0), session("a", Some("a"), 0)]));
}
