//! Generator profiles: presets, overrides and their validation.

use crate::agent::AgentKind;
use crate::double::Real;
use crate::scenario::distribution::{DistributionError, UIntDistribution};
use crate::text::{blank, debug_quoted, decimal, decimal_text, is_blank, quoted};
use vstd::hash_map::StringHashMap;
use vstd::prelude::*;

verus! {

/// The profile schema that is understood.
pub const GENERATOR_SCHEMA_VERSION: u32 = 4;

/// A profile: an agent, a seed, and overrides of the agent's preset.
#[derive(Debug, Clone)]
pub struct GeneratorConfig {
    pub schema_version: u32,
    pub agent: AgentKind,
    pub seed: u64,
    pub load: LoadOverrides,
    pub trajectory: TrajectoryOverrides,
    pub tokens: TokenOverrides,
    pub behavior: BehaviorOverrides,
    pub compaction: CompactionOverrides,
    pub subagents: SubagentOverrides,
    pub tools: ToolOverrides,
    pub limits: LimitOverrides,
}

/// Overrides of the load.
#[derive(Debug, Clone)]
pub struct LoadOverrides {
    /// Total top-level session trees generated for the finite run.
    pub num_sessions: Option<usize>,
    /// Number of closed-loop top-level streams kept active.
    pub concurrent_sessions: Option<usize>,
    /// Ramp-up spacing between the first tree in each active stream.
    pub startup_interval_ms: Option<u64>,
    /// Delay before a completed stream starts its next tree.
    pub restart_delay_ms: Option<UIntDistribution>,
}

impl Default for LoadOverrides {
    fn default() -> (result: Self)
        ensures
            result.num_sessions is None,
            result.concurrent_sessions is None,
            result.startup_interval_ms is None,
            result.restart_delay_ms is None,
    {
        LoadOverrides {
            num_sessions: None,
            concurrent_sessions: None,
            startup_interval_ms: None,
            restart_delay_ms: None,
        }
    }
}

/// Overrides of the course of a session.
#[derive(Debug, Clone)]
pub struct TrajectoryOverrides {
    pub turns: Option<UIntDistribution>,
    pub think_time_ms: Option<UIntDistribution>,
    pub output_tokens: Option<UIntDistribution>,
}

impl Default for TrajectoryOverrides {
    fn default() -> (result: Self)
        ensures
            result.turns is None,
            result.think_time_ms is None,
            result.output_tokens is None,
    {
        TrajectoryOverrides {
            turns: None,
            think_time_ms: None,
            output_tokens: None,
        }
    }
}

/// Overrides of token sizes.
#[derive(Debug, Clone)]
pub struct TokenOverrides {
    pub block_size: Option<usize>,
    pub system_prefix_tokens: Option<UIntDistribution>,
    pub tool_catalog_tokens: Option<UIntDistribution>,
    pub repository_tokens: Option<UIntDistribution>,
    pub session_tokens: Option<UIntDistribution>,
    pub user_tokens: Option<UIntDistribution>,
    pub tool_result_tokens: Option<UIntDistribution>,
    pub context_window_tokens: Option<usize>,
}

impl Default for TokenOverrides {
    fn default() -> (result: Self)
        ensures
            result.block_size is None,
            result.system_prefix_tokens is None,
            result.tool_catalog_tokens is None,
            result.repository_tokens is None,
            result.session_tokens is None,
            result.user_tokens is None,
            result.tool_result_tokens is None,
            result.context_window_tokens is None,
    {
        TokenOverrides {
            block_size: None,
            system_prefix_tokens: None,
            tool_catalog_tokens: None,
            repository_tokens: None,
            session_tokens: None,
            user_tokens: None,
            tool_result_tokens: None,
            context_window_tokens: None,
        }
    }
}

/// Overrides of what follows a model turn.
#[derive(Debug, Clone)]
pub struct BehaviorOverrides {
    pub tool_probability: Option<Real>,
    pub parallel_tool_probability: Option<Real>,
    pub subagent_probability: Option<Real>,
    pub swarm_probability: Option<Real>,
    pub completion_probability: Option<Real>,
}

impl Default for BehaviorOverrides {
    fn default() -> (result: Self)
        ensures
            result.tool_probability is None,
            result.parallel_tool_probability is None,
            result.subagent_probability is None,
            result.swarm_probability is None,
            result.completion_probability is None,
    {
        BehaviorOverrides {
            tool_probability: None,
            parallel_tool_probability: None,
            subagent_probability: None,
            swarm_probability: None,
            completion_probability: None,
        }
    }
}

/// Overrides of compaction.
#[derive(Debug, Clone)]
pub struct CompactionOverrides {
    pub enabled: Option<bool>,
    pub trigger_fraction: Option<Real>,
    pub summary_input_tokens: Option<UIntDistribution>,
    pub summary_output_tokens: Option<UIntDistribution>,
    pub retained_recent_tokens: Option<usize>,
    pub abort_probability: Option<Real>,
    pub retry_probability: Option<Real>,
    pub max_attempts: Option<usize>,
    pub abort_after_ms: Option<UIntDistribution>,
}

impl Default for CompactionOverrides {
    fn default() -> (result: Self)
        ensures
            result.enabled is None,
            result.trigger_fraction is None,
            result.summary_input_tokens is None,
            result.summary_output_tokens is None,
            result.retained_recent_tokens is None,
            result.abort_probability is None,
            result.retry_probability is None,
            result.max_attempts is None,
            result.abort_after_ms is None,
    {
        CompactionOverrides {
            enabled: None,
            trigger_fraction: None,
            summary_input_tokens: None,
            summary_output_tokens: None,
            retained_recent_tokens: None,
            abort_probability: None,
            retry_probability: None,
            max_attempts: None,
            abort_after_ms: None,
        }
    }
}

/// Overrides of child sessions.
#[derive(Debug, Clone)]
pub struct SubagentOverrides {
    pub turns: Option<UIntDistribution>,
    pub max_depth: Option<usize>,
    pub fanout: Option<UIntDistribution>,
    pub spawn_delay_ms: Option<UIntDistribution>,
    pub blocking_probability: Option<Real>,
}

impl Default for SubagentOverrides {
    fn default() -> (result: Self)
        ensures
            result.turns is None,
            result.max_depth is None,
            result.fanout is None,
            result.spawn_delay_ms is None,
            result.blocking_probability is None,
    {
        SubagentOverrides {
            turns: None,
            max_depth: None,
            fanout: None,
            spawn_delay_ms: None,
            blocking_probability: None,
        }
    }
}

/// Overrides of tool calls.
#[derive(Debug, Clone)]
pub struct ToolOverrides {
    pub classes: Option<Vec<ToolClass>>,
    pub parallel_count: Option<UIntDistribution>,
    pub retry_probability: Option<Real>,
}

impl Default for ToolOverrides {
    fn default() -> (result: Self)
        ensures
            result.classes is None,
            result.parallel_count is None,
            result.retry_probability is None,
    {
        ToolOverrides {
            classes: None,
            parallel_count: None,
            retry_probability: None,
        }
    }
}

/// Overrides of the bounds on a plan.
#[derive(Debug, Clone)]
pub struct LimitOverrides {
    pub max_nodes: Option<usize>,
    pub max_sessions: Option<usize>,
    pub max_total_input_tokens: Option<u64>,
}

impl Default for LimitOverrides {
    fn default() -> (result: Self)
        ensures
            result.max_nodes is None,
            result.max_sessions is None,
            result.max_total_input_tokens is None,
    {
        LimitOverrides {
            max_nodes: None,
            max_sessions: None,
            max_total_input_tokens: None,
        }
    }
}

/// A class of tool calls.
#[derive(Debug, Clone)]
pub struct ToolClass {
    pub name: String,
    /// Relative share of the calls.
    pub weight: Real,
    pub latency_ms: UIntDistribution,
    pub result_tokens: UIntDistribution,
    pub error_probability: Real,
}

/// A complete configuration.
#[derive(Debug, Clone)]
pub struct ResolvedGeneratorConfig {
    pub agent: AgentKind,
    pub seed: u64,
    pub num_sessions: usize,
    pub concurrent_sessions: usize,
    pub startup_interval_ms: u64,
    pub restart_delay_ms: UIntDistribution,
    pub turns: UIntDistribution,
    pub subagent_turns: UIntDistribution,
    pub think_time_ms: UIntDistribution,
    pub output_tokens: UIntDistribution,
    pub block_size: usize,
    pub system_prefix_tokens: UIntDistribution,
    pub tool_catalog_tokens: UIntDistribution,
    pub repository_tokens: UIntDistribution,
    pub session_tokens: UIntDistribution,
    pub user_tokens: UIntDistribution,
    pub tool_result_tokens: UIntDistribution,
    pub context_window_tokens: usize,
    pub tool_probability: Real,
    pub parallel_tool_probability: Real,
    pub subagent_probability: Real,
    pub swarm_probability: Real,
    pub completion_probability: Real,
    pub compaction_enabled: bool,
    pub compaction_trigger_fraction: Real,
    pub summary_input_tokens: UIntDistribution,
    pub summary_output_tokens: UIntDistribution,
    pub retained_recent_tokens: usize,
    pub compaction_abort_probability: Real,
    pub compaction_retry_probability: Real,
    pub compaction_max_attempts: usize,
    pub compaction_abort_after_ms: UIntDistribution,
    pub max_depth: usize,
    pub fanout: UIntDistribution,
    pub spawn_delay_ms: UIntDistribution,
    pub blocking_probability: Real,
    pub tool_classes: Vec<ToolClass>,
    pub parallel_count: UIntDistribution,
    pub retry_probability: Real,
    pub max_nodes: usize,
    pub max_sessions: usize,
    pub max_total_input_tokens: u64,
}

/// Sums of real-valued settings, as double arithmetic gives them: the action probabilities in
/// their order, each one added to the sum before it, and the tool weights in their order.
#[derive(Debug, Clone, Copy)]
pub struct ConfigSums {
    /// Serial and parallel tool calls.
    pub with_parallel: Real,
    /// And one subagent.
    pub with_subagent: Real,
    /// And a swarm.
    pub with_swarm: Real,
    /// And early completion: all five actions.
    pub with_completion: Real,
    /// Serial and parallel tool calls and early completion.
    pub leaf_completion: Real,
    /// All tool weights.
    pub tool_weight: Real,
}

/// Why a profile cannot be used.
#[derive(Debug)]
pub enum ConfigError {
    SchemaVersion { found: u32 },
    NoSessions,
    NoStreams,
    TooManyStreams,
    LimitsTooSmall,
    ZeroBlockSize,
    SmallContextWindow,
    ZeroLimit,
    Distribution { name: &'static str, error: DistributionError },
    CanBeZero { name: &'static str },
    TooLarge { name: &'static str },
    Probability { name: &'static str },
    NoAttempts,
    FewAttempts,
    ActionSum,
    TriggerFraction,
    NoToolClasses,
    ToolNames,
    ToolWeight { name: String },
    ToolWeights,
}

impl ConfigError {
    /// The words of the error.
    pub open spec fn text(self) -> Seq<char> {
        match self {
            ConfigError::SchemaVersion { found } => "unsupported generator schema version "@ + decimal(
                found as nat,
            ) + ", expected "@ + decimal(GENERATOR_SCHEMA_VERSION as nat),
            ConfigError::NoSessions => "num_sessions must be greater than zero"@,
            ConfigError::NoStreams => "concurrent_sessions must be greater than zero"@,
            ConfigError::TooManyStreams => "concurrent_sessions must not exceed num_sessions"@,
            ConfigError::LimitsTooSmall => "generation limits cannot hold all configured top-level sessions"@,
            ConfigError::ZeroBlockSize => "token block size must be greater than zero"@,
            ConfigError::SmallContextWindow => "context window must be at least one token block"@,
            ConfigError::ZeroLimit => "generation limits must be greater than zero"@,
            ConfigError::Distribution { name, error } => name@ + error.text(),
            ConfigError::CanBeZero { name } => name@ + " must always be greater than zero"@,
            ConfigError::TooLarge { name } => name@ + " must fit u32"@,
            ConfigError::Probability { name } => name@ + " must be between zero and one"@,
            ConfigError::NoAttempts => "compaction_max_attempts must be greater than zero"@,
            ConfigError::FewAttempts =>
                "compaction_max_attempts must be at least two when retries are enabled"@,
            ConfigError::ActionSum => "behavior action probabilities sum to more than one"@,
            ConfigError::TriggerFraction => "compaction trigger fraction must be between zero and one"@,
            ConfigError::NoToolClasses => "at least one tool class is required"@,
            ConfigError::ToolNames => "tool class names must be non-empty and unique"@,
            ConfigError::ToolWeight { name } => "tool class "@ + quoted(name@) + " has an invalid weight"@,
            ConfigError::ToolWeights => "tool class weights are invalid"@,
        }
    }

    /// Puts the error in words.
    pub fn message(&self) -> (text: String)
        ensures
            text@ == self.text(),
    {
        match self {
            ConfigError::SchemaVersion { found } => {
                let mut text = "unsupported generator schema version ".to_string();
                text.append(decimal_text(*found as u64).as_str());
                text.append(", expected ");
                text.append(decimal_text(GENERATOR_SCHEMA_VERSION as u64).as_str());
                text
            },
            ConfigError::NoSessions => "num_sessions must be greater than zero".to_string(),
            ConfigError::NoStreams => "concurrent_sessions must be greater than zero".to_string(),
            ConfigError::TooManyStreams => "concurrent_sessions must not exceed num_sessions".to_string(),
            ConfigError::LimitsTooSmall =>
                "generation limits cannot hold all configured top-level sessions".to_string(),
            ConfigError::ZeroBlockSize => "token block size must be greater than zero".to_string(),
            ConfigError::SmallContextWindow => "context window must be at least one token block".to_string(),
            ConfigError::ZeroLimit => "generation limits must be greater than zero".to_string(),
            ConfigError::Distribution { name, error } => {
                let mut text = (*name).to_string();
                text.append(error.message());
                text
            },
            ConfigError::CanBeZero { name } => {
                let mut text = (*name).to_string();
                text.append(" must always be greater than zero");
                text
            },
            ConfigError::TooLarge { name } => {
                let mut text = (*name).to_string();
                text.append(" must fit u32");
                text
            },
            ConfigError::Probability { name } => {
                let mut text = (*name).to_string();
                text.append(" must be between zero and one");
                text
            },
            ConfigError::NoAttempts => "compaction_max_attempts must be greater than zero".to_string(),
            ConfigError::FewAttempts =>
                "compaction_max_attempts must be at least two when retries are enabled".to_string(),
            ConfigError::ActionSum => "behavior action probabilities sum to more than one".to_string(),
            ConfigError::TriggerFraction =>
                "compaction trigger fraction must be between zero and one".to_string(),
            ConfigError::NoToolClasses => "at least one tool class is required".to_string(),
            ConfigError::ToolNames => "tool class names must be non-empty and unique".to_string(),
            ConfigError::ToolWeight { name } => {
                let mut text = "tool class ".to_string();
                text.append(debug_quoted(name.as_str()).as_str());
                text.append(" has an invalid weight");
                text
            },
            ConfigError::ToolWeights => "tool class weights are invalid".to_string(),
        }
    }
}

/// The override where there is one, else the default.
pub open spec fn replaced<T>(default: T, value: Option<T>) -> T {
    match value {
        Some(value) => value,
        None => default,
    }
}

/// Puts an override in place of a default.
pub fn replace<T>(target: &mut T, value: Option<T>)
    ensures
        *final(target) == replaced(*old(target), value),
{
    if let Some(value) = value {
        *target = value;
    }
}

/// The preset of an agent, with the given tool classes.
pub open spec fn preset_with(agent: AgentKind, seed: u64, classes: Vec<ToolClass>) -> ResolvedGeneratorConfig {
    ResolvedGeneratorConfig {
        agent,
        seed,
        num_sessions: 16,
        concurrent_sessions: 8,
        startup_interval_ms: 0,
        restart_delay_ms: UIntDistribution::Fixed { value: 0 },
        turns: UIntDistribution::Uniform { min: 4, max: 10 },
        subagent_turns: UIntDistribution::Uniform { min: 2, max: 5 },
        think_time_ms: UIntDistribution::LogNormal { median: Real { bits: 0x4087_7000_0000_0000 }, sigma: Real { bits: 0x3fe9_9999_9999_999a }, min: 25, max: 15000 },
        output_tokens: UIntDistribution::LogNormal { median: Real { bits: 0x407c_2000_0000_0000 }, sigma: Real { bits: 0x3fec_cccc_cccc_cccd }, min: 16, max: 4096 },
        block_size: 16,
        system_prefix_tokens: UIntDistribution::Fixed {
            value: match agent {
                AgentKind::ClaudeCode => 12000,
                AgentKind::Codex => 11000,
                AgentKind::Opencode => 7000,
            },
        },
        tool_catalog_tokens: UIntDistribution::Fixed {
            value: match agent {
                AgentKind::ClaudeCode => 14000,
                AgentKind::Codex => 9000,
                AgentKind::Opencode => 11000,
            },
        },
        repository_tokens: UIntDistribution::LogNormal { median: Real { bits: 0x409f_4000_0000_0000 }, sigma: Real { bits: 0x3fe6_6666_6666_6666 }, min: 256, max: 12000 },
        session_tokens: UIntDistribution::Uniform { min: 128, max: 1024 },
        user_tokens: UIntDistribution::LogNormal { median: Real { bits: 0x4066_8000_0000_0000 }, sigma: Real { bits: 0x3fec_cccc_cccc_cccd }, min: 16, max: 4096 },
        tool_result_tokens: UIntDistribution::LogNormal { median: Real { bits: 0x4085_e000_0000_0000 }, sigma: Real { bits: 0x3ff1_9999_9999_999a }, min: 16, max: 16384 },
        context_window_tokens: 128000,
        tool_probability: match agent {
            AgentKind::ClaudeCode => Real { bits: 0x3fe3_d70a_3d70_a3d7 },
            AgentKind::Codex => Real { bits: 0x3fd8_f5c2_8f5c_28f6 },
            AgentKind::Opencode => Real { bits: 0x3fde_b851_eb85_1eb8 },
        },
        parallel_tool_probability: match agent {
            AgentKind::ClaudeCode => Real { bits: 0x0000_0000_0000_0000 },
            AgentKind::Codex => Real { bits: 0x3fc8_51eb_851e_b852 },
            AgentKind::Opencode => Real { bits: 0x3fb4_7ae1_47ae_147b },
        },
        subagent_probability: match agent {
            AgentKind::ClaudeCode => Real { bits: 0x3fb9_9999_9999_999a },
            AgentKind::Codex => Real { bits: 0x3fb4_7ae1_47ae_147b },
            AgentKind::Opencode => Real { bits: 0x3fb9_9999_9999_999a },
        },
        swarm_probability: Real { bits: 0x3f99_9999_9999_999a },
        completion_probability: Real { bits: 0x3fb9_9999_9999_999a },
        compaction_enabled: true,
        compaction_trigger_fraction: Real { bits: 0x3fe8_f5c2_8f5c_28f6 },
        summary_input_tokens: UIntDistribution::Uniform { min: 256, max: 1024 },
        summary_output_tokens: UIntDistribution::Uniform { min: 512, max: 2048 },
        retained_recent_tokens: 8192,
        compaction_abort_probability: Real { bits: 0x0000_0000_0000_0000 },
        compaction_retry_probability: Real { bits: 0x0000_0000_0000_0000 },
        compaction_max_attempts: 3,
        compaction_abort_after_ms: UIntDistribution::Fixed { value: 10 },
        max_depth: 2,
        fanout: UIntDistribution::Uniform { min: 2, max: 4 },
        spawn_delay_ms: UIntDistribution::Uniform { min: 5, max: 100 },
        blocking_probability: Real { bits: 0x3fe7_0a3d_70a3_d70a },
        tool_classes: classes,
        parallel_count: UIntDistribution::Uniform { min: 2, max: 4 },
        retry_probability: Real { bits: 0x3fd6_6666_6666_6666 },
        max_nodes: 10000,
        max_sessions: 1000,
        max_total_input_tokens: 250000000,
    }
}

/// `class` has the given name and settings.
pub open spec fn is_class(
    class: ToolClass,
    name: Seq<char>,
    weight: Real,
    latency_ms: UIntDistribution,
    result_tokens: UIntDistribution,
    error_probability: Real,
) -> bool {
    &&& class.name@ == name
    &&& class.weight == weight
    &&& class.latency_ms == latency_ms
    &&& class.result_tokens == result_tokens
    &&& class.error_probability == error_probability
}

/// The built-in tool classes.
pub open spec fn are_default_classes(classes: Seq<ToolClass>) -> bool {
    &&& classes.len() == 6
    &&& is_class(
        classes[0],
        "read"@,
        Real { bits: 0x3fd1_47ae_147a_e148 },
        UIntDistribution::LogNormal { median: Real { bits: 0x4068_6000_0000_0000 }, sigma: Real { bits: 0x3fec_cccc_cccc_cccd }, min: 40, max: 350 },
        UIntDistribution::LogNormal { median: Real { bits: 0x4090_a000_0000_0000 }, sigma: Real { bits: 0x3ff0_0000_0000_0000 }, min: 128, max: 2000 },
        Real { bits: 0x3f84_7ae1_47ae_147b },
    )
    &&& is_class(
        classes[1],
        "search"@,
        Real { bits: 0x3fca_e147_ae14_7ae1 },
        UIntDistribution::LogNormal { median: Real { bits: 0x407e_a000_0000_0000 }, sigma: Real { bits: 0x3fec_cccc_cccc_cccd }, min: 80, max: 900 },
        UIntDistribution::LogNormal { median: Real { bits: 0x40a0_2000_0000_0000 }, sigma: Real { bits: 0x3ff0_0000_0000_0000 }, min: 128, max: 4000 },
        Real { bits: 0x3f9e_b851_eb85_1eb8 },
    )
    &&& is_class(
        classes[2],
        "shell"@,
        Real { bits: 0x3fca_e147_ae14_7ae1 },
        UIntDistribution::LogNormal { median: Real { bits: 0x4094_5000_0000_0000 }, sigma: Real { bits: 0x3fec_cccc_cccc_cccd }, min: 100, max: 2500 },
        UIntDistribution::LogNormal { median: Real { bits: 0x40af_8000_0000_0000 }, sigma: Real { bits: 0x3ff0_0000_0000_0000 }, min: 64, max: 8000 },
        Real { bits: 0x3fb4_7ae1_47ae_147b },
    )
    &&& is_class(
        classes[3],
        "patch"@,
        Real { bits: 0x3fc0_a3d7_0a3d_70a4 },
        UIntDistribution::LogNormal { median: Real { bits: 0x408e_0000_0000_0000 }, sigma: Real { bits: 0x3fec_cccc_cccc_cccd }, min: 120, max: 1800 },
        UIntDistribution::LogNormal { median: Real { bits: 0x4097_f000_0000_0000 }, sigma: Real { bits: 0x3ff0_0000_0000_0000 }, min: 64, max: 3000 },
        Real { bits: 0x3fa9_9999_9999_999a },
    )
    &&& is_class(
        classes[4],
        "network"@,
        Real { bits: 0x3fb4_7ae1_47ae_147b },
        UIntDistribution::LogNormal { median: Real { bits: 0x40a4_b400_0000_0000 }, sigma: Real { bits: 0x3fec_cccc_cccc_cccd }, min: 300, max: 5000 },
        UIntDistribution::LogNormal { median: Real { bits: 0x40b7_b000_0000_0000 }, sigma: Real { bits: 0x3ff0_0000_0000_0000 }, min: 128, max: 12000 },
        Real { bits: 0x3fb9_9999_9999_999a },
    )
    &&& is_class(
        classes[5],
        "orchestration"@,
        Real { bits: 0x3fb9_9999_9999_999a },
        UIntDistribution::LogNormal { median: Real { bits: 0x4060_e000_0000_0000 }, sigma: Real { bits: 0x3fec_cccc_cccc_cccd }, min: 20, max: 250 },
        UIntDistribution::LogNormal { median: Real { bits: 0x4071_0000_0000_0000 }, sigma: Real { bits: 0x3ff0_0000_0000_0000 }, min: 32, max: 512 },
        Real { bits: 0x3f9e_b851_eb85_1eb8 },
    )
}

fn tool_class(
    name: &str,
    weight: Real,
    latency_ms: UIntDistribution,
    result_tokens: UIntDistribution,
    error_probability: Real,
) -> (class: ToolClass)
    ensures
        is_class(class, name@, weight, latency_ms, result_tokens, error_probability),
{
    ToolClass { name: name.to_string(), weight, latency_ms, result_tokens, error_probability }
}

/// The built-in tool classes.
pub fn default_tool_classes() -> (classes: Vec<ToolClass>)
    ensures
        are_default_classes(classes@),
{
    let mut classes: Vec<ToolClass> = Vec::with_capacity(6);
    classes.push(
        tool_class(
            "read",
            Real { bits: 0x3fd1_47ae_147a_e148 },
            UIntDistribution::LogNormal { median: Real { bits: 0x4068_6000_0000_0000 }, sigma: Real { bits: 0x3fec_cccc_cccc_cccd }, min: 40, max: 350 },
            UIntDistribution::LogNormal { median: Real { bits: 0x4090_a000_0000_0000 }, sigma: Real { bits: 0x3ff0_0000_0000_0000 }, min: 128, max: 2000 },
            Real { bits: 0x3f84_7ae1_47ae_147b },
        ),
    );
    classes.push(
        tool_class(
            "search",
            Real { bits: 0x3fca_e147_ae14_7ae1 },
            UIntDistribution::LogNormal { median: Real { bits: 0x407e_a000_0000_0000 }, sigma: Real { bits: 0x3fec_cccc_cccc_cccd }, min: 80, max: 900 },
            UIntDistribution::LogNormal { median: Real { bits: 0x40a0_2000_0000_0000 }, sigma: Real { bits: 0x3ff0_0000_0000_0000 }, min: 128, max: 4000 },
            Real { bits: 0x3f9e_b851_eb85_1eb8 },
        ),
    );
    classes.push(
        tool_class(
            "shell",
            Real { bits: 0x3fca_e147_ae14_7ae1 },
            UIntDistribution::LogNormal { median: Real { bits: 0x4094_5000_0000_0000 }, sigma: Real { bits: 0x3fec_cccc_cccc_cccd }, min: 100, max: 2500 },
            UIntDistribution::LogNormal { median: Real { bits: 0x40af_8000_0000_0000 }, sigma: Real { bits: 0x3ff0_0000_0000_0000 }, min: 64, max: 8000 },
            Real { bits: 0x3fb4_7ae1_47ae_147b },
        ),
    );
    classes.push(
        tool_class(
            "patch",
            Real { bits: 0x3fc0_a3d7_0a3d_70a4 },
            UIntDistribution::LogNormal { median: Real { bits: 0x408e_0000_0000_0000 }, sigma: Real { bits: 0x3fec_cccc_cccc_cccd }, min: 120, max: 1800 },
            UIntDistribution::LogNormal { median: Real { bits: 0x4097_f000_0000_0000 }, sigma: Real { bits: 0x3ff0_0000_0000_0000 }, min: 64, max: 3000 },
            Real { bits: 0x3fa9_9999_9999_999a },
        ),
    );
    classes.push(
        tool_class(
            "network",
            Real { bits: 0x3fb4_7ae1_47ae_147b },
            UIntDistribution::LogNormal { median: Real { bits: 0x40a4_b400_0000_0000 }, sigma: Real { bits: 0x3fec_cccc_cccc_cccd }, min: 300, max: 5000 },
            UIntDistribution::LogNormal { median: Real { bits: 0x40b7_b000_0000_0000 }, sigma: Real { bits: 0x3ff0_0000_0000_0000 }, min: 128, max: 12000 },
            Real { bits: 0x3fb9_9999_9999_999a },
        ),
    );
    classes.push(
        tool_class(
            "orchestration",
            Real { bits: 0x3fb9_9999_9999_999a },
            UIntDistribution::LogNormal { median: Real { bits: 0x4060_e000_0000_0000 }, sigma: Real { bits: 0x3fec_cccc_cccc_cccd }, min: 20, max: 250 },
            UIntDistribution::LogNormal { median: Real { bits: 0x4071_0000_0000_0000 }, sigma: Real { bits: 0x3ff0_0000_0000_0000 }, min: 32, max: 512 },
            Real { bits: 0x3f9e_b851_eb85_1eb8 },
        ),
    );
    classes
}

/// `base` with the overrides of `config`.
pub open spec fn overridden(base: ResolvedGeneratorConfig, config: GeneratorConfig) -> ResolvedGeneratorConfig {
    ResolvedGeneratorConfig {
        agent: base.agent,
        seed: base.seed,
        num_sessions: replaced(base.num_sessions, config.load.num_sessions),
        concurrent_sessions: replaced(base.concurrent_sessions, config.load.concurrent_sessions),
        startup_interval_ms: replaced(base.startup_interval_ms, config.load.startup_interval_ms),
        restart_delay_ms: replaced(base.restart_delay_ms, config.load.restart_delay_ms),
        turns: replaced(base.turns, config.trajectory.turns),
        subagent_turns: replaced(base.subagent_turns, config.subagents.turns),
        think_time_ms: replaced(base.think_time_ms, config.trajectory.think_time_ms),
        output_tokens: replaced(base.output_tokens, config.trajectory.output_tokens),
        block_size: replaced(base.block_size, config.tokens.block_size),
        system_prefix_tokens: replaced(base.system_prefix_tokens, config.tokens.system_prefix_tokens),
        tool_catalog_tokens: replaced(base.tool_catalog_tokens, config.tokens.tool_catalog_tokens),
        repository_tokens: replaced(base.repository_tokens, config.tokens.repository_tokens),
        session_tokens: replaced(base.session_tokens, config.tokens.session_tokens),
        user_tokens: replaced(base.user_tokens, config.tokens.user_tokens),
        tool_result_tokens: replaced(base.tool_result_tokens, config.tokens.tool_result_tokens),
        context_window_tokens: replaced(base.context_window_tokens, config.tokens.context_window_tokens),
        tool_probability: replaced(base.tool_probability, config.behavior.tool_probability),
        parallel_tool_probability: replaced(base.parallel_tool_probability, config.behavior.parallel_tool_probability),
        subagent_probability: replaced(base.subagent_probability, config.behavior.subagent_probability),
        swarm_probability: replaced(base.swarm_probability, config.behavior.swarm_probability),
        completion_probability: replaced(base.completion_probability, config.behavior.completion_probability),
        compaction_enabled: replaced(base.compaction_enabled, config.compaction.enabled),
        compaction_trigger_fraction: replaced(base.compaction_trigger_fraction, config.compaction.trigger_fraction),
        summary_input_tokens: replaced(base.summary_input_tokens, config.compaction.summary_input_tokens),
        summary_output_tokens: replaced(base.summary_output_tokens, config.compaction.summary_output_tokens),
        retained_recent_tokens: replaced(base.retained_recent_tokens, config.compaction.retained_recent_tokens),
        compaction_abort_probability: replaced(base.compaction_abort_probability, config.compaction.abort_probability),
        compaction_retry_probability: replaced(base.compaction_retry_probability, config.compaction.retry_probability),
        compaction_max_attempts: replaced(base.compaction_max_attempts, config.compaction.max_attempts),
        compaction_abort_after_ms: replaced(base.compaction_abort_after_ms, config.compaction.abort_after_ms),
        max_depth: replaced(base.max_depth, config.subagents.max_depth),
        fanout: replaced(base.fanout, config.subagents.fanout),
        spawn_delay_ms: replaced(base.spawn_delay_ms, config.subagents.spawn_delay_ms),
        blocking_probability: replaced(base.blocking_probability, config.subagents.blocking_probability),
        tool_classes: replaced(base.tool_classes, config.tools.classes),
        parallel_count: replaced(base.parallel_count, config.tools.parallel_count),
        retry_probability: replaced(base.retry_probability, config.tools.retry_probability),
        max_nodes: replaced(base.max_nodes, config.limits.max_nodes),
        max_sessions: replaced(base.max_sessions, config.limits.max_sessions),
        max_total_input_tokens: replaced(base.max_total_input_tokens, config.limits.max_total_input_tokens),
    }
}

/// `resolved` is the preset of the agent with the overrides of the profile.
pub open spec fn is_merged(resolved: ResolvedGeneratorConfig, config: GeneratorConfig) -> bool {
    &&& resolved == overridden(preset_with(config.agent, config.seed, resolved.tool_classes), config)
    &&& config.tools.classes is None ==> are_default_classes(resolved.tool_classes@)
}

impl GeneratorConfig {
    /// Puts the overrides over the agent's preset.
    pub fn merge(self) -> (result: Result<ResolvedGeneratorConfig, ConfigError>)
        ensures
            match result {
                Ok(resolved) => self.schema_version == GENERATOR_SCHEMA_VERSION && is_merged(resolved, self),
                Err(error) => self.schema_version != GENERATOR_SCHEMA_VERSION && error
                    == (ConfigError::SchemaVersion { found: self.schema_version }),
            },
    {
        if self.schema_version != GENERATOR_SCHEMA_VERSION {
            return Err(ConfigError::SchemaVersion { found: self.schema_version });
        }
        let mut resolved = ResolvedGeneratorConfig::preset(self.agent, self.seed);
        let ghost base = resolved;
        replace(&mut resolved.num_sessions, self.load.num_sessions);
        replace(&mut resolved.concurrent_sessions, self.load.concurrent_sessions);
        replace(&mut resolved.startup_interval_ms, self.load.startup_interval_ms);
        replace(&mut resolved.restart_delay_ms, self.load.restart_delay_ms);
        replace(&mut resolved.turns, self.trajectory.turns);
        replace(&mut resolved.subagent_turns, self.subagents.turns);
        replace(&mut resolved.think_time_ms, self.trajectory.think_time_ms);
        replace(&mut resolved.output_tokens, self.trajectory.output_tokens);
        replace(&mut resolved.block_size, self.tokens.block_size);
        replace(&mut resolved.system_prefix_tokens, self.tokens.system_prefix_tokens);
        replace(&mut resolved.tool_catalog_tokens, self.tokens.tool_catalog_tokens);
        replace(&mut resolved.repository_tokens, self.tokens.repository_tokens);
        replace(&mut resolved.session_tokens, self.tokens.session_tokens);
        replace(&mut resolved.user_tokens, self.tokens.user_tokens);
        replace(&mut resolved.tool_result_tokens, self.tokens.tool_result_tokens);
        replace(&mut resolved.context_window_tokens, self.tokens.context_window_tokens);
        replace(&mut resolved.tool_probability, self.behavior.tool_probability);
        replace(&mut resolved.parallel_tool_probability, self.behavior.parallel_tool_probability);
        replace(&mut resolved.subagent_probability, self.behavior.subagent_probability);
        replace(&mut resolved.swarm_probability, self.behavior.swarm_probability);
        replace(&mut resolved.completion_probability, self.behavior.completion_probability);
        replace(&mut resolved.compaction_enabled, self.compaction.enabled);
        replace(&mut resolved.compaction_trigger_fraction, self.compaction.trigger_fraction);
        replace(&mut resolved.summary_input_tokens, self.compaction.summary_input_tokens);
        replace(&mut resolved.summary_output_tokens, self.compaction.summary_output_tokens);
        replace(&mut resolved.retained_recent_tokens, self.compaction.retained_recent_tokens);
        replace(&mut resolved.compaction_abort_probability, self.compaction.abort_probability);
        replace(&mut resolved.compaction_retry_probability, self.compaction.retry_probability);
        replace(&mut resolved.compaction_max_attempts, self.compaction.max_attempts);
        replace(&mut resolved.compaction_abort_after_ms, self.compaction.abort_after_ms);
        replace(&mut resolved.max_depth, self.subagents.max_depth);
        replace(&mut resolved.fanout, self.subagents.fanout);
        replace(&mut resolved.spawn_delay_ms, self.subagents.spawn_delay_ms);
        replace(&mut resolved.blocking_probability, self.subagents.blocking_probability);
        replace(&mut resolved.tool_classes, self.tools.classes);
        replace(&mut resolved.parallel_count, self.tools.parallel_count);
        replace(&mut resolved.retry_probability, self.tools.retry_probability);
        replace(&mut resolved.max_nodes, self.limits.max_nodes);
        replace(&mut resolved.max_sessions, self.limits.max_sessions);
        replace(&mut resolved.max_total_input_tokens, self.limits.max_total_input_tokens);
        assert(resolved == overridden(base, self));
        Ok(resolved)
    }

    /// Puts the overrides over the agent's preset and validates what comes out, given the sums
    /// of its real-valued settings.
    pub fn resolve(self, sums: &ConfigSums) -> (result: Result<ResolvedGeneratorConfig, ConfigError>)
        ensures
            match result {
                Ok(resolved) => {
                    &&& self.schema_version == GENERATOR_SCHEMA_VERSION
                    &&& is_merged(resolved, self)
                    &&& resolved.failure(*sums) is None
                },
                Err(error) => if self.schema_version != GENERATOR_SCHEMA_VERSION {
                    error == (ConfigError::SchemaVersion { found: self.schema_version })
                } else {
                    exists|resolved: ResolvedGeneratorConfig|
                        #![trigger is_merged(resolved, self)]
                        is_merged(resolved, self) && resolved.failure(*sums) == Some(error)
                },
            },
    {
        let resolved = match self.merge() {
            Ok(resolved) => resolved,
            Err(error) => {
                return Err(error);
            },
        };
        match resolved.validate(sums) {
            Ok(()) => Ok(resolved),
            Err(error) => Err(error),
        }
    }
}

/// A distribution with its name.
pub struct Named {
    pub name: &'static str,
    pub distribution: UIntDistribution,
}

/// What is wrong with the first of the distributions that is not in order.
pub open spec fn first_disorder(list: Seq<Named>) -> Option<ConfigError>
    decreases list.len(),
{
    if list.len() == 0 {
        None
    } else {
        match first_disorder(list.drop_last()) {
            Some(error) => Some(error),
            None => match list.last().distribution.failure() {
                Some(error) => Some(ConfigError::Distribution { name: list.last().name, error }),
                None => None,
            },
        }
    }
}

/// The first of the distributions that can give zero.
pub open spec fn first_zero(list: Seq<Named>) -> Option<ConfigError>
    decreases list.len(),
{
    if list.len() == 0 {
        None
    } else {
        match first_zero(list.drop_last()) {
            Some(error) => Some(error),
            None => if list.last().distribution.range().0 == 0 {
                Some(ConfigError::CanBeZero { name: list.last().name })
            } else {
                None
            },
        }
    }
}

/// The first of the distributions that can give more than 32 bits hold.
pub open spec fn first_large(list: Seq<Named>) -> Option<ConfigError>
    decreases list.len(),
{
    if list.len() == 0 {
        None
    } else {
        match first_large(list.drop_last()) {
            Some(error) => Some(error),
            None => if list.last().distribution.range().1 > u32::MAX {
                Some(ConfigError::TooLarge { name: list.last().name })
            } else {
                None
            },
        }
    }
}

/// The first of the probabilities that lies outside the unit interval.
pub open spec fn first_improbable(list: Seq<(&'static str, Real)>) -> Option<ConfigError>
    decreases list.len(),
{
    if list.len() == 0 {
        None
    } else {
        match first_improbable(list.drop_last()) {
            Some(error) => Some(error),
            None => if !list.last().1.unit() {
                Some(ConfigError::Probability { name: list.last().0 })
            } else {
                None
            },
        }
    }
}

/// What is wrong with one tool class that comes after others with the given names.
pub open spec fn class_failure(class: ToolClass, names: Set<Seq<char>>) -> Option<ConfigError> {
    if blank(class.name@) || names.contains(class.name@) {
        Some(ConfigError::ToolNames)
    } else if !class.weight.positive() {
        Some(ConfigError::ToolWeight { name: class.name })
    } else if !class.error_probability.unit() {
        Some(ConfigError::Probability { name: "tool error probability" })
    } else if class.latency_ms.failure() is Some {
        Some(ConfigError::Distribution { name: "tool latency", error: class.latency_ms.failure()->0 })
    } else if class.result_tokens.failure() is Some {
        Some(ConfigError::Distribution { name: "tool result tokens", error: class.result_tokens.failure()->0 })
    } else {
        None
    }
}

/// The names of tool classes.
pub open spec fn class_names(classes: Seq<ToolClass>) -> Set<Seq<char>> {
    Seq::new(classes.len(), |i: int| classes[i].name@).to_set()
}

/// What is wrong with the first of the tool classes that is not in order.
pub open spec fn classes_failure(classes: Seq<ToolClass>) -> Option<ConfigError>
    decreases classes.len(),
{
    if classes.len() == 0 {
        None
    } else {
        match classes_failure(classes.drop_last()) {
            Some(error) => Some(error),
            None => class_failure(classes.last(), class_names(classes.drop_last())),
        }
    }
}

proof fn lemma_classes_keep_failing(classes: Seq<ToolClass>, n: int)
    requires
        0 <= n <= classes.len(),
        classes_failure(classes.take(n)) is Some,
    ensures
        classes_failure(classes) == classes_failure(classes.take(n)),
    decreases classes.len(),
{
    if n == classes.len() {
        assert(classes.take(n) =~= classes);
    } else {
        assert(classes.drop_last().take(n) =~= classes.take(n));
        lemma_classes_keep_failing(classes.drop_last(), n);
    }
}

impl ResolvedGeneratorConfig {
    /// All distributions outside the tool classes.
    pub open spec fn distributions(self) -> Seq<Named> {
        seq![
            Named { name: "restart delay", distribution: self.restart_delay_ms },
            Named { name: "turns", distribution: self.turns },
            Named { name: "subagent turns", distribution: self.subagent_turns },
            Named { name: "think time", distribution: self.think_time_ms },
            Named { name: "output tokens", distribution: self.output_tokens },
            Named { name: "system prefix tokens", distribution: self.system_prefix_tokens },
            Named { name: "tool catalog tokens", distribution: self.tool_catalog_tokens },
            Named { name: "repository tokens", distribution: self.repository_tokens },
            Named { name: "session tokens", distribution: self.session_tokens },
            Named { name: "user tokens", distribution: self.user_tokens },
            Named { name: "tool result tokens", distribution: self.tool_result_tokens },
            Named { name: "summary input tokens", distribution: self.summary_input_tokens },
            Named { name: "summary output tokens", distribution: self.summary_output_tokens },
            Named { name: "compaction abort delay", distribution: self.compaction_abort_after_ms },
            Named { name: "subagent fanout", distribution: self.fanout },
            Named { name: "spawn delay", distribution: self.spawn_delay_ms },
            Named { name: "parallel tool count", distribution: self.parallel_count },
        ]
    }

    /// The distributions that must never give zero.
    pub open spec fn positive_distributions(self) -> Seq<Named> {
        seq![
            Named { name: "turns", distribution: self.turns },
            Named { name: "subagent turns", distribution: self.subagent_turns },
            Named { name: "output tokens", distribution: self.output_tokens },
            Named { name: "summary output tokens", distribution: self.summary_output_tokens },
            Named { name: "subagent fanout", distribution: self.fanout },
            Named { name: "parallel tool count", distribution: self.parallel_count },
        ]
    }

    /// The distributions that must give no more than 32 bits hold.
    pub open spec fn narrow_distributions(self) -> Seq<Named> {
        seq![
            Named { name: "output tokens", distribution: self.output_tokens },
            Named { name: "summary output tokens", distribution: self.summary_output_tokens },
        ]
    }

    /// All probabilities outside the tool classes.
    pub open spec fn probabilities(self) -> Seq<(&'static str, Real)> {
        seq![
            ("tool_probability", self.tool_probability),
            ("parallel_tool_probability", self.parallel_tool_probability),
            ("subagent_probability", self.subagent_probability),
            ("swarm_probability", self.swarm_probability),
            ("completion_probability", self.completion_probability),
            ("blocking_probability", self.blocking_probability),
            ("retry_probability", self.retry_probability),
            ("compaction_abort_probability", self.compaction_abort_probability),
            ("compaction_retry_probability", self.compaction_retry_probability),
        ]
    }

    /// What is wrong with the numbers of sessions and the limits.
    pub open spec fn load_failure(self) -> Option<ConfigError> {
        if self.num_sessions == 0 {
            Some(ConfigError::NoSessions)
        } else if self.concurrent_sessions == 0 {
            Some(ConfigError::NoStreams)
        } else if self.concurrent_sessions > self.num_sessions {
            Some(ConfigError::TooManyStreams)
        } else if self.num_sessions > self.max_sessions || self.num_sessions > self.max_nodes {
            Some(ConfigError::LimitsTooSmall)
        } else if self.block_size == 0 {
            Some(ConfigError::ZeroBlockSize)
        } else if self.context_window_tokens < self.block_size {
            Some(ConfigError::SmallContextWindow)
        } else if self.max_nodes == 0 || self.max_sessions == 0 || self.max_total_input_tokens == 0 {
            Some(ConfigError::ZeroLimit)
        } else {
            None
        }
    }

    /// What is wrong with compaction and the actions.
    pub open spec fn behavior_failure(self, sums: ConfigSums) -> Option<ConfigError> {
        if self.compaction_max_attempts == 0 {
            Some(ConfigError::NoAttempts)
        } else if (self.compaction_abort_probability.above_zero()
            || self.compaction_retry_probability.above_zero()) && self.compaction_max_attempts < 2 {
            Some(ConfigError::FewAttempts)
        } else if sums.with_completion.above_one() {
            Some(ConfigError::ActionSum)
        } else if !self.compaction_trigger_fraction.unit() {
            Some(ConfigError::TriggerFraction)
        } else {
            None
        }
    }

    /// What is wrong with the tool classes.
    pub open spec fn tools_failure(self, sums: ConfigSums) -> Option<ConfigError> {
        if self.tool_classes@.len() == 0 {
            Some(ConfigError::NoToolClasses)
        } else if classes_failure(self.tool_classes@) is Some {
            classes_failure(self.tool_classes@)
        } else if !sums.tool_weight.positive() {
            Some(ConfigError::ToolWeights)
        } else {
            None
        }
    }

    /// The first thing that is wrong with the configuration.
    pub open spec fn failure(self, sums: ConfigSums) -> Option<ConfigError> {
        if self.load_failure() is Some {
            self.load_failure()
        } else if first_disorder(self.distributions()) is Some {
            first_disorder(self.distributions())
        } else if first_zero(self.positive_distributions()) is Some {
            first_zero(self.positive_distributions())
        } else if first_large(self.narrow_distributions()) is Some {
            first_large(self.narrow_distributions())
        } else if first_improbable(self.probabilities()) is Some {
            first_improbable(self.probabilities())
        } else if self.behavior_failure(sums) is Some {
            self.behavior_failure(sums)
        } else {
            self.tools_failure(sums)
        }
    }

    /// The preset of an agent.
    pub fn preset(agent: AgentKind, seed: u64) -> (config: Self)
        ensures
            config == preset_with(agent, seed, config.tool_classes),
            are_default_classes(config.tool_classes@),
    {
        ResolvedGeneratorConfig {
            agent,
            seed,
            num_sessions: 16,
            concurrent_sessions: 8,
            startup_interval_ms: 0,
            restart_delay_ms: UIntDistribution::Fixed { value: 0 },
            turns: UIntDistribution::Uniform { min: 4, max: 10 },
            subagent_turns: UIntDistribution::Uniform { min: 2, max: 5 },
            think_time_ms: UIntDistribution::LogNormal { median: Real { bits: 0x4087_7000_0000_0000 }, sigma: Real { bits: 0x3fe9_9999_9999_999a }, min: 25, max: 15000 },
            output_tokens: UIntDistribution::LogNormal { median: Real { bits: 0x407c_2000_0000_0000 }, sigma: Real { bits: 0x3fec_cccc_cccc_cccd }, min: 16, max: 4096 },
            block_size: 16,
            system_prefix_tokens: UIntDistribution::Fixed {
                value: match agent {
                    AgentKind::ClaudeCode => 12000,
                    AgentKind::Codex => 11000,
                    AgentKind::Opencode => 7000,
                },
            },
            tool_catalog_tokens: UIntDistribution::Fixed {
                value: match agent {
                    AgentKind::ClaudeCode => 14000,
                    AgentKind::Codex => 9000,
                    AgentKind::Opencode => 11000,
                },
            },
            repository_tokens: UIntDistribution::LogNormal { median: Real { bits: 0x409f_4000_0000_0000 }, sigma: Real { bits: 0x3fe6_6666_6666_6666 }, min: 256, max: 12000 },
            session_tokens: UIntDistribution::Uniform { min: 128, max: 1024 },
            user_tokens: UIntDistribution::LogNormal { median: Real { bits: 0x4066_8000_0000_0000 }, sigma: Real { bits: 0x3fec_cccc_cccc_cccd }, min: 16, max: 4096 },
            tool_result_tokens: UIntDistribution::LogNormal { median: Real { bits: 0x4085_e000_0000_0000 }, sigma: Real { bits: 0x3ff1_9999_9999_999a }, min: 16, max: 16384 },
            context_window_tokens: 128000,
            tool_probability: match agent {
                AgentKind::ClaudeCode => Real { bits: 0x3fe3_d70a_3d70_a3d7 },
                AgentKind::Codex => Real { bits: 0x3fd8_f5c2_8f5c_28f6 },
                AgentKind::Opencode => Real { bits: 0x3fde_b851_eb85_1eb8 },
            },
            parallel_tool_probability: match agent {
                AgentKind::ClaudeCode => Real { bits: 0x0000_0000_0000_0000 },
                AgentKind::Codex => Real { bits: 0x3fc8_51eb_851e_b852 },
                AgentKind::Opencode => Real { bits: 0x3fb4_7ae1_47ae_147b },
            },
            subagent_probability: match agent {
                AgentKind::ClaudeCode => Real { bits: 0x3fb9_9999_9999_999a },
                AgentKind::Codex => Real { bits: 0x3fb4_7ae1_47ae_147b },
                AgentKind::Opencode => Real { bits: 0x3fb9_9999_9999_999a },
            },
            swarm_probability: Real { bits: 0x3f99_9999_9999_999a },
            completion_probability: Real { bits: 0x3fb9_9999_9999_999a },
            compaction_enabled: true,
            compaction_trigger_fraction: Real { bits: 0x3fe8_f5c2_8f5c_28f6 },
            summary_input_tokens: UIntDistribution::Uniform { min: 256, max: 1024 },
            summary_output_tokens: UIntDistribution::Uniform { min: 512, max: 2048 },
            retained_recent_tokens: 8192,
            compaction_abort_probability: Real { bits: 0x0000_0000_0000_0000 },
            compaction_retry_probability: Real { bits: 0x0000_0000_0000_0000 },
            compaction_max_attempts: 3,
            compaction_abort_after_ms: UIntDistribution::Fixed { value: 10 },
            max_depth: 2,
            fanout: UIntDistribution::Uniform { min: 2, max: 4 },
            spawn_delay_ms: UIntDistribution::Uniform { min: 5, max: 100 },
            blocking_probability: Real { bits: 0x3fe7_0a3d_70a3_d70a },
            tool_classes: default_tool_classes(),
            parallel_count: UIntDistribution::Uniform { min: 2, max: 4 },
            retry_probability: Real { bits: 0x3fd6_6666_6666_6666 },
            max_nodes: 10000,
            max_sessions: 1000,
            max_total_input_tokens: 250000000,
        }
    }

    /// Validates the configuration, given the sums of its real-valued settings.
    pub fn validate(&self, sums: &ConfigSums) -> (result: Result<(), ConfigError>)
        ensures
            match self.failure(*sums) {
                Some(error) => result == Err::<(), ConfigError>(error),
                None => result is Ok,
            },
    {
        if let Some(error) = self.check_load() {
            return Err(error);
        }
        if let Some(error) = self.check_distributions() {
            return Err(error);
        }
        if let Some(error) = self.check_ranges() {
            return Err(error);
        }
        if let Some(error) = self.check_probabilities() {
            return Err(error);
        }
        if let Some(error) = self.check_behavior(sums) {
            return Err(error);
        }
        if let Some(error) = self.check_tools(sums) {
            return Err(error);
        }
        Ok(())
    }

    fn check_load(&self) -> (result: Option<ConfigError>)
        ensures
            result == self.load_failure(),
    {
        if self.num_sessions == 0 {
            Some(ConfigError::NoSessions)
        } else if self.concurrent_sessions == 0 {
            Some(ConfigError::NoStreams)
        } else if self.concurrent_sessions > self.num_sessions {
            Some(ConfigError::TooManyStreams)
        } else if self.num_sessions > self.max_sessions || self.num_sessions > self.max_nodes {
            Some(ConfigError::LimitsTooSmall)
        } else if self.block_size == 0 {
            Some(ConfigError::ZeroBlockSize)
        } else if self.context_window_tokens < self.block_size {
            Some(ConfigError::SmallContextWindow)
        } else if self.max_nodes == 0 || self.max_sessions == 0 || self.max_total_input_tokens == 0 {
            Some(ConfigError::ZeroLimit)
        } else {
            None
        }
    }

    fn check_distributions(&self) -> (result: Option<ConfigError>)
        ensures
            result == first_disorder(self.distributions()),
    {
        let list: Vec<Named> = vec![
            Named { name: "restart delay", distribution: self.restart_delay_ms },
            Named { name: "turns", distribution: self.turns },
            Named { name: "subagent turns", distribution: self.subagent_turns },
            Named { name: "think time", distribution: self.think_time_ms },
            Named { name: "output tokens", distribution: self.output_tokens },
            Named { name: "system prefix tokens", distribution: self.system_prefix_tokens },
            Named { name: "tool catalog tokens", distribution: self.tool_catalog_tokens },
            Named { name: "repository tokens", distribution: self.repository_tokens },
            Named { name: "session tokens", distribution: self.session_tokens },
            Named { name: "user tokens", distribution: self.user_tokens },
            Named { name: "tool result tokens", distribution: self.tool_result_tokens },
            Named { name: "summary input tokens", distribution: self.summary_input_tokens },
            Named { name: "summary output tokens", distribution: self.summary_output_tokens },
            Named { name: "compaction abort delay", distribution: self.compaction_abort_after_ms },
            Named { name: "subagent fanout", distribution: self.fanout },
            Named { name: "spawn delay", distribution: self.spawn_delay_ms },
            Named { name: "parallel tool count", distribution: self.parallel_count },
        ];
        assert(list@ =~= self.distributions());
        check_disorder(&list)
    }

    fn check_ranges(&self) -> (result: Option<ConfigError>)
        ensures
            result == if first_zero(self.positive_distributions()) is Some {
                first_zero(self.positive_distributions())
            } else {
                first_large(self.narrow_distributions())
            },
    {
        let positive: Vec<Named> = vec![
            Named { name: "turns", distribution: self.turns },
            Named { name: "subagent turns", distribution: self.subagent_turns },
            Named { name: "output tokens", distribution: self.output_tokens },
            Named { name: "summary output tokens", distribution: self.summary_output_tokens },
            Named { name: "subagent fanout", distribution: self.fanout },
            Named { name: "parallel tool count", distribution: self.parallel_count },
        ];
        assert(positive@ =~= self.positive_distributions());
        if let Some(error) = check_zero(&positive) {
            return Some(error);
        }
        let narrow: Vec<Named> = vec![
            Named { name: "output tokens", distribution: self.output_tokens },
            Named { name: "summary output tokens", distribution: self.summary_output_tokens },
        ];
        assert(narrow@ =~= self.narrow_distributions());
        check_large(&narrow)
    }

    fn check_probabilities(&self) -> (result: Option<ConfigError>)
        ensures
            result == first_improbable(self.probabilities()),
    {
        let list: Vec<(&'static str, Real)> = vec![
            ("tool_probability", self.tool_probability),
            ("parallel_tool_probability", self.parallel_tool_probability),
            ("subagent_probability", self.subagent_probability),
            ("swarm_probability", self.swarm_probability),
            ("completion_probability", self.completion_probability),
            ("blocking_probability", self.blocking_probability),
            ("retry_probability", self.retry_probability),
            ("compaction_abort_probability", self.compaction_abort_probability),
            ("compaction_retry_probability", self.compaction_retry_probability),
        ];
        assert(list@ =~= self.probabilities());
        check_improbable(&list)
    }

    fn check_behavior(&self, sums: &ConfigSums) -> (result: Option<ConfigError>)
        ensures
            result == self.behavior_failure(*sums),
    {
        if self.compaction_max_attempts == 0 {
            Some(ConfigError::NoAttempts)
        } else if (self.compaction_abort_probability.is_above_zero()
            || self.compaction_retry_probability.is_above_zero()) && self.compaction_max_attempts < 2 {
            Some(ConfigError::FewAttempts)
        } else if sums.with_completion.is_above_one() {
            Some(ConfigError::ActionSum)
        } else if !self.compaction_trigger_fraction.is_unit() {
            Some(ConfigError::TriggerFraction)
        } else {
            None
        }
    }

    fn check_tools(&self, sums: &ConfigSums) -> (result: Option<ConfigError>)
        ensures
            result == self.tools_failure(*sums),
    {
        if self.tool_classes.len() == 0 {
            return Some(ConfigError::NoToolClasses);
        }
        let mut names: StringHashMap<bool> = StringHashMap::new();
        assert(names@.dom() =~= class_names(self.tool_classes@.take(0)));
        assert(self.tool_classes@.take(0) =~= Seq::empty());
        let mut i: usize = 0;
        while i < self.tool_classes.len()
            invariant
                i <= self.tool_classes@.len(),
                names@.dom() == class_names(self.tool_classes@.take(i as int)),
                classes_failure(self.tool_classes@.take(i as int)) is None,
                self.tool_classes@.len() > 0,
            decreases self.tool_classes@.len() - i,
        {
            let class = &self.tool_classes[i];
            let ghost past = self.tool_classes@.take(i as int);
            let ghost next = self.tool_classes@.take(i + 1);
            proof {
                assert(next.drop_last() =~= past);
                assert(next.last() == *class);
            }
            let failure = check_class(class, &names);
            if failure.is_some() {
                proof {
                    lemma_classes_keep_failing(self.tool_classes@, i + 1);
                }
                return failure;
            }
            names.insert(class.name.clone(), true);
            proof {
                let old_names = Seq::new(past.len(), |k: int| past[k].name@);
                let new_names = Seq::new(next.len(), |k: int| next[k].name@);
                assert(new_names =~= old_names.push(class.name@));
                crate::trace::load::lemma_push_to_set(old_names, class.name@);
                assert(names@.dom() =~= class_names(next));
            }
            i += 1;
        }
        assert(self.tool_classes@.take(i as int) =~= self.tool_classes@);
        if !sums.tool_weight.is_positive() {
            return Some(ConfigError::ToolWeights);
        }
        None
    }
}

fn check_class(class: &ToolClass, names: &StringHashMap<bool>) -> (result: Option<ConfigError>)
    ensures
        result == class_failure(*class, names@.dom()),
{
    if is_blank(class.name.as_str()) || names.contains_key(class.name.as_str()) {
        return Some(ConfigError::ToolNames);
    }
    if !class.weight.is_positive() {
        return Some(ConfigError::ToolWeight { name: class.name.clone() });
    }
    if !class.error_probability.is_unit() {
        return Some(ConfigError::Probability { name: "tool error probability" });
    }
    if let Err(error) = class.latency_ms.validate() {
        return Some(ConfigError::Distribution { name: "tool latency", error });
    }
    if let Err(error) = class.result_tokens.validate() {
        return Some(ConfigError::Distribution { name: "tool result tokens", error });
    }
    None
}

proof fn lemma_first_disorder_keeps(list: Seq<Named>, n: int)
    requires
        0 <= n <= list.len(),
        first_disorder(list.take(n)) is Some,
    ensures
        first_disorder(list) == first_disorder(list.take(n)),
    decreases list.len(),
{
    if n == list.len() {
        assert(list.take(n) =~= list);
    } else {
        assert(list.drop_last().take(n) =~= list.take(n));
        lemma_first_disorder_keeps(list.drop_last(), n);
    }
}

fn check_disorder(list: &Vec<Named>) -> (result: Option<ConfigError>)
    ensures
        result == first_disorder(list@),
{
    let mut i: usize = 0;
    assert(list@.take(0) =~= Seq::empty());
    while i < list.len()
        invariant
            i <= list@.len(),
            first_disorder(list@.take(i as int)) is None,
        decreases list@.len() - i,
    {
        proof {
            assert(list@.take(i + 1).drop_last() =~= list@.take(i as int));
            if first_disorder(list@.take(i + 1)) is Some {
                lemma_first_disorder_keeps(list@, i + 1);
            }
        }
        if let Err(error) = list[i].distribution.validate() {
            return Some(ConfigError::Distribution { name: list[i].name, error });
        }
        i += 1;
    }
    assert(list@.take(i as int) =~= list@);
    None
}

proof fn lemma_first_zero_keeps(list: Seq<Named>, n: int)
    requires
        0 <= n <= list.len(),
        first_zero(list.take(n)) is Some,
    ensures
        first_zero(list) == first_zero(list.take(n)),
    decreases list.len(),
{
    if n == list.len() {
        assert(list.take(n) =~= list);
    } else {
        assert(list.drop_last().take(n) =~= list.take(n));
        lemma_first_zero_keeps(list.drop_last(), n);
    }
}

fn check_zero(list: &Vec<Named>) -> (result: Option<ConfigError>)
    ensures
        result == first_zero(list@),
{
    let mut i: usize = 0;
    assert(list@.take(0) =~= Seq::empty());
    while i < list.len()
        invariant
            i <= list@.len(),
            first_zero(list@.take(i as int)) is None,
        decreases list@.len() - i,
    {
        proof {
            assert(list@.take(i + 1).drop_last() =~= list@.take(i as int));
            if first_zero(list@.take(i + 1)) is Some {
                lemma_first_zero_keeps(list@, i + 1);
            }
        }
        if list[i].distribution.bounds().0 == 0 {
            return Some(ConfigError::CanBeZero { name: list[i].name });
        }
        i += 1;
    }
    assert(list@.take(i as int) =~= list@);
    None
}

proof fn lemma_first_large_keeps(list: Seq<Named>, n: int)
    requires
        0 <= n <= list.len(),
        first_large(list.take(n)) is Some,
    ensures
        first_large(list) == first_large(list.take(n)),
    decreases list.len(),
{
    if n == list.len() {
        assert(list.take(n) =~= list);
    } else {
        assert(list.drop_last().take(n) =~= list.take(n));
        lemma_first_large_keeps(list.drop_last(), n);
    }
}

fn check_large(list: &Vec<Named>) -> (result: Option<ConfigError>)
    ensures
        result == first_large(list@),
{
    let mut i: usize = 0;
    assert(list@.take(0) =~= Seq::empty());
    while i < list.len()
        invariant
            i <= list@.len(),
            first_large(list@.take(i as int)) is None,
        decreases list@.len() - i,
    {
        proof {
            assert(list@.take(i + 1).drop_last() =~= list@.take(i as int));
            if first_large(list@.take(i + 1)) is Some {
                lemma_first_large_keeps(list@, i + 1);
            }
        }
        if list[i].distribution.bounds().1 > u32::MAX as u64 {
            return Some(ConfigError::TooLarge { name: list[i].name });
        }
        i += 1;
    }
    assert(list@.take(i as int) =~= list@);
    None
}

proof fn lemma_first_improbable_keeps(list: Seq<(&'static str, Real)>, n: int)
    requires
        0 <= n <= list.len(),
        first_improbable(list.take(n)) is Some,
    ensures
        first_improbable(list) == first_improbable(list.take(n)),
    decreases list.len(),
{
    if n == list.len() {
        assert(list.take(n) =~= list);
    } else {
        assert(list.drop_last().take(n) =~= list.take(n));
        lemma_first_improbable_keeps(list.drop_last(), n);
    }
}

fn check_improbable(list: &Vec<(&'static str, Real)>) -> (result: Option<ConfigError>)
    ensures
        result == first_improbable(list@),
{
    let mut i: usize = 0;
    assert(list@.take(0) =~= Seq::empty());
    while i < list.len()
        invariant
            i <= list@.len(),
            first_improbable(list@.take(i as int)) is None,
        decreases list@.len() - i,
    {
        proof {
            assert(list@.take(i + 1).drop_last() =~= list@.take(i as int));
            if first_improbable(list@.take(i + 1)) is Some {
                lemma_first_improbable_keeps(list@, i + 1);
            }
        }
        if !list[i].1.is_unit() {
            return Some(ConfigError::Probability { name: list[i].0 });
        }
        i += 1;
    }
    assert(list@.take(i as int) =~= list@);
    None
}

proof fn lemma_all_in_order(list: Seq<Named>, k: int)
    requires
        first_disorder(list) is None,
        0 <= k < list.len(),
    ensures
        list[k].distribution.failure() is None,
    decreases list.len(),
{
    if k < list.len() - 1 {
        assert(list.drop_last()[k] == list[k]);
        lemma_all_in_order(list.drop_last(), k);
    }
}

proof fn lemma_class_in_order(classes: Seq<ToolClass>, k: int)
    requires
        classes_failure(classes) is None,
        0 <= k < classes.len(),
    ensures
        classes[k].latency_ms.failure() is None,
        classes[k].result_tokens.failure() is None,
    decreases classes.len(),
{
    if k < classes.len() - 1 {
        assert(classes.drop_last()[k] == classes[k]);
        lemma_class_in_order(classes.drop_last(), k);
    }
}

impl ResolvedGeneratorConfig {
    /// What planning relies on.
    pub open spec fn ready(self) -> bool {
        &&& self.load_failure() is None
        &&& self.tool_classes@.len() > 0
        &&& forall|k: int|
            0 <= k < self.tool_classes@.len() ==> (#[trigger] self.tool_classes@[k]).latency_ms.failure() is None
                && self.tool_classes@[k].result_tokens.failure() is None
        &&& self.restart_delay_ms.failure() is None
        &&& self.turns.failure() is None
        &&& self.subagent_turns.failure() is None
        &&& self.think_time_ms.failure() is None
        &&& self.output_tokens.failure() is None
        &&& self.system_prefix_tokens.failure() is None
        &&& self.tool_catalog_tokens.failure() is None
        &&& self.repository_tokens.failure() is None
        &&& self.session_tokens.failure() is None
        &&& self.user_tokens.failure() is None
        &&& self.tool_result_tokens.failure() is None
        &&& self.summary_input_tokens.failure() is None
        &&& self.summary_output_tokens.failure() is None
        &&& self.compaction_abort_after_ms.failure() is None
        &&& self.fanout.failure() is None
        &&& self.spawn_delay_ms.failure() is None
        &&& self.parallel_count.failure() is None
    }

    /// A valid configuration can be planned.
    pub proof fn law_valid_is_ready(self, sums: ConfigSums)
        requires
            self.failure(sums) is None,
        ensures
            self.ready(),
    {
        let list = self.distributions();
        lemma_all_in_order(list, 0);
        lemma_all_in_order(list, 1);
        lemma_all_in_order(list, 2);
        lemma_all_in_order(list, 3);
        lemma_all_in_order(list, 4);
        lemma_all_in_order(list, 5);
        lemma_all_in_order(list, 6);
        lemma_all_in_order(list, 7);
        lemma_all_in_order(list, 8);
        lemma_all_in_order(list, 9);
        lemma_all_in_order(list, 10);
        lemma_all_in_order(list, 11);
        lemma_all_in_order(list, 12);
        lemma_all_in_order(list, 13);
        lemma_all_in_order(list, 14);
        lemma_all_in_order(list, 15);
        lemma_all_in_order(list, 16);
        assert forall|k: int| 0 <= k < self.tool_classes@.len() implies (
        #[trigger] self.tool_classes@[k]).latency_ms.failure() is None
            && self.tool_classes@[k].result_tokens.failure() is None by {
            lemma_class_in_order(self.tool_classes@, k);
        }
    }
}

} // verus!
