//! What settings of a scenario hold, and where they come from.

use crate::double::Real;
use crate::scenario::config::{
    are_default_classes, class_failure, class_names, classes_failure, first_disorder, first_improbable,
    first_large, first_zero, is_merged, preset_with, ConfigSums, GeneratorConfig, Named, ResolvedGeneratorConfig,
    ToolClass,
};
use crate::scenario::distribution::UIntDistribution;
use crate::text::blank;
use vstd::prelude::*;

verus! {

// ---------------------------------------------------------------------------------------------
// Overrides
// ---------------------------------------------------------------------------------------------

/// What the agent of a configuration has by itself.
pub open spec fn own_settings(
    resolved: ResolvedGeneratorConfig,
    config: GeneratorConfig,
) -> ResolvedGeneratorConfig {
    preset_with(config.agent, config.seed, resolved.tool_classes)
}

/// The load of a run is as asked for, and else as the agent has it.
pub proof fn law_load_is_as_asked(resolved: ResolvedGeneratorConfig, config: GeneratorConfig)
    requires
        is_merged(resolved, config),
    ensures
        resolved.agent == config.agent,
        resolved.seed == config.seed,
        config.load.num_sessions is Some ==> resolved.num_sessions == config.load.num_sessions->0,
        config.load.num_sessions is None ==> resolved.num_sessions == own_settings(resolved, config).num_sessions,
        config.load.concurrent_sessions is Some ==> resolved.concurrent_sessions == config.load.concurrent_sessions->0,
        config.load.concurrent_sessions is None ==> resolved.concurrent_sessions == own_settings(resolved, config).concurrent_sessions,
        config.load.startup_interval_ms is Some ==> resolved.startup_interval_ms == config.load.startup_interval_ms->0,
        config.load.startup_interval_ms is None ==> resolved.startup_interval_ms == own_settings(resolved, config).startup_interval_ms,
        config.load.restart_delay_ms is Some ==> resolved.restart_delay_ms == config.load.restart_delay_ms->0,
        config.load.restart_delay_ms is None ==> resolved.restart_delay_ms == own_settings(resolved, config).restart_delay_ms,
{
}

/// The course of sessions is as asked for, and else as the agent has it.
pub proof fn law_trajectories_are_as_asked(resolved: ResolvedGeneratorConfig, config: GeneratorConfig)
    requires
        is_merged(resolved, config),
    ensures
        resolved.agent == config.agent,
        resolved.seed == config.seed,
        config.trajectory.turns is Some ==> resolved.turns == config.trajectory.turns->0,
        config.trajectory.turns is None ==> resolved.turns == own_settings(resolved, config).turns,
        config.trajectory.think_time_ms is Some ==> resolved.think_time_ms == config.trajectory.think_time_ms->0,
        config.trajectory.think_time_ms is None ==> resolved.think_time_ms == own_settings(resolved, config).think_time_ms,
        config.trajectory.output_tokens is Some ==> resolved.output_tokens == config.trajectory.output_tokens->0,
        config.trajectory.output_tokens is None ==> resolved.output_tokens == own_settings(resolved, config).output_tokens,
{
}

/// Delegation is as asked for, and else as the agent has it.
pub proof fn law_delegation_is_as_asked(resolved: ResolvedGeneratorConfig, config: GeneratorConfig)
    requires
        is_merged(resolved, config),
    ensures
        resolved.agent == config.agent,
        resolved.seed == config.seed,
        config.subagents.turns is Some ==> resolved.subagent_turns == config.subagents.turns->0,
        config.subagents.turns is None ==> resolved.subagent_turns == own_settings(resolved, config).subagent_turns,
        config.subagents.max_depth is Some ==> resolved.max_depth == config.subagents.max_depth->0,
        config.subagents.max_depth is None ==> resolved.max_depth == own_settings(resolved, config).max_depth,
        config.subagents.fanout is Some ==> resolved.fanout == config.subagents.fanout->0,
        config.subagents.fanout is None ==> resolved.fanout == own_settings(resolved, config).fanout,
        config.subagents.spawn_delay_ms is Some ==> resolved.spawn_delay_ms == config.subagents.spawn_delay_ms->0,
        config.subagents.spawn_delay_ms is None ==> resolved.spawn_delay_ms == own_settings(resolved, config).spawn_delay_ms,
        config.subagents.blocking_probability is Some ==> resolved.blocking_probability == config.subagents.blocking_probability->0,
        config.subagents.blocking_probability is None ==> resolved.blocking_probability == own_settings(resolved, config).blocking_probability,
{
}

/// Token counts are as asked for, and else as the agent has them.
pub proof fn law_token_counts_are_as_asked(resolved: ResolvedGeneratorConfig, config: GeneratorConfig)
    requires
        is_merged(resolved, config),
    ensures
        resolved.agent == config.agent,
        resolved.seed == config.seed,
        config.tokens.block_size is Some ==> resolved.block_size == config.tokens.block_size->0,
        config.tokens.block_size is None ==> resolved.block_size == own_settings(resolved, config).block_size,
        config.tokens.system_prefix_tokens is Some ==> resolved.system_prefix_tokens == config.tokens.system_prefix_tokens->0,
        config.tokens.system_prefix_tokens is None ==> resolved.system_prefix_tokens == own_settings(resolved, config).system_prefix_tokens,
        config.tokens.tool_catalog_tokens is Some ==> resolved.tool_catalog_tokens == config.tokens.tool_catalog_tokens->0,
        config.tokens.tool_catalog_tokens is None ==> resolved.tool_catalog_tokens == own_settings(resolved, config).tool_catalog_tokens,
        config.tokens.repository_tokens is Some ==> resolved.repository_tokens == config.tokens.repository_tokens->0,
        config.tokens.repository_tokens is None ==> resolved.repository_tokens == own_settings(resolved, config).repository_tokens,
        config.tokens.session_tokens is Some ==> resolved.session_tokens == config.tokens.session_tokens->0,
        config.tokens.session_tokens is None ==> resolved.session_tokens == own_settings(resolved, config).session_tokens,
        config.tokens.user_tokens is Some ==> resolved.user_tokens == config.tokens.user_tokens->0,
        config.tokens.user_tokens is None ==> resolved.user_tokens == own_settings(resolved, config).user_tokens,
        config.tokens.tool_result_tokens is Some ==> resolved.tool_result_tokens == config.tokens.tool_result_tokens->0,
        config.tokens.tool_result_tokens is None ==> resolved.tool_result_tokens == own_settings(resolved, config).tool_result_tokens,
        config.tokens.context_window_tokens is Some ==> resolved.context_window_tokens == config.tokens.context_window_tokens->0,
        config.tokens.context_window_tokens is None ==> resolved.context_window_tokens == own_settings(resolved, config).context_window_tokens,
{
}

/// The behavior of a session is as asked for, and else as the agent has it.
pub proof fn law_behavior_is_as_asked(resolved: ResolvedGeneratorConfig, config: GeneratorConfig)
    requires
        is_merged(resolved, config),
    ensures
        resolved.agent == config.agent,
        resolved.seed == config.seed,
        config.behavior.tool_probability is Some ==> resolved.tool_probability == config.behavior.tool_probability->0,
        config.behavior.tool_probability is None ==> resolved.tool_probability == own_settings(resolved, config).tool_probability,
        config.behavior.parallel_tool_probability is Some ==> resolved.parallel_tool_probability == config.behavior.parallel_tool_probability->0,
        config.behavior.parallel_tool_probability is None ==> resolved.parallel_tool_probability == own_settings(resolved, config).parallel_tool_probability,
        config.behavior.subagent_probability is Some ==> resolved.subagent_probability == config.behavior.subagent_probability->0,
        config.behavior.subagent_probability is None ==> resolved.subagent_probability == own_settings(resolved, config).subagent_probability,
        config.behavior.swarm_probability is Some ==> resolved.swarm_probability == config.behavior.swarm_probability->0,
        config.behavior.swarm_probability is None ==> resolved.swarm_probability == own_settings(resolved, config).swarm_probability,
        config.behavior.completion_probability is Some ==> resolved.completion_probability == config.behavior.completion_probability->0,
        config.behavior.completion_probability is None ==> resolved.completion_probability == own_settings(resolved, config).completion_probability,
{
}

/// Compaction is as asked for, and else as the agent has it.
pub proof fn law_compaction_is_as_asked(resolved: ResolvedGeneratorConfig, config: GeneratorConfig)
    requires
        is_merged(resolved, config),
    ensures
        resolved.agent == config.agent,
        resolved.seed == config.seed,
        config.compaction.enabled is Some ==> resolved.compaction_enabled == config.compaction.enabled->0,
        config.compaction.enabled is None ==> resolved.compaction_enabled == own_settings(resolved, config).compaction_enabled,
        config.compaction.trigger_fraction is Some ==> resolved.compaction_trigger_fraction == config.compaction.trigger_fraction->0,
        config.compaction.trigger_fraction is None ==> resolved.compaction_trigger_fraction == own_settings(resolved, config).compaction_trigger_fraction,
        config.compaction.summary_input_tokens is Some ==> resolved.summary_input_tokens == config.compaction.summary_input_tokens->0,
        config.compaction.summary_input_tokens is None ==> resolved.summary_input_tokens == own_settings(resolved, config).summary_input_tokens,
        config.compaction.summary_output_tokens is Some ==> resolved.summary_output_tokens == config.compaction.summary_output_tokens->0,
        config.compaction.summary_output_tokens is None ==> resolved.summary_output_tokens == own_settings(resolved, config).summary_output_tokens,
        config.compaction.retained_recent_tokens is Some ==> resolved.retained_recent_tokens == config.compaction.retained_recent_tokens->0,
        config.compaction.retained_recent_tokens is None ==> resolved.retained_recent_tokens == own_settings(resolved, config).retained_recent_tokens,
        config.compaction.abort_probability is Some ==> resolved.compaction_abort_probability == config.compaction.abort_probability->0,
        config.compaction.abort_probability is None ==> resolved.compaction_abort_probability == own_settings(resolved, config).compaction_abort_probability,
        config.compaction.retry_probability is Some ==> resolved.compaction_retry_probability == config.compaction.retry_probability->0,
        config.compaction.retry_probability is None ==> resolved.compaction_retry_probability == own_settings(resolved, config).compaction_retry_probability,
        config.compaction.max_attempts is Some ==> resolved.compaction_max_attempts == config.compaction.max_attempts->0,
        config.compaction.max_attempts is None ==> resolved.compaction_max_attempts == own_settings(resolved, config).compaction_max_attempts,
        config.compaction.abort_after_ms is Some ==> resolved.compaction_abort_after_ms == config.compaction.abort_after_ms->0,
        config.compaction.abort_after_ms is None ==> resolved.compaction_abort_after_ms == own_settings(resolved, config).compaction_abort_after_ms,
{
}

/// Tools are as asked for, and else as the agent has them.
pub proof fn law_tools_are_as_asked(resolved: ResolvedGeneratorConfig, config: GeneratorConfig)
    requires
        is_merged(resolved, config),
    ensures
        resolved.agent == config.agent,
        resolved.seed == config.seed,
        config.tools.classes is Some ==> resolved.tool_classes == config.tools.classes->0,
        config.tools.classes is None ==> are_default_classes(resolved.tool_classes@),
        config.tools.parallel_count is Some ==> resolved.parallel_count == config.tools.parallel_count->0,
        config.tools.parallel_count is None ==> resolved.parallel_count == own_settings(resolved, config).parallel_count,
        config.tools.retry_probability is Some ==> resolved.retry_probability == config.tools.retry_probability->0,
        config.tools.retry_probability is None ==> resolved.retry_probability == own_settings(resolved, config).retry_probability,
{
}

/// Limits are as asked for, and else as the agent has them.
pub proof fn law_limits_are_as_asked(resolved: ResolvedGeneratorConfig, config: GeneratorConfig)
    requires
        is_merged(resolved, config),
    ensures
        resolved.agent == config.agent,
        resolved.seed == config.seed,
        config.limits.max_nodes is Some ==> resolved.max_nodes == config.limits.max_nodes->0,
        config.limits.max_nodes is None ==> resolved.max_nodes == own_settings(resolved, config).max_nodes,
        config.limits.max_sessions is Some ==> resolved.max_sessions == config.limits.max_sessions->0,
        config.limits.max_sessions is None ==> resolved.max_sessions == own_settings(resolved, config).max_sessions,
        config.limits.max_total_input_tokens is Some ==> resolved.max_total_input_tokens == config.limits.max_total_input_tokens->0,
        config.limits.max_total_input_tokens is None ==> resolved.max_total_input_tokens == own_settings(resolved, config).max_total_input_tokens,
{
}

// ---------------------------------------------------------------------------------------------
// Validity
// ---------------------------------------------------------------------------------------------

/// The least value of a distribution.
pub open spec fn least(distribution: UIntDistribution) -> u64 {
    match distribution {
        UIntDistribution::Fixed { value } => value,
        UIntDistribution::Uniform { min, .. } => min,
        UIntDistribution::LogNormal { min, .. } => min,
    }
}

/// The greatest value of a distribution.
pub open spec fn greatest(distribution: UIntDistribution) -> u64 {
    match distribution {
        UIntDistribution::Fixed { value } => value,
        UIntDistribution::Uniform { max, .. } => max,
        UIntDistribution::LogNormal { max, .. } => max,
    }
}

/// A distribution has values, and a shape where it needs one.
pub open spec fn is_sound(distribution: UIntDistribution) -> bool {
    &&& least(distribution) <= greatest(distribution)
    &&& match distribution {
        UIntDistribution::LogNormal { median, sigma, .. } => 0 < median.bits < 0x7ff0_0000_0000_0000 && 0 < sigma.bits
            < 0x7ff0_0000_0000_0000,
        _ => true,
    }
}

/// A probability: from zero to one.
pub open spec fn is_chance(chance: Real) -> bool {
    chance.bits <= 0x3ff0_0000_0000_0000 || chance.bits == 0x8000_0000_0000_0000
}

/// The load makes sense: there are sessions, streams to run them in and room for all of them, and blocks
/// that fit the context window.
pub open spec fn load_is_sound(config: ResolvedGeneratorConfig) -> bool {
    &&& 1 <= config.concurrent_sessions <= config.num_sessions
    &&& config.num_sessions <= config.max_sessions
    &&& config.num_sessions <= config.max_nodes
    &&& 1 <= config.block_size <= config.context_window_tokens
    &&& config.max_total_input_tokens > 0
}

/// Every distribution makes sense; what must happen at least once does; and outputs fit their count.
pub open spec fn distributions_are_sound(config: ResolvedGeneratorConfig) -> bool {
    &&& is_sound(config.restart_delay_ms)
    &&& is_sound(config.turns)
    &&& is_sound(config.subagent_turns)
    &&& is_sound(config.think_time_ms)
    &&& is_sound(config.output_tokens)
    &&& is_sound(config.system_prefix_tokens)
    &&& is_sound(config.tool_catalog_tokens)
    &&& is_sound(config.repository_tokens)
    &&& is_sound(config.session_tokens)
    &&& is_sound(config.user_tokens)
    &&& is_sound(config.tool_result_tokens)
    &&& is_sound(config.summary_input_tokens)
    &&& is_sound(config.summary_output_tokens)
    &&& is_sound(config.compaction_abort_after_ms)
    &&& is_sound(config.fanout)
    &&& is_sound(config.spawn_delay_ms)
    &&& is_sound(config.parallel_count)
    &&& least(config.turns) > 0
    &&& least(config.subagent_turns) > 0
    &&& least(config.output_tokens) > 0
    &&& least(config.summary_output_tokens) > 0
    &&& least(config.fanout) > 0
    &&& least(config.parallel_count) > 0
    &&& greatest(config.output_tokens) <= u32::MAX
    &&& greatest(config.summary_output_tokens) <= u32::MAX
}

/// Every probability is one.
pub open spec fn chances_are_sound(config: ResolvedGeneratorConfig) -> bool {
    &&& is_chance(config.tool_probability)
    &&& is_chance(config.parallel_tool_probability)
    &&& is_chance(config.subagent_probability)
    &&& is_chance(config.swarm_probability)
    &&& is_chance(config.completion_probability)
    &&& is_chance(config.blocking_probability)
    &&& is_chance(config.retry_probability)
    &&& is_chance(config.compaction_abort_probability)
    &&& is_chance(config.compaction_retry_probability)
    &&& is_chance(config.compaction_trigger_fraction)
}

/// A tool class has a name that no other has, some weight, and sound latencies and results.
pub open spec fn class_is_sound(classes: Seq<ToolClass>, k: int) -> bool {
    let class = classes[k];
    &&& !blank(class.name@)
    &&& 0 < class.weight.bits < 0x7ff0_0000_0000_0000
    &&& is_chance(class.error_probability)
    &&& is_sound(class.latency_ms)
    &&& is_sound(class.result_tokens)
    &&& forall|j: int| 0 <= j < k ==> (#[trigger] classes[j]).name@ != class.name@
}

/// Compaction may be tried once, and twice where it may be given up on or tried again.
pub open spec fn attempts_are_sound(config: ResolvedGeneratorConfig) -> bool {
    let again = 0 < config.compaction_abort_probability.bits <= 0x7ff0_0000_0000_0000 || 0
        < config.compaction_retry_probability.bits <= 0x7ff0_0000_0000_0000;
    config.compaction_max_attempts >= if again {
        2usize
    } else {
        1
    }
}

/// A configuration is valid exactly where its load, its distributions, its probabilities, its attempts
/// and its tool classes make sense, and its actions are no more likely than certain.
pub proof fn law_valid_configurations_make_sense(config: ResolvedGeneratorConfig, sums: ConfigSums)
    ensures
        config.failure(sums) is None <==> {
            &&& load_is_sound(config)
            &&& distributions_are_sound(config)
            &&& chances_are_sound(config)
            &&& attempts_are_sound(config)
            &&& !(0x3ff0_0000_0000_0000 < sums.with_completion.bits <= 0x7ff0_0000_0000_0000)
            &&& 0 < sums.tool_weight.bits < 0x7ff0_0000_0000_0000
            &&& config.tool_classes@.len() > 0
            &&& forall|k: int|
                0 <= k < config.tool_classes@.len() ==> #[trigger] class_is_sound(config.tool_classes@, k)
        },
{
    assert(config.load_failure() is None <==> load_is_sound(config));
    lemma_distributions(config);
    lemma_chances(config);
    assert(config.behavior_failure(sums) is None <==> attempts_are_sound(config) && !(0x3ff0_0000_0000_0000
        < sums.with_completion.bits <= 0x7ff0_0000_0000_0000) && is_chance(config.compaction_trigger_fraction));
    lemma_classes(config.tool_classes@);
}

proof fn lemma_sound(distribution: UIntDistribution)
    ensures
        distribution.failure() is None <==> is_sound(distribution),
        distribution.range() == (least(distribution), greatest(distribution)),
{
}

proof fn lemma_orders(list: Seq<Named>)
    ensures
        first_disorder(list) is None <==> forall|i: int|
            0 <= i < list.len() ==> is_sound((#[trigger] list[i]).distribution),
    decreases list.len(),
{
    if list.len() > 0 {
        let rest = list.drop_last();
        lemma_orders(rest);
        lemma_sound(list.last().distribution);
        assert forall|i: int| 0 <= i < rest.len() implies rest[i] == #[trigger] list[i] by {}
        if first_disorder(list) is None {
            assert(first_disorder(rest) is None);
            assert forall|i: int| 0 <= i < list.len() implies is_sound((#[trigger] list[i]).distribution) by {
                if i < rest.len() {
                    assert(is_sound(rest[i].distribution));
                }
            }
        }
    }
}

proof fn lemma_zeros(list: Seq<Named>)
    ensures
        first_zero(list) is None <==> forall|i: int|
            0 <= i < list.len() ==> least((#[trigger] list[i]).distribution) > 0,
    decreases list.len(),
{
    if list.len() > 0 {
        let rest = list.drop_last();
        lemma_zeros(rest);
        lemma_sound(list.last().distribution);
        assert forall|i: int| 0 <= i < rest.len() implies rest[i] == #[trigger] list[i] by {}
        if first_zero(list) is None {
            assert(first_zero(rest) is None);
            assert forall|i: int| 0 <= i < list.len() implies least((#[trigger] list[i]).distribution) > 0 by {
                if i < rest.len() {
                    assert(least(rest[i].distribution) > 0);
                }
            }
        }
    }
}

proof fn lemma_large(list: Seq<Named>)
    ensures
        first_large(list) is None <==> forall|i: int|
            0 <= i < list.len() ==> greatest((#[trigger] list[i]).distribution) <= u32::MAX,
    decreases list.len(),
{
    if list.len() > 0 {
        let rest = list.drop_last();
        lemma_large(rest);
        lemma_sound(list.last().distribution);
        assert forall|i: int| 0 <= i < rest.len() implies rest[i] == #[trigger] list[i] by {}
        if first_large(list) is None {
            assert(first_large(rest) is None);
            assert forall|i: int| 0 <= i < list.len() implies greatest((#[trigger] list[i]).distribution)
                <= u32::MAX by {
                if i < rest.len() {
                    assert(greatest(rest[i].distribution) <= u32::MAX);
                }
            }
        }
    }
}

proof fn lemma_improbable(list: Seq<(&'static str, Real)>)
    ensures
        first_improbable(list) is None <==> forall|i: int| 0 <= i < list.len() ==> is_chance((#[trigger] list[i]).1),
    decreases list.len(),
{
    if list.len() > 0 {
        let rest = list.drop_last();
        lemma_improbable(rest);
        assert(list.last().1.unit() <==> is_chance(list.last().1));
        assert forall|i: int| 0 <= i < rest.len() implies rest[i] == #[trigger] list[i] by {}
        if first_improbable(list) is None {
            assert(first_improbable(rest) is None);
            assert forall|i: int| 0 <= i < list.len() implies is_chance((#[trigger] list[i]).1) by {
                if i < rest.len() {
                    assert(is_chance(rest[i].1));
                }
            }
        }
    }
}

proof fn lemma_distributions(config: ResolvedGeneratorConfig)
    ensures
        first_disorder(config.distributions()) is None && first_zero(config.positive_distributions()) is None
            && first_large(config.narrow_distributions()) is None <==> distributions_are_sound(config),
{
    let all = config.distributions();
    let positive = config.positive_distributions();
    let narrow = config.narrow_distributions();
    lemma_orders(all);
    lemma_zeros(positive);
    lemma_large(narrow);
    assert(all[0].distribution == config.restart_delay_ms);
    assert(all[1].distribution == config.turns);
    assert(all[2].distribution == config.subagent_turns);
    assert(all[3].distribution == config.think_time_ms);
    assert(all[4].distribution == config.output_tokens);
    assert(all[5].distribution == config.system_prefix_tokens);
    assert(all[6].distribution == config.tool_catalog_tokens);
    assert(all[7].distribution == config.repository_tokens);
    assert(all[8].distribution == config.session_tokens);
    assert(all[9].distribution == config.user_tokens);
    assert(all[10].distribution == config.tool_result_tokens);
    assert(all[11].distribution == config.summary_input_tokens);
    assert(all[12].distribution == config.summary_output_tokens);
    assert(all[13].distribution == config.compaction_abort_after_ms);
    assert(all[14].distribution == config.fanout);
    assert(all[15].distribution == config.spawn_delay_ms);
    assert(all[16].distribution == config.parallel_count);
    assert(positive[0].distribution == config.turns);
    assert(positive[1].distribution == config.subagent_turns);
    assert(positive[2].distribution == config.output_tokens);
    assert(positive[3].distribution == config.summary_output_tokens);
    assert(positive[4].distribution == config.fanout);
    assert(positive[5].distribution == config.parallel_count);
    assert(narrow[0].distribution == config.output_tokens);
    assert(narrow[1].distribution == config.summary_output_tokens);
}

proof fn lemma_chances(config: ResolvedGeneratorConfig)
    ensures
        first_improbable(config.probabilities()) is None && is_chance(config.compaction_trigger_fraction)
            <==> chances_are_sound(config),
{
    let list = config.probabilities();
    lemma_improbable(list);
    assert(list[0].1 == config.tool_probability);
    assert(list[1].1 == config.parallel_tool_probability);
    assert(list[2].1 == config.subagent_probability);
    assert(list[3].1 == config.swarm_probability);
    assert(list[4].1 == config.completion_probability);
    assert(list[5].1 == config.blocking_probability);
    assert(list[6].1 == config.retry_probability);
    assert(list[7].1 == config.compaction_abort_probability);
    assert(list[8].1 == config.compaction_retry_probability);
}

proof fn lemma_class(classes: Seq<ToolClass>, k: int)
    requires
        0 <= k < classes.len(),
    ensures
        class_failure(classes[k], class_names(classes.take(k))) is None <==> class_is_sound(classes, k),
{
    let class = classes[k];
    let before = classes.take(k);
    let names = Seq::new(before.len(), |i: int| before[i].name@);
    lemma_sound(class.latency_ms);
    lemma_sound(class.result_tokens);
    if class_names(before).contains(class.name@) {
        let j = names.index_of(class.name@);
        assert(classes[j].name@ == class.name@);
    } else {
        assert forall|j: int| 0 <= j < k implies (#[trigger] classes[j]).name@ != class.name@ by {
            assert(names[j] == classes[j].name@);
        }
    }
}

proof fn lemma_classes(classes: Seq<ToolClass>)
    ensures
        classes_failure(classes) is None <==> forall|k: int|
            0 <= k < classes.len() ==> #[trigger] class_is_sound(classes, k),
    decreases classes.len(),
{
    if classes.len() > 0 {
        let rest = classes.drop_last();
        let last = classes.len() - 1;
        lemma_classes(rest);
        lemma_class(classes, last);
        assert(classes.take(last) =~= rest);
        assert forall|k: int| 0 <= k < rest.len() implies (#[trigger] class_is_sound(classes, k) <==> class_is_sound(
            rest,
            k,
        )) by {
            assert forall|j: int| 0 <= j < k implies rest[j] == #[trigger] classes[j] by {}
            if class_is_sound(rest, k) {
                assert forall|j: int| 0 <= j < k implies (#[trigger] classes[j]).name@ != classes[k].name@ by {
                    assert(rest[j].name@ != rest[k].name@);
                }
            }
        }
        if classes_failure(classes) is None {
            assert(classes_failure(rest) is None);
            assert forall|k: int| 0 <= k < classes.len() implies #[trigger] class_is_sound(classes, k) by {
                if k < rest.len() {
                    assert(class_is_sound(rest, k));
                }
            }
        } else if forall|k: int| 0 <= k < classes.len() ==> #[trigger] class_is_sound(classes, k) {
            assert forall|k: int| 0 <= k < rest.len() implies #[trigger] class_is_sound(rest, k) by {
                assert(class_is_sound(classes, k));
            }
            assert(class_is_sound(classes, last));
        }
    }
}

/// Every agent has settings of its own that make sense.
pub proof fn law_agents_have_sound_settings(
    agent: crate::agent::AgentKind,
    seed: u64,
    classes: Vec<ToolClass>,
    sums: ConfigSums,
)
    requires
        are_default_classes(classes@),
        !(0x3ff0_0000_0000_0000 < sums.with_completion.bits <= 0x7ff0_0000_0000_0000),
        0 < sums.tool_weight.bits < 0x7ff0_0000_0000_0000,
    ensures
        preset_with(agent, seed, classes).failure(sums) is None,
{
    let config = preset_with(agent, seed, classes);
    reveal_strlit("read");
    reveal_strlit("search");
    reveal_strlit("shell");
    reveal_strlit("patch");
    reveal_strlit("network");
    reveal_strlit("orchestration");
    law_valid_configurations_make_sense(config, sums);
    assert forall|k: int| 0 <= k < classes@.len() implies #[trigger] class_is_sound(classes@, k) by {
        assert(k == 0 || k == 1 || k == 2 || k == 3 || k == 4 || k == 5);
        let name = classes@[k].name@;
        assert(!crate::text::white_space(name[0]));
        assert("read"@[0] == 'r');
        assert("search"@[0] == 's');
        assert("search"@.len() == 6);
        assert("shell"@[0] == 's');
        assert("shell"@.len() == 5);
        assert("patch"@[0] == 'p');
        assert("network"@[0] == 'n');
        assert("orchestration"@[0] == 'o');
    }
}

} // verus!
