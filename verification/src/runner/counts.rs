//! A runner's counts of activated skills: in all, by phase of the race and by
//! half of it.
use crate::condition::dynamic::FieldView;
use crate::effect::SkillType;
use crate::language::Strategy;
use crate::model::{duration_multiplier, HeldAdditionalEffect, PendingState, SkillEffectSpec};
use crate::runner::activation::{
    activated, activation_leaves_the_pending_skills, activation_recorded, after_firing,
    all_held_applied, application_order, counts_agree, effect_applied, effect_outcome,
    effects_applied, extension_effects, firing, held_fired, resolved, self_applied, HeldTrigger,
};
use crate::runner::laws::{
    a_skill_pass_leaves_the_rest, a_targeted_pass_leaves_own_skills, an_activation_is_on_record,
};
use crate::runner::process::skills_processed;
use crate::runner::targeted::targeted_processed;
use crate::runner::{fresh_tally, Health, RunnerState, RunnerTally, StatBlock};
use crate::units::QUANTITY_MAX;
use vstd::prelude::*;

verus! {

/// Whether the two tallies count the same activations.
pub open spec fn same_counts(a: RunnerTally, b: RunnerTally) -> bool {
    &&& a.skills_activated_count == b.skills_activated_count
    &&& a.skills_activated_phase_map == b.skills_activated_phase_map
    &&& a.skills_activated_half_race_map == b.skills_activated_half_race_map
}

/// Whether a list holds no effect that forces golds.
pub open spec fn forces_no_gold(effects: Seq<SkillEffectSpec>) -> bool {
    forall|i: int|
        0 <= i < effects.len() ==> (#[trigger] effects[i]).effect_type
            != SkillType::ActivateRandomGold
}

proof fn lemma_selection_forces_no_gold(effects: Seq<SkillEffectSpec>, extension: bool)
    requires
        forces_no_gold(effects),
    ensures
        forces_no_gold(extension_effects(effects, extension)),
    decreases effects.len(),
{
    if effects.len() > 0 {
        let init = effects.drop_last();
        assert(forces_no_gold(init)) by {
            assert forall|i: int| 0 <= i < init.len() implies (#[trigger] init[i]).effect_type
                != SkillType::ActivateRandomGold by {
                assert(effects[i].effect_type != SkillType::ActivateRandomGold);
            }
        }
        lemma_selection_forces_no_gold(init, extension);
        assert(effects[effects.len() - 1].effect_type != SkillType::ActivateRandomGold);
    }
}

proof fn lemma_effects_count_nothing(
    s: RunnerState,
    p: PendingState,
    effects: Seq<SkillEffectSpec>,
    n: nat,
    distance: i64,
    time_scaling: i64,
    depth: nat,
)
    requires
        n <= effects.len(),
        forces_no_gold(effects),
    ensures
        same_counts(
            s.tally,
            effects_applied(s, p, effects, n, distance, time_scaling, depth).0.tally,
        ),
    decreases n,
{
    if n > 0 {
        let m = (n - 1) as nat;
        lemma_effects_count_nothing(s, p, effects, m, distance, time_scaling, depth);
        reveal(effect_outcome);
        reveal(self_applied);
        let before = effects_applied(s, p, effects, m, distance, time_scaling, depth).0;
        let effect = effects[n - 1];
        assert(resolved(before, p.skill_id.number, effect).effect_type
            != SkillType::ActivateRandomGold);
        assert(same_counts(
            before.tally,
            effect_applied(before, p, effect, distance, time_scaling, depth).tally,
        ));
    }
}

proof fn lemma_held_count_nothing(s: RunnerState, fired: Seq<HeldAdditionalEffect>)
    ensures
        same_counts(s.tally, all_held_applied(s, fired).tally),
    decreases fired.len(),
{
    if fired.len() > 0 {
        lemma_held_count_nothing(s, fired.drop_last());
        reveal(self_applied);
    }
}

proof fn lemma_durations_are_none_or_more(
    s: RunnerState,
    p: PendingState,
    effects: Seq<SkillEffectSpec>,
    n: nat,
    distance: i64,
    time_scaling: i64,
    depth: nat,
)
    ensures
        effects_applied(s, p, effects, n, distance, time_scaling, depth).1 >= 0,
    decreases n,
{
    if n > 0 {
        let m = (n - 1) as nat;
        lemma_durations_are_none_or_more(s, p, effects, m, distance, time_scaling, depth);
    }
}

/// No skill of a fresh runner has activated, by any count.
pub proof fn a_fresh_runner_has_counted_nothing(
    strategy: Strategy,
    stats: StatBlock,
    health: Health,
)
    ensures
        counts_agree(fresh_tally(strategy, stats, health)),
        fresh_tally(strategy, stats, health).skills_activated_count == 0,
{
}

/// The counts by phase, by half and in all agree after any activation if they
/// did before, while the count has not reached the end of the range. An
/// activation counts once, and more than once only if it forces golds. It takes
/// no skill off the used ones and adds its own, and it runs for no negative
/// time.
pub proof fn the_counts_agree_after_an_activation(
    s: RunnerState,
    p: PendingState,
    distance: i64,
    depth: nat,
)
    requires
        counts_agree(s.tally),
        activated(s, p, distance, depth).0.tally.skills_activated_count < QUANTITY_MAX,
    ensures
        ({
            let (after, duration) = activated(s, p, distance, depth);
            &&& counts_agree(after.tally)
            &&& after.tally.skills_activated_count >= s.tally.skills_activated_count + 1
            &&& forces_no_gold(p.effects) ==> after.tally.skills_activated_count
                == s.tally.skills_activated_count + 1
            &&& after.used_skills.contains(p.skill_id)
            &&& s.used_skills.is_prefix_of(after.used_skills)
            &&& duration >= 0
        }),
{
    activation_leaves_the_pending_skills(s, p, distance, depth);
    an_activation_is_on_record(s, p, distance, depth);
    let effects = application_order(p.effects);
    let time_scaling = duration_multiplier(
        p.duration_scaling,
        s.tally.health.current as int,
        s.tally.activation_distance_from_top as int,
    ) as i64;
    let n = effects.len();
    let (s1, duration) = effects_applied(s, p, effects, n, distance, time_scaling, depth);
    crate::runner::activation::lemma_effects_leave(
        s,
        p,
        effects,
        n,
        distance,
        time_scaling,
        depth,
    );
    lemma_durations_are_none_or_more(s, p, effects, n, distance, time_scaling, depth);
    if forces_no_gold(p.effects) {
        lemma_selection_forces_no_gold(p.effects, false);
        lemma_selection_forces_no_gold(p.effects, true);
        lemma_effects_count_nothing(s, p, effects, n, distance, time_scaling, depth);
    }
    let s2 = activation_recorded(s1, p, duration, distance);
    let trigger = HeldTrigger::SkillActivated(p.skill_id);
    reveal(held_fired);
    reveal(activation_recorded);
    lemma_held_count_nothing(
        RunnerState { held: after_firing(s2.held, trigger), ..s2 },
        firing(s2.held, trigger),
    );
}

/// The counts by phase, by half and in all agree after a tick's skill pass if
/// they did before, while the count has not reached the end of the range.
pub proof fn the_counts_agree_after_a_skill_pass(
    s: RunnerState,
    field: FieldView,
    distance: i64,
)
    requires
        counts_agree(s.tally),
        skills_processed(s, field, distance).tally.skills_activated_count < QUANTITY_MAX,
    ensures
        counts_agree(skills_processed(s, field, distance).tally),
{
    a_skill_pass_leaves_the_rest(s, field, distance);
}

/// What others cast on a runner counts as no activation of hers.
pub proof fn a_targeted_pass_counts_nothing(s: RunnerState, distance: i64)
    ensures
        same_counts(s.tally, targeted_processed(s, distance).tally),
{
    a_targeted_pass_leaves_own_skills(s, distance);
}

} // verus!
