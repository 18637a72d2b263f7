//! A runner's speed and acceleration modifiers always are her base ones and
//! what the effects running on her add: through a whole tick's skill pass, not
//! only from one effect to the next.
use crate::condition::dynamic::FieldView;
use crate::effect::SkillType;
use crate::language::SkillId;
use crate::model::{
    duration_multiplier, ActiveSkill, HeldAdditionalEffect, OrderUpExtension, PendingState,
    ResolvedSkillEffect, SkillEffectSpec,
};
use crate::runner::activation::{
    activated, activation_recorded, after_firing, after_resolving, after_rolls, all_held_applied,
    application_order, dropped_for_the_race, effect_applied, effect_duration, effect_outcome,
    effect_resolved, effects_applied, effects_grow, firing, forced_gold_count, gold_candidates,
    gold_forced, gold_picks, golds_forced, held_fired, lemma_effect_leaves, lemma_gold_leaves,
    lemma_held_applied_leaves_pending, lemma_self_applied_leaves, lemma_skill_activation_leaves,
    picks_forced, resolved, resolved_modifier, running, self_applied, skill_activated,
    HeldTrigger, FORCED_GOLD_CHAIN,
};
use crate::runner::laws::{
    a_started_effect_is_accounted_for, ending_effects_keeps_the_accounts, own_effects_accounted,
    strength, weight, BaseModifiers,
};
use crate::runner::process::{
    entry_checked, extending, extensions_used, fired_or_failed, gained_order,
    lemma_entry_advances, lengthened, moved_on, order_gained, pass_from, preconditions_latched,
    ready_to_check, skills_lengthened, skills_processed, tick_started, wit_rolled,
};
use crate::runner::{RunnerState, RunnerTally};
use crate::units::{magnitude, sat, QUANTITY_MAX};
use vstd::prelude::*;

verus! {

/// Whether a runner's base modifiers and all the effects running on her fit in
/// the range together, signs aside.
pub open spec fn effects_fit(s: RunnerState, base: BaseModifiers) -> bool {
    &&& magnitude(base.target_speed) + weight(s.active.target_speed) <= QUANTITY_MAX
    &&& magnitude(base.current_speed) + weight(s.active.current_speed) <= QUANTITY_MAX
    &&& magnitude(base.accel) + weight(s.active.acceleration) <= QUANTITY_MAX
}

proof fn lemma_weight_grows(a: Seq<ActiveSkill>, b: Seq<ActiveSkill>)
    requires
        a.is_prefix_of(b),
    ensures
        weight(a) <= weight(b),
    decreases b.len(),
{
    if a.len() < b.len() {
        assert(a.is_prefix_of(b.drop_last()));
        lemma_weight_grows(a, b.drop_last());
    } else {
        assert(a =~= b);
    }
}

proof fn lemma_fit_before(a: RunnerState, b: RunnerState, base: BaseModifiers)
    requires
        effects_grow(a, b),
        effects_fit(b, base),
    ensures
        effects_fit(a, base),
{
    lemma_weight_grows(a.active.target_speed, b.active.target_speed);
    lemma_weight_grows(a.active.current_speed, b.active.current_speed);
    lemma_weight_grows(a.active.acceleration, b.active.acceleration);
}

proof fn lemma_self_applied_is_accounted(
    s: RunnerState,
    base: BaseModifiers,
    skill_id: SkillId,
    effect: ResolvedSkillEffect,
    duration: i64,
)
    requires
        own_effects_accounted(s, base),
        effects_fit(self_applied(s, skill_id, effect, duration), base),
    ensures
        own_effects_accounted(self_applied(s, skill_id, effect, duration), base),
{
    reveal(self_applied);
    let natural = effect.effect_type == SkillType::CurrentSpeedWithNaturalDeceleration;
    if effect.effect_type == SkillType::TargetSpeed {
        a_started_effect_is_accounted_for(
            s.tally.modifiers.target_speed,
            base.target_speed,
            s.active.target_speed,
            running(skill_id, effect, duration, false),
        );
    } else if effect.effect_type == SkillType::Accel {
        a_started_effect_is_accounted_for(
            s.tally.modifiers.accel,
            base.accel,
            s.active.acceleration,
            running(skill_id, effect, duration, false),
        );
    } else if effect.effect_type == SkillType::CurrentSpeed || natural {
        a_started_effect_is_accounted_for(
            s.tally.modifiers.current_speed,
            base.current_speed,
            s.active.current_speed,
            running(skill_id, effect, duration, natural),
        );
    }
}

proof fn lemma_held_are_accounted(
    s: RunnerState,
    base: BaseModifiers,
    fired: Seq<HeldAdditionalEffect>,
)
    requires
        own_effects_accounted(s, base),
        effects_fit(all_held_applied(s, fired), base),
    ensures
        own_effects_accounted(all_held_applied(s, fired), base),
    decreases fired.len(),
{
    if fired.len() > 0 {
        let before = all_held_applied(s, fired.drop_last());
        let held = fired.last();
        let r = resolved(before, held.skill_id.number, held.effect);
        let s1 = after_resolving(before, held.skill_id.number, held.effect);
        let duration = sat(-held.timer.t) as i64;
        lemma_self_applied_leaves(s1, held.skill_id, r, duration);
        lemma_fit_before(before, all_held_applied(s, fired), base);
        lemma_held_are_accounted(s, base, fired.drop_last());
        if all_held_applied(s, fired) != s1 {
            lemma_self_applied_is_accounted(s1, base, held.skill_id, r, duration);
        }
    }
}

proof fn lemma_held_fired_is_accounted(s: RunnerState, base: BaseModifiers, trigger: HeldTrigger)
    requires
        own_effects_accounted(s, base),
        effects_fit(held_fired(s, trigger), base),
    ensures
        own_effects_accounted(held_fired(s, trigger), base),
        effects_grow(s, held_fired(s, trigger)),
{
    reveal(held_fired);
    let ready = RunnerState { held: after_firing(s.held, trigger), ..s };
    lemma_held_applied_leaves_pending(ready, firing(s.held, trigger));
    lemma_held_are_accounted(ready, base, firing(s.held, trigger));
}

pub(crate) proof fn lemma_held_fired_grows(s: RunnerState, trigger: HeldTrigger)
    ensures
        effects_grow(s, held_fired(s, trigger)),
{
    reveal(held_fired);
    let ready = RunnerState { held: after_firing(s.held, trigger), ..s };
    lemma_held_applied_leaves_pending(ready, firing(s.held, trigger));
}

proof fn lemma_effect_is_accounted(
    s: RunnerState,
    base: BaseModifiers,
    p: PendingState,
    effect: SkillEffectSpec,
    distance: i64,
    time_scaling: i64,
    depth: nat,
)
    requires
        own_effects_accounted(s, base),
        effects_fit(effect_applied(s, p, effect, distance, time_scaling, depth), base),
    ensures
        own_effects_accounted(
            effect_applied(s, p, effect, distance, time_scaling, depth),
            base,
        ),
    decreases depth, 2int, 0int,
{
    reveal(effect_outcome);
    let s2 = effect_resolved(s, p, effect);
    let r = resolved(s, p.skill_id.number, effect);
    let duration = effect_duration(s, p.rarity, effect.base_duration, distance, time_scaling);
    let count = forced_gold_count(resolved_modifier(s, p.skill_id.number, effect));
    let after = effect_applied(s, p, effect, distance, time_scaling, depth);
    assert(own_effects_accounted(s2, base));
    if after.active == s.active && after.tally.modifiers == s.tally.modifiers {
    } else if r.effect_type == SkillType::ActivateRandomGold {
        lemma_golds_are_accounted(s2, base, count, distance, depth);
    } else {
        lemma_self_applied_is_accounted(s2, base, p.skill_id, r, duration);
    }
}

proof fn lemma_effects_are_accounted(
    s: RunnerState,
    base: BaseModifiers,
    p: PendingState,
    effects: Seq<SkillEffectSpec>,
    n: nat,
    distance: i64,
    time_scaling: i64,
    depth: nat,
)
    requires
        own_effects_accounted(s, base),
        effects_fit(effects_applied(s, p, effects, n, distance, time_scaling, depth).0, base),
    ensures
        own_effects_accounted(
            effects_applied(s, p, effects, n, distance, time_scaling, depth).0,
            base,
        ),
    decreases depth, 3int, n,
{
    if n > 0 {
        let before = effects_applied(
            s,
            p,
            effects,
            (n - 1) as nat,
            distance,
            time_scaling,
            depth,
        ).0;
        let after = effects_applied(s, p, effects, n, distance, time_scaling, depth).0;
        lemma_effect_leaves(before, p, effects[n - 1], distance, time_scaling, depth);
        lemma_fit_before(before, after, base);
        lemma_effects_are_accounted(
            s,
            base,
            p,
            effects,
            (n - 1) as nat,
            distance,
            time_scaling,
            depth,
        );
        lemma_effect_is_accounted(
            before,
            base,
            p,
            effects[n - 1],
            distance,
            time_scaling,
            depth,
        );
    }
}

proof fn lemma_activation_is_accounted(
    s: RunnerState,
    base: BaseModifiers,
    p: PendingState,
    distance: i64,
    depth: nat,
)
    requires
        own_effects_accounted(s, base),
        effects_fit(activated(s, p, distance, depth).0, base),
    ensures
        own_effects_accounted(activated(s, p, distance, depth).0, base),
    decreases depth, 4int, 0int,
{
    let effects = application_order(p.effects);
    let time_scaling = duration_multiplier(
        p.duration_scaling,
        s.tally.health.current as int,
        s.tally.activation_distance_from_top as int,
    ) as i64;
    let (s1, duration) = effects_applied(
        s,
        p,
        effects,
        effects.len(),
        distance,
        time_scaling,
        depth,
    );
    let s2 = activation_recorded(s1, p, duration, distance);
    let trigger = HeldTrigger::SkillActivated(p.skill_id);
    assert(s2.active == s1.active && s2.tally.modifiers == s1.tally.modifiers) by {
        reveal(activation_recorded);
    }
    lemma_held_fired_grows(s2, trigger);
    lemma_fit_before(s2, held_fired(s2, trigger), base);
    lemma_effects_are_accounted(
        s,
        base,
        p,
        effects,
        effects.len(),
        distance,
        time_scaling,
        depth,
    );
    lemma_held_fired_is_accounted(s2, base, trigger);
}

proof fn lemma_gold_is_accounted(
    s: RunnerState,
    base: BaseModifiers,
    at: usize,
    distance: i64,
    depth: nat,
)
    requires
        own_effects_accounted(s, base),
        effects_fit(gold_forced(s, at, distance, depth), base),
    ensures
        own_effects_accounted(gold_forced(s, at, distance, depth), base),
    decreases depth, 0int, 0int,
{
    if depth > 0 {
        reveal(dropped_for_the_race);
        lemma_activation_is_accounted(
            s,
            base,
            s.pending[at as int],
            distance,
            (depth - 1) as nat,
        );
    }
}

proof fn lemma_picks_are_accounted(
    s: RunnerState,
    base: BaseModifiers,
    picks: Seq<usize>,
    n: nat,
    distance: i64,
    depth: nat,
)
    requires
        own_effects_accounted(s, base),
        effects_fit(picks_forced(s, picks, n, distance, depth), base),
    ensures
        own_effects_accounted(picks_forced(s, picks, n, distance, depth), base),
    decreases depth, 0int, n + 1,
{
    if n > 0 {
        let before = picks_forced(s, picks, (n - 1) as nat, distance, depth);
        lemma_gold_leaves(before, picks[n - 1], distance, depth);
        lemma_fit_before(before, picks_forced(s, picks, n, distance, depth), base);
        lemma_picks_are_accounted(s, base, picks, (n - 1) as nat, distance, depth);
        lemma_gold_is_accounted(before, base, picks[n - 1], distance, depth);
    }
}

proof fn lemma_golds_are_accounted(
    s: RunnerState,
    base: BaseModifiers,
    count: int,
    distance: i64,
    depth: nat,
)
    requires
        own_effects_accounted(s, base),
        effects_fit(golds_forced(s, count, distance, depth), base),
    ensures
        own_effects_accounted(golds_forced(s, count, distance, depth), base),
    decreases depth, 1int, 0int,
{
    let candidates = gold_candidates(s.pending, s.body, s.pending.len());
    let picks = gold_picks(s);
    let n = if count < picks.len() {
        count
    } else {
        picks.len() as int
    };
    lemma_picks_are_accounted(
        RunnerState { gold_rolls: after_rolls(s.gold_rolls, candidates.len()), ..s },
        base,
        picks,
        if n < 0 {
            0
        } else {
            n as nat
        },
        distance,
        depth,
    );
}

proof fn lemma_check_is_accounted(
    s: RunnerState,
    base: BaseModifiers,
    i: int,
    field: FieldView,
    distance: i64,
)
    requires
        0 <= i < s.pending.len(),
        own_effects_accounted(s, base),
        effects_fit(entry_checked(s, i, field, distance).0, base),
    ensures
        own_effects_accounted(entry_checked(s, i, field, distance).0, base),
{
    reveal(entry_checked);
    reveal(fired_or_failed);
    let p = moved_on(s.pending[i], s.body.position as int);
    let s1 = RunnerState { pending: s.pending.update(i, p), ..s };
    let rolled = wit_rolled(s1, p);
    let fired = skill_activated(rolled, p, distance).0;
    if entry_checked(s, i, field, distance).0.active == fired.active && entry_checked(
        s,
        i,
        field,
        distance,
    ).0.tally.modifiers == fired.tally.modifiers {
        reveal(skill_activated);
        lemma_activation_is_accounted(rolled, base, p, distance, FORCED_GOLD_CHAIN as nat);
    }
}

proof fn lemma_check_grows(s: RunnerState, i: int, field: FieldView, distance: i64)
    requires
        0 <= i < s.pending.len(),
    ensures
        effects_grow(s, entry_checked(s, i, field, distance).0),
{
    reveal(entry_checked);
    reveal(fired_or_failed);
    let p = moved_on(s.pending[i], s.body.position as int);
    let s1 = RunnerState { pending: s.pending.update(i, p), ..s };
    lemma_skill_activation_leaves(wit_rolled(s1, p), p, distance);
}

pub(crate) proof fn lemma_pass_grows(s: RunnerState, next: int, field: FieldView, distance: i64)
    ensures
        effects_grow(s, pass_from(s, next, field, distance)),
    decreases s.pending.len() - next,
{
    if 0 <= next < s.pending.len() {
        lemma_entry_advances(s, next, field, distance);
        lemma_check_grows(s, next, field, distance);
        let (s1, after) = entry_checked(s, next, field, distance);
        lemma_pass_grows(s1, after, field, distance);
    }
}

proof fn lemma_pass_is_accounted(
    s: RunnerState,
    base: BaseModifiers,
    next: int,
    field: FieldView,
    distance: i64,
)
    requires
        own_effects_accounted(s, base),
        effects_fit(pass_from(s, next, field, distance), base),
    ensures
        own_effects_accounted(pass_from(s, next, field, distance), base),
    decreases s.pending.len() - next,
{
    if 0 <= next < s.pending.len() {
        lemma_entry_advances(s, next, field, distance);
        let (s1, after) = entry_checked(s, next, field, distance);
        lemma_pass_grows(s1, after, field, distance);
        lemma_fit_before(s1, pass_from(s1, after, field, distance), base);
        lemma_check_is_accounted(s, base, next, field, distance);
        lemma_pass_is_accounted(s1, base, after, field, distance);
    }
}

proof fn lemma_lengthened_weighs_the_same(
    list: Seq<ActiveSkill>,
    skill_id: SkillId,
    seconds: i64,
)
    ensures
        strength(lengthened(list, skill_id, seconds)) == strength(list),
        weight(lengthened(list, skill_id, seconds)) == weight(list),
    decreases list.len(),
{
    if list.len() > 0 {
        lemma_lengthened_weighs_the_same(list.drop_last(), skill_id, seconds);
        assert(lengthened(list, skill_id, seconds).drop_last() =~= lengthened(
            list.drop_last(),
            skill_id,
            seconds,
        ));
    }
}

proof fn lemma_lengthening_is_accounted(
    s: RunnerState,
    base: BaseModifiers,
    extending: Seq<OrderUpExtension>,
)
    requires
        own_effects_accounted(s, base),
    ensures
        own_effects_accounted(skills_lengthened(s, extending), base),
    decreases extending.len(),
{
    if extending.len() > 0 {
        lemma_lengthening_is_accounted(s, base, extending.drop_last());
        let before = skills_lengthened(s, extending.drop_last());
        let e = extending.last();
        lemma_lengthened_weighs_the_same(before.active.target_speed, e.skill_id, e.seconds);
        lemma_lengthened_weighs_the_same(before.active.current_speed, e.skill_id, e.seconds);
        lemma_lengthened_weighs_the_same(before.active.acceleration, e.skill_id, e.seconds);
    }
}

proof fn lemma_readying_is_accounted(s: RunnerState, base: BaseModifiers, field: FieldView)
    requires
        own_effects_accounted(s, base),
        effects_fit(ready_to_check(s, field), base),
    ensures
        own_effects_accounted(ready_to_check(s, field), base),
{
    reveal(preconditions_latched);
    let marked = RunnerState {
        tally: RunnerTally {
            activations_at_last_tick_start: s.tally.activations_at_tick_start,
            activations_at_tick_start: s.tally.skills_activated_count,
            ..s.tally
        },
        ..s
    };
    ending_effects_keeps_the_accounts(marked, base);
    let s1 = tick_started(s, field);
    assert(own_effects_accounted(s1, base)) by {
        reveal(tick_started);
    }
    if gained_order(field) {
        reveal(order_gained);
        let used = RunnerState { extensions: extensions_used(s1.extensions), ..s1 };
        lemma_lengthening_is_accounted(used, base, extending(s1.extensions));
        lemma_held_fired_is_accounted(
            skills_lengthened(used, extending(s1.extensions)),
            base,
            HeldTrigger::OrderUp,
        );
    }
}

/// A tick's skill pass keeps a runner's modifiers equal to her base ones and
/// what runs on her: whatever ends, starts, is lengthened, fires again or is
/// forced on the way, while it all fits in the range.
pub proof fn a_skill_pass_keeps_the_accounts(
    s: RunnerState,
    base: BaseModifiers,
    field: FieldView,
    distance: i64,
)
    requires
        own_effects_accounted(s, base),
        effects_fit(skills_processed(s, field, distance), base),
    ensures
        own_effects_accounted(skills_processed(s, field, distance), base),
{
    let ready = ready_to_check(s, field);
    lemma_pass_grows(ready, 0, field, distance);
    lemma_fit_before(ready, skills_processed(s, field, distance), base);
    lemma_readying_is_accounted(s, base, field);
    lemma_pass_is_accounted(ready, base, 0, field, distance);
}

} // verus!
