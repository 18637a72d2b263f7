//! What holds of a runner's skills across calls.
use crate::condition::dynamic::FieldView;
use crate::effect::{hits_opponents, SkillType};
use crate::language::SkillId;
use crate::model::{
    ActiveSkill, ActiveTargetedSkill, EmittedDebuff, HeldAdditionalEffect, OrderUpExtension, PendingState,
    PreconditionState, ResolvedSkillEffect, SkillEffectSpec, NEVER_READY,
};
use crate::rng::{
    after_roll, exchanged, exchanging_keeps_the_contents, index_of, next_roll,
};
use crate::runner::activation::{
    activated, activation_recorded, after_firing, all_held_applied, application_order, course_scaled,
    effect_outcome, effects_applied, extension_effects, firing, fires, gold_candidates, held_fired,
    is_gold_candidate, is_held, is_recorded, lemma_held_applied_leaves_pending, picks_skill,
    record_grows, resolved, self_applied, shuffled, tick_reached, HeldTrigger,
};
use crate::runner::process::{
    alternatives_held, entry_checked, excluded_by, expired_self_skills_gone, extending, extends,
    extensions_used, fired_or_failed, latched_precondition, lemma_entry_advances,
    may_activate, moved_on, order_gained, pass_from,
    preconditions_latched, ready_to_check, run_out, skills_lengthened,
    skills_processed, still_running, taken_back, takes_no_roll, tick_started, whole_ticks,
    wit_rolled,
};
use crate::runner::targeted::{
    expired_targeted_skills_gone, injected, landed, lemma_injection_leaves_own_skills, skills_of,
    still_targeting, targeted_applied, targeted_pass, targeted_processed, targeted_running,
    untouched_by_landing, TargetedEffectMeta,
};
use crate::runner::{RunnerBody, RunnerState, RunnerTally};
use crate::units::{magnitude, sat, QUANTITY_MAX};
use vstd::prelude::*;

verus! {

/// A debuff on opponents goes to the outbox, resolved, and never lands on its
/// caster.
pub proof fn a_debuff_never_lands_on_its_caster(
    s: RunnerState,
    p: PendingState,
    effect: SkillEffectSpec,
    distance: i64,
    time_scaling: i64,
    golds: RunnerState,
)
    requires
        !is_held(effect),
        ({
            let r = resolved(s, p.skill_id.number, effect);
            hits_opponents(r.effect_type, r.target, r.modifier as int)
        }),
    ensures
        ({
            let after = effect_outcome(s, p, effect, distance, time_scaling, golds);
            let r = resolved(s, p.skill_id.number, effect);
            &&& after.tally == s.tally
            &&& after.active == s.active
            &&& after.targeted == s.targeted
            &&& after.held == s.held
            &&& after.emitted == s.emitted.push(
                EmittedDebuff {
                    skill_id: p.skill_id,
                    effect: r,
                    target: r.target,
                    target_strategy: p.target_strategy,
                },
            )
        }),
{
    reveal(effect_outcome);
}

/// A held effect after `trigger` has been seen.
pub open spec fn held_after(held: HeldAdditionalEffect, trigger: HeldTrigger) -> HeldAdditionalEffect {
    after_firing(seq![held], trigger)[0]
}

/// How often a held effect fires over a run of triggers while its skill runs.
pub open spec fn times_fired(held: HeldAdditionalEffect, triggers: Seq<HeldTrigger>) -> nat
    decreases triggers.len(),
{
    if triggers.len() == 0 {
        0
    } else {
        (if fires(held, triggers[0]) {
            1nat
        } else {
            0nat
        }) + times_fired(held_after(held, triggers[0]), triggers.skip(1))
    }
}

/// A held effect fires no more often than its limit allows, whatever happens
/// while its skill runs.
pub proof fn a_held_effect_fires_at_most_its_limit(
    held: HeldAdditionalEffect,
    triggers: Seq<HeldTrigger>,
)
    ensures
        times_fired(held, triggers) <= held.remaining,
    decreases triggers.len(),
{
    if triggers.len() > 0 {
        a_held_effect_fires_at_most_its_limit(held_after(held, triggers[0]), triggers.skip(1));
    }
}

/// An extension after one overtake.
pub open spec fn extension_after(e: OrderUpExtension) -> OrderUpExtension {
    extensions_used(seq![e])[0]
}

/// How often an extension is used over `n` overtakes while its skill runs.
pub open spec fn times_extended(e: OrderUpExtension, n: nat) -> nat
    decreases n,
{
    if n == 0 {
        0
    } else {
        (if extends(e) {
            1nat
        } else {
            0nat
        }) + times_extended(extension_after(e), (n - 1) as nat)
    }
}

/// A skill that overtakes lengthen is lengthened no more often than it has
/// extensions.
pub proof fn a_skill_is_lengthened_at_most_its_extensions(e: OrderUpExtension, n: nat)
    ensures
        times_extended(e, n) <= e.remaining,
    decreases n,
{
    if n > 0 {
        a_skill_is_lengthened_at_most_its_extensions(extension_after(e), (n - 1) as nat);
    }
}

/// What the effects of a list add up to.
pub open spec fn strength(list: Seq<ActiveSkill>) -> int
    decreases list.len(),
{
    if list.len() == 0 {
        0
    } else {
        strength(list.drop_last()) + list.last().modifier
    }
}

/// What the effects of a list add up to, signs aside.
pub open spec fn weight(list: Seq<ActiveSkill>) -> int
    decreases list.len(),
{
    if list.len() == 0 {
        0
    } else {
        weight(list.drop_last()) + magnitude(list.last().modifier as int)
    }
}

/// Whether `total` is `base` and what the effects of `list` add to it, with
/// room to spare.
pub open spec fn accounted(total: i64, base: int, list: Seq<ActiveSkill>) -> bool {
    &&& total == base + strength(list)
    &&& magnitude(base) + weight(list) <= QUANTITY_MAX
}

proof fn lemma_strength_within_weight(list: Seq<ActiveSkill>)
    ensures
        magnitude(strength(list)) <= weight(list),
        weight(list) >= 0,
    decreases list.len(),
{
    if list.len() > 0 {
        lemma_strength_within_weight(list.drop_last());
    }
}

proof fn lemma_running_and_ended(list: Seq<ActiveSkill>)
    ensures
        strength(list) == strength(still_running(list)) + strength(run_out(list)),
        weight(list) == weight(still_running(list)) + weight(run_out(list)),
    decreases list.len(),
{
    if list.len() > 0 {
        lemma_running_and_ended(list.drop_last());
        let a = list.last();
        let init = list.drop_last();
        assert(run_out(init).push(a).drop_last() =~= run_out(init));
        assert(still_running(init).push(a).drop_last() =~= still_running(init));
    }
}

proof fn lemma_taken_back(total: i64, ended: Seq<ActiveSkill>, rest: int)
    requires
        total == rest + strength(ended),
        magnitude(rest) + weight(ended) <= QUANTITY_MAX,
    ensures
        taken_back(total, ended) == rest,
    decreases ended.len(),
{
    if ended.len() > 0 {
        let init = ended.drop_last();
        lemma_strength_within_weight(init);
        lemma_taken_back(total, init, rest + ended.last().modifier);
    }
}

/// An effect that starts adds its strength to the total it counts towards.
pub proof fn a_started_effect_is_accounted_for(
    total: i64,
    base: int,
    list: Seq<ActiveSkill>,
    active: ActiveSkill,
)
    requires
        accounted(total, base, list),
        magnitude(base) + weight(list.push(active)) <= QUANTITY_MAX,
    ensures
        accounted(sat(total + active.modifier) as i64, base, list.push(active)),
{
    assert(list.push(active).drop_last() =~= list);
    lemma_strength_within_weight(list.push(active));
}

/// Effects that run out are taken back exactly: what is left of the total is
/// the base and the effects still running, to the last unit.
pub proof fn expired_effects_are_taken_back_exactly(
    total: i64,
    base: int,
    list: Seq<ActiveSkill>,
)
    requires
        accounted(total, base, list),
    ensures
        accounted(taken_back(total, run_out(list)), base, still_running(list)),
{
    lemma_running_and_ended(list);
    lemma_strength_within_weight(still_running(list));
    lemma_strength_within_weight(run_out(list));
    lemma_taken_back(total, run_out(list), base + strength(still_running(list)));
}

/// Every effect kept is still running and every effect taken off has run out,
/// and together they are the effects there were.
pub proof fn cleanup_sorts_the_effects(list: Seq<ActiveSkill>)
    ensures
        forall|i: int|
            0 <= i < still_running(list).len() ==> !(#[trigger] still_running(
                list,
            )[i]).duration_timer.expired(),
        forall|i: int|
            0 <= i < run_out(list).len() ==> (#[trigger] run_out(
                list,
            )[i]).duration_timer.expired(),
        still_running(list).len() + run_out(list).len() == list.len(),
    decreases list.len(),
{
    if list.len() > 0 {
        cleanup_sorts_the_effects(list.drop_last());
    }
}

/// A skill applies each of its effects once, the ones that stretch evolved
/// skills after all the others.
pub proof fn effects_apply_once_extensions_last(effects: Seq<SkillEffectSpec>)
    ensures
        application_order(effects).to_multiset() == effects.to_multiset(),
        forall|i: int, j: int|
            0 <= i < j < application_order(effects).len() && (#[trigger] application_order(
                effects,
            )[i]).effect_type == SkillType::ExtendEvolvedDuration ==> (#[trigger] application_order(
                effects,
            )[j]).effect_type == SkillType::ExtendEvolvedDuration,
{
    lemma_extension_effects(effects);
    vstd::seq_lib::lemma_multiset_commutative(
        extension_effects(effects, false),
        extension_effects(effects, true),
    );
    assert forall|i: int, j: int|
        0 <= i < j < application_order(effects).len() && (#[trigger] application_order(
            effects,
        )[i]).effect_type == SkillType::ExtendEvolvedDuration implies (#[trigger] application_order(
        effects,
    )[j]).effect_type == SkillType::ExtendEvolvedDuration by {
        let plain = extension_effects(effects, false);
        if i < plain.len() {
            assert(plain[i] == application_order(effects)[i]);
        } else {
            assert(extension_effects(effects, true)[j - plain.len()] == application_order(
                effects,
            )[j]);
        }
    }
}

proof fn lemma_extension_effects(effects: Seq<SkillEffectSpec>)
    ensures
        extension_effects(effects, false).to_multiset().add(
            extension_effects(effects, true).to_multiset(),
        ) == effects.to_multiset(),
        forall|i: int|
            0 <= i < extension_effects(effects, false).len() ==> (#[trigger] extension_effects(
                effects,
                false,
            )[i]).effect_type != SkillType::ExtendEvolvedDuration,
        forall|i: int|
            0 <= i < extension_effects(effects, true).len() ==> (#[trigger] extension_effects(
                effects,
                true,
            )[i]).effect_type == SkillType::ExtendEvolvedDuration,
    decreases effects.len(),
{
    broadcast use vstd::seq_lib::group_to_multiset_ensures;
    broadcast use vstd::multiset::group_multiset_axioms;

    if effects.len() > 0 {
        let init = effects.drop_last();
        lemma_extension_effects(init);
        assert(effects =~= init.push(effects.last()));
        assert(extension_effects(effects, false).to_multiset().add(
            extension_effects(effects, true).to_multiset(),
        ) =~= effects.to_multiset());
    } else {
        assert(extension_effects(effects, false).to_multiset().add(
            extension_effects(effects, true).to_multiset(),
        ) =~= effects.to_multiset());
    }
}

/// A skill is one gold candidate, however many of its entries are pending; each
/// candidate is a gold that may be forced, and every gold that may be forced has
/// a candidate to stand for it.
pub proof fn a_gold_is_one_candidate(pending: Seq<PendingState>, body: RunnerBody, n: nat)
    requires
        n <= pending.len() <= usize::MAX,
    ensures
        ({
            let picks = gold_candidates(pending, body, n);
            &&& forall|a: int|
                0 <= a < picks.len() ==> (#[trigger] picks[a]) < n && is_gold_candidate(
                    pending[picks[a] as int],
                    body,
                )
            &&& forall|a: int, b: int|
                0 <= a < b < picks.len() ==> pending[#[trigger] picks[a] as int].skill_id
                    != pending[#[trigger] picks[b] as int].skill_id
            &&& forall|i: int|
                0 <= i < n && is_gold_candidate(#[trigger] pending[i], body) ==> picks_skill(
                    pending,
                    picks,
                    pending[i].skill_id,
                )
        }),
    decreases n,
{
    if n > 0 {
        a_gold_is_one_candidate(pending, body, (n - 1) as nat);
        let before = gold_candidates(pending, body, (n - 1) as nat);
        let picks = gold_candidates(pending, body, n);
        assert forall|i: int|
            0 <= i < n && is_gold_candidate(#[trigger] pending[i], body) implies picks_skill(
            pending,
            picks,
            pending[i].skill_id,
        ) by {
            if picks_skill(pending, before, pending[i].skill_id) {
                let a = choose|a: int|
                    0 <= a < before.len() && pending[#[trigger] before[a] as int].skill_id
                        == pending[i].skill_id;
                assert(picks[a] == before[a]);
            } else {
                assert(i == n - 1);
                assert(picks[picks.len() - 1] == i as usize);
            }
        }
    }
}

/// The golds forced are drawn from the candidates: the shuffle keeps them all,
/// each once.
pub proof fn the_draw_keeps_the_candidates(list: Seq<usize>, n: nat, rolls: Seq<u64>)
    requires
        n <= list.len(),
    ensures
        shuffled(list, n, rolls).to_multiset() == list.to_multiset(),
        shuffled(list, n, rolls).len() == list.len(),
    decreases n,
{
    if n > 0 {
        let j = index_of(next_roll(rolls), n as int);
        exchanging_keeps_the_contents(list, n - 1, j);
        the_draw_keeps_the_candidates(
            exchanged(list, n - 1, j),
            (n - 1) as nat,
            after_roll(rolls),
        );
    }
}

proof fn lemma_held_effects_keep_the_record(s: RunnerState, fired: Seq<HeldAdditionalEffect>)
    ensures
        all_held_applied(s, fired).used_skills == s.used_skills,
        all_held_applied(s, fired).ledger == s.ledger,
        all_held_applied(s, fired).tally.skills_activated_count == s.tally.skills_activated_count,
    decreases fired.len(),
{
    if fired.len() > 0 {
        lemma_held_effects_keep_the_record(s, fired.drop_last());
        reveal(self_applied);
    }
}

/// An activation is on record: the skill counts as used, and its number is in
/// the ledger.
pub proof fn an_activation_is_on_record(
    s: RunnerState,
    p: PendingState,
    distance: i64,
    depth: nat,
)
    ensures
        activated(s, p, distance, depth).0.used_skills.contains(p.skill_id),
        is_recorded(activated(s, p, distance, depth).0.ledger, p.skill_id.number),
{
    reveal(held_fired);
    reveal(activation_recorded);
    let effects = application_order(p.effects);
    let time_scaling = crate::model::duration_multiplier(
        p.duration_scaling,
        s.tally.health.current as int,
        s.tally.activation_distance_from_top as int,
    ) as i64;
    let (s1, duration) = effects_applied(
        s,
        p,
        effects,
        effects.len(),
        distance,
        time_scaling,
        depth,
    );
    let s2 = activation_recorded(s1, p, duration, distance);
    let trigger = HeldTrigger::SkillActivated(p.skill_id);
    lemma_held_effects_keep_the_record(
        RunnerState { held: after_firing(s2.held, trigger), ..s2 },
        firing(s2.held, trigger),
    );
    assert(s2.used_skills.contains(p.skill_id)) by {
        if !s1.used_skills.contains(p.skill_id) {
            assert(s2.used_skills[s1.used_skills.len() as int] == p.skill_id);
        }
    }
    assert(is_recorded(s2.ledger, p.skill_id.number)) by {
        if !is_recorded(s1.ledger, p.skill_id.number) {
            assert(s2.ledger[s1.ledger.len() as int].number == p.skill_id.number);
        }
    }
}

/// A forced skill asks for no condition, no precondition and no wit check: it
/// fires when the runner is in its window and it is not cooling down.
pub proof fn a_forced_skill_fires_unconditionally(
    s: RunnerState,
    p: PendingState,
    field: FieldView,
)
    requires
        p.forced,
    ensures
        takes_no_roll(s, p),
        may_activate(s, p, field) <==> p.trigger.holds(s.body.position as int) && tick_reached(
            s.body,
            p.ready_at,
        ),
{
}

/// A skill whose wit check has passed, like one that takes none, rolls no more.
pub proof fn a_passed_wit_check_is_not_taken_again(s: RunnerState, p: PendingState)
    requires
        p.wit_passed,
    ensures
        wit_rolled(s, p) == s,
{
}

/// Once a skill without a cooldown has fired, or the one wit check its
/// alternatives share has failed, none of its other exclusive alternatives
/// fires for the rest of the race.
pub proof fn exclusive_alternatives_share_one_firing(
    pending: Seq<PendingState>,
    p: PendingState,
    wit_passed: bool,
    j: int,
    s: RunnerState,
    field: FieldView,
)
    requires
        0 <= j < pending.len(),
        excluded_by(p, pending[j]),
    ensures
        !may_activate(s, alternatives_held(pending, p, NEVER_READY, wit_passed)[j], field),
{
}

/// A skill with a cooldown that fires holds its other exclusive alternatives
/// until it is ready itself, and spares them a wit check of their own.
pub proof fn exclusive_alternatives_share_one_cooldown(
    pending: Seq<PendingState>,
    p: PendingState,
    until: i64,
    j: int,
)
    requires
        0 <= j < pending.len(),
        excluded_by(p, pending[j]),
    ensures
        alternatives_held(pending, p, until, true)[j].ready_at >= until,
        alternatives_held(pending, p, until, true)[j].wit_passed,
{
}

/// A skill without a cooldown is done once it has fired or failed its check: it
/// is no longer pending.
pub proof fn a_skill_without_cooldown_is_done(s: RunnerState, i: int, distance: i64)
    requires
        0 <= i < s.pending.len(),
        s.pending[i].cooldown <= 0,
    ensures
        fired_or_failed(s, i, distance).1 == i,
        fired_or_failed(s, i, distance).0.pending.len() == s.pending.len() - 1,
{
    reveal(fired_or_failed);
    let p = s.pending[i];
    crate::runner::activation::lemma_skill_activation_leaves(wit_rolled(s, p), p, distance);
}

/// A precondition that has held stays met, and a tick changes nothing else of
/// it.
pub proof fn a_met_precondition_stays_met(
    p: PreconditionState,
    body: RunnerBody,
    tally: RunnerTally,
    field: FieldView,
)
    ensures
        ({
            let after = latched_precondition(Some(p), body, tally, field);
            &&& after is Some
            &&& p.met ==> after->0.met
            &&& after->0.regions == p.regions
            &&& after->0.check == p.check
        }),
{
}

/// A span in whole ticks is the fewest ticks that cover it, up to a billionth
/// of a tick.
pub proof fn whole_ticks_just_cover_the_span(span: int, tick: int)
    requires
        tick > 0,
    ensures
        whole_ticks(span, tick) * tick * 1_000_000_000 >= span * 1_000_000_000 - tick,
        (whole_ticks(span, tick) - 1) * tick * 1_000_000_000 < span * 1_000_000_000 - tick,
{
    let n = tick - span * 1_000_000_000;
    let d = tick * 1_000_000_000;
    let q = n / d;
    let r = n % d;
    vstd::arithmetic::div_mod::lemma_fundamental_div_mod(n, d);
    let w = whole_ticks(span, tick);
    assert(w == -q);
    assert(w * tick * 1_000_000_000 == -(d * q)) by (nonlinear_arith)
        requires
            w == -q,
            d == tick * 1_000_000_000,
    ;
    assert((w - 1) * tick * 1_000_000_000 == -(d * q) - d) by (nonlinear_arith)
        requires
            w == -q,
            d == tick * 1_000_000_000,
    ;
}

/// Whether `b` is pending skill `a` but for its cooldown and its wit check.
pub open spec fn same_but_held(a: PendingState, b: PendingState) -> bool {
    b == (PendingState { ready_at: b.ready_at, wit_passed: b.wit_passed, ..a })
}

/// The pass checks in list order: checking an entry leaves the ones before it,
/// which have had their check this tick, but for their cooldowns and wit checks.
/// So a skill can set off a later one on the same tick, and not an earlier one.
pub proof fn a_check_leaves_the_earlier_skills(
    s: RunnerState,
    i: int,
    field: FieldView,
    distance: i64,
    j: int,
)
    requires
        0 <= j < i < s.pending.len(),
    ensures
        ({
            let after = entry_checked(s, i, field, distance).0;
            j < after.pending.len() && same_but_held(s.pending[j], after.pending[j])
        }),
{
    reveal(entry_checked);
    reveal(fired_or_failed);
    let p = moved_on(s.pending[i], s.body.position as int);
    let s1 = RunnerState { pending: s.pending.update(i, p), ..s };
    let rolled = wit_rolled(s1, p);
    crate::runner::activation::lemma_skill_activation_leaves(rolled, p, distance);
    let s2 = crate::runner::activation::skill_activated(rolled, p, distance).0;
    assert(crate::runner::activation::same_but_ready(rolled.pending[j], s2.pending[j]));
}

/// What a runner's speed and acceleration modifiers are without the effects of
/// her own skills that run on her.
#[verifier::ext_equal]
pub struct BaseModifiers {
    pub target_speed: int,
    pub current_speed: int,
    pub accel: int,
}

/// Whether a runner's modifiers are her base ones and what her own running
/// effects add, with room to spare.
pub open spec fn own_effects_accounted(s: RunnerState, base: BaseModifiers) -> bool {
    &&& accounted(s.tally.modifiers.target_speed, base.target_speed, s.active.target_speed)
    &&& accounted(s.tally.modifiers.current_speed, base.current_speed, s.active.current_speed)
    &&& accounted(s.tally.modifiers.accel, base.accel, s.active.acceleration)
}

/// Whether one more effect of strength `m` leaves the totals in range.
pub open spec fn has_room_for(s: RunnerState, base: BaseModifiers, m: i64) -> bool {
    let extra = magnitude(m as int);
    &&& magnitude(base.target_speed) + weight(s.active.target_speed) + extra <= QUANTITY_MAX
    &&& magnitude(base.current_speed) + weight(s.active.current_speed) + extra <= QUANTITY_MAX
    &&& magnitude(base.accel) + weight(s.active.acceleration) + extra <= QUANTITY_MAX
}

/// Applying an effect of the runner's own skill keeps her modifiers equal to
/// her base ones and what runs on her.
pub proof fn applying_an_effect_keeps_the_accounts(
    s: RunnerState,
    base: BaseModifiers,
    skill_id: SkillId,
    effect: ResolvedSkillEffect,
    duration: i64,
)
    requires
        own_effects_accounted(s, base),
        has_room_for(s, base, effect.modifier),
    ensures
        own_effects_accounted(self_applied(s, skill_id, effect, duration), base),
{
    reveal(self_applied);
    let natural = effect.effect_type == SkillType::CurrentSpeedWithNaturalDeceleration;
    let active = crate::runner::activation::running(skill_id, effect, duration, natural);
    let plain = crate::runner::activation::running(skill_id, effect, duration, false);
    assert(s.active.target_speed.push(plain).drop_last() =~= s.active.target_speed);
    assert(s.active.acceleration.push(plain).drop_last() =~= s.active.acceleration);
    assert(s.active.current_speed.push(active).drop_last() =~= s.active.current_speed);
    if effect.effect_type == SkillType::TargetSpeed {
        a_started_effect_is_accounted_for(
            s.tally.modifiers.target_speed,
            base.target_speed,
            s.active.target_speed,
            plain,
        );
    } else if effect.effect_type == SkillType::Accel {
        a_started_effect_is_accounted_for(
            s.tally.modifiers.accel,
            base.accel,
            s.active.acceleration,
            plain,
        );
    } else if effect.effect_type == SkillType::CurrentSpeed || natural {
        a_started_effect_is_accounted_for(
            s.tally.modifiers.current_speed,
            base.current_speed,
            s.active.current_speed,
            active,
        );
    }
}

/// Ending the effects that have run out keeps the runner's modifiers equal to
/// her base ones and what still runs on her: an effect leaves no trace.
pub proof fn ending_effects_keeps_the_accounts(s: RunnerState, base: BaseModifiers)
    requires
        own_effects_accounted(s, base),
    ensures
        own_effects_accounted(expired_self_skills_gone(s), base),
{
    reveal(expired_self_skills_gone);
    expired_effects_are_taken_back_exactly(
        s.tally.modifiers.target_speed,
        base.target_speed,
        s.active.target_speed,
    );
    expired_effects_are_taken_back_exactly(
        s.tally.modifiers.current_speed,
        base.current_speed,
        s.active.current_speed,
    );
    expired_effects_are_taken_back_exactly(
        s.tally.modifiers.accel,
        base.accel,
        s.active.acceleration,
    );
}

/// What a tick's skill pass leaves alone: where the runner is, what is scripted
/// for her, what others have cast on her, and what is already on record. It
/// brings in no pending skill.
pub open spec fn untouched_by_pass(a: RunnerState, b: RunnerState) -> bool {
    &&& b.body == a.body
    &&& b.script == a.script
    &&& b.targeted == a.targeted
    &&& b.pending_targeted == a.pending_targeted
    &&& b.used_targeted == a.used_targeted
    &&& record_grows(a, b)
    &&& b.pending.len() <= a.pending.len()
}

proof fn lemma_lengthening_leaves(s: RunnerState, extending: Seq<OrderUpExtension>)
    ensures
        untouched_by_pass(s, skills_lengthened(s, extending)),
    decreases extending.len(),
{
    if extending.len() > 0 {
        lemma_lengthening_leaves(s, extending.drop_last());
    }
}

pub(crate) proof fn lemma_readying_leaves(s: RunnerState, field: FieldView)
    ensures
        untouched_by_pass(s, ready_to_check(s, field)),
{
    reveal(tick_started);
    reveal(expired_self_skills_gone);
    reveal(order_gained);
    reveal(held_fired);
    reveal(preconditions_latched);
    let s1 = tick_started(s, field);
    let s2 = RunnerState { extensions: extensions_used(s1.extensions), ..s1 };
    let s3 = skills_lengthened(s2, extending(s1.extensions));
    lemma_lengthening_leaves(s2, extending(s1.extensions));
    let trigger = HeldTrigger::OrderUp;
    let s4 = RunnerState { held: after_firing(s3.held, trigger), ..s3 };
    lemma_held_applied_leaves_pending(s4, firing(s3.held, trigger));
}

proof fn lemma_check_leaves(s: RunnerState, i: int, field: FieldView, distance: i64)
    requires
        0 <= i < s.pending.len(),
    ensures
        untouched_by_pass(s, entry_checked(s, i, field, distance).0),
{
    reveal(entry_checked);
    reveal(fired_or_failed);
    let p = moved_on(s.pending[i], s.body.position as int);
    let s1 = RunnerState { pending: s.pending.update(i, p), ..s };
    crate::runner::activation::lemma_skill_activation_leaves(wit_rolled(s1, p), p, distance);
}

pub(crate) proof fn lemma_pass_leaves(s: RunnerState, next: int, field: FieldView, distance: i64)
    ensures
        untouched_by_pass(s, pass_from(s, next, field, distance)),
    decreases s.pending.len() - next,
{
    if 0 <= next < s.pending.len() {
        lemma_entry_advances(s, next, field, distance);
        lemma_check_leaves(s, next, field, distance);
        let (s1, after) = entry_checked(s, next, field, distance);
        lemma_pass_leaves(s1, after, field, distance);
    }
}

/// A tick's skill pass moves nobody: it leaves the runner's place in the race,
/// her script and what others have cast on her, takes nothing off the record,
/// and brings in no pending skill.
pub proof fn a_skill_pass_leaves_the_rest(s: RunnerState, field: FieldView, distance: i64)
    ensures
        untouched_by_pass(s, skills_processed(s, field, distance)),
{
    lemma_readying_leaves(s, field);
    lemma_pass_leaves(ready_to_check(s, field), 0, field, distance);
}

/// Whether a runner's modifiers are her base ones and what the targeted effects
/// running on her add, with room to spare.
pub open spec fn targeted_effects_accounted(s: RunnerState, base: BaseModifiers) -> bool {
    &&& accounted(
        s.tally.modifiers.target_speed,
        base.target_speed,
        skills_of(s.targeted.target_speed),
    )
    &&& accounted(
        s.tally.modifiers.current_speed,
        base.current_speed,
        skills_of(s.targeted.current_speed),
    )
    &&& accounted(s.tally.modifiers.accel, base.accel, skills_of(s.targeted.acceleration))
}

/// Whether one more targeted effect of strength `m` leaves the totals in range.
pub open spec fn has_targeted_room_for(s: RunnerState, base: BaseModifiers, m: i64) -> bool {
    let extra = magnitude(m as int);
    &&& magnitude(base.target_speed) + weight(skills_of(s.targeted.target_speed)) + extra
        <= QUANTITY_MAX
    &&& magnitude(base.current_speed) + weight(skills_of(s.targeted.current_speed)) + extra
        <= QUANTITY_MAX
    &&& magnitude(base.accel) + weight(skills_of(s.targeted.acceleration)) + extra
        <= QUANTITY_MAX
}

proof fn lemma_landed_on_list(
    total: i64,
    base: int,
    list: Seq<ActiveTargetedSkill>,
    active: ActiveTargetedSkill,
)
    requires
        accounted(total, base, skills_of(list)),
        magnitude(base) + weight(skills_of(list)) + magnitude(active.skill.modifier as int)
            <= QUANTITY_MAX,
    ensures
        accounted(
            sat(total + active.skill.modifier) as i64,
            base,
            skills_of(list.push(active)),
        ),
{
    assert(skills_of(list.push(active)) =~= skills_of(list).push(active.skill));
    assert(skills_of(list).push(active.skill).drop_last() =~= skills_of(list));
    a_started_effect_is_accounted_for(total, base, skills_of(list), active.skill);
}

/// A targeted effect that lands keeps the runner's modifiers equal to her base
/// ones and what is cast on her.
pub proof fn landing_an_effect_keeps_the_accounts(
    s: RunnerState,
    base: BaseModifiers,
    meta: TargetedEffectMeta,
    effect: ResolvedSkillEffect,
    distance: i64,
)
    requires
        targeted_effects_accounted(s, base),
        has_targeted_room_for(s, base, effect.modifier),
    ensures
        targeted_effects_accounted(landed(s, meta, effect, distance), base),
{
    reveal(landed);
    reveal(targeted_applied);
    let duration = course_scaled(effect.base_duration as int, distance as int) as i64;
    let natural = effect.effect_type == SkillType::CurrentSpeedWithNaturalDeceleration;
    let active = targeted_running(meta, effect, duration, natural);
    if effect.effect_type == SkillType::TargetSpeed {
        lemma_landed_on_list(
            s.tally.modifiers.target_speed,
            base.target_speed,
            s.targeted.target_speed,
            active,
        );
    } else if effect.effect_type == SkillType::Accel {
        lemma_landed_on_list(
            s.tally.modifiers.accel,
            base.accel,
            s.targeted.acceleration,
            active,
        );
    } else if effect.effect_type == SkillType::CurrentSpeed || natural {
        lemma_landed_on_list(
            s.tally.modifiers.current_speed,
            base.current_speed,
            s.targeted.current_speed,
            active,
        );
    }
}

proof fn lemma_still_targeting(list: Seq<ActiveTargetedSkill>)
    ensures
        skills_of(still_targeting(list)) == still_running(skills_of(list)),
    decreases list.len(),
{
    if list.len() > 0 {
        lemma_still_targeting(list.drop_last());
        assert(skills_of(list).drop_last() =~= skills_of(list.drop_last()));
        assert(skills_of(still_targeting(list)) =~= still_running(skills_of(list)));
    } else {
        assert(skills_of(still_targeting(list)) =~= still_running(skills_of(list)));
    }
}

/// Ending the targeted effects that have run out keeps the runner's modifiers
/// equal to her base ones and what is still cast on her.
pub proof fn ending_targeted_effects_keeps_the_accounts(s: RunnerState, base: BaseModifiers)
    requires
        targeted_effects_accounted(s, base),
    ensures
        targeted_effects_accounted(expired_targeted_skills_gone(s), base),
{
    reveal(expired_targeted_skills_gone);
    lemma_still_targeting(s.targeted.target_speed);
    lemma_still_targeting(s.targeted.current_speed);
    lemma_still_targeting(s.targeted.acceleration);
    expired_effects_are_taken_back_exactly(
        s.tally.modifiers.target_speed,
        base.target_speed,
        skills_of(s.targeted.target_speed),
    );
    expired_effects_are_taken_back_exactly(
        s.tally.modifiers.current_speed,
        base.current_speed,
        skills_of(s.targeted.current_speed),
    );
    expired_effects_are_taken_back_exactly(
        s.tally.modifiers.accel,
        base.accel,
        skills_of(s.targeted.acceleration),
    );
}

/// What a tick's targeted pass leaves alone: where the runner is, what is
/// scripted for her, and her own skills, pending and running. It brings in no
/// targeted skill.
pub open spec fn untouched_by_targeted_pass(a: RunnerState, b: RunnerState) -> bool {
    &&& b.pending_targeted.len() <= a.pending_targeted.len()
    &&& untouched_by_landing(a, RunnerState { pending_targeted: a.pending_targeted, ..b })
}

proof fn lemma_targeted_pass_leaves(s: RunnerState, n: nat, distance: i64)
    requires
        n <= s.pending_targeted.len(),
    ensures
        untouched_by_targeted_pass(s, targeted_pass(s, n, distance)),
    decreases n,
{
    if n > 0 {
        let i = n - 1;
        let p = s.pending_targeted[i];
        if s.body.position >= p.trigger.end {
            let s1 = RunnerState { pending_targeted: s.pending_targeted.remove(i), ..s };
            lemma_targeted_pass_leaves(s1, (n - 1) as nat, distance);
        } else if s.body.position >= p.trigger.start {
            let applied = injected(s, p, distance);
            lemma_injection_leaves_own_skills(
                s,
                TargetedEffectMeta {
                    skill_id: p.skill_id,
                    origin: p.origin,
                    source_runner_id: p.source_runner_id,
                },
                application_order(p.effects),
                distance,
            );
            let s1 = RunnerState {
                pending_targeted: applied.pending_targeted.remove(i),
                ..applied
            };
            lemma_targeted_pass_leaves(s1, (n - 1) as nat, distance);
        } else {
            lemma_targeted_pass_leaves(s, (n - 1) as nat, distance);
        }
    }
}

/// A tick's targeted pass leaves the runner's place in the race, her script and
/// her own skills, and brings in no targeted skill.
pub proof fn a_targeted_pass_leaves_own_skills(s: RunnerState, distance: i64)
    ensures
        untouched_by_targeted_pass(s, targeted_processed(s, distance)),
{
    reveal(expired_targeted_skills_gone);
    let s1 = expired_targeted_skills_gone(s);
    lemma_targeted_pass_leaves(s1, s1.pending_targeted.len(), distance);
}

} // verus!
