//! What an effect does when it is applied, in the runner's own numbers: a stat
//! rises, HP comes back, a delay changes, or a running effect starts.
use crate::effect::{SkillRarity, SkillType};
use crate::language::{Phase, RunnerId, SkillId, Strategy};
use crate::model::{
    ActiveSkill, ActiveTargetedSkill, HeldAdditionalEffect, PendingState, ResolvedSkillEffect,
    SkillEffectSpec, TargetedSkillOrigin,
};
use crate::runner::activation::{
    activation_recorded, after_resolving, application_order, course_scaled, effect_applied,
    effect_duration, effect_outcome, effect_resolved, extension_effects, forced_gold_count,
    golds_forced, held_applied, is_held, raised, resolved, running, self_applied, stat_effect,
    tick_reached,
};
use crate::runner::targeted::{
    all_landed, landed, received, resolved_extensions, targeted_applied, TargetedEffectMeta,
};
use crate::runner::{recovered, Health, Modifiers, RunnerBody, RunnerState, RunnerTally};
use crate::units::{
    is_nearest, product, quantities_multiply_as_numbers, rounded_quotient,
    rounding_is_to_the_nearest, QUANTITY_MAX, QUANTITY_MIN,
};
use vstd::prelude::*;

verus! {

/// Whether a number is in the range of a quantity.
pub open spec fn in_range(x: int) -> bool {
    QUANTITY_MIN <= x <= QUANTITY_MAX
}

/// Whether a stat was raised by `m`: to the larger of 1 and the stat plus `m`.
pub open spec fn rose_by(before: i64, after: i64, m: int) -> bool {
    in_range(before + m) ==> after == if before + m >= 1_000_000_000 {
        before + m
    } else {
        1_000_000_000
    }
}

/// Whether HP came back by `m` of the maximum: to the smaller of the maximum and
/// what was left plus `m` times the maximum, to the nearest unit.
pub open spec fn came_back_by(before: Health, after: Health, m: int) -> bool {
    &&& after.max == before.max
    &&& forall|gain: int|
        #[trigger] is_nearest(gain, before.max * m, 1_000_000_000) && in_range(gain) && in_range(
            before.current + gain,
        ) ==> after.current == if before.current + gain < before.max {
            before.current + gain
        } else {
            before.max as int
        }
}

/// Whether a quantity was multiplied by `m`, to the nearest unit.
pub open spec fn multiplied_by(before: i64, after: i64, m: int) -> bool {
    forall|d: int|
        #[trigger] is_nearest(d, before * m, 1_000_000_000) && in_range(d) ==> after == d
}

/// Whether `after` is `before` as an effect of type `kind` and strength `m` that
/// acts at once leaves it: a stat up, a start delay set or multiplied, a
/// recovery; any other type leaves it as it was.
pub open spec fn acted_at_once(
    before: RunnerTally,
    after: RunnerTally,
    body: RunnerBody,
    kind: SkillType,
    m: int,
) -> bool {
    let old_stats = before.adjusted_stats;
    let new_stats = after.adjusted_stats;
    &&& if kind == SkillType::SpeedUp {
        rose_by(old_stats.speed, new_stats.speed, m)
    } else {
        new_stats.speed == old_stats.speed
    }
    &&& if kind == SkillType::StaminaUp {
        rose_by(old_stats.stamina, new_stats.stamina, m) && rose_by(
            before.base_stats.stamina,
            after.base_stats.stamina,
            m,
        )
    } else {
        new_stats.stamina == old_stats.stamina && after.base_stats.stamina
            == before.base_stats.stamina
    }
    &&& if kind == SkillType::PowerUp {
        rose_by(old_stats.power, new_stats.power, m)
    } else {
        new_stats.power == old_stats.power
    }
    &&& if kind == SkillType::GutsUp {
        rose_by(old_stats.guts, new_stats.guts, m)
    } else {
        new_stats.guts == old_stats.guts
    }
    &&& if kind == SkillType::WisdomUp {
        rose_by(old_stats.wit, new_stats.wit, m)
    } else {
        new_stats.wit == old_stats.wit
    }
    &&& after.base_stats.speed == before.base_stats.speed
    &&& after.base_stats.power == before.base_stats.power
    &&& after.base_stats.guts == before.base_stats.guts
    &&& after.base_stats.wit == before.base_stats.wit
    &&& if kind == SkillType::Recovery {
        &&& came_back_by(before.health, after.health, m)
        &&& after.last_spurt_check_due <==> before.last_spurt_check_due || ((body.phase
            == Phase::LateRace || body.phase == Phase::LastSpurt) && !body.is_last_spurt)
    } else {
        after.health == before.health && after.last_spurt_check_due
            == before.last_spurt_check_due
    }
    &&& if kind == SkillType::SetStartDelay {
        after.start_delay == m
    } else if kind == SkillType::MultiplyStartDelay {
        multiplied_by(before.start_delay, after.start_delay, m)
    } else {
        after.start_delay == before.start_delay
    }
}

proof fn lemma_recovered(before: Health, m: i64)
    ensures
        came_back_by(before, recovered(before, m as int), m as int),
{
    assert forall|gain: int|
        #[trigger] is_nearest(gain, before.max * m, 1_000_000_000) && in_range(gain) && in_range(
            before.current + gain,
        ) implies recovered(before, m as int).current == if before.current + gain < before.max {
        before.current + gain
    } else {
        before.max as int
    } by {
        quantities_multiply_as_numbers(before.max as int, m as int, gain);
    }
}

proof fn lemma_acted_at_once(tally: RunnerTally, body: RunnerBody, kind: SkillType, m: i64)
    ensures
        acted_at_once(tally, stat_effect(tally, body, kind, m), body, kind, m as int),
{
    lemma_recovered(tally.health, m);
    assert forall|d: int|
        #[trigger] is_nearest(d, tally.start_delay * m, 1_000_000_000) && in_range(
            d,
        ) implies product(tally.start_delay as int, m as int) == d by {
        quantities_multiply_as_numbers(tally.start_delay as int, m as int, d);
    }
}

/// Whether a running effect `e` is the one that `effect` of skill `id` starts
/// for `duration`.
pub open spec fn starts_for(
    e: ActiveSkill,
    id: SkillId,
    effect: ResolvedSkillEffect,
    duration: i64,
) -> bool {
    &&& e.skill_id == id
    &&& e.modifier == effect.modifier
    &&& e.effect_target == effect.target
    &&& e.effect_type == effect.effect_type
    &&& e.natural_deceleration <==> effect.effect_type
        == SkillType::CurrentSpeedWithNaturalDeceleration
    &&& in_range(-duration) ==> e.duration_timer.t == -duration
}

/// Whether `after` is `before` with one effect started at its end where `starts`
/// holds, and `before` as it was where it does not.
pub open spec fn list_started(
    before: Seq<ActiveSkill>,
    after: Seq<ActiveSkill>,
    id: SkillId,
    effect: ResolvedSkillEffect,
    duration: i64,
    starts: bool,
) -> bool {
    if starts {
        &&& after.len() == before.len() + 1
        &&& after.take(before.len() as int) == before
        &&& starts_for(after[before.len() as int], id, effect, duration)
    } else {
        after == before
    }
}

/// Whether a modifier counts `m` more where `counts` holds, and the same where
/// it does not.
pub open spec fn counts_more(before: i64, after: i64, m: int, counts: bool) -> bool {
    if counts {
        in_range(before + m) ==> after == before + m
    } else {
        after == before
    }
}

/// Whether the effect's strength counts toward exactly the modifier of its type.
pub open spec fn modifiers_count(
    before: Modifiers,
    after: Modifiers,
    effect: ResolvedSkillEffect,
) -> bool {
    let kind = effect.effect_type;
    &&& counts_more(
        before.target_speed,
        after.target_speed,
        effect.modifier as int,
        kind == SkillType::TargetSpeed,
    )
    &&& counts_more(
        before.current_speed,
        after.current_speed,
        effect.modifier as int,
        kind == SkillType::CurrentSpeed || kind
            == SkillType::CurrentSpeedWithNaturalDeceleration,
    )
    &&& counts_more(
        before.accel,
        after.accel,
        effect.modifier as int,
        kind == SkillType::Accel,
    )
    &&& after.one_frame_accel == before.one_frame_accel
}

/// An effect of the runner's own skill does what its type says and nothing else:
/// it acts at once, or starts running on the one list of its type for its
/// duration, with its strength counted toward the modifier of that type.
pub proof fn an_own_effect_does_what_its_type_says(
    s: RunnerState,
    id: SkillId,
    effect: ResolvedSkillEffect,
    duration: i64,
)
    ensures
        ({
            let after = self_applied(s, id, effect, duration);
            let kind = effect.effect_type;
            let a = s.active;
            let b = after.active;
            &&& acted_at_once(s.tally, after.tally, s.body, kind, effect.modifier as int)
            &&& modifiers_count(s.tally.modifiers, after.tally.modifiers, effect)
            &&& list_started(
                a.target_speed,
                b.target_speed,
                id,
                effect,
                duration,
                kind == SkillType::TargetSpeed,
            )
            &&& list_started(
                a.acceleration,
                b.acceleration,
                id,
                effect,
                duration,
                kind == SkillType::Accel,
            )
            &&& list_started(
                a.current_speed,
                b.current_speed,
                id,
                effect,
                duration,
                kind == SkillType::CurrentSpeed || kind
                    == SkillType::CurrentSpeedWithNaturalDeceleration,
            )
            &&& list_started(
                a.lane_movement,
                b.lane_movement,
                id,
                effect,
                duration,
                kind == SkillType::LaneMovementSpeed,
            )
            &&& list_started(
                a.change_lane,
                b.change_lane,
                id,
                effect,
                duration,
                kind == SkillType::ChangeLane,
            )
            &&& after.tally.modifiers.special_skill_duration_scaling == if kind
                == SkillType::ExtendEvolvedDuration {
                effect.modifier
            } else {
                s.tally.modifiers.special_skill_duration_scaling
            }
            &&& after.tally.position_keep_strategy == if kind == SkillType::ChangeStrategy {
                Strategy::Runaway
            } else {
                s.tally.position_keep_strategy
            }
            &&& counts_more(
                s.tally.heals_activated_count,
                after.tally.heals_activated_count,
                1,
                kind == SkillType::Recovery && effect.modifier > 0,
            )
            &&& after.tally.rushed_max_duration == s.tally.rushed_max_duration
            &&& after.tally.skills_activated_count == s.tally.skills_activated_count
            &&& after.targeted == s.targeted
            &&& after.pending == s.pending
            &&& after.held == s.held
            &&& after.body == s.body
            &&& after.emitted == s.emitted
        }),
{
    reveal(self_applied);
    lemma_acted_at_once(s.tally, s.body, effect.effect_type, effect.modifier);
    let b = self_applied(s, id, effect, duration).active;
    assert(b.target_speed != s.active.target_speed ==> b.target_speed.take(
        s.active.target_speed.len() as int,
    ) =~= s.active.target_speed);
    assert(b.current_speed != s.active.current_speed ==> b.current_speed.take(
        s.active.current_speed.len() as int,
    ) =~= s.active.current_speed);
    assert(b.acceleration != s.active.acceleration ==> b.acceleration.take(
        s.active.acceleration.len() as int,
    ) =~= s.active.acceleration);
    assert(b.lane_movement != s.active.lane_movement ==> b.lane_movement.take(
        s.active.lane_movement.len() as int,
    ) =~= s.active.lane_movement);
    assert(b.change_lane != s.active.change_lane ==> b.change_lane.take(
        s.active.change_lane.len() as int,
    ) =~= s.active.change_lane);
}

/// Whether `after` is `before` with one targeted effect landed at its end where
/// `starts` holds, and `before` as it was where it does not.
pub open spec fn targeted_started(
    before: Seq<ActiveTargetedSkill>,
    after: Seq<ActiveTargetedSkill>,
    meta: TargetedEffectMeta,
    effect: ResolvedSkillEffect,
    duration: i64,
    starts: bool,
) -> bool {
    if starts {
        let e = after[before.len() as int];
        &&& after.len() == before.len() + 1
        &&& after.take(before.len() as int) == before
        &&& starts_for(e.skill, meta.skill_id, effect, duration)
        &&& e.origin == meta.origin
        &&& e.source_runner_id == meta.source_runner_id
    } else {
        after == before
    }
}

/// An effect cast on a runner does what its type says and nothing else, as it
/// lands. A recovery brings her HP to the smaller of her maximum and her HP plus
/// its strength times her maximum; a Speed, Power, Guts or Wit Up brings that
/// stat to the larger of 1 and the stat plus its strength; a rushed-duration
/// effect lengthens the spell she is in; a running one starts on the one list of
/// its type. Her own style, her evolved skills and her own running effects are
/// out of its reach.
pub open spec fn landed_by_type(
    s: RunnerState,
    after: RunnerState,
    meta: TargetedEffectMeta,
    effect: ResolvedSkillEffect,
    duration: i64,
) -> bool {
    let kind = effect.effect_type;
    let a = s.targeted;
    let b = after.targeted;
    &&& acted_at_once(s.tally, after.tally, s.body, kind, effect.modifier as int)
    &&& modifiers_count(s.tally.modifiers, after.tally.modifiers, effect)
    &&& targeted_started(
        a.target_speed,
        b.target_speed,
        meta,
        effect,
        duration,
        kind == SkillType::TargetSpeed,
    )
    &&& targeted_started(
        a.acceleration,
        b.acceleration,
        meta,
        effect,
        duration,
        kind == SkillType::Accel,
    )
    &&& targeted_started(
        a.current_speed,
        b.current_speed,
        meta,
        effect,
        duration,
        kind == SkillType::CurrentSpeed || kind
            == SkillType::CurrentSpeedWithNaturalDeceleration,
    )
    &&& targeted_started(
        a.lane_movement,
        b.lane_movement,
        meta,
        effect,
        duration,
        kind == SkillType::LaneMovementSpeed,
    )
    &&& targeted_started(
        a.change_lane,
        b.change_lane,
        meta,
        effect,
        duration,
        kind == SkillType::ChangeLane,
    )
    &&& counts_more(
        s.tally.rushed_max_duration,
        after.tally.rushed_max_duration,
        effect.modifier as int,
        kind == SkillType::RushedDuration && s.body.is_rushed,
    )
    &&& after.tally.modifiers.special_skill_duration_scaling
        == s.tally.modifiers.special_skill_duration_scaling
    &&& after.tally.position_keep_strategy == s.tally.position_keep_strategy
    &&& after.tally.heals_activated_count == s.tally.heals_activated_count
    &&& after.active == s.active
    &&& after.pending == s.pending
    &&& after.pending_targeted == s.pending_targeted
    &&& after.held == s.held
    &&& after.body == s.body
    &&& after.used_targeted.len() == s.used_targeted.len() + 1
    &&& after.used_targeted.take(s.used_targeted.len() as int) == s.used_targeted
    &&& {
        let used = after.used_targeted.last();
        &&& used.skill_id == meta.skill_id
        &&& used.position == s.body.position
        &&& used.effect_type == effect.effect_type
        &&& used.effect_target == effect.target
    }
}

/// See [`landed_by_type`]; it lasts its base duration per kilometre of the
/// course.
pub proof fn a_cast_effect_does_what_its_type_says(
    s: RunnerState,
    meta: TargetedEffectMeta,
    effect: ResolvedSkillEffect,
    distance: i64,
)
    ensures
        landed_by_type(
            s,
            landed(s, meta, effect, distance),
            meta,
            effect,
            course_scaled(effect.base_duration as int, distance as int) as i64,
        ),
{
    reveal(landed);
    reveal(targeted_applied);
    lemma_acted_at_once(s.tally, s.body, effect.effect_type, effect.modifier);
    let after = landed(s, meta, effect, distance);
    let b = after.targeted;
    assert(after.used_targeted.take(s.used_targeted.len() as int) =~= s.used_targeted);
    assert(b.target_speed != s.targeted.target_speed ==> b.target_speed.take(
        s.targeted.target_speed.len() as int,
    ) =~= s.targeted.target_speed);
    assert(b.current_speed != s.targeted.current_speed ==> b.current_speed.take(
        s.targeted.current_speed.len() as int,
    ) =~= s.targeted.current_speed);
    assert(b.acceleration != s.targeted.acceleration ==> b.acceleration.take(
        s.targeted.acceleration.len() as int,
    ) =~= s.targeted.acceleration);
    assert(b.lane_movement != s.targeted.lane_movement ==> b.lane_movement.take(
        s.targeted.lane_movement.len() as int,
    ) =~= s.targeted.lane_movement);
    assert(b.change_lane != s.targeted.change_lane ==> b.change_lane.take(
        s.targeted.change_lane.len() as int,
    ) =~= s.targeted.change_lane);
}

/// A skill of one effect that another runner casts lands on the receiver as that
/// effect: the caster is on record as its source.
pub proof fn a_received_effect_lands_as_cast(
    s: RunnerState,
    skill_id: SkillId,
    effect: ResolvedSkillEffect,
    source: RunnerId,
    distance: i64,
)
    ensures
        landed_by_type(
            s,
            received(s, skill_id, seq![effect], source, distance),
            TargetedEffectMeta {
                skill_id,
                origin: TargetedSkillOrigin::Runner,
                source_runner_id: Some(source),
            },
            effect,
            course_scaled(effect.base_duration as int, distance as int) as i64,
        ),
{
    let effects = seq![effect];
    let meta = TargetedEffectMeta {
        skill_id,
        origin: TargetedSkillOrigin::Runner,
        source_runner_id: Some(source),
    };
    assert(effects.drop_last() =~= Seq::<ResolvedSkillEffect>::empty());
    reveal_with_fuel(resolved_extensions, 2);
    let order = resolved_extensions(effects, false) + resolved_extensions(effects, true);
    assert(order =~= effects);
    reveal_with_fuel(all_landed, 2);
    assert(received(s, skill_id, effects, source, distance) == landed(s, meta, effect, distance));
    a_cast_effect_does_what_its_type_says(s, meta, effect, distance);
}

/// Of several effects cast together each lands once on what the ones before it
/// left, the ones that stretch evolved skills after the others.
pub proof fn cast_effects_land_one_after_the_other(
    s: RunnerState,
    meta: TargetedEffectMeta,
    effects: Seq<ResolvedSkillEffect>,
    distance: i64,
    k: int,
)
    requires
        0 <= k < effects.len(),
    ensures
        landed_by_type(
            all_landed(s, meta, effects.take(k), distance),
            all_landed(s, meta, effects.take(k + 1), distance),
            meta,
            effects[k],
            course_scaled(effects[k].base_duration as int, distance as int) as i64,
        ),
        all_landed(s, meta, effects.take(0), distance) == s,
        resolved_extensions(effects, true) == effects.filter(
            |e: ResolvedSkillEffect| e.effect_type == SkillType::ExtendEvolvedDuration,
        ),
        resolved_extensions(effects, false) == effects.filter(
            |e: ResolvedSkillEffect| e.effect_type != SkillType::ExtendEvolvedDuration,
        ),
{
    lemma_resolved_split(effects);
    let before = all_landed(s, meta, effects.take(k), distance);
    assert(effects.take(k + 1).drop_last() =~= effects.take(k));
    a_cast_effect_does_what_its_type_says(before, meta, effects[k], distance);
}

proof fn lemma_resolved_split(effects: Seq<ResolvedSkillEffect>)
    ensures
        resolved_extensions(effects, true) == effects.filter(
            |e: ResolvedSkillEffect| e.effect_type == SkillType::ExtendEvolvedDuration,
        ),
        resolved_extensions(effects, false) == effects.filter(
            |e: ResolvedSkillEffect| e.effect_type != SkillType::ExtendEvolvedDuration,
        ),
    decreases effects.len(),
{
    reveal(Seq::filter);
    if effects.len() > 0 {
        lemma_resolved_split(effects.drop_last());
    }
}

/// A skill's effects apply in the order of its data, the ones that stretch
/// evolved skills after the others.
pub proof fn effects_keep_the_order_of_the_data(effects: Seq<SkillEffectSpec>)
    ensures
        application_order(effects) == effects.filter(
            |e: SkillEffectSpec| e.effect_type != SkillType::ExtendEvolvedDuration,
        ) + effects.filter(
            |e: SkillEffectSpec| e.effect_type == SkillType::ExtendEvolvedDuration,
        ),
{
    lemma_split(effects);
}

proof fn lemma_split(effects: Seq<SkillEffectSpec>)
    ensures
        extension_effects(effects, true) == effects.filter(
            |e: SkillEffectSpec| e.effect_type == SkillType::ExtendEvolvedDuration,
        ),
        extension_effects(effects, false) == effects.filter(
            |e: SkillEffectSpec| e.effect_type != SkillType::ExtendEvolvedDuration,
        ),
    decreases effects.len(),
{
    reveal(Seq::filter);
    if effects.len() > 0 {
        lemma_split(effects.drop_last());
    }
}

/// A duration grows with the course: by its base for every kilometre, to the
/// nearest unit. An evolved skill's is stretched by what stretches those, and any
/// skill's by its own scaling.
pub proof fn a_duration_grows_with_the_course(
    s: RunnerState,
    rarity: SkillRarity,
    base: i64,
    distance: i64,
    scaling: i64,
    kilometres: int,
    scaled: int,
    stretched: int,
    lasts: int,
)
    requires
        is_nearest(kilometres, distance as int, 1000),
        is_nearest(scaled, base * kilometres, 1_000_000_000),
        is_nearest(
            stretched,
            scaled * if rarity == SkillRarity::Evolution {
                s.tally.modifiers.special_skill_duration_scaling as int
            } else {
                1_000_000_000
            },
            1_000_000_000,
        ),
        is_nearest(lasts, stretched * scaling, 1_000_000_000),
        in_range(scaled),
        in_range(stretched),
        in_range(lasts),
    ensures
        course_scaled(base as int, distance as int) == scaled,
        effect_duration(s, rarity, base, distance, scaling) == lasts,
{
    rounding_is_to_the_nearest(distance as int, 1000, kilometres);
    quantities_multiply_as_numbers(base as int, kilometres, scaled);
    let stretch = if rarity == SkillRarity::Evolution {
        s.tally.modifiers.special_skill_duration_scaling as int
    } else {
        1_000_000_000
    };
    quantities_multiply_as_numbers(scaled, stretch, stretched);
    quantities_multiply_as_numbers(stretched, scaling as int, lasts);
}

/// What one effect of a skill of the runner's own does when the skill activates.
/// An additional effect waits for its trigger; one that hits opponents goes out
/// to them, as resolved by the caster, and does nothing to her; any other is
/// applied to her, and on record for opponents where it helps her.
pub proof fn an_effect_waits_goes_out_or_applies(
    s: RunnerState,
    p: PendingState,
    effect: SkillEffectSpec,
    distance: i64,
    scaling: i64,
    depth: nat,
)
    ensures
        ({
            let after = effect_applied(s, p, effect, distance, scaling, depth);
            let duration = effect_duration(s, p.rarity, effect.base_duration, distance, scaling);
            let r = resolved(s, p.skill_id.number, effect);
            let waits = effect.additional_activate_type == Some(1i32)
                || effect.additional_activate_type == Some(2i32)
                || effect.additional_activate_type == Some(3i32);
            let goes_out = crate::effect::hits_opponents(
                effect.effect_type,
                effect.target,
                r.modifier as int,
            );
            &&& waits ==> {
                let h = after.held.last();
                &&& after.held.len() == s.held.len() + 1
                &&& after.held.take(s.held.len() as int) == s.held
                &&& h.skill_id == p.skill_id
                &&& h.effect == effect
                &&& Some(h.trigger) == effect.additional_activate_type
                &&& in_range(-duration) ==> h.timer.t == -duration
                &&& after.tally == s.tally
                &&& after.active == s.active
                &&& after.emitted == s.emitted
                &&& after.skill_rolls == s.skill_rolls
            }
            &&& !waits && goes_out ==> {
                let d = after.emitted.last();
                &&& after.emitted.len() == s.emitted.len() + 1
                &&& after.emitted.take(s.emitted.len() as int) == s.emitted
                &&& d.skill_id == p.skill_id
                &&& d.target == effect.target
                &&& d.target_strategy == p.target_strategy
                &&& d.effect == r
                &&& after.tally == s.tally
                &&& after.active == s.active
                &&& after.held == s.held
            }
            &&& !waits && !goes_out && effect.effect_type != SkillType::ActivateRandomGold ==> {
                let on_record = RunnerState {
                    tally: RunnerTally {
                        activated_advantage_effect_types: if r.modifier > 0 {
                            s.tally.activated_advantage_effect_types | (1u64
                                << (effect.effect_type.data_id() as u64))
                        } else {
                            s.tally.activated_advantage_effect_types
                        },
                        ..s.tally
                    },
                    skill_rolls: after.skill_rolls,
                    ..s
                };
                after == self_applied(on_record, p.skill_id, r, duration)
            }
            &&& !waits && !goes_out && effect.effect_type == SkillType::ActivateRandomGold
                ==> after == golds_forced(
                effect_resolved(s, p, effect),
                forced_gold_count(r.modifier),
                distance,
                depth,
            )
        }),
{
    reveal(effect_outcome);
    let after = effect_applied(s, p, effect, distance, scaling, depth);
    assert(is_held(effect) ==> after.held.take(s.held.len() as int) =~= s.held);
    assert(after.emitted != s.emitted && !is_held(effect) && crate::effect::hits_opponents(
        effect.effect_type,
        effect.target,
        resolved(s, p.skill_id.number, effect).modifier as int,
    ) ==> after.emitted.take(s.emitted.len() as int) =~= s.emitted);
    reveal(self_applied);
}

/// A forced-gold effect forces as many golds as whole ones its strength holds.
pub proof fn whole_golds_are_forced(modifier: i64, n: int)
    ensures
        modifier <= 0 ==> forced_gold_count(modifier) == 0,
        modifier > 0 && n * 1_000_000_000 <= modifier < (n + 1) * 1_000_000_000
            ==> forced_gold_count(modifier) == n,
{
    if modifier > 0 && n * 1_000_000_000 <= modifier < (n + 1) * 1_000_000_000 {
        let m = modifier as int;
        assert(m / 1_000_000_000 == n) by (nonlinear_arith)
            requires
                n * 1_000_000_000 <= m < (n + 1) * 1_000_000_000,
        ;
    }
}

/// An activation is on record: the runner's count, the count of the phase she is
/// in and that of the half of the race she is in each go up by one, and no other
/// does; a skill that overtakes lengthen can be lengthened three times, by the
/// course's length in kilometres each, while it runs.
pub proof fn an_activation_is_counted_where_it_happens(
    s: RunnerState,
    p: PendingState,
    duration: i64,
    distance: i64,
)
    ensures
        ({
            let after = activation_recorded(s, p, duration, distance);
            let a = s.tally;
            let b = after.tally;
            let phase = s.body.phase;
            &&& counts_more(a.skills_activated_count, b.skills_activated_count, 1, true)
            &&& counts_more(
                a.skills_activated_phase_map.early,
                b.skills_activated_phase_map.early,
                1,
                phase == Phase::EarlyRace,
            )
            &&& counts_more(
                a.skills_activated_phase_map.mid,
                b.skills_activated_phase_map.mid,
                1,
                phase == Phase::MidRace,
            )
            &&& counts_more(
                a.skills_activated_phase_map.late,
                b.skills_activated_phase_map.late,
                1,
                phase == Phase::LateRace,
            )
            &&& counts_more(
                a.skills_activated_phase_map.spurt,
                b.skills_activated_phase_map.spurt,
                1,
                phase == Phase::LastSpurt,
            )
            &&& counts_more(
                a.skills_activated_half_race_map.first,
                b.skills_activated_half_race_map.first,
                1,
                s.body.position + s.body.position < distance,
            )
            &&& counts_more(
                a.skills_activated_half_race_map.second,
                b.skills_activated_half_race_map.second,
                1,
                s.body.position + s.body.position >= distance,
            )
            &&& if p.duration_scaling == Some(4i32) && duration > 0 {
                let e = after.extensions.last();
                &&& after.extensions.len() == s.extensions.len() + 1
                &&& after.extensions.take(s.extensions.len() as int) == s.extensions
                &&& e.skill_id == p.skill_id
                &&& e.remaining == 3
                &&& is_nearest(e.seconds as int, distance as int, 1000)
                &&& e.timer.t == -duration
            } else {
                after.extensions == s.extensions
            }
            &&& after.used_skills.contains(p.skill_id)
            &&& forall|id: SkillId|
                id != p.skill_id ==> (#[trigger] after.used_skills.contains(id)
                    <==> s.used_skills.contains(id))
            &&& s.used_skills.is_prefix_of(after.used_skills)
            &&& after.used_skills.len() == s.used_skills.len() + if s.used_skills.contains(
                p.skill_id,
            ) {
                0int
            } else {
                1
            }
            &&& b.health == a.health
            &&& b.modifiers == a.modifiers
            &&& after.active == s.active
            &&& after.held == s.held
            &&& after.pending == s.pending
        }),
{
    reveal(activation_recorded);
    rounding_is_to_the_nearest(distance as int, 1000, 0);
    let after = activation_recorded(s, p, duration, distance);
    let q = rounded_quotient(distance as int, 1000);
    assert(QUANTITY_MIN <= q <= QUANTITY_MAX);
    assert(after.extensions != s.extensions ==> after.extensions.take(s.extensions.len() as int)
        =~= s.extensions);
    if !s.used_skills.contains(p.skill_id) {
        let l = s.used_skills;
        assert(l.push(p.skill_id)[l.len() as int] == p.skill_id);
        assert forall|id: SkillId| id != p.skill_id implies (#[trigger] l.push(p.skill_id).contains(
            id,
        ) <==> l.contains(id)) by {
            if l.contains(id) {
                let k = l.index_of(id);
                assert(l.push(p.skill_id)[k] == id);
            }
        }
    }
}

/// How a tick is told to have come: the race time and the time waited for, each
/// in the nearest whole ticks, and never for a skill that is done.
pub proof fn a_tick_comes_when_its_time_has(body: RunnerBody, at: i64, now: int, due: int)
    requires
        is_nearest(now, body.accumulate_time.in_seconds(), crate::runner::FRAME_DT as int),
        is_nearest(due, at as int, crate::runner::FRAME_DT as int),
    ensures
        tick_reached(body, at) <==> at != 0x7fff_ffff_ffff_ffff && now >= due,
{
    rounding_is_to_the_nearest(
        body.accumulate_time.in_seconds(),
        crate::runner::FRAME_DT as int,
        now,
    );
    rounding_is_to_the_nearest(at as int, crate::runner::FRAME_DT as int, due);
}

/// What an effect's strength is once resolved: a recovery's is the one scripted
/// for its skill where there is one; any other's is the data's own, as it stands
/// or times the drawn or counted multiplier. Only a drawn one takes a draw.
pub proof fn a_strength_is_resolved_by_its_policy(
    s: RunnerState,
    number: u32,
    effect: SkillEffectSpec,
)
    ensures
        ({
            let r = resolved(s, number, effect);
            let scripted = crate::runner::scripted(
                s.script.stamina_drain_overrides@,
                number,
            );
            let overridden = effect.effect_type == SkillType::Recovery && scripted is Some;
            let drawn = !overridden && effect.value_scaling
                == crate::effect::ValueScalingPolicy::MultiplyRandom;
            &&& r.target == effect.target
            &&& r.effect_type == effect.effect_type
            &&& r.base_duration == effect.base_duration
            &&& overridden ==> r.modifier == scripted->0
            &&& !overridden && (effect.value_scaling == crate::effect::ValueScalingPolicy::Direct
                || effect.value_scaling == crate::effect::ValueScalingPolicy::PreAppliedTier)
                ==> r.modifier == effect.modifier
            &&& after_resolving(s, number, effect).skill_rolls == if drawn {
                crate::rng::after_roll(s.skill_rolls)
            } else {
                s.skill_rolls
            }
            &&& after_resolving(s, number, effect).tally == s.tally
            &&& after_resolving(s, number, effect).active == s.active
        }),
{
}

/// A held effect that fires is applied for what is left of its skill's duration,
/// and does nothing where it would hit opponents.
pub proof fn a_fired_effect_lasts_as_its_skill_does(s: RunnerState, held: HeldAdditionalEffect)
    ensures
        ({
            let after = held_applied(s, held);
            let r = resolved(s, held.skill_id.number, held.effect);
            let ready = after_resolving(s, held.skill_id.number, held.effect);
            if crate::effect::hits_opponents(
                held.effect.effect_type,
                held.effect.target,
                r.modifier as int,
            ) {
                after == ready
            } else {
                in_range(-held.timer.t) ==> after == self_applied(
                    ready,
                    held.skill_id,
                    r,
                    (-held.timer.t) as i64,
                )
            }
        }),
{
}

} // verus!
