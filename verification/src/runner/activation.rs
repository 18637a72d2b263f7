//! What a skill's activation does to its runner.
use crate::effect::{
    band_multiplier, find_band_multiplier, find_tier_multiplier, hits_opponents,
    is_external_debuff, tier_multiplier, SkillRarity, SkillType, ValueScalingPolicy,
};
use crate::language::{Phase, SkillId, Strategy};
use crate::math::Timer;
use crate::model::{
    duration_multiplier, duration_scaling_multiplier, firing_limit, ActiveSkill,
    EmittedDebuff, HeldAdditionalEffect, OrderUpExtension, PendingSkill, PendingState,
    ResolvedSkillEffect, SkillEffectSpec, NEVER_READY,
};
use crate::rng::{after_roll, exchanged, fraction_of, index_of, next_roll};
use crate::runner::{
    contains_skill, find_scripted, recovered, scripted, ActiveState, LedgerEntry, Modifiers,
    Runner, RunnerBody, RunnerState, RunnerTally, StatBlock, FRAME_DT,
};
use crate::units::{
    count_of, divide_rounded, larger, max_quantity, negated, plus, product,
    rounded_quotient, sat, times, ONE, QUANTITY_MAX,
};
use vstd::prelude::*;

verus! {

/// A stat raised (or lowered) by `modifier`: never under 1.
pub open spec fn raised(stat: i64, modifier: i64) -> i64 {
    larger(sat(stat + modifier), ONE as int) as i64
}

fn raise(stat: i64, modifier: i64) -> (r: i64)
    ensures
        r == raised(stat, modifier),
{
    max_quantity(plus(stat, modifier), ONE)
}

/// What a stat, start-delay or recovery effect makes of the tally; the other
/// types leave it. A Stamina Up raises the base stat too.
pub open spec fn stat_effect(
    tally: RunnerTally,
    body: RunnerBody,
    effect_type: SkillType,
    modifier: i64,
) -> RunnerTally {
    let stats = tally.adjusted_stats;
    match effect_type {
        SkillType::SpeedUp => RunnerTally {
            adjusted_stats: StatBlock { speed: raised(stats.speed, modifier), ..stats },
            ..tally
        },
        SkillType::StaminaUp => RunnerTally {
            adjusted_stats: StatBlock { stamina: raised(stats.stamina, modifier), ..stats },
            base_stats: StatBlock {
                stamina: raised(tally.base_stats.stamina, modifier),
                ..tally.base_stats
            },
            ..tally
        },
        SkillType::PowerUp => RunnerTally {
            adjusted_stats: StatBlock { power: raised(stats.power, modifier), ..stats },
            ..tally
        },
        SkillType::GutsUp => RunnerTally {
            adjusted_stats: StatBlock { guts: raised(stats.guts, modifier), ..stats },
            ..tally
        },
        SkillType::WisdomUp => RunnerTally {
            adjusted_stats: StatBlock { wit: raised(stats.wit, modifier), ..stats },
            ..tally
        },
        SkillType::MultiplyStartDelay => RunnerTally {
            start_delay: product(tally.start_delay as int, modifier as int) as i64,
            ..tally
        },
        SkillType::SetStartDelay => RunnerTally { start_delay: modifier, ..tally },
        SkillType::Recovery => RunnerTally {
            health: recovered(tally.health, modifier as int),
            last_spurt_check_due: tally.last_spurt_check_due || (body.phase.place() >= 2
                && !body.is_last_spurt),
            ..tally
        },
        _ => tally,
    }
}

impl Runner {
    /// Apply a stat, start-delay or recovery effect.
    pub(crate) fn apply_stat_effect(&mut self, effect_type: SkillType, modifier: i64)
        ensures
            final(self)@ == (RunnerState {
                tally: stat_effect(old(self).tally, old(self).body, effect_type, modifier),
                ..old(self)@
            }),
    {
        match effect_type {
            SkillType::SpeedUp => {
                self.tally.adjusted_stats.speed = raise(self.tally.adjusted_stats.speed, modifier);
            },
            SkillType::StaminaUp => {
                self.tally.adjusted_stats.stamina = raise(
                    self.tally.adjusted_stats.stamina,
                    modifier,
                );
                self.tally.base_stats.stamina = raise(self.tally.base_stats.stamina, modifier);
            },
            SkillType::PowerUp => {
                self.tally.adjusted_stats.power = raise(self.tally.adjusted_stats.power, modifier);
            },
            SkillType::GutsUp => {
                self.tally.adjusted_stats.guts = raise(self.tally.adjusted_stats.guts, modifier);
            },
            SkillType::WisdomUp => {
                self.tally.adjusted_stats.wit = raise(self.tally.adjusted_stats.wit, modifier);
            },
            SkillType::MultiplyStartDelay => {
                self.tally.start_delay = times(self.tally.start_delay, modifier);
            },
            SkillType::SetStartDelay => {
                self.tally.start_delay = modifier;
            },
            SkillType::Recovery => {
                self.tally.health.recover(modifier);
                if self.body.phase.index() >= 2 && !self.body.is_last_spurt {
                    self.tally.last_spurt_check_due = true;
                }
            },
            _ => {},
        }
    }
}

/// The running form of an effect that lasts `duration`.
pub open spec fn running(
    skill_id: SkillId,
    effect: ResolvedSkillEffect,
    duration: i64,
    natural_deceleration: bool,
) -> ActiveSkill {
    ActiveSkill {
        skill_id,
        duration_timer: Timer { t: sat(-duration) as i64 },
        modifier: effect.modifier,
        effect_target: effect.target,
        effect_type: effect.effect_type,
        natural_deceleration,
    }
}

/// See [`running`].
pub(crate) fn active_skill(
    skill_id: SkillId,
    effect: &ResolvedSkillEffect,
    duration: i64,
    natural_deceleration: bool,
) -> (active: ActiveSkill)
    ensures
        active == running(skill_id, *effect, duration, natural_deceleration),
{
    ActiveSkill {
        skill_id,
        duration_timer: Timer::new(negated(duration)),
        modifier: effect.modifier,
        effect_target: effect.target,
        effect_type: effect.effect_type,
        natural_deceleration,
    }
}

/// What one effect of the runner's own skill makes of her, `duration` being how
/// long it lasts.
#[verifier::opaque]
pub open spec fn self_applied(
    s: RunnerState,
    skill_id: SkillId,
    effect: ResolvedSkillEffect,
    duration: i64,
) -> RunnerState {
    let modifiers = s.tally.modifiers;
    let m = effect.modifier;
    match effect.effect_type {
        SkillType::ChangeStrategy => RunnerState {
            tally: RunnerTally { position_keep_strategy: Strategy::Runaway, ..s.tally },
            ..s
        },
        SkillType::TargetSpeed => RunnerState {
            tally: RunnerTally {
                modifiers: Modifiers {
                    target_speed: sat(modifiers.target_speed + m) as i64,
                    ..modifiers
                },
                ..s.tally
            },
            active: ActiveState {
                target_speed: s.active.target_speed.push(
                    running(skill_id, effect, duration, false),
                ),
                ..s.active
            },
            ..s
        },
        SkillType::Accel => RunnerState {
            tally: RunnerTally {
                modifiers: Modifiers { accel: sat(modifiers.accel + m) as i64, ..modifiers },
                ..s.tally
            },
            active: ActiveState {
                acceleration: s.active.acceleration.push(
                    running(skill_id, effect, duration, false),
                ),
                ..s.active
            },
            ..s
        },
        SkillType::LaneMovementSpeed => RunnerState {
            active: ActiveState {
                lane_movement: s.active.lane_movement.push(
                    running(skill_id, effect, duration, false),
                ),
                ..s.active
            },
            ..s
        },
        SkillType::CurrentSpeed | SkillType::CurrentSpeedWithNaturalDeceleration => RunnerState {
            tally: RunnerTally {
                modifiers: Modifiers {
                    current_speed: sat(modifiers.current_speed + m) as i64,
                    ..modifiers
                },
                ..s.tally
            },
            active: ActiveState {
                current_speed: s.active.current_speed.push(
                    running(
                        skill_id,
                        effect,
                        duration,
                        effect.effect_type == SkillType::CurrentSpeedWithNaturalDeceleration,
                    ),
                ),
                ..s.active
            },
            ..s
        },
        SkillType::ChangeLane => RunnerState {
            active: ActiveState {
                change_lane: s.active.change_lane.push(running(skill_id, effect, duration, false)),
                ..s.active
            },
            ..s
        },
        SkillType::ExtendEvolvedDuration => RunnerState {
            tally: RunnerTally {
                modifiers: Modifiers { special_skill_duration_scaling: m, ..modifiers },
                ..s.tally
            },
            ..s
        },
        SkillType::Recovery => {
            let healed = stat_effect(s.tally, s.body, effect.effect_type, m);
            RunnerState {
                tally: RunnerTally {
                    heals_activated_count: if m > 0 {
                        sat(healed.heals_activated_count + 1) as i64
                    } else {
                        healed.heals_activated_count
                    },
                    ..healed
                },
                ..s
            }
        },
        _ => RunnerState {
            tally: stat_effect(s.tally, s.body, effect.effect_type, m),
            ..s
        },
    }
}

impl Runner {
    /// Apply one effect of the runner's own skill, for `duration`.
    pub fn apply_self_effect(
        &mut self,
        skill_id: SkillId,
        effect: &ResolvedSkillEffect,
        duration: i64,
    )
        ensures
            final(self)@ == self_applied(old(self)@, skill_id, *effect, duration),
    {
        proof {
            reveal(self_applied);
        }
        match effect.effect_type {
            SkillType::ChangeStrategy => {
                self.tally.position_keep_strategy = Strategy::Runaway;
            },
            SkillType::TargetSpeed => {
                self.tally.modifiers.target_speed = plus(
                    self.tally.modifiers.target_speed,
                    effect.modifier,
                );
                self.active.target_speed.push(active_skill(skill_id, effect, duration, false));
            },
            SkillType::Accel => {
                self.tally.modifiers.accel = plus(self.tally.modifiers.accel, effect.modifier);
                self.active.acceleration.push(active_skill(skill_id, effect, duration, false));
            },
            SkillType::LaneMovementSpeed => {
                self.active.lane_movement.push(active_skill(skill_id, effect, duration, false));
            },
            SkillType::CurrentSpeed | SkillType::CurrentSpeedWithNaturalDeceleration => {
                self.tally.modifiers.current_speed = plus(
                    self.tally.modifiers.current_speed,
                    effect.modifier,
                );
                let natural = effect.effect_type == SkillType::CurrentSpeedWithNaturalDeceleration;
                self.active.current_speed.push(active_skill(skill_id, effect, duration, natural));
            },
            SkillType::ChangeLane => {
                self.active.change_lane.push(active_skill(skill_id, effect, duration, false));
            },
            SkillType::ExtendEvolvedDuration => {
                self.tally.modifiers.special_skill_duration_scaling = effect.modifier;
            },
            SkillType::Recovery => {
                if effect.modifier > 0 {
                    self.tally.heals_activated_count = plus(self.tally.heals_activated_count, 1);
                }
                self.apply_stat_effect(effect.effect_type, effect.modifier);
            },
            _ => {
                self.apply_stat_effect(effect.effect_type, effect.modifier);
            },
        }
    }
}

/// How many of the recorded skills are green.
pub open spec fn green_count(ledger: Seq<LedgerEntry>) -> int
    decreases ledger.len(),
{
    if ledger.len() == 0 {
        0
    } else {
        green_count(ledger.drop_last()) + if ledger.last().green {
            1int
        } else {
            0int
        }
    }
}

/// Whether skill `number` has been recorded.
pub open spec fn is_recorded(ledger: Seq<LedgerEntry>, number: u32) -> bool {
    exists|i: int| 0 <= i < ledger.len() && (#[trigger] ledger[i]).number == number
}

/// Whether one of `tags` marks a green skill.
pub open spec fn is_green(tags: Seq<i32>, green_tags: Seq<i32>) -> bool {
    exists|i: int| 0 <= i < tags.len() && green_tags.contains(#[trigger] tags[i])
}

/// The ledger with skill `number` recorded, once.
pub open spec fn recorded(
    ledger: Seq<LedgerEntry>,
    number: u32,
    tags: Seq<i32>,
    green_tags: Seq<i32>,
) -> Seq<LedgerEntry> {
    if is_recorded(ledger, number) {
        ledger
    } else {
        ledger.push(LedgerEntry { number, green: is_green(tags, green_tags) })
    }
}

/// `skill_id` added to the list, once.
pub open spec fn with_skill(list: Seq<SkillId>, skill_id: SkillId) -> Seq<SkillId> {
    if list.contains(skill_id) {
        list
    } else {
        list.push(skill_id)
    }
}

fn activated_green_count(ledger: &Vec<LedgerEntry>) -> (n: i64)
    ensures
        n == sat(green_count(ledger@)),
{
    let mut count: usize = 0;
    let mut i: usize = 0;
    while i < ledger.len()
        invariant
            i <= ledger.len(),
            count <= i,
            count == green_count(ledger@.take(i as int)),
        decreases ledger.len() - i,
    {
        proof {
            assert(ledger@.take(i + 1).drop_last() =~= ledger@.take(i as int));
        }
        if ledger[i].green {
            count = count + 1;
        }
        i = i + 1;
    }
    proof {
        assert(ledger@.take(i as int) =~= ledger@);
    }
    count_of(count)
}

fn contains_tag(tags: &Vec<i32>, tag: i32) -> (found: bool)
    ensures
        found == tags@.contains(tag),
{
    let mut i: usize = 0;
    while i < tags.len()
        invariant
            i <= tags.len(),
            forall|k: int| 0 <= k < i ==> tags@[k] != tag,
        decreases tags.len() - i,
    {
        if tags[i] == tag {
            return true;
        }
        i = i + 1;
    }
    false
}

fn has_green_tag(tags: &Vec<i32>, green_tags: &Vec<i32>) -> (green: bool)
    ensures
        green == is_green(tags@, green_tags@),
{
    let mut i: usize = 0;
    while i < tags.len()
        invariant
            i <= tags.len(),
            forall|k: int| 0 <= k < i ==> !green_tags@.contains(#[trigger] tags@[k]),
        decreases tags.len() - i,
    {
        if contains_tag(green_tags, tags[i]) {
            return true;
        }
        i = i + 1;
    }
    false
}

fn ledger_holds(ledger: &Vec<LedgerEntry>, number: u32) -> (found: bool)
    ensures
        found == is_recorded(ledger@, number),
{
    let mut i: usize = 0;
    while i < ledger.len()
        invariant
            i <= ledger.len(),
            forall|k: int| 0 <= k < i ==> (#[trigger] ledger@[k]).number != number,
        decreases ledger.len() - i,
    {
        if ledger[i].number == number {
            return true;
        }
        i = i + 1;
    }
    false
}

/// The override that stands in for an effect's strength, if any: recovery
/// effects take the one scripted for their skill.
pub open spec fn override_of(s: RunnerState, number: u32, effect: SkillEffectSpec) -> Option<i64> {
    if effect.effect_type == SkillType::Recovery {
        scripted(s.script.stamina_drain_overrides@, number)
    } else {
        None
    }
}

/// The strength of an effect as the runner's state scales it.
pub open spec fn resolved_modifier(s: RunnerState, number: u32, effect: SkillEffectSpec) -> i64 {
    match override_of(s, number, effect) {
        Some(v) => v,
        None => match effect.value_scaling {
            ValueScalingPolicy::Direct | ValueScalingPolicy::PreAppliedTier => effect.modifier,
            ValueScalingPolicy::MultiplyRandom => product(
                effect.modifier as int,
                band_multiplier(s.script.random_bands@, fraction_of(next_roll(s.skill_rolls))),
            ) as i64,
            ValueScalingPolicy::MultiplyActivatedGreens => product(
                effect.modifier as int,
                tier_multiplier(s.script.green_tiers@, sat(green_count(s.ledger))),
            ) as i64,
        },
    }
}

/// An effect resolved against the runner's state.
pub open spec fn resolved(s: RunnerState, number: u32, effect: SkillEffectSpec) -> ResolvedSkillEffect {
    ResolvedSkillEffect {
        target: effect.target,
        effect_type: effect.effect_type,
        base_duration: effect.base_duration,
        modifier: resolved_modifier(s, number, effect),
    }
}

/// The runner after resolving an effect: a random multiplier takes one draw,
/// and an override takes none.
pub open spec fn after_resolving(s: RunnerState, number: u32, effect: SkillEffectSpec) -> RunnerState {
    if override_of(s, number, effect) is None && effect.value_scaling
        == ValueScalingPolicy::MultiplyRandom {
        RunnerState { skill_rolls: after_roll(s.skill_rolls), ..s }
    } else {
        s
    }
}

impl Runner {
    /// Resolve one effect against the runner's state, exactly once.
    pub fn resolve_effect(&mut self, number: u32, effect: &SkillEffectSpec) -> (r:
        ResolvedSkillEffect)
        ensures
            r == resolved(old(self)@, number, *effect),
            final(self)@ == after_resolving(old(self)@, number, *effect),
    {
        let override_value = if effect.effect_type == SkillType::Recovery {
            find_scripted(&self.script.stamina_drain_overrides, number)
        } else {
            None
        };
        let modifier: i64 = match override_value {
            Some(v) => v,
            None => match effect.value_scaling {
                ValueScalingPolicy::Direct | ValueScalingPolicy::PreAppliedTier => effect.modifier,
                ValueScalingPolicy::MultiplyRandom => {
                    let roll: i64 = self.skill_rng.random();
                    times(effect.modifier, find_band_multiplier(&self.script.random_bands, roll))
                },
                ValueScalingPolicy::MultiplyActivatedGreens => {
                    let greens: i64 = activated_green_count(&self.activated_ledger);
                    times(effect.modifier, find_tier_multiplier(&self.script.green_tiers, greens))
                },
            },
        };
        ResolvedSkillEffect {
            target: effect.target,
            effect_type: effect.effect_type,
            base_duration: effect.base_duration,
            modifier,
        }
    }
}

/// What sets held effects off: an overtake, or the activation of another skill.
#[derive(Debug, Clone, Copy, PartialEq, Eq, Structural)]
pub enum HeldTrigger {
    OrderUp,
    SkillActivated(SkillId),
}

/// Whether a held effect fires now: it has firings left, its skill still runs,
/// and its trigger is the one given.
pub open spec fn fires(held: HeldAdditionalEffect, trigger: HeldTrigger) -> bool {
    &&& held.remaining > 0
    &&& held.timer.t < 0
    &&& match trigger {
        HeldTrigger::OrderUp => held.trigger == 1,
        HeldTrigger::SkillActivated(id) => (held.trigger == 2 || held.trigger == 3)
            && held.skill_id != id,
    }
}

/// The held effects with a firing taken off each one that fires.
pub open spec fn after_firing(held: Seq<HeldAdditionalEffect>, trigger: HeldTrigger) -> Seq<
    HeldAdditionalEffect,
> {
    Seq::new(
        held.len(),
        |i: int|
            if fires(held[i], trigger) {
                HeldAdditionalEffect { remaining: (held[i].remaining - 1) as u32, ..held[i] }
            } else {
                held[i]
            },
    )
}

/// The held effects that fire, in order.
pub open spec fn firing(held: Seq<HeldAdditionalEffect>, trigger: HeldTrigger) -> Seq<
    HeldAdditionalEffect,
>
    decreases held.len(),
{
    if held.len() == 0 {
        Seq::empty()
    } else {
        let before = firing(held.drop_last(), trigger);
        if fires(held.last(), trigger) {
            before.push(held.last())
        } else {
            before
        }
    }
}

/// The runner after one held effect has been applied for its skill's remaining
/// duration. One that reaches opponents does nothing.
pub open spec fn held_applied(s: RunnerState, held: HeldAdditionalEffect) -> RunnerState {
    let r = resolved(s, held.skill_id.number, held.effect);
    let s1 = after_resolving(s, held.skill_id.number, held.effect);
    if hits_opponents(r.effect_type, r.target, r.modifier as int) {
        s1
    } else {
        self_applied(s1, held.skill_id, r, sat(-held.timer.t) as i64)
    }
}

/// The runner after each of `fired` has been applied, in order.
pub open spec fn all_held_applied(s: RunnerState, fired: Seq<HeldAdditionalEffect>) -> RunnerState
    decreases fired.len(),
{
    if fired.len() == 0 {
        s
    } else {
        held_applied(all_held_applied(s, fired.drop_last()), fired.last())
    }
}

/// The runner after the held effects that `trigger` sets off have fired, once
/// each.
#[verifier::opaque]
pub open spec fn held_fired(s: RunnerState, trigger: HeldTrigger) -> RunnerState {
    all_held_applied(
        RunnerState { held: after_firing(s.held, trigger), ..s },
        firing(s.held, trigger),
    )
}

fn held_fires(held: &HeldAdditionalEffect, trigger: HeldTrigger) -> (yes: bool)
    ensures
        yes == fires(*held, trigger),
{
    held.remaining > 0 && held.timer.t < 0 && match trigger {
        HeldTrigger::OrderUp => held.trigger == 1,
        HeldTrigger::SkillActivated(id) => (held.trigger == 2 || held.trigger == 3)
            && held.skill_id != id,
    }
}

impl Runner {
    /// Apply every held effect that `trigger` sets off, once each, for its
    /// skill's remaining duration.
    pub fn fire_held_additional_effects(&mut self, trigger: HeldTrigger)
        ensures
            final(self)@ == held_fired(old(self)@, trigger),
    {
        proof {
            reveal(held_fired);
        }
        let ghost before = self@;
        let ghost held = self.held_additional_effects@;
        let mut fired: Vec<HeldAdditionalEffect> = Vec::new();
        let mut i: usize = 0;
        while i < self.held_additional_effects.len()
            invariant
                before.held == held,
                held.len() == self.held_additional_effects@.len(),
                i <= held.len(),
                self@ == (RunnerState { held: self.held_additional_effects@, ..before }),
                fired@ == firing(held.take(i as int), trigger),
                forall|k: int|
                    0 <= k < i ==> self.held_additional_effects@[k] == #[trigger] after_firing(
                        held,
                        trigger,
                    )[k],
                forall|k: int| i <= k < held.len() ==> self.held_additional_effects@[k] == held[k],
            decreases held.len() - i,
        {
            proof {
                assert(held.take(i + 1).drop_last() =~= held.take(i as int));
            }
            let effect = self.held_additional_effects[i];
            if held_fires(&effect, trigger) {
                fired.push(effect);
                self.held_additional_effects[i].remaining = effect.remaining - 1;
            }
            i = i + 1;
        }
        proof {
            assert(held.take(i as int) =~= held);
            assert(self.held_additional_effects@ =~= after_firing(held, trigger));
        }
        let ghost ready = self@;
        let mut k: usize = 0;
        proof {
            assert(fired@.take(0) =~= Seq::<HeldAdditionalEffect>::empty());
        }
        while k < fired.len()
            invariant
                k <= fired.len(),
                self@ == all_held_applied(ready, fired@.take(k as int)),
            decreases fired.len() - k,
        {
            proof {
                assert(fired@.take(k + 1).drop_last() =~= fired@.take(k as int));
            }
            let held_effect = fired[k];
            let r = self.resolve_effect(held_effect.skill_id.base(), &held_effect.effect);
            if !is_external_debuff(r.effect_type, r.target, r.modifier) {
                self.apply_self_effect(held_effect.skill_id, &r, negated(held_effect.timer.t));
            }
            k = k + 1;
        }
        proof {
            assert(fired@.take(k as int) =~= fired@);
        }
    }
}

/// The effects with the ones that stretch evolved skills (`extension`), or
/// without them, in order.
pub open spec fn extension_effects(effects: Seq<SkillEffectSpec>, extension: bool) -> Seq<
    SkillEffectSpec,
>
    decreases effects.len(),
{
    if effects.len() == 0 {
        Seq::empty()
    } else {
        let before = extension_effects(effects.drop_last(), extension);
        if (effects.last().effect_type == SkillType::ExtendEvolvedDuration) == extension {
            before.push(effects.last())
        } else {
            before
        }
    }
}

/// The order a skill applies its effects in: the ones that stretch evolved
/// skills come last.
pub open spec fn application_order(effects: Seq<SkillEffectSpec>) -> Seq<SkillEffectSpec> {
    extension_effects(effects, false) + extension_effects(effects, true)
}

fn push_extension_effects(
    effects: &Vec<SkillEffectSpec>,
    extension: bool,
    into: &mut Vec<SkillEffectSpec>,
)
    ensures
        final(into)@ == old(into)@ + extension_effects(effects@, extension),
{
    let ghost start = into@;
    let mut i: usize = 0;
    while i < effects.len()
        invariant
            i <= effects.len(),
            into@ == start + extension_effects(effects@.take(i as int), extension),
        decreases effects.len() - i,
    {
        proof {
            assert(effects@.take(i + 1).drop_last() =~= effects@.take(i as int));
        }
        let is_extension = effects[i].effect_type == SkillType::ExtendEvolvedDuration;
        if is_extension == extension {
            into.push(effects[i]);
        }
        i = i + 1;
        proof {
            assert(into@ =~= start + extension_effects(effects@.take(i as int), extension));
        }
    }
    proof {
        assert(effects@.take(i as int) =~= effects@);
    }
}

/// See [`application_order`].
pub(crate) fn in_application_order(effects: &Vec<SkillEffectSpec>) -> (ordered: Vec<SkillEffectSpec>)
    ensures
        ordered@ == application_order(effects@),
{
    let mut ordered: Vec<SkillEffectSpec> = Vec::new();
    push_extension_effects(effects, false, &mut ordered);
    push_extension_effects(effects, true, &mut ordered);
    proof {
        assert(ordered@ =~= application_order(effects@));
    }
    ordered
}

/// Whether this tick is the one at race time `at` or later: both are held
/// against each other in whole ticks, so rounding in neither can move the
/// answer by a tick.
pub open spec fn tick_reached(body: RunnerBody, at: i64) -> bool {
    at != NEVER_READY && rounded_quotient(body.accumulate_time.in_seconds(), FRAME_DT as int)
        >= rounded_quotient(at as int, FRAME_DT as int)
}

/// A duration on a course `distance` long.
pub open spec fn course_scaled(seconds: int, distance: int) -> int {
    product(seconds, rounded_quotient(distance, 1000))
}

/// See [`course_scaled`].
pub(crate) fn scale_to_course(seconds: i64, distance: i64) -> (scaled: i64)
    ensures
        scaled == course_scaled(seconds as int, distance as int),
{
    let per_kilometre: i64 = divide_rounded(distance as i128, 1000) as i64;
    times(seconds, per_kilometre)
}

/// How long an effect of a skill lasts once activated: its base duration scaled
/// by the course, by the evolved-skill stretch, and by the skill's own scaling
/// code.
pub open spec fn effect_duration(
    s: RunnerState,
    rarity: SkillRarity,
    base_duration: i64,
    distance: i64,
    time_scaling: i64,
) -> i64 {
    let stretch = if rarity == SkillRarity::Evolution {
        s.tally.modifiers.special_skill_duration_scaling
    } else {
        ONE
    };
    product(
        product(course_scaled(base_duration as int, distance as int), stretch as int),
        time_scaling as int,
    ) as i64
}

/// Whether the effect waits on a trigger instead of being applied.
pub open spec fn is_held(effect: SkillEffectSpec) -> bool {
    effect.additional_activate_type is Some && 1 <= effect.additional_activate_type->0 <= 3
}

/// The bitmask with an advantage of this type recorded.
pub open spec fn with_advantage(mask: u64, effect_type: SkillType) -> u64 {
    mask | (1u64 << (effect_type.data_id() as u64))
}

/// The runner with a positive effect on herself recorded for opponents to see.
pub open spec fn advantage_recorded(s: RunnerState, r: ResolvedSkillEffect) -> RunnerState {
    if r.modifier > 0 {
        RunnerState {
            tally: RunnerTally {
                activated_advantage_effect_types: with_advantage(
                    s.tally.activated_advantage_effect_types,
                    r.effect_type,
                ),
                ..s.tally
            },
            ..s
        }
    } else {
        s
    }
}

/// How many golds an effect of this strength forces.
pub open spec fn forced_gold_count(modifier: i64) -> int {
    if modifier > 0 {
        modifier as int / ONE as int
    } else {
        0
    }
}

/// The most links that a chain of golds that force golds is followed for. A gold
/// is spent only once it has fired, so one that forces golds can draw itself
/// again, and no number of skills bounds a chain. Every link is a call inside
/// the one before it: this is more of them than a machine can hold, so a chain
/// that ends is run to its end, and the activation that starts one without an
/// end does not return.
pub const FORCED_GOLD_CHAIN: u64 = 0xffff_ffff_ffff_ffff;

/// The runner when an effect of pending skill `p` has been resolved and, if it
/// helps her, recorded.
pub open spec fn effect_resolved(s: RunnerState, p: PendingState, effect: SkillEffectSpec) -> RunnerState {
    advantage_recorded(
        after_resolving(s, p.skill_id.number, effect),
        resolved(s, p.skill_id.number, effect),
    )
}

/// What one effect of pending skill `p` makes of the runner: a held effect
/// waits; a debuff goes to the outbox, never onto the caster; a forced gold
/// leaves her as `golds`, the runner after the golds it forces; everything else
/// is applied to the runner.
#[verifier::opaque]
pub open spec fn effect_outcome(
    s: RunnerState,
    p: PendingState,
    effect: SkillEffectSpec,
    distance: i64,
    time_scaling: i64,
    golds: RunnerState,
) -> RunnerState {
    let duration = effect_duration(s, p.rarity, effect.base_duration, distance, time_scaling);
    let r = resolved(s, p.skill_id.number, effect);
    if is_held(effect) {
        let trigger = effect.additional_activate_type->0;
        RunnerState {
            held: s.held.push(
                HeldAdditionalEffect {
                    skill_id: p.skill_id,
                    effect,
                    trigger,
                    remaining: firing_limit(trigger),
                    timer: Timer { t: sat(-duration) as i64 },
                },
            ),
            ..s
        }
    } else if hits_opponents(r.effect_type, r.target, r.modifier as int) {
        let s1 = after_resolving(s, p.skill_id.number, effect);
        RunnerState {
            emitted: s1.emitted.push(
                EmittedDebuff {
                    skill_id: p.skill_id,
                    effect: r,
                    target: r.target,
                    target_strategy: p.target_strategy,
                },
            ),
            ..s1
        }
    } else if r.effect_type == SkillType::ActivateRandomGold {
        golds
    } else {
        self_applied(effect_resolved(s, p, effect), p.skill_id, r, duration)
    }
}

/// What applying one effect of pending skill `p` makes of the runner (see
/// [`effect_outcome`]).
pub open spec fn effect_applied(
    s: RunnerState,
    p: PendingState,
    effect: SkillEffectSpec,
    distance: i64,
    time_scaling: i64,
    depth: nat,
) -> RunnerState
    decreases depth, 2int, 0int,
{
    effect_outcome(
        s,
        p,
        effect,
        distance,
        time_scaling,
        golds_forced(
            effect_resolved(s, p, effect),
            forced_gold_count(resolved_modifier(s, p.skill_id.number, effect)),
            distance,
            depth,
        ),
    )
}

/// The runner after the first `n` of `effects`, and how long the longest of
/// them lasts (at least 0).
pub open spec fn effects_applied(
    s: RunnerState,
    p: PendingState,
    effects: Seq<SkillEffectSpec>,
    n: nat,
    distance: i64,
    time_scaling: i64,
    depth: nat,
) -> (RunnerState, i64)
    decreases depth, 3int, n,
{
    if n == 0 {
        (s, 0)
    } else {
        let (before, longest) = effects_applied(
            s,
            p,
            effects,
            (n - 1) as nat,
            distance,
            time_scaling,
            depth,
        );
        let effect = effects[n - 1];
        let duration = effect_duration(
            before,
            p.rarity,
            effect.base_duration,
            distance,
            time_scaling,
        );
        (
            effect_applied(before, p, effect, distance, time_scaling, depth),
            larger(longest as int, duration as int) as i64,
        )
    }
}

/// The tally with one more skill activated in this phase and half of the race.
pub open spec fn activation_counted(
    tally: RunnerTally,
    body: RunnerBody,
    distance: i64,
) -> RunnerTally {
    let phases = tally.skills_activated_phase_map;
    let halves = tally.skills_activated_half_race_map;
    RunnerTally {
        skills_activated_count: sat(tally.skills_activated_count + 1) as i64,
        skills_activated_phase_map: match body.phase {
            Phase::EarlyRace => crate::condition::dynamic::PhaseCounts {
                early: sat(phases.early + 1) as i64,
                ..phases
            },
            Phase::MidRace => crate::condition::dynamic::PhaseCounts {
                mid: sat(phases.mid + 1) as i64,
                ..phases
            },
            Phase::LateRace => crate::condition::dynamic::PhaseCounts {
                late: sat(phases.late + 1) as i64,
                ..phases
            },
            Phase::LastSpurt => crate::condition::dynamic::PhaseCounts {
                spurt: sat(phases.spurt + 1) as i64,
                ..phases
            },
        },
        skills_activated_half_race_map: if 2 * body.position >= distance {
            crate::condition::dynamic::HalfCounts {
                second: sat(halves.second + 1) as i64,
                ..halves
            }
        } else {
            crate::condition::dynamic::HalfCounts { first: sat(halves.first + 1) as i64, ..halves }
        },
        ..tally
    }
}

/// The runner with the activation of `p`, running for `duration`, on record.
#[verifier::opaque]
pub open spec fn activation_recorded(
    s: RunnerState,
    p: PendingState,
    duration: i64,
    distance: i64,
) -> RunnerState {
    RunnerState {
        extensions: if p.duration_scaling == Some(4i32) && duration > 0 {
            s.extensions.push(
                OrderUpExtension {
                    skill_id: p.skill_id,
                    remaining: 3,
                    seconds: rounded_quotient(distance as int, 1000) as i64,
                    timer: Timer { t: sat(-duration) as i64 },
                },
            )
        } else {
            s.extensions
        },
        tally: activation_counted(s.tally, s.body, distance),
        used_skills: with_skill(s.used_skills, p.skill_id),
        ledger: recorded(s.ledger, p.skill_id.number, p.tags, s.script.green_tags@),
        ..s
    }
}

/// The runner after pending skill `p` has activated, and how long it runs (its
/// longest effect; 0 when every effect is instant): its effects apply in order,
/// the activation is recorded, and running skills' held effects fire on it.
pub open spec fn activated(s: RunnerState, p: PendingState, distance: i64, depth: nat) -> (
    RunnerState,
    i64,
)
    decreases depth, 4int, 0int,
{
    let effects = application_order(p.effects);
    let time_scaling = duration_multiplier(
        p.duration_scaling,
        s.tally.health.current as int,
        s.tally.activation_distance_from_top as int,
    ) as i64;
    let (s1, duration) = effects_applied(
        s,
        p,
        effects,
        effects.len(),
        distance,
        time_scaling,
        depth,
    );
    (
        held_fired(
            activation_recorded(s1, p, duration, distance),
            HeldTrigger::SkillActivated(p.skill_id),
        ),
        duration,
    )
}

/// Whether a pending skill may be forced: a gold, ready, and no stat skill.
pub open spec fn is_gold_candidate(p: PendingState, body: RunnerBody) -> bool {
    &&& p.rarity == SkillRarity::Gold || p.rarity == SkillRarity::Evolution
    &&& tick_reached(body, p.ready_at)
    &&& forall|i: int| 0 <= i < p.effects.len() ==> (#[trigger] p.effects[i]).effect_type.data_id() > 5
}

/// Whether one of the pending skills at `picks` is a version of `skill_id`.
pub open spec fn picks_skill(pending: Seq<PendingState>, picks: Seq<usize>, skill_id: SkillId) -> bool {
    exists|i: int| 0 <= i < picks.len() && pending[#[trigger] picks[i] as int].skill_id == skill_id
}

/// Where the gold candidates among the first `n` pending skills stand: a skill
/// is one candidate however many of its entries are pending, and its first
/// entry stands for it.
pub open spec fn gold_candidates(pending: Seq<PendingState>, body: RunnerBody, n: nat) -> Seq<usize>
    decreases n,
{
    if n == 0 {
        Seq::empty()
    } else {
        let before = gold_candidates(pending, body, (n - 1) as nat);
        let p = pending[n - 1];
        if is_gold_candidate(p, body) && !picks_skill(pending, before, p.skill_id) {
            before.push((n - 1) as usize)
        } else {
            before
        }
    }
}

/// The first `n` entries of `list` shuffled: from the last of them down, each
/// is exchanged with the one the next draw picks among it and those before it.
pub open spec fn shuffled(list: Seq<usize>, n: nat, rolls: Seq<u64>) -> Seq<usize>
    decreases n,
{
    if n == 0 {
        list
    } else {
        shuffled(
            exchanged(list, n - 1, index_of(next_roll(rolls), n as int)),
            (n - 1) as nat,
            after_roll(rolls),
        )
    }
}

/// The stream after `n` draws.
pub open spec fn after_rolls(rolls: Seq<u64>, n: nat) -> Seq<u64>
    decreases n,
{
    if n == 0 {
        rolls
    } else {
        after_rolls(after_roll(rolls), (n - 1) as nat)
    }
}

/// The pending skills with every entry of `skill_id` spent for the race.
pub open spec fn spent(pending: Seq<PendingState>, skill_id: SkillId) -> Seq<PendingState> {
    Seq::new(
        pending.len(),
        |i: int|
            if pending[i].skill_id == skill_id {
                PendingState { ready_at: NEVER_READY, ..pending[i] }
            } else {
                pending[i]
            },
    )
}

/// The runner with every entry of `skill_id` spent and due to be dropped.
#[verifier::opaque]
pub open spec fn dropped_for_the_race(s: RunnerState, skill_id: SkillId) -> RunnerState {
    RunnerState {
        pending: spent(s.pending, skill_id),
        removal: with_skill(s.removal, skill_id),
        ..s
    }
}

/// The runner after the pending skill at `at` has been forced: it activates,
/// and every entry of it is spent and due to be dropped.
pub open spec fn gold_forced(s: RunnerState, at: usize, distance: i64, depth: nat) -> RunnerState
    decreases depth, 0int, 0int,
{
    if depth == 0 {
        s
    } else {
        dropped_for_the_race(
            activated(s, s.pending[at as int], distance, (depth - 1) as nat).0,
            s.pending[at as int].skill_id,
        )
    }
}

/// The runner after the pending skills at the first `n` of `picks` have been
/// forced, in order.
pub open spec fn picks_forced(
    s: RunnerState,
    picks: Seq<usize>,
    n: nat,
    distance: i64,
    depth: nat,
) -> RunnerState
    decreases depth, 0int, n + 1,
{
    if n == 0 {
        s
    } else {
        gold_forced(
            picks_forced(s, picks, (n - 1) as nat, distance, depth),
            picks[n - 1],
            distance,
            depth,
        )
    }
}

/// The golds to force, in the order of the draws.
pub open spec fn gold_picks(s: RunnerState) -> Seq<usize> {
    let candidates = gold_candidates(s.pending, s.body, s.pending.len());
    shuffled(candidates, candidates.len(), s.gold_rolls)
}

/// The runner after `count` gold candidates, or all of them if there are fewer,
/// have been forced, in the order of the draws.
pub open spec fn golds_forced(s: RunnerState, count: int, distance: i64, depth: nat) -> RunnerState
    decreases depth, 1int, 0int,
{
    let candidates = gold_candidates(s.pending, s.body, s.pending.len());
    let picks = gold_picks(s);
    let n = if count < picks.len() {
        count
    } else {
        picks.len() as int
    };
    picks_forced(
        RunnerState { gold_rolls: after_rolls(s.gold_rolls, candidates.len()), ..s },
        picks,
        if n < 0 {
            0
        } else {
            n as nat
        },
        distance,
        depth,
    )
}

/// Whether `b` is pending skill `a` but for when it is ready again.
pub open spec fn same_but_ready(a: PendingState, b: PendingState) -> bool {
    b == (PendingState { ready_at: b.ready_at, ..a })
}

/// Whether the pending skills of `b` are those of `a` but for when they are
/// ready again.
pub open spec fn same_pending_but_ready(a: RunnerState, b: RunnerState) -> bool {
    &&& a.pending.len() == b.pending.len()
    &&& forall|i: int|
        0 <= i < a.pending.len() ==> same_but_ready(a.pending[i], #[trigger] b.pending[i])
}

/// Whether the activations counted by phase of the race, by half of it and in
/// all are as many.
pub open spec fn counts_agree(tally: RunnerTally) -> bool {
    let phases = tally.skills_activated_phase_map;
    let halves = tally.skills_activated_half_race_map;
    &&& 0 <= phases.early && 0 <= phases.mid && 0 <= phases.late && 0 <= phases.spurt
    &&& 0 <= halves.first && 0 <= halves.second
    &&& phases.early + phases.mid + phases.late + phases.spurt == tally.skills_activated_count
    &&& halves.first + halves.second == tally.skills_activated_count
}

/// Whether counts that agree in `a` still agree in `b`, while the count has not
/// reached the end of the range.
pub open spec fn counts_stay_agreed(a: RunnerTally, b: RunnerTally) -> bool {
    counts_agree(a) && b.skills_activated_count < QUANTITY_MAX ==> counts_agree(b)
}

/// Whether what is on record of a runner in `b` is what was in `a` and what has
/// been added since: skills used, the ledger, the debuffs sent out, and the
/// counts, which agree with each other if they did.
pub open spec fn record_grows(a: RunnerState, b: RunnerState) -> bool {
    &&& a.used_skills.is_prefix_of(b.used_skills)
    &&& a.ledger.is_prefix_of(b.ledger)
    &&& a.emitted.is_prefix_of(b.emitted)
    &&& a.tally.skills_activated_count <= b.tally.skills_activated_count
    &&& a.tally.heals_activated_count <= b.tally.heals_activated_count
    &&& counts_stay_agreed(a.tally, b.tally)
}

/// Whether the effects running on a runner in `b` are those of `a` and what has
/// started since.
pub open spec fn effects_grow(a: RunnerState, b: RunnerState) -> bool {
    &&& a.active.target_speed.is_prefix_of(b.active.target_speed)
    &&& a.active.current_speed.is_prefix_of(b.active.current_speed)
    &&& a.active.acceleration.is_prefix_of(b.active.acceleration)
    &&& a.active.lane_movement.is_prefix_of(b.active.lane_movement)
    &&& a.active.change_lane.is_prefix_of(b.active.change_lane)
}

/// What an activation leaves alone: where the runner is, what is scripted for
/// her, the targeted skills and effects on her, the wit draws, her pending
/// skills but for when they are ready again, what is already on record, and the
/// effects already running.
pub open spec fn untouched_by_activation(a: RunnerState, b: RunnerState) -> bool {
    &&& b.body == a.body
    &&& b.script == a.script
    &&& b.targeted == a.targeted
    &&& b.pending_targeted == a.pending_targeted
    &&& b.used_targeted == a.used_targeted
    &&& b.wit_rolls == a.wit_rolls
    &&& same_pending_but_ready(a, b)
    &&& record_grows(a, b)
    &&& effects_grow(a, b)
}

pub(crate) proof fn lemma_self_applied_leaves(
    s: RunnerState,
    skill_id: SkillId,
    effect: ResolvedSkillEffect,
    duration: i64,
)
    ensures
        untouched_by_activation(s, self_applied(s, skill_id, effect, duration)),
        self_applied(s, skill_id, effect, duration).pending == s.pending,
{
    reveal(self_applied);
}

pub(crate) proof fn lemma_held_applied_leaves_pending(s: RunnerState, fired: Seq<HeldAdditionalEffect>)
    ensures
        untouched_by_activation(s, all_held_applied(s, fired)),
        all_held_applied(s, fired).pending == s.pending,
    decreases fired.len(),
{
    if fired.len() > 0 {
        lemma_held_applied_leaves_pending(s, fired.drop_last());
        let before = all_held_applied(s, fired.drop_last());
        let held = fired.last();
        let s1 = after_resolving(before, held.skill_id.number, held.effect);
        lemma_self_applied_leaves(
            s1,
            held.skill_id,
            resolved(before, held.skill_id.number, held.effect),
            sat(-held.timer.t) as i64,
        );
        lemma_untouched_twice(before, s1, all_held_applied(s, fired));
        lemma_untouched_twice(s, before, all_held_applied(s, fired));
    }
}

pub(crate) proof fn lemma_effect_leaves(
    s: RunnerState,
    p: PendingState,
    effect: SkillEffectSpec,
    distance: i64,
    time_scaling: i64,
    depth: nat,
)
    ensures
        untouched_by_activation(
            s,
            effect_applied(s, p, effect, distance, time_scaling, depth),
        ),
    decreases depth, 2int, 0int,
{
    reveal(effect_outcome);
    let s2 = effect_resolved(s, p, effect);
    let r = resolved(s, p.skill_id.number, effect);
    let duration = effect_duration(s, p.rarity, effect.base_duration, distance, time_scaling);
    let count = forced_gold_count(resolved_modifier(s, p.skill_id.number, effect));
    lemma_golds_leave(s2, count, distance, depth);
    lemma_untouched_twice(s, s2, golds_forced(s2, count, distance, depth));
    lemma_self_applied_leaves(s2, p.skill_id, r, duration);
    lemma_untouched_twice(s, s2, self_applied(s2, p.skill_id, r, duration));
}

pub(crate) proof fn lemma_effects_leave(
    s: RunnerState,
    p: PendingState,
    effects: Seq<SkillEffectSpec>,
    n: nat,
    distance: i64,
    time_scaling: i64,
    depth: nat,
)
    ensures
        untouched_by_activation(
            s,
            effects_applied(s, p, effects, n, distance, time_scaling, depth).0,
        ),
    decreases depth, 3int, n,
{
    if n > 0 {
        lemma_effects_leave(s, p, effects, (n - 1) as nat, distance, time_scaling, depth);
        let before = effects_applied(
            s,
            p,
            effects,
            (n - 1) as nat,
            distance,
            time_scaling,
            depth,
        ).0;
        lemma_effect_leaves(before, p, effects[n - 1], distance, time_scaling, depth);
        lemma_untouched_twice(
            s,
            before,
            effects_applied(s, p, effects, n, distance, time_scaling, depth).0,
        );
    }
}

proof fn lemma_untouched_twice(a: RunnerState, b: RunnerState, c: RunnerState)
    requires
        untouched_by_activation(a, b),
        untouched_by_activation(b, c),
    ensures
        untouched_by_activation(a, c),
{
    assert forall|i: int| 0 <= i < a.pending.len() implies same_but_ready(
        a.pending[i],
        #[trigger] c.pending[i],
    ) by {
        assert(same_but_ready(a.pending[i], b.pending[i]));
        assert(same_but_ready(b.pending[i], c.pending[i]));
    }
}

/// An activation leaves the pending skills as they are but for when they are
/// ready again, touches neither the runner's place in the race nor what others
/// have cast on her, takes nothing off the record, and ends no effect.
pub proof fn activation_leaves_the_pending_skills(
    s: RunnerState,
    p: PendingState,
    distance: i64,
    depth: nat,
)
    ensures
        untouched_by_activation(s, activated(s, p, distance, depth).0),
    decreases depth, 4int, 0int,
{
    reveal(held_fired);
    reveal(activation_recorded);
    let effects = application_order(p.effects);
    let time_scaling = duration_multiplier(
        p.duration_scaling,
        s.tally.health.current as int,
        s.tally.activation_distance_from_top as int,
    ) as i64;
    lemma_effects_leave(s, p, effects, effects.len(), distance, time_scaling, depth);
    let (s1, duration) = effects_applied(
        s,
        p,
        effects,
        effects.len(),
        distance,
        time_scaling,
        depth,
    );
    let s2 = activation_recorded(s1, p, duration, distance);
    let trigger = HeldTrigger::SkillActivated(p.skill_id);
    let s3 = RunnerState { held: after_firing(s2.held, trigger), ..s2 };
    lemma_held_applied_leaves_pending(s3, firing(s2.held, trigger));
    lemma_untouched_twice(s, s3, all_held_applied(s3, firing(s2.held, trigger)));
}

pub(crate) proof fn lemma_gold_leaves(s: RunnerState, at: usize, distance: i64, depth: nat)
    ensures
        untouched_by_activation(s, gold_forced(s, at, distance, depth)),
    decreases depth, 0int, 0int,
{
    if depth > 0 {
        let p = s.pending[at as int];
        activation_leaves_the_pending_skills(s, p, distance, (depth - 1) as nat);
        let s1 = activated(s, p, distance, (depth - 1) as nat).0;
        let s2 = gold_forced(s, at, distance, depth);
        reveal(dropped_for_the_race);
        assert(untouched_by_activation(s1, s2));
        lemma_untouched_twice(s, s1, s2);
    }
}

proof fn lemma_picks_leave(
    s: RunnerState,
    picks: Seq<usize>,
    n: nat,
    distance: i64,
    depth: nat,
)
    ensures
        untouched_by_activation(s, picks_forced(s, picks, n, distance, depth)),
    decreases depth, 0int, n + 1,
{
    if n > 0 {
        lemma_picks_leave(s, picks, (n - 1) as nat, distance, depth);
        let before = picks_forced(s, picks, (n - 1) as nat, distance, depth);
        lemma_gold_leaves(before, picks[n - 1], distance, depth);
        lemma_untouched_twice(s, before, picks_forced(s, picks, n, distance, depth));
    }
}

proof fn lemma_golds_leave(s: RunnerState, count: int, distance: i64, depth: nat)
    ensures
        untouched_by_activation(s, golds_forced(s, count, distance, depth)),
    decreases depth, 1int, 0int,
{
    let candidates = gold_candidates(s.pending, s.body, s.pending.len());
    let picks = gold_picks(s);
    let n = if count < picks.len() {
        count
    } else {
        picks.len() as int
    };
    let start = RunnerState { gold_rolls: after_rolls(s.gold_rolls, candidates.len()), ..s };
    lemma_picks_leave(
        start,
        picks,
        if n < 0 {
            0
        } else {
            n as nat
        },
        distance,
        depth,
    );
    lemma_untouched_twice(s, start, golds_forced(s, count, distance, depth));
}

impl Runner {
    /// Whether this tick is the one at race time `at` or later.
    pub fn tick_reached(&self, at: i64) -> (reached: bool)
        ensures
            reached == tick_reached(self.body, at),
    {
        at != NEVER_READY && divide_rounded(
            self.body.accumulate_time.seconds() as i128,
            FRAME_DT as i128,
        ) >= divide_rounded(at as i128, FRAME_DT as i128)
    }

    fn duration_of(
        &self,
        rarity: SkillRarity,
        base_duration: i64,
        distance: i64,
        time_scaling: i64,
    ) -> (duration: i64)
        ensures
            duration == effect_duration(self@, rarity, base_duration, distance, time_scaling),
    {
        let stretch: i64 = if rarity == SkillRarity::Evolution {
            self.tally.modifiers.special_skill_duration_scaling
        } else {
            ONE
        };
        times(times(scale_to_course(base_duration, distance), stretch), time_scaling)
    }

    fn record_advantage(&mut self, r: &ResolvedSkillEffect)
        ensures
            final(self)@ == advantage_recorded(old(self)@, *r),
    {
        if r.modifier > 0 {
            let id: u64 = r.effect_type.id() as u64;
            self.tally.activated_advantage_effect_types =
            self.tally.activated_advantage_effect_types | (1u64 << id);
        }
    }

    fn record_activation(&mut self, skill: &PendingSkill, duration: i64, distance: i64)
        ensures
            final(self)@ == activation_recorded(old(self)@, skill@, duration, distance),
    {
        proof {
            reveal(activation_recorded);
        }
        if skill.duration_scaling == Some(4i32) && duration > 0 {
            self.order_up_extensions.push(
                OrderUpExtension {
                    skill_id: skill.skill_id,
                    remaining: 3,
                    seconds: divide_rounded(distance as i128, 1000) as i64,
                    timer: Timer::new(negated(duration)),
                },
            );
        }
        if 2 * self.body.position as i128 >= distance as i128 {
            self.tally.skills_activated_half_race_map.second = plus(
                self.tally.skills_activated_half_race_map.second,
                1,
            );
        } else {
            self.tally.skills_activated_half_race_map.first = plus(
                self.tally.skills_activated_half_race_map.first,
                1,
            );
        }
        match self.body.phase {
            Phase::EarlyRace => {
                self.tally.skills_activated_phase_map.early = plus(
                    self.tally.skills_activated_phase_map.early,
                    1,
                );
            },
            Phase::MidRace => {
                self.tally.skills_activated_phase_map.mid = plus(
                    self.tally.skills_activated_phase_map.mid,
                    1,
                );
            },
            Phase::LateRace => {
                self.tally.skills_activated_phase_map.late = plus(
                    self.tally.skills_activated_phase_map.late,
                    1,
                );
            },
            Phase::LastSpurt => {
                self.tally.skills_activated_phase_map.spurt = plus(
                    self.tally.skills_activated_phase_map.spurt,
                    1,
                );
            },
        }
        self.tally.skills_activated_count = plus(self.tally.skills_activated_count, 1);
        if !contains_skill(&self.used_skills, skill.skill_id) {
            self.used_skills.push(skill.skill_id);
        }
        let number: u32 = skill.skill_id.base();
        if !ledger_holds(&self.activated_ledger, number) {
            let green = has_green_tag(&skill.tags, &self.script.green_tags);
            self.activated_ledger.push(LedgerEntry { number, green });
        }
    }

    /// Apply one effect of `skill` (see [`effect_applied`]).
    fn apply_effect(
        &mut self,
        skill: &PendingSkill,
        effect: &SkillEffectSpec,
        course_distance: i64,
        time_scaling: i64,
        depth: u64,
    )
        ensures
            final(self)@ == effect_applied(
                old(self)@,
                skill@,
                *effect,
                course_distance,
                time_scaling,
                depth as nat,
            ),
        decreases depth, 1int,
    {
        proof {
            reveal(effect_outcome);
        }
        let duration: i64 = self.duration_of(
            skill.rarity,
            effect.base_duration,
            course_distance,
            time_scaling,
        );
        if let Some(trigger) = effect.additional_activate_type {
            if 1 <= trigger && trigger <= 3 {
                self.held_additional_effects.push(
                    HeldAdditionalEffect {
                        skill_id: skill.skill_id,
                        effect: *effect,
                        trigger,
                        remaining: HeldAdditionalEffect::limit(trigger),
                        timer: Timer::new(negated(duration)),
                    },
                );
                return;
            }
        }
        let r = self.resolve_effect(skill.skill_id.base(), effect);
        if is_external_debuff(r.effect_type, r.target, r.modifier) {
            self.emitted_debuffs.push(
                EmittedDebuff {
                    skill_id: skill.skill_id,
                    effect: r,
                    target: r.target,
                    target_strategy: skill.target_strategy,
                },
            );
            return;
        }
        self.record_advantage(&r);
        if r.effect_type == SkillType::ActivateRandomGold {
            let count: i64 = if r.modifier > 0 {
                r.modifier / ONE
            } else {
                0
            };
            self.activate_random_gold_skill(count, course_distance, depth);
        } else {
            self.apply_self_effect(skill.skill_id, &r, duration);
        }
    }

    /// Activate a pending skill; returns how long it runs (see [`activated`]).
    ///
    /// `depth` is how many links a chain of golds that force golds may still
    /// have.
    fn activate_linked(
        &mut self,
        skill: &PendingSkill,
        course_distance: i64,
        depth: u64,
    ) -> (duration: i64)
        ensures
            (final(self)@, duration) == activated(
                old(self)@,
                skill@,
                course_distance,
                depth as nat,
            ),
        decreases depth, 2int,
    {
        let ghost start = self@;
        let effects = in_application_order(&skill.effects);
        let time_scaling: i64 = duration_scaling_multiplier(
            skill.duration_scaling,
            self.tally.health.current,
            self.tally.activation_distance_from_top,
        );
        let mut duration: i64 = 0;
        let mut i: usize = 0;
        while i < effects.len()
            invariant
                i <= effects.len(),
                (self@, duration) == effects_applied(
                    start,
                    skill@,
                    effects@,
                    i as nat,
                    course_distance,
                    time_scaling,
                    depth as nat,
                ),
            decreases effects.len() - i,
        {
            let effect = effects[i];
            let lasts: i64 = self.duration_of(
                skill.rarity,
                effect.base_duration,
                course_distance,
                time_scaling,
            );
            duration = max_quantity(duration, lasts);
            self.apply_effect(skill, &effect, course_distance, time_scaling, depth);
            i = i + 1;
        }
        self.record_activation(skill, duration, course_distance);
        self.fire_held_additional_effects(HeldTrigger::SkillActivated(skill.skill_id));
        duration
    }

    fn may_be_forced(&self, at: usize) -> (yes: bool)
        requires
            at < self.pending_skills@.len(),
        ensures
            yes == is_gold_candidate(self.pending_skills@[at as int]@, self.body),
    {
        let skill = &self.pending_skills[at];
        if skill.rarity != SkillRarity::Gold && skill.rarity != SkillRarity::Evolution {
            return false;
        }
        if !self.tick_reached(skill.ready_at) {
            return false;
        }
        let mut i: usize = 0;
        while i < skill.effects.len()
            invariant
                i <= skill.effects@.len(),
                *skill == self.pending_skills@[at as int],
                at < self.pending_skills@.len(),
                forall|k: int|
                    0 <= k < i ==> (#[trigger] skill.effects@[k]).effect_type.data_id() > 5,
            decreases skill.effects@.len() - i,
        {
            if skill.effects[i].effect_type.id() <= 5 {
                assert(skill@.effects[i as int].effect_type.data_id() <= 5);
                return false;
            }
            i = i + 1;
        }
        true
    }

    fn already_picked(&self, picks: &Vec<usize>, skill_id: SkillId) -> (yes: bool)
        requires
            forall|i: int| 0 <= i < picks@.len() ==> #[trigger] picks@[i] < self.pending_skills@.len(),
        ensures
            yes == picks_skill(self@.pending, picks@, skill_id),
    {
        let mut i: usize = 0;
        while i < picks.len()
            invariant
                i <= picks@.len(),
                forall|k: int|
                    0 <= k < picks@.len() ==> #[trigger] picks@[k] < self.pending_skills@.len(),
                forall|k: int|
                    0 <= k < i ==> self@.pending[#[trigger] picks@[k] as int].skill_id != skill_id,
            decreases picks@.len() - i,
        {
            if self.pending_skills[picks[i]].skill_id == skill_id {
                assert(self@.pending[picks@[i as int] as int].skill_id == skill_id);
                return true;
            }
            i = i + 1;
        }
        false
    }

    fn find_gold_candidates(&self) -> (candidates: Vec<usize>)
        ensures
            candidates@ == gold_candidates(self@.pending, self.body, self@.pending.len()),
            forall|i: int|
                0 <= i < candidates@.len() ==> #[trigger] candidates@[i] < self.pending_skills@.len(),
    {
        let mut candidates: Vec<usize> = Vec::new();
        let mut n: usize = 0;
        while n < self.pending_skills.len()
            invariant
                n <= self.pending_skills@.len(),
                candidates@ == gold_candidates(self@.pending, self.body, n as nat),
                forall|i: int|
                    0 <= i < candidates@.len() ==> #[trigger] candidates@[i]
                        < self.pending_skills@.len(),
            decreases self.pending_skills@.len() - n,
        {
            assert(self@.pending[n as int] == self.pending_skills@[n as int]@);
            if self.may_be_forced(n) && !self.already_picked(
                &candidates,
                self.pending_skills[n].skill_id,
            ) {
                candidates.push(n);
            }
            n = n + 1;
        }
        candidates
    }

    /// Mark every entry of `skill_id` spent for the race.
    fn spend(&mut self, skill_id: SkillId)
        ensures
            final(self)@ == (RunnerState {
                pending: spent(old(self)@.pending, skill_id),
                ..old(self)@
            }),
    {
        let ghost before = self@;
        let mut i: usize = 0;
        while i < self.pending_skills.len()
            invariant
                before.pending.len() == self.pending_skills@.len(),
                i <= self.pending_skills@.len(),
                self@ == (RunnerState { pending: self@.pending, ..before }),
                forall|k: int|
                    0 <= k < i ==> self.pending_skills@[k]@ == #[trigger] spent(
                        before.pending,
                        skill_id,
                    )[k],
                forall|k: int|
                    i <= k < before.pending.len() ==> self.pending_skills@[k]@ == before.pending[k],
            decreases self.pending_skills@.len() - i,
        {
            if self.pending_skills[i].skill_id == skill_id {
                self.pending_skills[i].ready_at = NEVER_READY;
            }
            i = i + 1;
        }
        proof {
            assert(self@.pending =~= spent(before.pending, skill_id));
        }
    }

    /// Activate up to `count` golds, drawn at random (see [`golds_forced`]).
    fn activate_random_gold_skill(&mut self, count: i64, course_distance: i64, depth: u64)
        requires
            count >= 0,
        ensures
            final(self)@ == golds_forced(
                old(self)@,
                count as int,
                course_distance,
                depth as nat,
            ),
        decreases depth, 0int,
    {
        let ghost start = self@;
        let mut picks = self.find_gold_candidates();
        let ghost candidates = picks@;
        let total: usize = picks.len();
        let mut i: usize = total;
        while i > 0
            invariant
                i <= total,
                total == picks@.len(),
                self@ == (RunnerState { gold_rolls: self@.gold_rolls, ..start }),
                self.pending_skills@.len() == start.pending.len(),
                shuffled(candidates, total as nat, start.gold_rolls) == shuffled(
                    picks@,
                    i as nat,
                    self@.gold_rolls,
                ),
                after_rolls(start.gold_rolls, total as nat) == after_rolls(
                    self@.gold_rolls,
                    i as nat,
                ),
                forall|k: int| 0 <= k < picks@.len() ==> #[trigger] picks@[k] < start.pending.len(),
            decreases i,
        {
            let j: usize = self.force_skill_activator_rng.pick(i);
            let ghost before = picks@;
            let a: usize = picks[i - 1];
            let b: usize = picks[j];
            picks.set(i - 1, b);
            picks.set(j, a);
            proof {
                assert(picks@ =~= exchanged(before, i - 1, j as int));
            }
            i = i - 1;
        }
        let n: usize = if (count as u64) < total as u64 {
            count as usize
        } else {
            total
        };
        let ghost ready = self@;
        if depth > 0 {
            let mut k: usize = 0;
            while k < n
                invariant
                    k <= n <= picks@.len(),
                    depth > 0,
                    self@ == picks_forced(ready, picks@, k as nat, course_distance, depth as nat),
                    self.pending_skills@.len() == ready.pending.len(),
                    forall|m: int|
                        0 <= m < picks@.len() ==> #[trigger] picks@[m] < ready.pending.len(),
                decreases n - k,
            {
                let at: usize = picks[k];
                let skill = self.pending_skills[at].duplicate();
                proof {
                    reveal(dropped_for_the_race);
                    assert(self@.pending[at as int] == skill@);
                    assert(picks_forced(
                        ready,
                        picks@,
                        (k + 1) as nat,
                        course_distance,
                        depth as nat,
                    ) == gold_forced(self@, at, course_distance, depth as nat));
                    lemma_picks_leave(
                        ready,
                        picks@,
                        (k + 1) as nat,
                        course_distance,
                        depth as nat,
                    );
                }
                self.activate_linked(&skill, course_distance, depth - 1);
                self.spend(skill.skill_id);
                if !contains_skill(&self.pending_skill_removal, skill.skill_id) {
                    self.pending_skill_removal.push(skill.skill_id);
                }
                k = k + 1;
            }
        } else {
            proof {
                lemma_no_depth_forces_nothing(ready, picks@, n as nat, course_distance);
            }
        }
    }
}

proof fn lemma_no_depth_forces_nothing(s: RunnerState, picks: Seq<usize>, n: nat, distance: i64)
    ensures
        picks_forced(s, picks, n, distance, 0) == s,
    decreases n,
{
    if n > 0 {
        lemma_no_depth_forces_nothing(s, picks, (n - 1) as nat, distance);
        assert(gold_forced(s, picks[n - 1], distance, 0) == s);
    }
}

/// The runner after pending skill `p` has activated, and how long it runs (see
/// [`activated`]).
#[verifier::opaque]
pub open spec fn skill_activated(s: RunnerState, p: PendingState, distance: i64) -> (
    RunnerState,
    i64,
) {
    activated(s, p, distance, FORCED_GOLD_CHAIN as nat)
}

/// See [`activation_leaves_the_pending_skills`].
pub(crate) proof fn lemma_skill_activation_leaves(s: RunnerState, p: PendingState, distance: i64)
    ensures
        untouched_by_activation(s, skill_activated(s, p, distance).0),
{
    reveal(skill_activated);
    activation_leaves_the_pending_skills(s, p, distance, FORCED_GOLD_CHAIN as nat);
}

impl Runner {
    /// Activate a pending skill; returns how long it runs (see
    /// [`skill_activated`]).
    pub fn activate_skill(&mut self, skill: &PendingSkill, course_distance: i64) -> (duration: i64)
        ensures
            (final(self)@, duration) == skill_activated(old(self)@, skill@, course_distance),
    {
        proof {
            reveal(skill_activated);
        }
        self.activate_linked(skill, course_distance, FORCED_GOLD_CHAIN)
    }
}

} // verus!
