//! A runner: where she is, what her race scripts for her, what her skills have
//! done so far, and the skills still to come.
pub mod accounts;
pub mod activation;
pub mod chains;
pub mod counts;
pub mod effect_laws;
pub mod expiry;
pub mod laws;
pub mod pass_laws;
pub mod prepare;
pub mod process;
pub mod targeted;
pub mod trigger_laws;
pub mod triggers;
pub mod whole_pass;

use crate::condition::dynamic::{FieldView, HalfCounts, OwnState, PhaseCounts, RunnerView};
use crate::effect::{GreenTier, ScalingBand, SkillTarget, SkillType};
use crate::language::{Mood, Phase, RunnerId, SkillId, Strategy};
use crate::math::RaceClock;
use crate::model::{
    id_sorted, pending_states, sort_skills, targeted_states, ActiveSkill, ActiveTargetedSkill, EmittedDebuff,
    HeldAdditionalEffect, OrderUpExtension, PendingSkill, PendingState, PendingTargetedSkill,
    PendingTargetedState, Skill,
};
use crate::rng::Rolls;
use crate::units::{
    clamp_wide, divide_rounded, minus, plus, product, rounded_quotient, sat, times, ONE,
};
use vstd::prelude::*;

verus! {

/// The game's tick in seconds, in billionths.
pub const FRAME_DT: i64 = 66_600_002;

/// The five stats.
#[derive(Debug, Clone, Copy, PartialEq, Eq, Structural)]
pub struct StatBlock {
    pub speed: i64,
    pub stamina: i64,
    pub power: i64,
    pub guts: i64,
    pub wit: i64,
}

/// Where and how a runner runs this tick.
#[derive(Debug, Clone, Copy)]
pub struct RunnerBody {
    /// Runner id.
    pub id: RunnerId,
    /// The running style she was entered with.
    pub strategy: Strategy,
    /// Starting gate.
    pub gate: i64,
    /// Popularity rank (1 = most popular; 0 = unknown).
    pub popularity: i64,
    /// Mood.
    pub mood: Mood,
    /// Position along the course.
    pub position: i64,
    /// Lateral lane offset.
    pub current_lane: i64,
    /// Current speed.
    pub current_speed: i64,
    /// Target speed.
    pub target_speed: i64,
    /// The runner that blocked this one in front last tick, if any.
    pub front_blocker: Option<RunnerId>,
    /// Whether she is rushed.
    pub is_rushed: bool,
    /// How many times she has been rushed.
    pub rushed_spells: i64,
    /// Whether she is in a duel.
    pub is_dueling: bool,
    /// Whether her duel is already over.
    pub has_dueled: bool,
    /// Position-keep checks run so far.
    pub pos_keep_checks_run: i64,
    /// Her race clock.
    pub accumulate_time: RaceClock,
    /// Race phase.
    pub phase: Phase,
    /// Whether she is in last spurt.
    pub is_last_spurt: bool,
    /// Where the last spurt starts; -1 until it does.
    pub last_spurt_transition: i64,
    /// Her random lot.
    pub random_lot: i64,
    /// Rate of lateral lane change.
    pub lane_change_speed: i64,
    /// Whether that lane move is away from the inner fence.
    pub lane_move_outward: bool,
    /// Width of a horse's lane.
    pub horse_lane: i64,
    /// Length of a course section.
    pub section_length: i64,
    /// Length of the course.
    pub course_distance: i64,
    /// Whether her skills take a wit check at all.
    pub wit_checks_enabled: bool,
    /// The roll up to which a wit check passes.
    pub wit_threshold: i64,
}

/// A stretch on which a runner's place is scripted.
#[derive(Debug, Clone, Copy, PartialEq, Eq, Structural)]
pub struct ForcedRank {
    pub start: i64,
    pub end: i64,
    pub rank: i64,
}

/// A named approximate condition's value.
#[derive(Debug, Clone)]
pub struct NamedValue {
    pub name: String,
    pub value: i32,
}

/// A skill number and a quantity scripted for it.
#[derive(Debug, Clone, Copy, PartialEq, Eq, Structural)]
pub struct SkillQuantity {
    pub number: u32,
    pub quantity: i64,
}

/// A debuff injected at a position.
#[derive(Debug, Clone)]
pub struct InjectedDebuff {
    pub skill: Skill,
    pub position: i64,
}

/// What a race scripts for a runner.
#[derive(Debug)]
pub struct RunnerScript {
    /// Stretches on which her place is scripted.
    pub forced_rank: Vec<ForcedRank>,
    /// Approximate-condition values, once ticked.
    pub condition_values: Vec<NamedValue>,
    /// Approximate conditions and their values at the start.
    pub conditions: Vec<NamedValue>,
    /// Positions at which skills are scripted to fire.
    pub forced_positions: Vec<SkillQuantity>,
    /// Strengths that stand in for a recovery skill's own.
    pub stamina_drain_overrides: Vec<SkillQuantity>,
    /// Multipliers of randomly scaled effects.
    pub random_bands: Vec<ScalingBand>,
    /// Multipliers of effects scaled by activated greens.
    pub green_tiers: Vec<GreenTier>,
    /// The tags of green skills.
    pub green_tags: Vec<i32>,
    /// Her skills, in ascending id order.
    pub skills: Vec<Skill>,
    /// Debuffs injected into her race.
    pub injected_debuffs: Vec<InjectedDebuff>,
}

/// HP.
#[derive(Debug, Clone, Copy, PartialEq, Eq, Structural)]
pub struct Health {
    pub current: i64,
    pub max: i64,
}

/// What running effects add to a runner's speed and acceleration.
#[derive(Debug, Clone, Copy, PartialEq, Eq, Structural)]
pub struct Modifiers {
    pub target_speed: i64,
    pub current_speed: i64,
    pub accel: i64,
    pub one_frame_accel: i64,
    pub special_skill_duration_scaling: i64,
}

/// What a runner's skills have done so far.
#[derive(Debug, Clone, Copy, PartialEq, Eq, Structural)]
pub struct RunnerTally {
    /// The style she keeps position as.
    pub position_keep_strategy: Strategy,
    /// Start delay in seconds.
    pub start_delay: i64,
    /// How long a rushed spell may last.
    pub rushed_max_duration: i64,
    /// Stats before race conditions.
    pub base_stats: StatBlock,
    /// Stats as she runs with them.
    pub adjusted_stats: StatBlock,
    /// HP.
    pub health: Health,
    /// Whether a recovery asks for the last spurt to be worked out again.
    pub last_spurt_check_due: bool,
    /// What running effects add up to.
    pub modifiers: Modifiers,
    /// Distance behind the leader, as activations read it.
    pub activation_distance_from_top: i64,
    /// Skills activated.
    pub skills_activated_count: i64,
    /// Skills activated when this tick started.
    pub activations_at_tick_start: i64,
    /// Skills activated when the tick before it started.
    pub activations_at_last_tick_start: i64,
    /// Skills activated in each phase.
    pub skills_activated_phase_map: PhaseCounts,
    /// Skills activated in each half of the race.
    pub skills_activated_half_race_map: HalfCounts,
    /// Recovery skills activated.
    pub heals_activated_count: i64,
    /// Bitmask of positive self-applied effect types activated so far.
    pub activated_advantage_effect_types: u64,
}

/// A skill that has activated.
#[derive(Debug, Clone, Copy, PartialEq, Eq, Structural)]
pub struct LedgerEntry {
    pub number: u32,
    pub green: bool,
}

/// A targeted effect that has landed on the runner.
#[derive(Debug, Clone, Copy, PartialEq, Eq, Structural)]
pub struct UsedTargetedSkill {
    pub skill_id: SkillId,
    pub position: i64,
    pub effect_type: SkillType,
    pub effect_target: SkillTarget,
}

/// Effects of a runner's own skills running on her.
#[derive(Debug)]
pub struct ActiveLists {
    pub target_speed: Vec<ActiveSkill>,
    pub current_speed: Vec<ActiveSkill>,
    pub acceleration: Vec<ActiveSkill>,
    pub lane_movement: Vec<ActiveSkill>,
    pub change_lane: Vec<ActiveSkill>,
}

/// The value of an [`ActiveLists`].
#[verifier::ext_equal]
pub struct ActiveState {
    pub target_speed: Seq<ActiveSkill>,
    pub current_speed: Seq<ActiveSkill>,
    pub acceleration: Seq<ActiveSkill>,
    pub lane_movement: Seq<ActiveSkill>,
    pub change_lane: Seq<ActiveSkill>,
}

impl View for ActiveLists {
    type V = ActiveState;

    open spec fn view(&self) -> ActiveState {
        ActiveState {
            target_speed: self.target_speed@,
            current_speed: self.current_speed@,
            acceleration: self.acceleration@,
            lane_movement: self.lane_movement@,
            change_lane: self.change_lane@,
        }
    }
}

/// Targeted effects running on a runner.
#[derive(Debug)]
pub struct TargetedLists {
    pub target_speed: Vec<ActiveTargetedSkill>,
    pub current_speed: Vec<ActiveTargetedSkill>,
    pub acceleration: Vec<ActiveTargetedSkill>,
    pub lane_movement: Vec<ActiveTargetedSkill>,
    pub change_lane: Vec<ActiveTargetedSkill>,
}

/// The value of a [`TargetedLists`].
#[verifier::ext_equal]
pub struct TargetedState {
    pub target_speed: Seq<ActiveTargetedSkill>,
    pub current_speed: Seq<ActiveTargetedSkill>,
    pub acceleration: Seq<ActiveTargetedSkill>,
    pub lane_movement: Seq<ActiveTargetedSkill>,
    pub change_lane: Seq<ActiveTargetedSkill>,
}

impl View for TargetedLists {
    type V = TargetedState;

    open spec fn view(&self) -> TargetedState {
        TargetedState {
            target_speed: self.target_speed@,
            current_speed: self.current_speed@,
            acceleration: self.acceleration@,
            lane_movement: self.lane_movement@,
            change_lane: self.change_lane@,
        }
    }
}

/// A runner.
pub struct Runner {
    /// Where and how she runs this tick.
    pub body: RunnerBody,
    /// What the race scripts for her.
    pub script: RunnerScript,
    /// What her skills have done so far.
    pub tally: RunnerTally,
    /// Effects of her own skills running on her.
    pub active: ActiveLists,
    /// Targeted effects running on her.
    pub targeted: TargetedLists,
    /// Skills still to come.
    pub pending_skills: Vec<PendingSkill>,
    /// Targeted skills still to come.
    pub pending_targeted_skills: Vec<PendingTargetedSkill>,
    /// Additional-activation effects waiting on their triggers.
    pub held_additional_effects: Vec<HeldAdditionalEffect>,
    /// Running skills that overtakes lengthen.
    pub order_up_extensions: Vec<OrderUpExtension>,
    /// Skills that have activated, each once.
    pub used_skills: Vec<SkillId>,
    /// Skill numbers that have activated, each once, and whether they are
    /// green.
    pub activated_ledger: Vec<LedgerEntry>,
    /// Targeted effects that have landed.
    pub used_targeted_skills: Vec<UsedTargetedSkill>,
    /// Debuffs emitted this frame.
    pub emitted_debuffs: Vec<EmittedDebuff>,
    /// Skills to be dropped from the pending list.
    pub pending_skill_removal: Vec<SkillId>,
    /// Draws for wit checks.
    pub wit_rng: Rolls,
    /// Draws for value scaling.
    pub skill_rng: Rolls,
    /// Draws for forced gold skills.
    pub force_skill_activator_rng: Rolls,
}

/// The value of a [`Runner`].
#[verifier::ext_equal]
pub struct RunnerState {
    pub body: RunnerBody,
    pub script: RunnerScript,
    pub tally: RunnerTally,
    pub active: ActiveState,
    pub targeted: TargetedState,
    pub pending: Seq<PendingState>,
    pub pending_targeted: Seq<PendingTargetedState>,
    pub held: Seq<HeldAdditionalEffect>,
    pub extensions: Seq<OrderUpExtension>,
    pub used_skills: Seq<SkillId>,
    pub ledger: Seq<LedgerEntry>,
    pub used_targeted: Seq<UsedTargetedSkill>,
    pub emitted: Seq<EmittedDebuff>,
    pub removal: Seq<SkillId>,
    pub wit_rolls: Seq<u64>,
    pub skill_rolls: Seq<u64>,
    pub gold_rolls: Seq<u64>,
}

impl View for Runner {
    type V = RunnerState;

    open spec fn view(&self) -> RunnerState {
        RunnerState {
            body: self.body,
            script: self.script,
            tally: self.tally,
            active: self.active@,
            targeted: self.targeted@,
            pending: pending_states(self.pending_skills@),
            pending_targeted: targeted_states(self.pending_targeted_skills@),
            held: self.held_additional_effects@,
            extensions: self.order_up_extensions@,
            used_skills: self.used_skills@,
            ledger: self.activated_ledger@,
            used_targeted: self.used_targeted_skills@,
            emitted: self.emitted_debuffs@,
            removal: self.pending_skill_removal@,
            wit_rolls: self.wit_rng@,
            skill_rolls: self.skill_rng@,
            gold_rolls: self.force_skill_activator_rng@,
        }
    }
}

/// The fraction of HP that remains.
pub open spec fn health_ratio(health: Health) -> int {
    if health.max <= 0 {
        0
    } else {
        sat(rounded_quotient(health.current * ONE, health.max as int))
    }
}

/// HP after a recovery (or a drain) of `modifier` of the maximum.
pub open spec fn recovered(health: Health, modifier: int) -> Health {
    let raised = sat(health.current + product(health.max as int, modifier));
    Health {
        current: if raised < health.max {
            raised as i64
        } else {
            health.max
        },
        max: health.max,
    }
}

impl Health {
    /// The fraction of HP that remains.
    pub fn ratio_remaining(&self) -> (ratio: i64)
        ensures
            ratio == health_ratio(*self),
    {
        if self.max <= 0 {
            0
        } else {
            clamp_wide(
                divide_rounded(crate::units::wide_product(self.current, ONE), self.max as i128),
            )
        }
    }

    /// Recover (or drain) `modifier` of the maximum.
    pub fn recover(&mut self, modifier: i64)
        ensures
            *final(self) == recovered(*old(self), modifier as int),
    {
        let raised: i64 = plus(self.current, times(self.max, modifier));
        self.current = if raised < self.max {
            raised
        } else {
            self.max
        };
    }
}

/// A runner's own live state as her skills' conditions read it.
pub open spec fn own_state(body: RunnerBody, tally: RunnerTally) -> OwnState {
    OwnState {
        accumulate_time: body.accumulate_time.in_seconds() as i64,
        skills_activated_count: tally.skills_activated_count,
        recent_skill_activations: sat(
            tally.skills_activated_count - tally.activations_at_last_tick_start,
        ) as i64,
        skills_activated_in_phase: tally.skills_activated_phase_map,
        skills_activated_half_race: tally.skills_activated_half_race_map,
        heals_activated_count: tally.heals_activated_count,
        health_ratio_remaining: health_ratio(tally.health) as i64,
        has_remaining_health: tally.health.current > 0,
        start_delay: tally.start_delay,
        is_last_spurt: body.is_last_spurt,
        last_spurt_transition: body.last_spurt_transition,
        gate: body.gate,
        random_lot: body.random_lot,
        position: body.position,
        current_lane: body.current_lane,
        current_speed: body.current_speed,
        lane_change_speed: body.lane_change_speed,
        lane_move_outward: body.lane_move_outward,
        horse_lane: body.horse_lane,
        section_length: body.section_length,
        course_distance: body.course_distance,
        phase: body.phase.place() as i64,
        strategy: Some(body.strategy),
        is_rushed: body.is_rushed,
        temptation_count: body.rushed_spells,
        is_dueling: body.is_dueling,
    }
}

/// A runner's own state together with the field around her.
pub struct RunnerConditionView<'a> {
    pub runner: &'a Runner,
    pub field: &'a FieldView,
}

impl<'a> RunnerConditionView<'a> {
    /// What her skills' conditions read.
    pub fn observe(&self) -> (seen: RunnerView<'a>)
        ensures
            seen.own == own_state(self.runner.body, self.runner.tally),
            *seen.field == *self.field,
    {
        let body = &self.runner.body;
        let tally = &self.runner.tally;
        let own = OwnState {
            accumulate_time: body.accumulate_time.seconds(),
            skills_activated_count: tally.skills_activated_count,
            recent_skill_activations: minus(
                tally.skills_activated_count,
                tally.activations_at_last_tick_start,
            ),
            skills_activated_in_phase: tally.skills_activated_phase_map,
            skills_activated_half_race: tally.skills_activated_half_race_map,
            heals_activated_count: tally.heals_activated_count,
            health_ratio_remaining: tally.health.ratio_remaining(),
            has_remaining_health: tally.health.current > 0,
            start_delay: tally.start_delay,
            is_last_spurt: body.is_last_spurt,
            last_spurt_transition: body.last_spurt_transition,
            gate: body.gate,
            random_lot: body.random_lot,
            position: body.position,
            current_lane: body.current_lane,
            current_speed: body.current_speed,
            lane_change_speed: body.lane_change_speed,
            lane_move_outward: body.lane_move_outward,
            horse_lane: body.horse_lane,
            section_length: body.section_length,
            course_distance: body.course_distance,
            phase: body.phase.index() as i64,
            strategy: Some(body.strategy),
            is_rushed: body.is_rushed,
            temptation_count: body.rushed_spells,
            is_dueling: body.is_dueling,
        };
        RunnerView { own, field: self.field }
    }

    /// Whether she has used the skill.
    pub fn has_used_skill(&self, skill_id: SkillId) -> (used: bool)
        ensures
            used == self.runner.used_skills@.contains(skill_id),
    {
        contains_skill(&self.runner.used_skills, skill_id)
    }
}

/// Whether the list holds the skill.
pub fn contains_skill(list: &Vec<SkillId>, skill_id: SkillId) -> (found: bool)
    ensures
        found == list@.contains(skill_id),
{
    let mut i: usize = 0;
    while i < list.len()
        invariant
            i <= list.len(),
            forall|k: int| 0 <= k < i ==> list@[k] != skill_id,
        decreases list.len() - i,
    {
        if list[i] == skill_id {
            return true;
        }
        i = i + 1;
    }
    false
}

/// The quantity scripted for skill `number`, if any (the first one listed).
pub open spec fn scripted(list: Seq<SkillQuantity>, number: u32) -> Option<i64>
    decreases list.len(),
{
    if list.len() == 0 {
        None
    } else if list[0].number == number {
        Some(list[0].quantity)
    } else {
        scripted(list.skip(1), number)
    }
}

/// See [`scripted`].
pub fn find_scripted(list: &Vec<SkillQuantity>, number: u32) -> (found: Option<i64>)
    ensures
        found == scripted(list@, number),
{
    let mut i: usize = 0;
    proof {
        assert(list@.skip(0) =~= list@);
    }
    while i < list.len()
        invariant
            i <= list.len(),
            scripted(list@, number) == scripted(list@.skip(i as int), number),
        decreases list.len() - i,
    {
        if list[i].number == number {
            return Some(list[i].quantity);
        }
        proof {
            assert(list@.skip(i as int).skip(1) =~= list@.skip(i + 1));
        }
        i = i + 1;
    }
    None
}

impl RunnerBody {
    /// A runner at the start, on a course of nothing yet: neutral values.
    pub fn at_gate(id: RunnerId, strategy: Strategy) -> (body: RunnerBody)
        ensures
            body == (RunnerBody {
                id,
                strategy,
                gate: 0,
                popularity: 0,
                mood: Mood::Normal,
                position: 0,
                current_lane: 0,
                current_speed: 0,
                target_speed: 0,
                front_blocker: None,
                is_rushed: false,
                rushed_spells: 0,
                is_dueling: false,
                has_dueled: false,
                pos_keep_checks_run: 0,
                accumulate_time: body.accumulate_time,
                phase: Phase::EarlyRace,
                is_last_spurt: false,
                last_spurt_transition: crate::condition::dynamic::NO_SPURT_TRANSITION,
                random_lot: 0,
                lane_change_speed: 0,
                lane_move_outward: false,
                horse_lane: 0,
                section_length: 0,
                course_distance: 0,
                wit_checks_enabled: true,
                wit_threshold: ONE,
            }),
            body.accumulate_time.reading() == 0,
            body.accumulate_time.tick_count() == 0,
    {
        RunnerBody {
            id,
            strategy,
            gate: 0,
            popularity: 0,
            mood: Mood::Normal,
            position: 0,
            current_lane: 0,
            current_speed: 0,
            target_speed: 0,
            front_blocker: None,
            is_rushed: false,
            rushed_spells: 0,
            is_dueling: false,
            has_dueled: false,
            pos_keep_checks_run: 0,
            accumulate_time: RaceClock::new(),
            phase: Phase::EarlyRace,
            is_last_spurt: false,
            last_spurt_transition: crate::condition::dynamic::NO_SPURT_TRANSITION,
            random_lot: 0,
            lane_change_speed: 0,
            lane_move_outward: false,
            horse_lane: 0,
            section_length: 0,
            course_distance: 0,
            wit_checks_enabled: true,
            wit_threshold: ONE,
        }
    }
}

impl RunnerScript {
    /// A script with nothing in it but the runner's skills, in id order.
    pub fn with_skills(skills: Vec<Skill>) -> (script: RunnerScript)
        ensures
            script.skills@ == id_sorted(skills@),
            script.forced_rank@.len() == 0,
            script.condition_values@.len() == 0,
            script.conditions@.len() == 0,
            script.forced_positions@.len() == 0,
            script.stamina_drain_overrides@.len() == 0,
            script.random_bands@.len() == 0,
            script.green_tiers@.len() == 0,
            script.green_tags@.len() == 0,
            script.injected_debuffs@.len() == 0,
    {
        RunnerScript {
            forced_rank: Vec::new(),
            condition_values: Vec::new(),
            conditions: Vec::new(),
            forced_positions: Vec::new(),
            stamina_drain_overrides: Vec::new(),
            random_bands: Vec::new(),
            green_tiers: Vec::new(),
            green_tags: Vec::new(),
            skills: sort_skills(skills),
            injected_debuffs: Vec::new(),
        }
    }
}

/// The tally of a runner none of whose skills has done anything yet: she keeps
/// position as the style she was entered with.
pub open spec fn fresh_tally(
    strategy: Strategy,
    stats: StatBlock,
    health: Health,
) -> RunnerTally {
    RunnerTally {
        position_keep_strategy: strategy,
        start_delay: 0,
        rushed_max_duration: 0,
        base_stats: stats,
        adjusted_stats: stats,
        health,
        last_spurt_check_due: false,
        modifiers: Modifiers {
            target_speed: 0,
            current_speed: 0,
            accel: 0,
            one_frame_accel: 0,
            special_skill_duration_scaling: ONE,
        },
        activation_distance_from_top: 0,
        skills_activated_count: 0,
        activations_at_tick_start: 0,
        activations_at_last_tick_start: 0,
        skills_activated_phase_map: PhaseCounts { early: 0, mid: 0, late: 0, spurt: 0 },
        skills_activated_half_race_map: HalfCounts { first: 0, second: 0 },
        heals_activated_count: 0,
        activated_advantage_effect_types: 0,
    }
}

impl RunnerTally {
    /// See [`fresh_tally`].
    pub fn fresh(strategy: Strategy, stats: StatBlock, health: Health) -> (tally: RunnerTally)
        ensures
            tally == fresh_tally(strategy, stats, health),
    {
        RunnerTally {
            position_keep_strategy: strategy,
            start_delay: 0,
            rushed_max_duration: 0,
            base_stats: stats,
            adjusted_stats: stats,
            health,
            last_spurt_check_due: false,
            modifiers: Modifiers {
                target_speed: 0,
                current_speed: 0,
                accel: 0,
                one_frame_accel: 0,
                special_skill_duration_scaling: ONE,
            },
            activation_distance_from_top: 0,
            skills_activated_count: 0,
            activations_at_tick_start: 0,
            activations_at_last_tick_start: 0,
            skills_activated_phase_map: PhaseCounts { early: 0, mid: 0, late: 0, spurt: 0 },
            skills_activated_half_race_map: HalfCounts { first: 0, second: 0 },
            heals_activated_count: 0,
            activated_advantage_effect_types: 0,
        }
    }
}

impl Runner {
    /// A runner with nothing running and nothing pending.
    pub fn new(
        body: RunnerBody,
        script: RunnerScript,
        tally: RunnerTally,
        wit_rng: Rolls,
        skill_rng: Rolls,
        force_skill_activator_rng: Rolls,
    ) -> (runner: Runner)
        ensures
            runner.body == body,
            runner.script == script,
            runner.tally == tally,
            runner@.active == crate::runner::prepare::no_active(),
            runner@.targeted == crate::runner::prepare::no_targeted(),
            runner@.pending.len() == 0,
            runner@.pending_targeted.len() == 0,
            runner@.held.len() == 0,
            runner@.extensions.len() == 0,
            runner@.used_skills.len() == 0,
            runner@.ledger.len() == 0,
            runner@.used_targeted.len() == 0,
            runner@.emitted.len() == 0,
            runner@.removal.len() == 0,
            runner@.wit_rolls == wit_rng@,
            runner@.skill_rolls == skill_rng@,
            runner@.gold_rolls == force_skill_activator_rng@,
    {
        Runner {
            body,
            script,
            tally,
            active: ActiveLists {
                target_speed: Vec::new(),
                current_speed: Vec::new(),
                acceleration: Vec::new(),
                lane_movement: Vec::new(),
                change_lane: Vec::new(),
            },
            targeted: TargetedLists {
                target_speed: Vec::new(),
                current_speed: Vec::new(),
                acceleration: Vec::new(),
                lane_movement: Vec::new(),
                change_lane: Vec::new(),
            },
            pending_skills: Vec::new(),
            pending_targeted_skills: Vec::new(),
            held_additional_effects: Vec::new(),
            order_up_extensions: Vec::new(),
            used_skills: Vec::new(),
            activated_ledger: Vec::new(),
            used_targeted_skills: Vec::new(),
            emitted_debuffs: Vec::new(),
            pending_skill_removal: Vec::new(),
            wit_rng,
            skill_rng,
            force_skill_activator_rng,
        }
    }
}

} // verus!
