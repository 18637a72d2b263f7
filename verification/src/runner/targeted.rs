//! Targeted effects: debuffs injected into a runner's race or cast on her by
//! another runner.
use crate::effect::SkillType;
use crate::language::{RunnerId, SkillId};
use crate::model::{
    ActiveSkill, ActiveTargetedSkill, PendingTargetedSkill, PendingTargetedState,
    ResolvedSkillEffect, SkillEffectSpec, TargetedSkillOrigin,
};
use crate::runner::activation::{
    active_skill, after_resolving, application_order, course_scaled, in_application_order,
    resolved, running, scale_to_course, stat_effect,
};
use crate::runner::process::{
    decay_kick, run_out, sum_decay_kick, take_back, taken_back,
};
use crate::runner::{
    Modifiers, Runner, RunnerState, RunnerTally, TargetedState, UsedTargetedSkill,
};
use crate::units::{plus, sat};
use vstd::prelude::*;

verus! {

/// Identity of a targeted effect.
#[derive(Debug, Clone, Copy, PartialEq, Eq, Structural)]
pub struct TargetedEffectMeta {
    pub skill_id: SkillId,
    pub origin: TargetedSkillOrigin,
    pub source_runner_id: Option<RunnerId>,
}

/// The running form of a targeted effect that lasts `duration`.
pub open spec fn targeted_running(
    meta: TargetedEffectMeta,
    effect: ResolvedSkillEffect,
    duration: i64,
    natural_deceleration: bool,
) -> ActiveTargetedSkill {
    ActiveTargetedSkill {
        skill: running(meta.skill_id, effect, duration, natural_deceleration),
        origin: meta.origin,
        source_runner_id: meta.source_runner_id,
    }
}

fn active_targeted(
    meta: &TargetedEffectMeta,
    effect: &ResolvedSkillEffect,
    duration: i64,
    natural_deceleration: bool,
) -> (active: ActiveTargetedSkill)
    ensures
        active == targeted_running(*meta, *effect, duration, natural_deceleration),
{
    ActiveTargetedSkill {
        skill: active_skill(meta.skill_id, effect, duration, natural_deceleration),
        origin: meta.origin,
        source_runner_id: meta.source_runner_id,
    }
}

/// What one targeted effect makes of the runner, `duration` being how long it
/// lasts. A rushed-duration effect lengthens the spell of a runner who is
/// rushed, and does nothing to another.
#[verifier::opaque]
pub open spec fn targeted_applied(
    s: RunnerState,
    meta: TargetedEffectMeta,
    effect: ResolvedSkillEffect,
    duration: i64,
) -> RunnerState {
    let modifiers = s.tally.modifiers;
    let m = effect.modifier;
    match effect.effect_type {
        SkillType::RushedDuration => if s.body.is_rushed {
            RunnerState {
                tally: RunnerTally {
                    rushed_max_duration: sat(s.tally.rushed_max_duration + m) as i64,
                    ..s.tally
                },
                ..s
            }
        } else {
            s
        },
        SkillType::TargetSpeed => RunnerState {
            tally: RunnerTally {
                modifiers: Modifiers {
                    target_speed: sat(modifiers.target_speed + m) as i64,
                    ..modifiers
                },
                ..s.tally
            },
            targeted: TargetedState {
                target_speed: s.targeted.target_speed.push(
                    targeted_running(meta, effect, duration, false),
                ),
                ..s.targeted
            },
            ..s
        },
        SkillType::Accel => RunnerState {
            tally: RunnerTally {
                modifiers: Modifiers { accel: sat(modifiers.accel + m) as i64, ..modifiers },
                ..s.tally
            },
            targeted: TargetedState {
                acceleration: s.targeted.acceleration.push(
                    targeted_running(meta, effect, duration, false),
                ),
                ..s.targeted
            },
            ..s
        },
        SkillType::LaneMovementSpeed => RunnerState {
            targeted: TargetedState {
                lane_movement: s.targeted.lane_movement.push(
                    targeted_running(meta, effect, duration, false),
                ),
                ..s.targeted
            },
            ..s
        },
        SkillType::CurrentSpeed | SkillType::CurrentSpeedWithNaturalDeceleration => RunnerState {
            tally: RunnerTally {
                modifiers: Modifiers {
                    current_speed: sat(modifiers.current_speed + m) as i64,
                    ..modifiers
                },
                ..s.tally
            },
            targeted: TargetedState {
                current_speed: s.targeted.current_speed.push(
                    targeted_running(
                        meta,
                        effect,
                        duration,
                        effect.effect_type == SkillType::CurrentSpeedWithNaturalDeceleration,
                    ),
                ),
                ..s.targeted
            },
            ..s
        },
        SkillType::ChangeLane => RunnerState {
            targeted: TargetedState {
                change_lane: s.targeted.change_lane.push(
                    targeted_running(meta, effect, duration, false),
                ),
                ..s.targeted
            },
            ..s
        },
        _ => RunnerState {
            tally: stat_effect(s.tally, s.body, effect.effect_type, m),
            ..s
        },
    }
}

/// The runner after one resolved targeted effect has landed: it is recorded,
/// and applied for its duration on a course `distance` long.
#[verifier::opaque]
pub open spec fn landed(
    s: RunnerState,
    meta: TargetedEffectMeta,
    effect: ResolvedSkillEffect,
    distance: i64,
) -> RunnerState {
    targeted_applied(
        RunnerState {
            used_targeted: s.used_targeted.push(
                UsedTargetedSkill {
                    skill_id: meta.skill_id,
                    position: s.body.position,
                    effect_type: effect.effect_type,
                    effect_target: effect.target,
                },
            ),
            ..s
        },
        meta,
        effect,
        course_scaled(effect.base_duration as int, distance as int) as i64,
    )
}

/// The runner after each of `effects` has landed, in order.
pub open spec fn all_landed(
    s: RunnerState,
    meta: TargetedEffectMeta,
    effects: Seq<ResolvedSkillEffect>,
    distance: i64,
) -> RunnerState
    decreases effects.len(),
{
    if effects.len() == 0 {
        s
    } else {
        landed(all_landed(s, meta, effects.drop_last(), distance), meta, effects.last(), distance)
    }
}

/// The runner after each of `effects` has been resolved against her own state
/// and has landed, in order.
pub open spec fn all_resolved_and_landed(
    s: RunnerState,
    meta: TargetedEffectMeta,
    effects: Seq<SkillEffectSpec>,
    distance: i64,
) -> RunnerState
    decreases effects.len(),
{
    if effects.len() == 0 {
        s
    } else {
        let before = all_resolved_and_landed(s, meta, effects.drop_last(), distance);
        let number = meta.skill_id.number;
        landed(
            after_resolving(before, number, effects.last()),
            meta,
            resolved(before, number, effects.last()),
            distance,
        )
    }
}

/// The effects that stretch evolved skills (`extension`), or the others, in
/// order.
pub open spec fn resolved_extensions(effects: Seq<ResolvedSkillEffect>, extension: bool) -> Seq<
    ResolvedSkillEffect,
>
    decreases effects.len(),
{
    if effects.len() == 0 {
        Seq::empty()
    } else {
        let before = resolved_extensions(effects.drop_last(), extension);
        if (effects.last().effect_type == SkillType::ExtendEvolvedDuration) == extension {
            before.push(effects.last())
        } else {
            before
        }
    }
}

/// The runner after effects cast by runner `source`, already resolved by her,
/// have landed: the ones that stretch evolved skills last.
pub open spec fn received(
    s: RunnerState,
    skill_id: SkillId,
    effects: Seq<ResolvedSkillEffect>,
    source: RunnerId,
    distance: i64,
) -> RunnerState {
    all_landed(
        s,
        TargetedEffectMeta {
            skill_id,
            origin: TargetedSkillOrigin::Runner,
            source_runner_id: Some(source),
        },
        resolved_extensions(effects, false) + resolved_extensions(effects, true),
        distance,
    )
}

/// The runner after a pending targeted skill has been applied: its effects are
/// resolved against the receiver's own state.
pub open spec fn injected(s: RunnerState, p: PendingTargetedState, distance: i64) -> RunnerState {
    all_resolved_and_landed(
        s,
        TargetedEffectMeta {
            skill_id: p.skill_id,
            origin: p.origin,
            source_runner_id: p.source_runner_id,
        },
        application_order(p.effects),
        distance,
    )
}

impl Runner {
    fn apply_targeted_effect_kind(
        &mut self,
        meta: &TargetedEffectMeta,
        effect: &ResolvedSkillEffect,
        duration: i64,
    )
        ensures
            final(self)@ == targeted_applied(old(self)@, *meta, *effect, duration),
    {
        proof {
            reveal(targeted_applied);
        }
        match effect.effect_type {
            SkillType::RushedDuration => {
                if self.body.is_rushed {
                    self.tally.rushed_max_duration = plus(
                        self.tally.rushed_max_duration,
                        effect.modifier,
                    );
                }
            },
            SkillType::TargetSpeed => {
                self.tally.modifiers.target_speed = plus(
                    self.tally.modifiers.target_speed,
                    effect.modifier,
                );
                self.targeted.target_speed.push(active_targeted(meta, effect, duration, false));
            },
            SkillType::Accel => {
                self.tally.modifiers.accel = plus(self.tally.modifiers.accel, effect.modifier);
                self.targeted.acceleration.push(active_targeted(meta, effect, duration, false));
            },
            SkillType::LaneMovementSpeed => {
                self.targeted.lane_movement.push(active_targeted(meta, effect, duration, false));
            },
            SkillType::CurrentSpeed | SkillType::CurrentSpeedWithNaturalDeceleration => {
                self.tally.modifiers.current_speed = plus(
                    self.tally.modifiers.current_speed,
                    effect.modifier,
                );
                let natural = effect.effect_type == SkillType::CurrentSpeedWithNaturalDeceleration;
                self.targeted.current_speed.push(active_targeted(meta, effect, duration, natural));
            },
            SkillType::ChangeLane => {
                self.targeted.change_lane.push(active_targeted(meta, effect, duration, false));
            },
            _ => {
                self.apply_stat_effect(effect.effect_type, effect.modifier);
            },
        }
    }

    /// Record and apply one resolved targeted effect.
    fn apply_resolved_targeted_effect(
        &mut self,
        meta: &TargetedEffectMeta,
        effect: &ResolvedSkillEffect,
        course_distance: i64,
    )
        ensures
            final(self)@ == landed(old(self)@, *meta, *effect, course_distance),
    {
        proof {
            reveal(landed);
        }
        let duration: i64 = scale_to_course(effect.base_duration, course_distance);
        self.used_targeted_skills.push(
            UsedTargetedSkill {
                skill_id: meta.skill_id,
                position: self.body.position,
                effect_type: effect.effect_type,
                effect_target: effect.target,
            },
        );
        self.apply_targeted_effect_kind(meta, effect, duration);
    }

    /// Apply a pending targeted skill, its effects resolved here.
    pub fn apply_targeted_effect(&mut self, skill: &PendingTargetedSkill, course_distance: i64)
        ensures
            final(self)@ == injected(old(self)@, skill@, course_distance),
    {
        let effects = in_application_order(&skill.effects);
        let meta = TargetedEffectMeta {
            skill_id: skill.skill_id,
            origin: skill.origin,
            source_runner_id: skill.source_runner_id,
        };
        let ghost start = self@;
        let mut i: usize = 0;
        proof {
            assert(effects@.take(0) =~= Seq::<SkillEffectSpec>::empty());
        }
        while i < effects.len()
            invariant
                i <= effects@.len(),
                self@ == all_resolved_and_landed(
                    start,
                    meta,
                    effects@.take(i as int),
                    course_distance,
                ),
            decreases effects@.len() - i,
        {
            proof {
                assert(effects@.take(i + 1).drop_last() =~= effects@.take(i as int));
            }
            let r = self.resolve_effect(meta.skill_id.base(), &effects[i]);
            self.apply_resolved_targeted_effect(&meta, &r, course_distance);
            i = i + 1;
        }
        proof {
            assert(effects@.take(i as int) =~= effects@);
        }
    }

    /// Effects cast on this runner by another, already resolved by the caster:
    /// the receiver never resolves them again.
    pub fn receive_targeted_effect(
        &mut self,
        skill_id: SkillId,
        effects: Vec<ResolvedSkillEffect>,
        source_runner_id: RunnerId,
        course_distance: i64,
    )
        ensures
            final(self)@ == received(
                old(self)@,
                skill_id,
                effects@,
                source_runner_id,
                course_distance,
            ),
    {
        let meta = TargetedEffectMeta {
            skill_id,
            origin: TargetedSkillOrigin::Runner,
            source_runner_id: Some(source_runner_id),
        };
        let mut ordered: Vec<ResolvedSkillEffect> = Vec::new();
        push_resolved_extensions(&effects, false, &mut ordered);
        push_resolved_extensions(&effects, true, &mut ordered);
        proof {
            assert(ordered@ =~= resolved_extensions(effects@, false) + resolved_extensions(
                effects@,
                true,
            ));
            assert(ordered@.take(0) =~= Seq::<ResolvedSkillEffect>::empty());
        }
        let ghost start = self@;
        let mut i: usize = 0;
        while i < ordered.len()
            invariant
                i <= ordered@.len(),
                self@ == all_landed(start, meta, ordered@.take(i as int), course_distance),
            decreases ordered@.len() - i,
        {
            proof {
                assert(ordered@.take(i + 1).drop_last() =~= ordered@.take(i as int));
            }
            self.apply_resolved_targeted_effect(&meta, &ordered[i], course_distance);
            i = i + 1;
        }
        proof {
            assert(ordered@.take(i as int) =~= ordered@);
        }
    }
}

fn push_resolved_extensions(
    effects: &Vec<ResolvedSkillEffect>,
    extension: bool,
    into: &mut Vec<ResolvedSkillEffect>,
)
    ensures
        final(into)@ == old(into)@ + resolved_extensions(effects@, extension),
{
    let ghost start = into@;
    let mut i: usize = 0;
    while i < effects.len()
        invariant
            i <= effects.len(),
            into@ == start + resolved_extensions(effects@.take(i as int), extension),
        decreases effects.len() - i,
    {
        proof {
            assert(effects@.take(i + 1).drop_last() =~= effects@.take(i as int));
        }
        let is_extension = effects[i].effect_type == SkillType::ExtendEvolvedDuration;
        if is_extension == extension {
            into.push(effects[i]);
        }
        i = i + 1;
        proof {
            assert(into@ =~= start + resolved_extensions(effects@.take(i as int), extension));
        }
    }
    proof {
        assert(effects@.take(i as int) =~= effects@);
    }
}

/// The targeted effects of a list that still run, in order.
pub open spec fn still_targeting(list: Seq<ActiveTargetedSkill>) -> Seq<ActiveTargetedSkill>
    decreases list.len(),
{
    if list.len() == 0 {
        Seq::empty()
    } else {
        let before = still_targeting(list.drop_last());
        if list.last().skill.duration_timer.expired() {
            before
        } else {
            before.push(list.last())
        }
    }
}

/// The effects behind a list of targeted ones.
pub open spec fn skills_of(list: Seq<ActiveTargetedSkill>) -> Seq<ActiveSkill> {
    Seq::new(list.len(), |i: int| list[i].skill)
}

/// The modifiers once the targeted effects that have run out no longer count.
pub open spec fn modifiers_after_targeted(
    modifiers: Modifiers,
    targeted: TargetedState,
) -> Modifiers {
    Modifiers {
        target_speed: taken_back(
            modifiers.target_speed,
            run_out(skills_of(targeted.target_speed)),
        ),
        current_speed: taken_back(
            modifiers.current_speed,
            run_out(skills_of(targeted.current_speed)),
        ),
        accel: taken_back(modifiers.accel, run_out(skills_of(targeted.acceleration))),
        one_frame_accel: sat(
            modifiers.one_frame_accel + decay_kick(run_out(skills_of(targeted.current_speed))),
        ) as i64,
        ..modifiers
    }
}

/// The runner without the targeted effects that have run out; what they added
/// is taken back.
#[verifier::opaque]
pub open spec fn expired_targeted_skills_gone(s: RunnerState) -> RunnerState {
    RunnerState {
        tally: RunnerTally {
            modifiers: modifiers_after_targeted(s.tally.modifiers, s.targeted),
            ..s.tally
        },
        targeted: TargetedState {
            target_speed: still_targeting(s.targeted.target_speed),
            current_speed: still_targeting(s.targeted.current_speed),
            acceleration: still_targeting(s.targeted.acceleration),
            lane_movement: still_targeting(s.targeted.lane_movement),
            change_lane: still_targeting(s.targeted.change_lane),
        },
        ..s
    }
}

/// Take the targeted effects that have run out off a list, and return the
/// effects behind them.
fn drain_expired_targeted(list: &mut Vec<ActiveTargetedSkill>) -> (ended: Vec<ActiveSkill>)
    ensures
        final(list)@ == still_targeting(old(list)@),
        ended@ == run_out(skills_of(old(list)@)),
{
    let ghost before = list@;
    let mut kept: Vec<ActiveTargetedSkill> = Vec::new();
    let mut ended: Vec<ActiveSkill> = Vec::new();
    let mut i: usize = 0;
    proof {
        assert(skills_of(before.take(0)) =~= Seq::<ActiveSkill>::empty());
    }
    while i < list.len()
        invariant
            list@ == before,
            i <= list@.len(),
            kept@ == still_targeting(before.take(i as int)),
            ended@ == run_out(skills_of(before.take(i as int))),
        decreases list@.len() - i,
    {
        proof {
            assert(before.take(i + 1).drop_last() =~= before.take(i as int));
            assert(skills_of(before.take(i + 1)).drop_last() =~= skills_of(before.take(i as int)));
        }
        let active = list[i];
        if active.skill.duration_timer.t >= 0 {
            ended.push(active.skill);
        } else {
            kept.push(active);
        }
        i = i + 1;
    }
    proof {
        assert(before.take(i as int) =~= before);
    }
    *list = kept;
    ended
}

/// The runner after the first `n` pending targeted skills have been looked at,
/// from the last down: one whose window she has passed is dropped, one whose
/// window she is in is applied and dropped.
pub open spec fn targeted_pass(s: RunnerState, n: nat, distance: i64) -> RunnerState
    decreases n,
{
    if n == 0 {
        s
    } else {
        let i = n - 1;
        let p = s.pending_targeted[i];
        let s1 = if s.body.position >= p.trigger.end {
            RunnerState { pending_targeted: s.pending_targeted.remove(i), ..s }
        } else if s.body.position >= p.trigger.start {
            let applied = injected(s, p, distance);
            RunnerState { pending_targeted: applied.pending_targeted.remove(i), ..applied }
        } else {
            s
        };
        targeted_pass(s1, (n - 1) as nat, distance)
    }
}

/// The runner after this tick's targeted pass.
pub open spec fn targeted_processed(s: RunnerState, distance: i64) -> RunnerState {
    let s1 = expired_targeted_skills_gone(s);
    targeted_pass(s1, s1.pending_targeted.len(), distance)
}

/// What landing effects leave alone.
pub open spec fn untouched_by_landing(a: RunnerState, b: RunnerState) -> bool {
    &&& b.body == a.body
    &&& b.script == a.script
    &&& b.active == a.active
    &&& b.pending == a.pending
    &&& b.pending_targeted == a.pending_targeted
    &&& b.held == a.held
    &&& b.extensions == a.extensions
    &&& b.used_skills == a.used_skills
    &&& b.ledger == a.ledger
    &&& b.emitted == a.emitted
    &&& b.removal == a.removal
    &&& b.wit_rolls == a.wit_rolls
    &&& b.gold_rolls == a.gold_rolls
    &&& b.tally.skills_activated_count == a.tally.skills_activated_count
    &&& b.tally.skills_activated_phase_map == a.tally.skills_activated_phase_map
    &&& b.tally.skills_activated_half_race_map == a.tally.skills_activated_half_race_map
}

/// A targeted effect that lands leaves the receiver's own skills, pending and
/// running, as they are.
pub proof fn landing_leaves_own_skills(
    s: RunnerState,
    meta: TargetedEffectMeta,
    effects: Seq<ResolvedSkillEffect>,
    distance: i64,
)
    ensures
        untouched_by_landing(s, all_landed(s, meta, effects, distance)),
        all_landed(s, meta, effects, distance).skill_rolls == s.skill_rolls,
    decreases effects.len(),
{
    if effects.len() > 0 {
        landing_leaves_own_skills(s, meta, effects.drop_last(), distance);
        reveal(landed);
        reveal(targeted_applied);
    }
}

pub(crate) proof fn lemma_injection_leaves_own_skills(
    s: RunnerState,
    meta: TargetedEffectMeta,
    effects: Seq<SkillEffectSpec>,
    distance: i64,
)
    ensures
        untouched_by_landing(s, all_resolved_and_landed(s, meta, effects, distance)),
    decreases effects.len(),
{
    if effects.len() > 0 {
        lemma_injection_leaves_own_skills(s, meta, effects.drop_last(), distance);
        reveal(landed);
        reveal(targeted_applied);
    }
}

impl Runner {
    /// End the targeted effects that have run out.
    pub fn cleanup_expired_targeted_skills(&mut self)
        ensures
            final(self)@ == expired_targeted_skills_gone(old(self)@),
    {
        proof {
            reveal(expired_targeted_skills_gone);
        }
        let ended = drain_expired_targeted(&mut self.targeted.target_speed);
        self.tally.modifiers.target_speed = take_back(self.tally.modifiers.target_speed, &ended);
        let ended = drain_expired_targeted(&mut self.targeted.current_speed);
        self.tally.modifiers.current_speed = take_back(self.tally.modifiers.current_speed, &ended);
        self.tally.modifiers.one_frame_accel = plus(
            self.tally.modifiers.one_frame_accel,
            sum_decay_kick(&ended),
        );
        let ended = drain_expired_targeted(&mut self.targeted.acceleration);
        self.tally.modifiers.accel = take_back(self.tally.modifiers.accel, &ended);
        drain_expired_targeted(&mut self.targeted.lane_movement);
        drain_expired_targeted(&mut self.targeted.change_lane);
    }

    fn remove_pending_targeted(&mut self, i: usize)
        requires
            i < old(self).pending_targeted_skills@.len(),
        ensures
            final(self)@ == (RunnerState {
                pending_targeted: old(self)@.pending_targeted.remove(i as int),
                ..old(self)@
            }),
    {
        let ghost before = self@;
        self.pending_targeted_skills.remove(i);
        proof {
            assert(self@.pending_targeted =~= before.pending_targeted.remove(i as int));
        }
    }

    /// Process injected targeted skills for this tick.
    pub fn process_targeted_skill_activations(&mut self, course_distance: i64)
        ensures
            final(self)@ == targeted_processed(old(self)@, course_distance),
    {
        self.cleanup_expired_targeted_skills();
        let ghost start = self@;
        let mut i: usize = self.pending_targeted_skills.len();
        while i > 0
            invariant
                i <= self.pending_targeted_skills@.len(),
                targeted_pass(start, start.pending_targeted.len(), course_distance)
                    == targeted_pass(self@, i as nat, course_distance),
            decreases i,
        {
            i = i - 1;
            let ghost before = self@;
            proof {
                assert(before.pending_targeted[i as int] == self.pending_targeted_skills@[i as int]@);
            }
            let trigger = self.pending_targeted_skills[i].trigger;
            if self.body.position >= trigger.end {
                self.remove_pending_targeted(i);
            } else if self.body.position >= trigger.start {
                let skill = self.pending_targeted_skills[i].duplicate();
                proof {
                    lemma_injection_leaves_own_skills(
                        before,
                        TargetedEffectMeta {
                            skill_id: skill.skill_id,
                            origin: skill.origin,
                            source_runner_id: skill.source_runner_id,
                        },
                        application_order(skill@.effects),
                        course_distance,
                    );
                }
                self.apply_targeted_effect(&skill, course_distance);
                proof {
                    assert(self@.pending_targeted.len() == before.pending_targeted.len());
                }
                self.remove_pending_targeted(i);
            }
        }
    }
}

} // verus!
