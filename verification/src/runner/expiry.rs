//! How running effects end and how overtakes lengthen them: what had run out
//! when a tick starts is gone after it, and nothing else is.
use crate::condition::dynamic::FieldView;
use crate::language::SkillId;
use crate::model::{ActiveSkill, ActiveTargetedSkill, HeldAdditionalEffect, OrderUpExtension};
use crate::runner::accounts::{lemma_held_fired_grows, lemma_pass_grows};
use crate::runner::activation::{after_firing, firing, HeldTrigger};
use crate::runner::process::{
    decay_kick, expired_self_skills_gone, extending, extensions_used, gained_order, lengthened,
    order_gained, preconditions_latched, ready_to_check, run_out, skill_lengthened,
    skills_lengthened, skills_processed, still_extending, still_held, still_running, tick_started,
};
use crate::runner::targeted::{
    all_resolved_and_landed, expired_targeted_skills_gone, skills_of, still_targeting,
    targeted_applied, targeted_pass, targeted_processed,
};
use crate::runner::{ActiveState, RunnerState, RunnerTally, TargetedState};
use crate::units::{magnitude, QUANTITY_MAX, QUANTITY_MIN};
use vstd::prelude::*;

verus! {

/// The effects of a list whose timer is still under 0.
pub open spec fn not_run_out(list: Seq<ActiveSkill>) -> Seq<ActiveSkill> {
    list.filter(|e: ActiveSkill| e.duration_timer.t < 0)
}

proof fn lemma_still_running(list: Seq<ActiveSkill>)
    ensures
        still_running(list) == not_run_out(list),
        run_out(list) == list.filter(|e: ActiveSkill| e.duration_timer.t >= 0),
    decreases list.len(),
{
    reveal(Seq::filter);
    if list.len() > 0 {
        lemma_still_running(list.drop_last());
    }
}

proof fn lemma_still_held(list: Seq<HeldAdditionalEffect>)
    ensures
        still_held(list) == list.filter(|h: HeldAdditionalEffect| h.timer.t < 0),
    decreases list.len(),
{
    reveal(Seq::filter);
    if list.len() > 0 {
        lemma_still_held(list.drop_last());
    }
}

proof fn lemma_still_extending(list: Seq<OrderUpExtension>)
    ensures
        still_extending(list) == list.filter(|e: OrderUpExtension| e.timer.t < 0),
    decreases list.len(),
{
    reveal(Seq::filter);
    if list.len() > 0 {
        lemma_still_extending(list.drop_last());
    }
}

/// Whether an effect is on one of the five lists.
pub open spec fn runs_on(active: ActiveState, e: ActiveSkill) -> bool {
    ||| active.target_speed.contains(e)
    ||| active.current_speed.contains(e)
    ||| active.acceleration.contains(e)
    ||| active.lane_movement.contains(e)
    ||| active.change_lane.contains(e)
}

/// Ending what has run out takes the effects, held effects and extensions whose
/// timer is at 0 or past it off their lists, all five of them, and leaves every
/// other where it was.
pub proof fn what_has_run_out_ends_and_nothing_else(s: RunnerState, e: ActiveSkill)
    ensures
        ({
            let after = expired_self_skills_gone(s);
            &&& after.active.target_speed == not_run_out(s.active.target_speed)
            &&& after.active.current_speed == not_run_out(s.active.current_speed)
            &&& after.active.acceleration == not_run_out(s.active.acceleration)
            &&& after.active.lane_movement == not_run_out(s.active.lane_movement)
            &&& after.active.change_lane == not_run_out(s.active.change_lane)
            &&& after.held == s.held.filter(|h: HeldAdditionalEffect| h.timer.t < 0)
            &&& after.extensions == s.extensions.filter(|x: OrderUpExtension| x.timer.t < 0)
            &&& runs_on(after.active, e) <==> runs_on(s.active, e) && e.duration_timer.t < 0
            &&& after.body == s.body
            &&& after.script == s.script
            &&& after.targeted == s.targeted
            &&& after.pending == s.pending
            &&& after.pending_targeted == s.pending_targeted
            &&& after.used_skills == s.used_skills
            &&& after.emitted == s.emitted
            &&& after.tally.health == s.tally.health
            &&& after.tally.adjusted_stats == s.tally.adjusted_stats
            &&& after.tally.base_stats == s.tally.base_stats
        }),
{
    reveal(expired_self_skills_gone);
    lemma_still_held(s.held);
    lemma_still_extending(s.extensions);
    lemma_still_running(s.active.target_speed);
    lemma_kept(s.active.target_speed, e);
    lemma_still_running(s.active.current_speed);
    lemma_kept(s.active.current_speed, e);
    lemma_still_running(s.active.acceleration);
    lemma_kept(s.active.acceleration, e);
    lemma_still_running(s.active.lane_movement);
    lemma_kept(s.active.lane_movement, e);
    lemma_still_running(s.active.change_lane);
    lemma_kept(s.active.change_lane, e);
}

proof fn lemma_kept(list: Seq<ActiveSkill>, e: ActiveSkill)
    ensures
        not_run_out(list).contains(e) <==> list.contains(e) && e.duration_timer.t < 0,
{
    let runs = |e: ActiveSkill| e.duration_timer.t < 0;
    broadcast use vstd::seq_lib::group_filter_ensures;
    if list.filter(runs).contains(e) {
        list.lemma_filter_contains_rev(runs, e);
    }
    if list.contains(e) && runs(e) {
        let i = list.index_of(e);
        assert(list[i] == e);
        assert(list.filter(runs).contains(list[i]));
    }
}

/// Whether `after` starts with the effects of `kept`, in order, each the same
/// but for how long it still runs (`exact`: not even that), and goes on only
/// with effects started since.
pub open spec fn goes_on_from(kept: Seq<ActiveSkill>, after: Seq<ActiveSkill>, exact: bool) -> bool {
    &&& kept.len() <= after.len()
    &&& forall|i: int|
        0 <= i < kept.len() ==> {
            let e = #[trigger] after[i];
            &&& e.skill_id == kept[i].skill_id
            &&& e.modifier == kept[i].modifier
            &&& e.effect_type == kept[i].effect_type
            &&& e.effect_target == kept[i].effect_target
            &&& e.natural_deceleration == kept[i].natural_deceleration
            &&& exact ==> e.duration_timer == kept[i].duration_timer
        }
}

proof fn lemma_lengthening_goes_on(
    kept: Seq<ActiveSkill>,
    list: Seq<ActiveSkill>,
    id: SkillId,
    seconds: i64,
)
    requires
        goes_on_from(kept, list, false),
    ensures
        goes_on_from(kept, lengthened(list, id, seconds), false),
        lengthened(list, id, seconds).len() == list.len(),
{
}

proof fn lemma_prefix_goes_on(
    kept: Seq<ActiveSkill>,
    list: Seq<ActiveSkill>,
    later: Seq<ActiveSkill>,
    exact: bool,
)
    requires
        goes_on_from(kept, list, exact),
        list.is_prefix_of(later),
    ensures
        goes_on_from(kept, later, exact),
{
    assert forall|i: int| 0 <= i < kept.len() implies #[trigger] later[i] == list[i] by {}
}

/// Whether each of the five lists goes on from what it had that has not run out.
pub open spec fn all_go_on_from(before: ActiveState, after: ActiveState, exact: bool) -> bool {
    &&& goes_on_from(not_run_out(before.target_speed), after.target_speed, exact)
    &&& goes_on_from(not_run_out(before.current_speed), after.current_speed, exact)
    &&& goes_on_from(not_run_out(before.acceleration), after.acceleration, exact)
    &&& goes_on_from(not_run_out(before.lane_movement), after.lane_movement, exact)
    &&& goes_on_from(not_run_out(before.change_lane), after.change_lane, exact)
}

proof fn lemma_all_lengthened(
    before: ActiveState,
    s: RunnerState,
    extensions: Seq<OrderUpExtension>,
)
    requires
        all_go_on_from(before, s.active, false),
    ensures
        all_go_on_from(before, skills_lengthened(s, extensions).active, false),
    decreases extensions.len(),
{
    if extensions.len() > 0 {
        lemma_all_lengthened(before, s, extensions.drop_last());
        let s1 = skills_lengthened(s, extensions.drop_last());
        let e = extensions.last();
        lemma_lengthening_goes_on(
            not_run_out(before.target_speed),
            s1.active.target_speed,
            e.skill_id,
            e.seconds,
        );
        lemma_lengthening_goes_on(
            not_run_out(before.current_speed),
            s1.active.current_speed,
            e.skill_id,
            e.seconds,
        );
        lemma_lengthening_goes_on(
            not_run_out(before.acceleration),
            s1.active.acceleration,
            e.skill_id,
            e.seconds,
        );
        lemma_lengthening_goes_on(
            not_run_out(before.lane_movement),
            s1.active.lane_movement,
            e.skill_id,
            e.seconds,
        );
        lemma_lengthening_goes_on(
            not_run_out(before.change_lane),
            s1.active.change_lane,
            e.skill_id,
            e.seconds,
        );
    }
}

proof fn lemma_grown_goes_on(before: ActiveState, a: RunnerState, b: RunnerState, exact: bool)
    requires
        all_go_on_from(before, a.active, exact),
        crate::runner::activation::effects_grow(a, b),
    ensures
        all_go_on_from(before, b.active, exact),
{
    lemma_prefix_goes_on(
        not_run_out(before.target_speed),
        a.active.target_speed,
        b.active.target_speed,
        exact,
    );
    lemma_prefix_goes_on(
        not_run_out(before.current_speed),
        a.active.current_speed,
        b.active.current_speed,
        exact,
    );
    lemma_prefix_goes_on(
        not_run_out(before.acceleration),
        a.active.acceleration,
        b.active.acceleration,
        exact,
    );
    lemma_prefix_goes_on(
        not_run_out(before.lane_movement),
        a.active.lane_movement,
        b.active.lane_movement,
        exact,
    );
    lemma_prefix_goes_on(
        not_run_out(before.change_lane),
        a.active.change_lane,
        b.active.change_lane,
        exact,
    );
}

/// After a tick's skill pass no effect that had run out when the tick started
/// (its timer at 0 or past it) is left on any of the five lists, lane movement
/// and lane change among them, and every effect that had not is still there, in
/// its order and ahead of whatever has started since. Unless a place was gained,
/// its timer stands where it stood.
pub proof fn a_tick_ends_exactly_what_had_run_out(s: RunnerState, field: FieldView, distance: i64)
    ensures
        all_go_on_from(
            s.active,
            skills_processed(s, field, distance).active,
            !gained_order(field),
        ),
        s.pending.len() == 0 && !gained_order(field) ==> {
            let after = skills_processed(s, field, distance).active;
            &&& after.target_speed == not_run_out(s.active.target_speed)
            &&& after.current_speed == not_run_out(s.active.current_speed)
            &&& after.acceleration == not_run_out(s.active.acceleration)
            &&& after.lane_movement == not_run_out(s.active.lane_movement)
            &&& after.change_lane == not_run_out(s.active.change_lane)
        },
{
    reveal(tick_started);
    reveal(preconditions_latched);
    let marked = RunnerState {
        tally: RunnerTally {
            activations_at_last_tick_start: s.tally.activations_at_tick_start,
            activations_at_tick_start: s.tally.skills_activated_count,
            ..s.tally
        },
        ..s
    };
    let s1 = tick_started(s, field);
    assert(s1.active.target_speed == not_run_out(s.active.target_speed)) by {
        reveal(expired_self_skills_gone);
        lemma_still_running(s.active.target_speed);
    }
    assert(s1.active.current_speed == not_run_out(s.active.current_speed)) by {
        reveal(expired_self_skills_gone);
        lemma_still_running(s.active.current_speed);
    }
    assert(s1.active.acceleration == not_run_out(s.active.acceleration)) by {
        reveal(expired_self_skills_gone);
        lemma_still_running(s.active.acceleration);
    }
    assert(s1.active.lane_movement == not_run_out(s.active.lane_movement)) by {
        reveal(expired_self_skills_gone);
        lemma_still_running(s.active.lane_movement);
    }
    assert(s1.active.change_lane == not_run_out(s.active.change_lane)) by {
        reveal(expired_self_skills_gone);
        lemma_still_running(s.active.change_lane);
    }
    assert(s1.pending == s.pending) by {
        reveal(expired_self_skills_gone);
    }
    if gained_order(field) {
        reveal(order_gained);
        let used = RunnerState { extensions: extensions_used(s1.extensions), ..s1 };
        let longer = skills_lengthened(used, extending(s1.extensions));
        lemma_all_lengthened(s.active, used, extending(s1.extensions));
        lemma_held_fired_grows(longer, HeldTrigger::OrderUp);
        lemma_grown_goes_on(s.active, longer, order_gained(s1), false);
    }
    let ready = ready_to_check(s, field);
    lemma_pass_grows(ready, 0, field, distance);
    lemma_grown_goes_on(
        s.active,
        ready,
        skills_processed(s, field, distance),
        !gained_order(field),
    );
}

/// What an effect that ends leaves behind: its strength no longer counts, and a
/// naturally decaying speed effect, and no other, adds its strength once to this
/// tick's acceleration.
pub open spec fn kick_of(list: Seq<ActiveSkill>) -> int
    decreases list.len(),
{
    if list.len() == 0 {
        0
    } else {
        let e = list.last();
        kick_of(list.drop_last()) + if e.duration_timer.t >= 0 && e.natural_deceleration {
            e.modifier as int
        } else {
            0
        }
    }
}

proof fn lemma_kick(list: Seq<ActiveSkill>)
    requires
        crate::runner::laws::weight(list) <= QUANTITY_MAX,
    ensures
        decay_kick(run_out(list)) == kick_of(list),
        magnitude(kick_of(list)) <= crate::runner::laws::weight(list),
        crate::runner::laws::weight(list) >= 0,
    decreases list.len(),
{
    if list.len() > 0 {
        let init = list.drop_last();
        lemma_weight_nonnegative(init);
        lemma_kick(init);
        assert(run_out(init).push(list.last()).drop_last() =~= run_out(init));
    }
}

proof fn lemma_weight_nonnegative(list: Seq<ActiveSkill>)
    ensures
        crate::runner::laws::weight(list) >= 0,
    decreases list.len(),
{
    if list.len() > 0 {
        lemma_weight_nonnegative(list.drop_last());
    }
}

/// See [`kick_of`]: her own decaying speed effects kick once as they end.
pub proof fn a_decaying_speed_kicks_once_as_it_ends(s: RunnerState)
    requires
        magnitude(s.tally.modifiers.one_frame_accel as int) + crate::runner::laws::weight(
            s.active.current_speed,
        ) <= QUANTITY_MAX,
    ensures
        expired_self_skills_gone(s).tally.modifiers.one_frame_accel
            == s.tally.modifiers.one_frame_accel + kick_of(s.active.current_speed),
        expired_self_skills_gone(s).tally.modifiers.special_skill_duration_scaling
            == s.tally.modifiers.special_skill_duration_scaling,
{
    reveal(expired_self_skills_gone);
    lemma_kick(s.active.current_speed);
}

/// The targeted effects of a list whose timer is still under 0.
pub open spec fn not_run_out_targeted(list: Seq<ActiveTargetedSkill>) -> Seq<ActiveTargetedSkill> {
    list.filter(|e: ActiveTargetedSkill| e.skill.duration_timer.t < 0)
}

proof fn lemma_still_targeting(list: Seq<ActiveTargetedSkill>)
    ensures
        still_targeting(list) == not_run_out_targeted(list),
    decreases list.len(),
{
    reveal(Seq::filter);
    if list.len() > 0 {
        lemma_still_targeting(list.drop_last());
    }
}

/// Ending the targeted effects that have run out takes exactly those off all
/// five lists, and a decaying speed effect among them kicks once.
pub proof fn targeted_effects_that_ran_out_end(s: RunnerState)
    ensures
        ({
            let after = expired_targeted_skills_gone(s);
            &&& after.targeted.target_speed == not_run_out_targeted(s.targeted.target_speed)
            &&& after.targeted.current_speed == not_run_out_targeted(s.targeted.current_speed)
            &&& after.targeted.acceleration == not_run_out_targeted(s.targeted.acceleration)
            &&& after.targeted.lane_movement == not_run_out_targeted(s.targeted.lane_movement)
            &&& after.targeted.change_lane == not_run_out_targeted(s.targeted.change_lane)
            &&& after.active == s.active
            &&& after.pending_targeted == s.pending_targeted
            &&& after.body == s.body
            &&& after.tally.health == s.tally.health
            &&& magnitude(s.tally.modifiers.one_frame_accel as int) + crate::runner::laws::weight(
                skills_of(s.targeted.current_speed),
            ) <= QUANTITY_MAX ==> after.tally.modifiers.one_frame_accel
                == s.tally.modifiers.one_frame_accel + kick_of(
                skills_of(s.targeted.current_speed),
            )
        }),
{
    reveal(expired_targeted_skills_gone);
    if crate::runner::laws::weight(skills_of(s.targeted.current_speed)) <= QUANTITY_MAX {
        lemma_kick(skills_of(s.targeted.current_speed));
    }
    lemma_still_targeting(s.targeted.target_speed);
    lemma_still_targeting(s.targeted.current_speed);
    lemma_still_targeting(s.targeted.acceleration);
    lemma_still_targeting(s.targeted.lane_movement);
    lemma_still_targeting(s.targeted.change_lane);
}

/// Whether each list of targeted effects in `after` starts with those of
/// `before`.
pub open spec fn targeted_grow(before: TargetedState, after: TargetedState) -> bool {
    &&& before.target_speed.is_prefix_of(after.target_speed)
    &&& before.current_speed.is_prefix_of(after.current_speed)
    &&& before.acceleration.is_prefix_of(after.acceleration)
    &&& before.lane_movement.is_prefix_of(after.lane_movement)
    &&& before.change_lane.is_prefix_of(after.change_lane)
}

proof fn lemma_landing_grows(
    s: RunnerState,
    meta: crate::runner::targeted::TargetedEffectMeta,
    effects: Seq<crate::model::SkillEffectSpec>,
    distance: i64,
)
    ensures
        targeted_grow(s.targeted, all_resolved_and_landed(s, meta, effects, distance).targeted),
    decreases effects.len(),
{
    if effects.len() > 0 {
        lemma_landing_grows(s, meta, effects.drop_last(), distance);
        reveal(crate::runner::targeted::landed);
        reveal(targeted_applied);
    }
}

proof fn lemma_targeted_pass_grows(s: RunnerState, n: nat, distance: i64)
    ensures
        targeted_grow(s.targeted, targeted_pass(s, n, distance).targeted),
    decreases n,
{
    if n > 0 {
        let i = n - 1;
        let p = s.pending_targeted[i];
        let meta = crate::runner::targeted::TargetedEffectMeta {
            skill_id: p.skill_id,
            origin: p.origin,
            source_runner_id: p.source_runner_id,
        };
        lemma_landing_grows(
            s,
            meta,
            crate::runner::activation::application_order(p.effects),
            distance,
        );
        let s1 = if s.body.position >= p.trigger.end {
            RunnerState { pending_targeted: s.pending_targeted.remove(i), ..s }
        } else if s.body.position >= p.trigger.start {
            let applied = crate::runner::targeted::injected(s, p, distance);
            RunnerState { pending_targeted: applied.pending_targeted.remove(i), ..applied }
        } else {
            s
        };
        lemma_targeted_pass_grows(s1, (n - 1) as nat, distance);
    }
}

/// After a tick's targeted pass no targeted effect that had run out when it
/// started is left, and every one that had not is still there, ahead of whatever
/// has landed since.
pub proof fn a_tick_ends_exactly_the_targeted_effects_that_had_run_out(
    s: RunnerState,
    distance: i64,
)
    ensures
        ({
            let after = targeted_processed(s, distance).targeted;
            &&& not_run_out_targeted(s.targeted.target_speed).is_prefix_of(after.target_speed)
            &&& not_run_out_targeted(s.targeted.current_speed).is_prefix_of(after.current_speed)
            &&& not_run_out_targeted(s.targeted.acceleration).is_prefix_of(after.acceleration)
            &&& not_run_out_targeted(s.targeted.lane_movement).is_prefix_of(after.lane_movement)
            &&& not_run_out_targeted(s.targeted.change_lane).is_prefix_of(after.change_lane)
        }),
        s.pending_targeted.len() == 0 ==> {
            let after = targeted_processed(s, distance).targeted;
            &&& after.target_speed == not_run_out_targeted(s.targeted.target_speed)
            &&& after.current_speed == not_run_out_targeted(s.targeted.current_speed)
            &&& after.acceleration == not_run_out_targeted(s.targeted.acceleration)
            &&& after.lane_movement == not_run_out_targeted(s.targeted.lane_movement)
            &&& after.change_lane == not_run_out_targeted(s.targeted.change_lane)
        },
{
    targeted_effects_that_ran_out_end(s);
    let s1 = expired_targeted_skills_gone(s);
    lemma_targeted_pass_grows(s1, s1.pending_targeted.len(), distance);
}

/// Whether `after` is `before` with what belongs to `id` running `seconds`
/// longer, as far as the range goes, and nothing else changed.
pub open spec fn runs_longer(
    before: Seq<ActiveSkill>,
    after: Seq<ActiveSkill>,
    id: SkillId,
    seconds: i64,
) -> bool {
    &&& after.len() == before.len()
    &&& forall|i: int|
        0 <= i < before.len() ==> {
            let a = #[trigger] after[i];
            let t = before[i].duration_timer.t;
            &&& before[i].skill_id != id ==> a == before[i]
            &&& before[i].skill_id == id && QUANTITY_MIN <= t - seconds <= QUANTITY_MAX
                ==> a.duration_timer.t == t - seconds
            &&& a.skill_id == before[i].skill_id
            &&& a.modifier == before[i].modifier
            &&& a.effect_type == before[i].effect_type
            &&& a.natural_deceleration == before[i].natural_deceleration
        }
}

/// An overtake lengthens a skill everywhere it runs: on all five lists, in what
/// it still holds and in how long it can be lengthened again; other skills are
/// left alone.
pub proof fn a_skill_is_lengthened_everywhere_it_runs(s: RunnerState, e: OrderUpExtension)
    ensures
        ({
            let after = skill_lengthened(s, e);
            &&& runs_longer(s.active.target_speed, after.active.target_speed, e.skill_id, e.seconds)
            &&& runs_longer(s.active.current_speed, after.active.current_speed, e.skill_id, e.seconds)
            &&& runs_longer(s.active.acceleration, after.active.acceleration, e.skill_id, e.seconds)
            &&& runs_longer(s.active.lane_movement, after.active.lane_movement, e.skill_id, e.seconds)
            &&& runs_longer(s.active.change_lane, after.active.change_lane, e.skill_id, e.seconds)
            &&& after.held.len() == s.held.len()
            &&& forall|i: int|
                0 <= i < s.held.len() ==> {
                    let a = #[trigger] after.held[i];
                    let t = s.held[i].timer.t;
                    &&& s.held[i].skill_id != e.skill_id ==> a == s.held[i]
                    &&& s.held[i].skill_id == e.skill_id && QUANTITY_MIN <= t - e.seconds
                        <= QUANTITY_MAX ==> a.timer.t == t - e.seconds
                    &&& a.remaining == s.held[i].remaining
                    &&& a.effect == s.held[i].effect
                }
            &&& after.extensions.len() == s.extensions.len()
            &&& forall|i: int|
                0 <= i < s.extensions.len() ==> {
                    let a = #[trigger] after.extensions[i];
                    let t = s.extensions[i].timer.t;
                    &&& s.extensions[i].skill_id != e.skill_id ==> a == s.extensions[i]
                    &&& s.extensions[i].skill_id == e.skill_id && QUANTITY_MIN <= t - e.seconds
                        <= QUANTITY_MAX ==> a.timer.t == t - e.seconds
                    &&& a.remaining == s.extensions[i].remaining
                    &&& a.seconds == s.extensions[i].seconds
                }
            &&& after.tally == s.tally
            &&& after.pending == s.pending
        }),
{
}

/// Which skills an overtake lengthens: each that still runs and has an extension
/// left, once, and it uses one of them up.
pub proof fn an_overtake_uses_one_extension_of_each_running_skill(list: Seq<OrderUpExtension>)
    ensures
        extending(list) == list.filter(
            |e: OrderUpExtension| e.remaining > 0 && e.timer.t < 0,
        ),
        extensions_used(list).len() == list.len(),
        forall|i: int|
            0 <= i < list.len() ==> {
                let a = #[trigger] extensions_used(list)[i];
                &&& a.skill_id == list[i].skill_id
                &&& a.seconds == list[i].seconds
                &&& a.timer == list[i].timer
                &&& a.remaining == list[i].remaining - if list[i].remaining > 0
                    && list[i].timer.t < 0 {
                    1int
                } else {
                    0
                }
            },
    decreases list.len(),
{
    reveal(Seq::filter);
    if list.len() > 0 {
        an_overtake_uses_one_extension_of_each_running_skill(list.drop_last());
    }
}

/// Which held effects fire on a trigger: each of a skill that still runs, with a
/// firing left, that waits for an overtake (or for another skill than its own),
/// once, and it uses one firing up.
pub proof fn a_trigger_fires_what_waits_for_it(
    list: Seq<HeldAdditionalEffect>,
    trigger: HeldTrigger,
)
    ensures
        firing(list, trigger) == list.filter(
            |h: HeldAdditionalEffect|
                h.remaining > 0 && h.timer.t < 0 && match trigger {
                    HeldTrigger::OrderUp => h.trigger == 1,
                    HeldTrigger::SkillActivated(id) => h.skill_id != id && (h.trigger == 2
                        || h.trigger == 3),
                },
        ),
        after_firing(list, trigger).len() == list.len(),
        forall|i: int|
            0 <= i < list.len() ==> {
                let a = #[trigger] after_firing(list, trigger)[i];
                &&& a.skill_id == list[i].skill_id
                &&& a.effect == list[i].effect
                &&& a.trigger == list[i].trigger
                &&& a.timer == list[i].timer
                &&& a.remaining == list[i].remaining - if list[i].remaining > 0
                    && list[i].timer.t < 0 && (match trigger {
                    HeldTrigger::OrderUp => list[i].trigger == 1,
                    HeldTrigger::SkillActivated(id) => list[i].skill_id != id && (list[i].trigger
                        == 2 || list[i].trigger == 3),
                }) {
                    1int
                } else {
                    0
                }
            },
    decreases list.len(),
{
    reveal(Seq::filter);
    if list.len() > 0 {
        a_trigger_fires_what_waits_for_it(list.drop_last(), trigger);
        let waits = |h: HeldAdditionalEffect|
            h.remaining > 0 && h.timer.t < 0 && match trigger {
                HeldTrigger::OrderUp => h.trigger == 1,
                HeldTrigger::SkillActivated(id) => h.skill_id != id && (h.trigger == 2
                    || h.trigger == 3),
            };
        assert(firing(list, trigger) =~= list.filter(waits));
    }
}

} // verus!
