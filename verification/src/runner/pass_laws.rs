//! What a tick's skill pass decides for each pending skill, in the runner's own
//! numbers: when it is dropped, waits, fires or fails, and what is on record
//! afterwards.
use crate::condition::dynamic::{condition_holds, FieldView};
use crate::effect::{
    band_multiplier, hits_opponents, policy_of_usage, tier_multiplier, GreenTier, ScalingBand,
    SkillRarity, SkillTarget, SkillType, ValueScalingPolicy,
};
use crate::language::{Phase, Region, SkillId};
use crate::model::{PendingState, PendingTargetedState, SkillEffectSpec};
use crate::rng::{after_roll, exchanged, index_of, next_roll};
use crate::runner::activation::{
    activated, activation_recorded, after_firing, after_resolving, application_order,
    dropped_for_the_race, effect_applied, effect_duration, effect_outcome, effects_applied, firing,
    gold_candidates, green_count, held_fired, is_gold_candidate, is_recorded,
    lemma_skill_activation_leaves, picks_skill, recorded, resolved, self_applied, shuffled,
    skill_activated, HeldTrigger,
};
use crate::runner::effect_laws::{
    acted_at_once, an_own_effect_does_what_its_type_says, list_started, modifiers_count,
};
use crate::runner::laws::effects_apply_once_extensions_last;
use crate::runner::process::{
    alternatives_held, entry_checked, fired_or_failed, gained_order, moved_on,
    preconditions_latched, ready_time, tick_started, whole_ticks, without_skill,
};
use crate::runner::targeted::{
    all_resolved_and_landed, expired_targeted_skills_gone, injected, landed,
    lemma_injection_leaves_own_skills, targeted_applied, targeted_pass, targeted_processed,
    TargetedEffectMeta,
};
use crate::runner::{
    own_state, scripted, FRAME_DT, LedgerEntry, RunnerBody, RunnerState, RunnerTally,
    SkillQuantity,
};
use crate::units::{is_nearest, rounding_is_to_the_nearest, QUANTITY_MAX, QUANTITY_MIN};
use vstd::prelude::*;

verus! {

/// Conditions read the runner as she is: every reading is her own, the fraction
/// of her HP that remains is to the nearest unit, and the recent activations are
/// those since the tick before this one started.
pub proof fn conditions_read_the_runner_as_she_is(body: RunnerBody, tally: RunnerTally)
    ensures
        ({
            let own = own_state(body, tally);
            &&& own.skills_activated_count == tally.skills_activated_count
            &&& QUANTITY_MIN <= tally.skills_activated_count - tally.activations_at_last_tick_start
                <= QUANTITY_MAX ==> own.recent_skill_activations == tally.skills_activated_count
                - tally.activations_at_last_tick_start
            &&& own.skills_activated_in_phase == tally.skills_activated_phase_map
            &&& own.skills_activated_half_race == tally.skills_activated_half_race_map
            &&& own.heals_activated_count == tally.heals_activated_count
            &&& tally.health.max <= 0 ==> own.health_ratio_remaining == 0
            &&& 0 <= tally.health.current <= tally.health.max && tally.health.max > 0
                ==> is_nearest(
                own.health_ratio_remaining as int,
                tally.health.current * 1_000_000_000,
                tally.health.max as int,
            )
            &&& own.has_remaining_health <==> tally.health.current > 0
            &&& own.start_delay == tally.start_delay
            &&& own.is_last_spurt == body.is_last_spurt
            &&& own.last_spurt_transition == body.last_spurt_transition
            &&& own.gate == body.gate
            &&& own.random_lot == body.random_lot
            &&& own.position == body.position
            &&& own.current_lane == body.current_lane
            &&& own.current_speed == body.current_speed
            &&& own.lane_change_speed == body.lane_change_speed
            &&& own.lane_move_outward == body.lane_move_outward
            &&& own.horse_lane == body.horse_lane
            &&& own.section_length == body.section_length
            &&& own.course_distance == body.course_distance
            &&& own.strategy == Some(body.strategy)
            &&& own.is_rushed == body.is_rushed
            &&& own.temptation_count == body.rushed_spells
            &&& own.is_dueling == body.is_dueling
            &&& own.phase == 0 <==> body.phase == Phase::EarlyRace
            &&& own.phase == 1 <==> body.phase == Phase::MidRace
            &&& own.phase == 2 <==> body.phase == Phase::LateRace
            &&& own.phase == 3 <==> body.phase == Phase::LastSpurt
        }),
{
    let c = tally.health.current as int;
    let m = tally.health.max as int;
    if 0 <= c <= m && m > 0 {
        let q = crate::units::rounded_quotient(c * 1_000_000_000, m);
        rounding_is_to_the_nearest(c * 1_000_000_000, m, q);
        if q < 0 {
            assert(q * m <= -m) by (nonlinear_arith)
                requires
                    q <= -1,
                    m > 0,
            ;
        }
        if q > 1_000_000_000 {
            assert(q * m >= 1_000_000_001 * m) by (nonlinear_arith)
                requires
                    q >= 1_000_000_001,
                    m > 0,
            ;
        }
    }
}

/// The windows of a pending skill, the one it waits for first.
pub open spec fn windows_of(p: PendingState) -> Seq<Region> {
    seq![p.trigger] + p.later_triggers
}

/// A passed window gives way to the next: the skill waits for its first window
/// that does not end at or before the runner, and for its last where all do.
pub proof fn a_passed_window_gives_way_to_the_next(p: PendingState, position: int, k: int)
    requires
        0 <= k < windows_of(p).len(),
        forall|j: int| 0 <= j < k ==> (#[trigger] windows_of(p)[j]).end <= position,
        windows_of(p)[k].end > position || k == windows_of(p).len() - 1,
    ensures
        moved_on(p, position).trigger == windows_of(p)[k],
        moved_on(p, position).later_triggers == p.later_triggers.skip(k),
    decreases k,
{
    if k > 0 {
        assert(windows_of(p)[0].end <= position);
        let next = PendingState {
            trigger: p.later_triggers[0],
            later_triggers: p.later_triggers.skip(1),
            ..p
        };
        assert(windows_of(next) =~= windows_of(p).skip(1));
        assert forall|j: int| 0 <= j < k - 1 implies (#[trigger] windows_of(next)[j]).end
            <= position by {
            assert(windows_of(next)[j] == windows_of(p)[j + 1]);
        }
        a_passed_window_gives_way_to_the_next(next, position, k - 1);
        assert(p.later_triggers.skip(1).skip(k - 1) =~= p.later_triggers.skip(k));
    } else {
        assert(p.later_triggers.skip(0) =~= p.later_triggers);
    }
}

proof fn lemma_without(list: Seq<SkillId>, id: SkillId)
    ensures
        without_skill(list, id) == list.filter(|other: SkillId| other != id),
    decreases list.len(),
{
    reveal(Seq::filter);
    if list.len() > 0 {
        lemma_without(list.drop_last(), id);
    }
}

/// Whether a check has left the runner's running effects, records and draws as
/// they were.
pub open spec fn nothing_happened(a: RunnerState, b: RunnerState) -> bool {
    &&& b.body == a.body
    &&& b.tally == a.tally
    &&& b.active == a.active
    &&& b.held == a.held
    &&& b.extensions == a.extensions
    &&& b.used_skills == a.used_skills
    &&& b.ledger == a.ledger
    &&& b.emitted == a.emitted
    &&& b.wit_rolls == a.wit_rolls
    &&& b.skill_rolls == a.skill_rolls
    &&& b.gold_rolls == a.gold_rolls
}

/// A skill due to be dropped, or past all its windows, is dropped and does
/// nothing.
pub proof fn a_skill_past_its_windows_is_dropped(
    s: RunnerState,
    i: int,
    field: FieldView,
    distance: i64,
)
    requires
        0 <= i < s.pending.len(),
        s.removal.contains(s.pending[i].skill_id) || forall|k: int|
            0 <= k < windows_of(s.pending[i]).len() ==> (#[trigger] windows_of(
                s.pending[i],
            )[k]).end <= s.body.position,
    ensures
        ({
            let (after, next) = entry_checked(s, i, field, distance);
            &&& nothing_happened(s, after)
            &&& next == i
            &&& after.pending == s.pending.remove(i)
            &&& after.removal == s.removal.filter(
                |other: SkillId| other != s.pending[i].skill_id,
            )
        }),
{
    reveal(entry_checked);
    let p = s.pending[i];
    lemma_without(s.removal, p.skill_id);
    if !s.removal.contains(p.skill_id) {
        let last = windows_of(p).len() - 1;
        assert(windows_of(p)[last].end <= s.body.position);
        a_passed_window_gives_way_to_the_next(p, s.body.position as int, last);
        crate::runner::process::lemma_moving_on_keeps_the_skill(p, s.body.position as int);
    }
    let q = if s.removal.contains(p.skill_id) {
        p
    } else {
        moved_on(p, s.body.position as int)
    };
    assert(s.pending.update(i, q).remove(i) =~= s.pending.remove(i));
}

/// Whether everything a pending skill asks for is there: the runner is inside
/// `window`, its time has come, and, unless it is forced, its precondition has
/// been met and its condition holds.
pub open spec fn all_is_there(
    s: RunnerState,
    p: PendingState,
    window: Region,
    field: FieldView,
) -> bool {
    &&& window.start <= s.body.position
    &&& crate::runner::activation::tick_reached(s.body, p.ready_at)
    &&& p.forced || {
        &&& p.precondition is None || p.precondition->0.met
        &&& p.extra_condition is None || condition_holds(
            p.extra_condition,
            own_state(s.body, s.tally),
            field,
        )
    }
}

/// A skill that is not done waits for the first window `k` the runner has not
/// passed. While something it asks for is missing it goes on waiting and nothing
/// happens; once all is there it fires or fails its check.
pub proof fn a_skill_waits_until_all_is_there(
    s: RunnerState,
    i: int,
    field: FieldView,
    distance: i64,
    k: int,
)
    requires
        0 <= i < s.pending.len(),
        !s.removal.contains(s.pending[i].skill_id),
        0 <= k < windows_of(s.pending[i]).len(),
        forall|j: int|
            0 <= j < k ==> (#[trigger] windows_of(s.pending[i])[j]).end <= s.body.position,
        s.body.position < windows_of(s.pending[i])[k].end,
    ensures
        ({
            let p = s.pending[i];
            let window = windows_of(p)[k];
            let waiting = PendingState {
                trigger: window,
                later_triggers: p.later_triggers.skip(k),
                ..p
            };
            let ready = RunnerState { pending: s.pending.update(i, waiting), ..s };
            let (after, next) = entry_checked(s, i, field, distance);
            if all_is_there(s, p, window, field) {
                (after, next) == fired_or_failed(ready, i, distance)
            } else {
                &&& nothing_happened(s, after)
                &&& after.pending == ready.pending
                &&& after.removal == s.removal
                &&& next == i + 1
            }
        }),
{
    reveal(entry_checked);
    let p = s.pending[i];
    a_passed_window_gives_way_to_the_next(p, s.body.position as int, k);
    crate::runner::process::lemma_moving_on_keeps_the_skill(p, s.body.position as int);
}

/// Whether a skill rolls no wit check: it is forced, has passed one, none are
/// taken, it is a unique, or it is a stat or style skill.
pub open spec fn rolls_none(s: RunnerState, p: PendingState) -> bool {
    ||| p.forced
    ||| p.wit_passed
    ||| !s.body.wit_checks_enabled
    ||| p.rarity == SkillRarity::Unique
    ||| p.effects.len() > 0 && {
        let kind = p.effects[0].effect_type;
        ||| kind == SkillType::SpeedUp
        ||| kind == SkillType::StaminaUp
        ||| kind == SkillType::PowerUp
        ||| kind == SkillType::GutsUp
        ||| kind == SkillType::WisdomUp
        ||| kind == SkillType::ChangeStrategy
    }
}

/// A skill whose moment has come takes at most one wit roll, and it passes up to
/// the threshold. Failed, it is gone and nothing else happens. Passed, or without
/// a roll, it activates: with a cooldown it stays pending, its check passed for
/// good, and is ready again when the cooldown is over; without one it is gone.
pub proof fn a_skill_fires_or_fails_its_one_check(s: RunnerState, i: int, distance: i64)
    requires
        0 <= i < s.pending.len(),
    ensures
        ({
            let p = s.pending[i];
            let (after, next) = fired_or_failed(s, i, distance);
            let roll = next_roll(s.wit_rolls) as int % 1_000_000_000;
            let fires = rolls_none(s, p) || roll <= s.body.wit_threshold;
            let rolled = RunnerState {
                wit_rolls: if rolls_none(s, p) {
                    s.wit_rolls
                } else {
                    after_roll(s.wit_rolls)
                },
                ..s
            };
            let (fired, duration) = skill_activated(rolled, p, distance);
            &&& after.wit_rolls == rolled.wit_rolls
            &&& after.body == s.body
            &&& !fires ==> {
                &&& next == i
                &&& after.pending.len() == s.pending.len() - 1
                &&& nothing_happened(rolled, after)
                &&& after.removal == s.removal
            }
            &&& fires ==> {
                &&& nothing_happened(fired, after)
                &&& after.removal == fired.removal
            }
            &&& fires && p.cooldown > 0 ==> {
                &&& next == i + 1
                &&& after.pending.len() == s.pending.len()
                &&& after.pending[i].skill_id == p.skill_id
                &&& after.pending[i].wit_passed
                &&& after.pending[i].ready_at == ready_time(s.body, duration, p.cooldown)
            }
            &&& fires && p.cooldown <= 0 ==> {
                &&& next == i
                &&& after.pending.len() == s.pending.len() - 1
            }
        }),
{
    reveal(fired_or_failed);
    let p = s.pending[i];
    lemma_skill_activation_leaves(crate::runner::process::wit_rolled(s, p), p, distance);
    let fired = skill_activated(crate::runner::process::wit_rolled(s, p), p, distance).0;
    assert(crate::runner::activation::same_but_ready(s.pending[i], fired.pending[i]));
}

/// What a skill's other exclusive alternatives do when it fires or fails: each
/// waits until `until` at least, its check passed where the shared one was; no
/// other pending skill is touched.
pub proof fn alternatives_wait_together(
    pending: Seq<PendingState>,
    p: PendingState,
    until: i64,
    passed: bool,
    j: int,
)
    requires
        0 <= j < pending.len(),
    ensures
        ({
            let a = pending[j];
            let b = alternatives_held(pending, p, until, passed)[j];
            let other = a.skill_id == p.skill_id && a.exclusive_alternative is Some
                && p.exclusive_alternative is Some && a.exclusive_alternative->0
                != p.exclusive_alternative->0;
            &&& alternatives_held(pending, p, until, passed).len() == pending.len()
            &&& !other ==> b == a
            &&& other ==> {
                &&& b.ready_at >= a.ready_at && b.ready_at >= until
                &&& b.ready_at == a.ready_at || b.ready_at == until
                &&& b.wit_passed <==> a.wit_passed || passed
                &&& b.skill_id == a.skill_id
                &&& b.trigger == a.trigger
                &&& b.effects == a.effects
                &&& b.cooldown == a.cooldown
            }
        }),
{
}

/// A skill that lasts `d` ticks and cools down for `c` is ready again `d + c`
/// ticks after it fired.
pub proof fn a_skill_is_ready_after_its_effect_and_cooldown(body: RunnerBody, d: i64, c: i64)
    requires
        QUANTITY_MIN <= body.accumulate_time.in_seconds() + (d + c) * FRAME_DT <= QUANTITY_MAX,
        QUANTITY_MIN <= d * FRAME_DT <= QUANTITY_MAX,
        QUANTITY_MIN <= c * FRAME_DT <= QUANTITY_MAX,
    ensures
        ready_time(body, (d * FRAME_DT) as i64, (c * FRAME_DT) as i64)
            == body.accumulate_time.in_seconds() + (d + c) * FRAME_DT,
{
    lemma_whole_span(d as int);
    lemma_whole_span(c as int);
}

proof fn lemma_whole_span(d: int)
    ensures
        whole_ticks(d * FRAME_DT, FRAME_DT as int) == d,
{
    let tick = FRAME_DT as int;
    crate::runner::laws::whole_ticks_just_cover_the_span(d * tick, tick);
    let w = whole_ticks(d * tick, tick);
    assert(w * tick * 1_000_000_000 == 1_000_000_000 * (w * tick)) by (nonlinear_arith);
    assert((w - 1) * tick * 1_000_000_000 == 1_000_000_000 * (w * tick) - 1_000_000_000 * tick)
        by (nonlinear_arith);
    if w < d {
        assert(w * tick <= d * tick - tick) by (nonlinear_arith)
            requires
                w <= d - 1,
                tick > 0,
        ;
    } else if w > d {
        assert(w * tick >= d * tick + tick) by (nonlinear_arith)
            requires
                w >= d + 1,
                tick > 0,
        ;
    }
}

/// A precondition is met from the first tick on which the runner is in one of
/// its stretches and it holds; latching it changes nothing else, and no other
/// skill's.
pub proof fn a_precondition_latches_where_it_holds(s: RunnerState, field: FieldView, i: int)
    requires
        0 <= i < s.pending.len(),
    ensures
        ({
            let after = preconditions_latched(s, field);
            let a = s.pending[i];
            let b = after.pending[i];
            &&& nothing_happened(s, after)
            &&& after.removal == s.removal
            &&& after.pending.len() == s.pending.len()
            &&& b == (PendingState { precondition: b.precondition, ..a })
            &&& a.precondition is None ==> b.precondition is None
            &&& a.precondition matches Some(pre) ==> b.precondition is Some && {
                let now = b.precondition->0;
                &&& now.regions == pre.regions
                &&& now.check == pre.check
                &&& now.met <==> pre.met || (pre.check.holds(own_state(s.body, s.tally), field)
                    && exists|r: int|
                    0 <= r < pre.regions.len() && (#[trigger] pre.regions[r]).start
                        <= s.body.position && s.body.position < pre.regions[r].end)
            }
        }),
{
    reveal(preconditions_latched);
    if let Some(pre) = s.pending[i].precondition {
        assert forall|r: int|
            0 <= r < pre.regions.len() implies (#[trigger] pre.regions[r]).holds(
            s.body.position as int,
        ) == (pre.regions[r].start <= s.body.position && s.body.position < pre.regions[r].end) by {}
        if exists|r: int|
            0 <= r < pre.regions.len() && (#[trigger] pre.regions[r]).start <= s.body.position
                && s.body.position < pre.regions[r].end {
            let r = choose|r: int|
                0 <= r < pre.regions.len() && (#[trigger] pre.regions[r]).start
                    <= s.body.position && s.body.position < pre.regions[r].end;
            assert(pre.regions[r].holds(s.body.position as int));
        }
    }
}

/// A tick starts with its marks moved on: what was activated when the last tick
/// started is what was marked then, what is activated now is marked, and the gap
/// to the leader is read, never under 0 and 0 without a leader.
pub proof fn a_tick_starts_with_its_marks_moved_on(s: RunnerState, field: FieldView)
    ensures
        ({
            let after = tick_started(s, field).tally;
            &&& after.activations_at_last_tick_start == s.tally.activations_at_tick_start
            &&& after.activations_at_tick_start == s.tally.skills_activated_count
            &&& after.skills_activated_count == s.tally.skills_activated_count
            &&& after.health == s.tally.health
            &&& field.leader_position is None ==> after.activation_distance_from_top == 0
            &&& field.leader_position matches Some(leader) ==> {
                &&& leader <= s.body.position ==> after.activation_distance_from_top == 0
                &&& leader >= s.body.position && leader - s.body.position <= QUANTITY_MAX
                    ==> after.activation_distance_from_top == leader - s.body.position
            }
            &&& tick_started(s, field).pending == s.pending
            &&& tick_started(s, field).body == s.body
        }),
        gained_order(field) <==> field.self_order is Some && field.self_previous_order is Some
            && field.self_order->0 < field.self_previous_order->0,
{
    reveal(tick_started);
    reveal(crate::runner::process::expired_self_skills_gone);
}

/// Whether an effect raises a stat (or does nothing at all).
pub open spec fn is_stat_effect(kind: SkillType) -> bool {
    ||| kind == SkillType::Noop
    ||| kind == SkillType::SpeedUp
    ||| kind == SkillType::StaminaUp
    ||| kind == SkillType::PowerUp
    ||| kind == SkillType::GutsUp
    ||| kind == SkillType::WisdomUp
}

/// A pending skill may be forced if it is a gold or an evolved one, its time has
/// come and none of its effects raises a stat; of its entries the first that may
/// be stands for it.
pub proof fn golds_that_may_be_forced(
    pending: Seq<PendingState>,
    body: RunnerBody,
    n: nat,
    a: int,
)
    requires
        n <= pending.len() <= usize::MAX,
        0 <= a < gold_candidates(pending, body, n).len(),
    ensures
        ({
            let picks = gold_candidates(pending, body, n);
            let p = pending[picks[a] as int];
            &&& picks[a] < n
            &&& p.rarity == SkillRarity::Gold || p.rarity == SkillRarity::Evolution
            &&& crate::runner::activation::tick_reached(body, p.ready_at)
            &&& forall|e: int|
                0 <= e < p.effects.len() ==> !is_stat_effect((#[trigger] p.effects[e]).effect_type)
            &&& forall|i: int|
                0 <= i < picks[a] && (#[trigger] pending[i]).skill_id == p.skill_id
                    ==> !is_gold_candidate(pending[i], body)
        }),
    decreases n,
{
    if n > 0 {
        let before = gold_candidates(pending, body, (n - 1) as nat);
        let picks = gold_candidates(pending, body, n);
        if a < before.len() {
            golds_that_may_be_forced(pending, body, (n - 1) as nat, a);
            assert(picks[a] == before[a]);
        } else {
            crate::runner::laws::a_gold_is_one_candidate(pending, body, (n - 1) as nat);
            let p = pending[n - 1];
            assert(picks[a] == (n - 1) as usize);
            assert forall|i: int|
                0 <= i < picks[a] && (#[trigger] pending[i]).skill_id
                    == p.skill_id implies !is_gold_candidate(pending[i], body) by {
                if is_gold_candidate(pending[i], body) {
                    assert(picks_skill(pending, before, pending[i].skill_id));
                }
            }
        }
        let p = pending[picks[a] as int];
        assert forall|e: int| 0 <= e < p.effects.len() implies !is_stat_effect(
            (#[trigger] p.effects[e]).effect_type,
        ) by {
            assert(is_gold_candidate(p, body));
        }
    }
}

/// Every gold whose time has come and that raises no stat may be forced.
pub proof fn every_ready_gold_may_be_forced(p: PendingState, body: RunnerBody)
    requires
        p.rarity == SkillRarity::Gold || p.rarity == SkillRarity::Evolution,
        crate::runner::activation::tick_reached(body, p.ready_at),
        forall|e: int|
            0 <= e < p.effects.len() ==> !is_stat_effect((#[trigger] p.effects[e]).effect_type),
    ensures
        is_gold_candidate(p, body),
{
    assert forall|i: int| 0 <= i < p.effects.len() implies (
    #[trigger] p.effects[i]).effect_type.data_id() > 5 by {
        assert(!is_stat_effect(p.effects[i].effect_type));
    }
}

proof fn lemma_shuffle_leaves_the_rest(list: Seq<usize>, n: nat, rolls: Seq<u64>, k: int)
    requires
        n <= k < list.len(),
    ensures
        shuffled(list, n, rolls).len() == list.len(),
        shuffled(list, n, rolls)[k] == list[k],
    decreases n,
{
    if n > 0 {
        lemma_shuffle_leaves_the_rest(
            exchanged(list, n - 1, index_of(next_roll(rolls), n as int)),
            (n - 1) as nat,
            after_roll(rolls),
            k,
        );
    }
}

/// Each draw of a shuffle settles one place, from the last down: the entry it
/// picks among those not settled yet stands there.
pub proof fn each_draw_settles_one_place(list: Seq<usize>, n: nat, rolls: Seq<u64>)
    requires
        0 < n <= list.len(),
    ensures
        shuffled(list, n, rolls)[n - 1] == list[next_roll(rolls) as int % (n as int)],
        n == 1 ==> shuffled(list, n, rolls) == list,
{
    let j = index_of(next_roll(rolls), n as int);
    assert(0 <= j < n) by (nonlinear_arith)
        requires
            j == next_roll(rolls) as int % (n as int),
            n > 0,
    ;
    let once = exchanged(list, n - 1, j);
    lemma_shuffle_leaves_the_rest(once, (n - 1) as nat, after_roll(rolls), n - 1);
    if n == 1 {
        assert(once =~= list);
    }
}

/// A skill dropped for the race is never ready again, in any of its entries, and
/// due to go; no other skill is touched.
pub proof fn a_dropped_skill_is_done_in_every_entry(s: RunnerState, id: SkillId, i: int)
    requires
        0 <= i < s.pending.len(),
    ensures
        ({
            let after = dropped_for_the_race(s, id);
            &&& nothing_happened(s, after)
            &&& after.pending.len() == s.pending.len()
            &&& s.pending[i].skill_id == id ==> after.pending[i].ready_at
                == 0x7fff_ffff_ffff_ffff
            &&& s.pending[i].skill_id != id ==> after.pending[i] == s.pending[i]
            &&& after.removal.contains(id)
            &&& forall|other: SkillId|
                other != id ==> (#[trigger] after.removal.contains(other)
                    <==> s.removal.contains(other))
        }),
{
    reveal(dropped_for_the_race);
    let l = s.removal;
    if !l.contains(id) {
        assert(l.push(id)[l.len() as int] == id);
        assert forall|other: SkillId| other != id implies (#[trigger] l.push(id).contains(other)
            <==> l.contains(other)) by {
            if l.contains(other) {
                assert(l.push(id)[l.index_of(other)] == other);
            }
        }
    }
}

/// The greens activated are the recorded skills marked green, each number
/// recorded once, green if one of its tags is.
pub proof fn greens_are_counted_once(
    ledger: Seq<LedgerEntry>,
    number: u32,
    tags: Seq<i32>,
    green_tags: Seq<i32>,
)
    ensures
        green_count(ledger) == ledger.filter(|e: LedgerEntry| e.green).len(),
        ({
            let after = recorded(ledger, number, tags, green_tags);
            let known = exists|i: int|
                0 <= i < ledger.len() && (#[trigger] ledger[i]).number == number;
            &&& known ==> after == ledger
            &&& !known ==> {
                &&& after.len() == ledger.len() + 1
                &&& after.drop_last() == ledger
                &&& after.last().number == number
                &&& after.last().green <==> exists|i: int, j: int|
                    0 <= i < tags.len() && 0 <= j < green_tags.len() && #[trigger] tags[i]
                        == #[trigger] green_tags[j]
            }
        }),
    decreases ledger.len(),
{
    lemma_green_count(ledger);
    let after = recorded(ledger, number, tags, green_tags);
    if !is_recorded(ledger, number) {
        assert(after.drop_last() =~= ledger);
        if exists|i: int, j: int|
            0 <= i < tags.len() && 0 <= j < green_tags.len() && #[trigger] tags[i]
                == #[trigger] green_tags[j] {
            let (i, j) = choose|i: int, j: int|
                0 <= i < tags.len() && 0 <= j < green_tags.len() && #[trigger] tags[i]
                    == #[trigger] green_tags[j];
            assert(green_tags.contains(tags[i]));
        }
        if crate::runner::activation::is_green(tags, green_tags) {
            let i = choose|i: int|
                0 <= i < tags.len() && green_tags.contains(#[trigger] tags[i]);
            let j = green_tags.index_of(tags[i]);
            assert(tags[i] == green_tags[j]);
        }
    }
}

proof fn lemma_green_count(ledger: Seq<LedgerEntry>)
    ensures
        green_count(ledger) == ledger.filter(|e: LedgerEntry| e.green).len(),
    decreases ledger.len(),
{
    reveal(Seq::filter);
    if ledger.len() > 0 {
        lemma_green_count(ledger.drop_last());
    }
}

/// What is scripted for a skill is the first quantity listed for it.
pub proof fn the_first_scripted_quantity_counts(list: Seq<SkillQuantity>, number: u32, i: int)
    ensures
        0 <= i < list.len() && list[i].number == number && (forall|j: int|
            0 <= j < i ==> (#[trigger] list[j]).number != number) ==> scripted(list, number)
            == Some(list[i].quantity),
        (forall|j: int| 0 <= j < list.len() ==> (#[trigger] list[j]).number != number)
            ==> scripted(list, number) is None,
    decreases list.len(),
{
    if list.len() > 0 {
        let rest = list.skip(1);
        the_first_scripted_quantity_counts(rest, number, i - 1);
        if list[0].number != number {
            if 0 <= i < list.len() && list[i].number == number && (forall|j: int|
                0 <= j < i ==> (#[trigger] list[j]).number != number) {
                assert(rest[i - 1] == list[i]);
                assert forall|j: int| 0 <= j < i - 1 implies (#[trigger] rest[j]).number
                    != number by {
                    assert(rest[j] == list[j + 1]);
                }
            }
            if forall|j: int| 0 <= j < list.len() ==> (#[trigger] list[j]).number != number {
                assert forall|j: int| 0 <= j < rest.len() implies (#[trigger] rest[j]).number
                    != number by {
                    assert(rest[j] == list[j + 1]);
                }
            }
        }
    }
}

/// A roll takes the multiplier of the first band it is under, and 0 past all of
/// them.
pub proof fn a_roll_falls_in_its_first_band(bands: Seq<ScalingBand>, roll: int, i: int)
    ensures
        0 <= i < bands.len() && roll < bands[i].below && (forall|j: int|
            0 <= j < i ==> roll >= (#[trigger] bands[j]).below) ==> band_multiplier(bands, roll)
            == bands[i].multiplier,
        (forall|j: int| 0 <= j < bands.len() ==> roll >= (#[trigger] bands[j]).below)
            ==> band_multiplier(bands, roll) == 0,
    decreases bands.len(),
{
    if bands.len() > 0 {
        let rest = bands.skip(1);
        a_roll_falls_in_its_first_band(rest, roll, i - 1);
        if roll >= bands[0].below {
            if 0 <= i < bands.len() && roll < bands[i].below && (forall|j: int|
                0 <= j < i ==> roll >= (#[trigger] bands[j]).below) {
                assert(rest[i - 1] == bands[i]);
                assert forall|j: int| 0 <= j < i - 1 implies roll >= (
                #[trigger] rest[j]).below by {
                    assert(rest[j] == bands[j + 1]);
                }
            }
            if forall|j: int| 0 <= j < bands.len() ==> roll >= (#[trigger] bands[j]).below {
                assert forall|j: int| 0 <= j < rest.len() implies roll >= (
                #[trigger] rest[j]).below by {
                    assert(rest[j] == bands[j + 1]);
                }
            }
        }
    }
}

/// A number of greens takes the multiplier of the last tier it reaches, and 0
/// where it reaches none.
pub proof fn greens_take_the_last_tier_they_reach(tiers: Seq<GreenTier>, count: int, i: int)
    ensures
        0 <= i < tiers.len() && count >= tiers[i].at_least && (forall|j: int|
            i < j < tiers.len() ==> count < (#[trigger] tiers[j]).at_least) ==> tier_multiplier(
            tiers,
            count,
        ) == tiers[i].multiplier,
        (forall|j: int| 0 <= j < tiers.len() ==> count < (#[trigger] tiers[j]).at_least)
            ==> tier_multiplier(tiers, count) == 0,
    decreases tiers.len(),
{
    if tiers.len() > 0 {
        greens_take_the_last_tier_they_reach(tiers.drop_last(), count, i);
        assert(tiers.last() == tiers[tiers.len() - 1]);
    }
}

/// The usage codes of the data: none or 1 takes a strength as it stands, 12 too,
/// 8 times a drawn multiplier, 14 times one for activated greens; any other code
/// is not supported.
pub proof fn usage_codes_name_their_policies(code: i32)
    ensures
        policy_of_usage(None) == Some(ValueScalingPolicy::Direct),
        policy_of_usage(Some(code)) == Some(ValueScalingPolicy::Direct) <==> code == 1,
        policy_of_usage(Some(code)) == Some(ValueScalingPolicy::PreAppliedTier) <==> code == 12,
        policy_of_usage(Some(code)) == Some(ValueScalingPolicy::MultiplyRandom) <==> code == 8,
        policy_of_usage(Some(code)) == Some(ValueScalingPolicy::MultiplyActivatedGreens)
            <==> code == 14,
        policy_of_usage(Some(code)) is None <==> code != 1 && code != 8 && code != 12 && code
            != 14,
{
}

/// An effect hits opponents if it reaches anyone but the runner and her allies
/// and either weakens or lengthens a rushed spell.
pub proof fn debuffs_weaken_others(kind: SkillType, target: SkillTarget, modifier: int)
    ensures
        target == SkillTarget::SelfTarget ==> !hits_opponents(kind, target, modifier),
        target == SkillTarget::AllAllies ==> !hits_opponents(kind, target, modifier),
        target != SkillTarget::SelfTarget && target != SkillTarget::AllAllies && modifier < 0
            ==> hits_opponents(kind, target, modifier),
        target != SkillTarget::SelfTarget && target != SkillTarget::AllAllies && modifier > 0
            ==> (hits_opponents(kind, target, modifier) <==> kind == SkillType::RushedDuration),
        modifier == 0 ==> !hits_opponents(kind, target, modifier),
{
}

/// A skill with one effect that applies to the runner herself does just that
/// when it activates and no held effect waits: the effect runs or acts by its
/// type, and the skill runs for as long as the effect, and not under 0.
pub proof fn a_skill_does_its_one_effect(
    s: RunnerState,
    p: PendingState,
    effect: SkillEffectSpec,
    distance: i64,
    depth: nat,
)
    requires
        p.effects == seq![effect],
        s.held.len() == 0,
        effect.additional_activate_type is None,
        !hits_opponents(
            effect.effect_type,
            effect.target,
            resolved(s, p.skill_id.number, effect).modifier as int,
        ),
        effect.effect_type != SkillType::ActivateRandomGold,
    ensures
        ({
            let (after, duration) = activated(s, p, distance, depth);
            let scaling = crate::model::duration_multiplier(
                p.duration_scaling,
                s.tally.health.current as int,
                s.tally.activation_distance_from_top as int,
            ) as i64;
            let lasts = effect_duration(s, p.rarity, effect.base_duration, distance, scaling);
            let r = resolved(s, p.skill_id.number, effect);
            let kind = effect.effect_type;
            let a = s.active;
            let b = after.active;
            let id = p.skill_id;
            &&& duration == if lasts > 0 {
                lasts
            } else {
                0
            }
            &&& acted_at_once(s.tally, after.tally, s.body, kind, r.modifier as int)
            &&& modifiers_count(s.tally.modifiers, after.tally.modifiers, r)
            &&& list_started(
                a.target_speed,
                b.target_speed,
                id,
                r,
                lasts,
                kind == SkillType::TargetSpeed,
            )
            &&& list_started(
                a.acceleration,
                b.acceleration,
                id,
                r,
                lasts,
                kind == SkillType::Accel,
            )
            &&& list_started(
                a.current_speed,
                b.current_speed,
                id,
                r,
                lasts,
                kind == SkillType::CurrentSpeed || kind
                    == SkillType::CurrentSpeedWithNaturalDeceleration,
            )
            &&& list_started(
                a.lane_movement,
                b.lane_movement,
                id,
                r,
                lasts,
                kind == SkillType::LaneMovementSpeed,
            )
            &&& list_started(
                a.change_lane,
                b.change_lane,
                id,
                r,
                lasts,
                kind == SkillType::ChangeLane,
            )
            &&& after.emitted == s.emitted
            &&& after.held.len() == 0
        }),
{
    let scaling = crate::model::duration_multiplier(
        p.duration_scaling,
        s.tally.health.current as int,
        s.tally.activation_distance_from_top as int,
    ) as i64;
    let r = resolved(s, p.skill_id.number, effect);
    let lasts = effect_duration(s, p.rarity, effect.base_duration, distance, scaling);
    let on_record = on_her_record(s, p, effect);
    lemma_one_effect(s, p, effect, distance, scaling, depth);
    let s1 = self_applied(on_record, p.skill_id, r, lasts);
    let duration = if lasts > 0 {
        lasts
    } else {
        0
    };
    an_own_effect_does_what_its_type_says(on_record, p.skill_id, r, lasts);
    assert(s1.held.len() == 0 && s1.emitted == s.emitted);
    lemma_recording_leaves_the_effects(
        s1,
        p,
        duration,
        distance,
        s.tally,
        s.body,
        effect.effect_type,
        r.modifier as int,
    );
    let s2 = activation_recorded(s1, p, duration, distance);
    lemma_nothing_held_fires(s2, HeldTrigger::SkillActivated(p.skill_id));
    assert(activated(s, p, distance, depth) == (s2, duration));
}

/// The runner once an effect has been resolved and, if it helps her, recorded.
spec fn on_her_record(s: RunnerState, p: PendingState, effect: SkillEffectSpec) -> RunnerState {
    RunnerState {
        tally: RunnerTally {
            activated_advantage_effect_types: if resolved(s, p.skill_id.number, effect).modifier
                > 0 {
                s.tally.activated_advantage_effect_types | (1u64 << (
                effect.effect_type.data_id() as u64))
            } else {
                s.tally.activated_advantage_effect_types
            },
            ..s.tally
        },
        skill_rolls: after_resolving(s, p.skill_id.number, effect).skill_rolls,
        ..s
    }
}

proof fn lemma_one_effect(
    s: RunnerState,
    p: PendingState,
    effect: SkillEffectSpec,
    distance: i64,
    scaling: i64,
    depth: nat,
)
    requires
        p.effects == seq![effect],
        effect.additional_activate_type is None,
        !hits_opponents(
            effect.effect_type,
            effect.target,
            resolved(s, p.skill_id.number, effect).modifier as int,
        ),
        effect.effect_type != SkillType::ActivateRandomGold,
    ensures
        ({
            let effects = application_order(p.effects);
            let lasts = effect_duration(s, p.rarity, effect.base_duration, distance, scaling);
            effects_applied(s, p, effects, effects.len(), distance, scaling, depth) == (
                self_applied(
                    on_her_record(s, p, effect),
                    p.skill_id,
                    resolved(s, p.skill_id.number, effect),
                    lasts,
                ),
                if lasts > 0 {
                    lasts
                } else {
                    0
                },
            )
        }),
{
    let effects = application_order(p.effects);
    assert(effects =~= seq![effect]) by {
        assert(p.effects.drop_last() =~= Seq::<SkillEffectSpec>::empty());
        reveal_with_fuel(crate::runner::activation::extension_effects, 2);
    }
    assert(effects.len() == 1);
    reveal_with_fuel(effects_applied, 2);
    reveal(effect_outcome);
    assert(effect_applied(s, p, effect, distance, scaling, depth) == self_applied(
        on_her_record(s, p, effect),
        p.skill_id,
        resolved(s, p.skill_id.number, effect),
        effect_duration(s, p.rarity, effect.base_duration, distance, scaling),
    ));
}

proof fn lemma_recording_leaves_the_effects(
    s: RunnerState,
    p: PendingState,
    duration: i64,
    distance: i64,
    before: RunnerTally,
    body: RunnerBody,
    kind: SkillType,
    modifier: int,
)
    requires
        acted_at_once(before, s.tally, body, kind, modifier),
    ensures
        ({
            let after = activation_recorded(s, p, duration, distance);
            &&& after.active == s.active
            &&& after.held == s.held
            &&& after.emitted == s.emitted
            &&& after.tally.modifiers == s.tally.modifiers
            &&& acted_at_once(before, after.tally, body, kind, modifier)
        }),
{
    reveal(activation_recorded);
}

proof fn lemma_nothing_held_fires(s: RunnerState, trigger: HeldTrigger)
    requires
        s.held.len() == 0,
    ensures
        held_fired(s, trigger) == s,
{
    reveal(held_fired);
    assert(firing(s.held, trigger).len() == 0);
    assert(after_firing(s.held, trigger) =~= s.held);
}

/// Whether the runner has reached neither the start nor the end of a pending
/// targeted skill's window.
pub open spec fn lies_ahead(s: RunnerState, p: PendingTargetedState) -> bool {
    s.body.position < p.trigger.start && s.body.position < p.trigger.end
}

/// How many effects of the first `n` pending targeted skills land: those of the
/// ones whose window the runner is in.
pub open spec fn landings(s: RunnerState, n: nat) -> int
    decreases n,
{
    if n == 0 {
        0
    } else {
        let p = s.pending_targeted[n - 1];
        landings(s, (n - 1) as nat) + if p.trigger.start <= s.body.position && s.body.position
            < p.trigger.end {
            p.effects.len() as int
        } else {
            0
        }
    }
}

proof fn lemma_landed_count(
    s: RunnerState,
    meta: TargetedEffectMeta,
    effects: Seq<SkillEffectSpec>,
    distance: i64,
)
    ensures
        all_resolved_and_landed(s, meta, effects, distance).used_targeted.len()
            == s.used_targeted.len() + effects.len(),
    decreases effects.len(),
{
    if effects.len() > 0 {
        lemma_landed_count(s, meta, effects.drop_last(), distance);
        reveal(landed);
        reveal(targeted_applied);
    }
}

proof fn lemma_order_keeps_the_count(effects: Seq<SkillEffectSpec>)
    ensures
        application_order(effects).len() == effects.len(),
{
    effects_apply_once_extensions_last(effects);
    broadcast use vstd::seq_lib::group_to_multiset_ensures;

    assert(application_order(effects).to_multiset().len() == effects.to_multiset().len());
}

proof fn lemma_targeted_pass(s: RunnerState, n: nat, distance: i64)
    requires
        n <= s.pending_targeted.len(),
    ensures
        targeted_pass(s, n, distance).pending_targeted == s.pending_targeted.take(
            n as int,
        ).filter(|p: PendingTargetedState| lies_ahead(s, p)) + s.pending_targeted.skip(n as int),
        targeted_pass(s, n, distance).used_targeted.len() == s.used_targeted.len() + landings(
            s,
            n,
        ),
        targeted_pass(s, n, distance).body == s.body,
    decreases n,
{
    reveal(Seq::filter);
    let ahead = |p: PendingTargetedState| lies_ahead(s, p);
    if n > 0 {
        let i = n - 1;
        let p = s.pending_targeted[i];
        let meta = TargetedEffectMeta {
            skill_id: p.skill_id,
            origin: p.origin,
            source_runner_id: p.source_runner_id,
        };
        lemma_injection_leaves_own_skills(s, meta, application_order(p.effects), distance);
        lemma_landed_count(s, meta, application_order(p.effects), distance);
        lemma_order_keeps_the_count(p.effects);
        let s1 = if s.body.position >= p.trigger.end {
            RunnerState { pending_targeted: s.pending_targeted.remove(i), ..s }
        } else if s.body.position >= p.trigger.start {
            let applied = injected(s, p, distance);
            RunnerState { pending_targeted: applied.pending_targeted.remove(i), ..applied }
        } else {
            s
        };
        lemma_targeted_pass(s1, (n - 1) as nat, distance);
        let ahead1 = |p: PendingTargetedState| lies_ahead(s1, p);
        assert(ahead1 =~= ahead);
        assert(s1.pending_targeted.take(i) =~= s.pending_targeted.take(i));
        assert(s.pending_targeted.take(n as int).drop_last() =~= s.pending_targeted.take(i));
        lemma_same_landings(s, s1, i as nat);
        let kept = s.pending_targeted.take(i).filter(ahead);
        if lies_ahead(s, p) {
            assert(s1.pending_targeted.skip(i) =~= seq![p] + s.pending_targeted.skip(n as int));
            assert(kept + (seq![p] + s.pending_targeted.skip(n as int)) =~= kept.push(p)
                + s.pending_targeted.skip(n as int));
        } else {
            assert(s1.pending_targeted.skip(i) =~= s.pending_targeted.skip(n as int));
        }
    } else {
        assert(s.pending_targeted.take(0).filter(ahead) + s.pending_targeted.skip(0)
            =~= s.pending_targeted);
    }
}

proof fn lemma_same_landings(a: RunnerState, b: RunnerState, n: nat)
    requires
        a.body == b.body,
        n <= a.pending_targeted.len(),
        n <= b.pending_targeted.len(),
        a.pending_targeted.take(n as int) == b.pending_targeted.take(n as int),
    ensures
        landings(a, n) == landings(b, n),
    decreases n,
{
    if n > 0 {
        assert(a.pending_targeted.take(n as int)[n - 1] == a.pending_targeted[n - 1]);
        assert(b.pending_targeted.take(n as int)[n - 1] == b.pending_targeted[n - 1]);
        assert(a.pending_targeted.take(n - 1) =~= a.pending_targeted.take(n as int).take(n - 1));
        assert(b.pending_targeted.take(n - 1) =~= b.pending_targeted.take(n as int).take(n - 1));
        lemma_same_landings(a, b, (n - 1) as nat);
    }
}

/// A tick's targeted pass lands every effect of every pending targeted skill
/// whose window the runner is in, each once, and keeps exactly those whose
/// window lies ahead, in their order.
pub proof fn targeted_skills_land_in_their_windows(s: RunnerState, distance: i64)
    ensures
        targeted_processed(s, distance).pending_targeted == s.pending_targeted.filter(
            |p: PendingTargetedState|
                s.body.position < p.trigger.start && s.body.position < p.trigger.end,
        ),
        targeted_processed(s, distance).used_targeted.len() == s.used_targeted.len() + landings(
            s,
            s.pending_targeted.len(),
        ),
{
    reveal(expired_targeted_skills_gone);
    let s1 = expired_targeted_skills_gone(s);
    let n = s1.pending_targeted.len();
    lemma_targeted_pass(s1, n, distance);
    lemma_same_landings(s, s1, n);
    assert(s1.pending_targeted.take(n as int) =~= s.pending_targeted);
    let ahead1 = |p: PendingTargetedState| lies_ahead(s1, p);
    let ahead = |p: PendingTargetedState|
        s.body.position < p.trigger.start && s.body.position < p.trigger.end;
    assert(ahead1 =~= ahead);
    assert(s.pending_targeted.filter(ahead) + s1.pending_targeted.skip(n as int)
        =~= s.pending_targeted.filter(ahead));
}

} // verus!
