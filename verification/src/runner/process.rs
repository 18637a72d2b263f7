//! A runner's skill pass, once per tick: expired effects end, an overtake acts
//! on running skills, preconditions latch, and the pending skills are checked
//! in order.
use crate::condition::dynamic::{
    a_condition_reads_only_what_the_field_shows, condition_holds, eval_dynamic, FieldView,
};
use crate::effect::SkillRarity;
use crate::language::{covered, Region, SkillId};
use crate::math::Timer;
use crate::model::{
    pending_states, precondition_met, ActiveSkill, DynamicPrecondition, HeldAdditionalEffect,
    OrderUpExtension, PendingSkill, PendingState, PreconditionState, NEVER_READY,
};
use crate::rng::{after_roll, fraction_of, next_roll};
use crate::runner::activation::{
    held_fired, lemma_skill_activation_leaves, skill_activated, tick_reached,
    HeldTrigger,
};
use crate::runner::{
    contains_skill, own_state, ActiveState, Modifiers, Runner, RunnerBody, RunnerConditionView,
    RunnerState, RunnerTally, FRAME_DT,
};
use crate::units::{clamp_wide, larger, max_quantity, minus, plus, sat};
use vstd::prelude::*;

verus! {

/// The effects of a list that still run, in order.
pub open spec fn still_running(list: Seq<ActiveSkill>) -> Seq<ActiveSkill>
    decreases list.len(),
{
    if list.len() == 0 {
        Seq::empty()
    } else {
        let before = still_running(list.drop_last());
        if list.last().duration_timer.expired() {
            before
        } else {
            before.push(list.last())
        }
    }
}

/// The effects of a list that have run out, in order.
pub open spec fn run_out(list: Seq<ActiveSkill>) -> Seq<ActiveSkill>
    decreases list.len(),
{
    if list.len() == 0 {
        Seq::empty()
    } else {
        let before = run_out(list.drop_last());
        if list.last().duration_timer.expired() {
            before.push(list.last())
        } else {
            before
        }
    }
}

/// `total` with the strength of each of `ended` taken back, in order.
pub open spec fn taken_back(total: i64, ended: Seq<ActiveSkill>) -> i64
    decreases ended.len(),
{
    if ended.len() == 0 {
        total
    } else {
        sat(taken_back(total, ended.drop_last()) - ended.last().modifier) as i64
    }
}

/// The one-frame acceleration that the naturally decaying ones of `ended` add.
pub open spec fn decay_kick(ended: Seq<ActiveSkill>) -> i64
    decreases ended.len(),
{
    if ended.len() == 0 {
        0
    } else if ended.last().natural_deceleration {
        sat(decay_kick(ended.drop_last()) + ended.last().modifier) as i64
    } else {
        decay_kick(ended.drop_last())
    }
}

/// Take the effects that have run out off a list, and return them.
fn drain_expired(list: &mut Vec<ActiveSkill>) -> (ended: Vec<ActiveSkill>)
    ensures
        final(list)@ == still_running(old(list)@),
        ended@ == run_out(old(list)@),
{
    let ghost before = list@;
    let mut kept: Vec<ActiveSkill> = Vec::new();
    let mut ended: Vec<ActiveSkill> = Vec::new();
    let mut i: usize = 0;
    while i < list.len()
        invariant
            list@ == before,
            i <= list@.len(),
            kept@ == still_running(before.take(i as int)),
            ended@ == run_out(before.take(i as int)),
        decreases list@.len() - i,
    {
        proof {
            assert(before.take(i + 1).drop_last() =~= before.take(i as int));
        }
        let active = list[i];
        if active.duration_timer.t >= 0 {
            ended.push(active);
        } else {
            kept.push(active);
        }
        i = i + 1;
    }
    proof {
        assert(before.take(i as int) =~= before);
    }
    *list = kept;
    ended
}

/// Take the strengths of `ended` back from `total`.
pub(crate) fn take_back(total: i64, ended: &Vec<ActiveSkill>) -> (left: i64)
    ensures
        left == taken_back(total, ended@),
{
    let mut left: i64 = total;
    let mut i: usize = 0;
    while i < ended.len()
        invariant
            i <= ended@.len(),
            left == taken_back(total, ended@.take(i as int)),
        decreases ended@.len() - i,
    {
        proof {
            assert(ended@.take(i + 1).drop_last() =~= ended@.take(i as int));
        }
        left = minus(left, ended[i].modifier);
        i = i + 1;
    }
    proof {
        assert(ended@.take(i as int) =~= ended@);
    }
    left
}

/// See [`decay_kick`].
pub(crate) fn sum_decay_kick(ended: &Vec<ActiveSkill>) -> (kick: i64)
    ensures
        kick == decay_kick(ended@),
{
    let mut kick: i64 = 0;
    let mut i: usize = 0;
    while i < ended.len()
        invariant
            i <= ended@.len(),
            kick == decay_kick(ended@.take(i as int)),
        decreases ended@.len() - i,
    {
        proof {
            assert(ended@.take(i + 1).drop_last() =~= ended@.take(i as int));
        }
        if ended[i].natural_deceleration {
            kick = plus(kick, ended[i].modifier);
        }
        i = i + 1;
    }
    proof {
        assert(ended@.take(i as int) =~= ended@);
    }
    kick
}

/// The held effects whose skill still runs.
pub open spec fn still_held(list: Seq<HeldAdditionalEffect>) -> Seq<HeldAdditionalEffect>
    decreases list.len(),
{
    if list.len() == 0 {
        Seq::empty()
    } else {
        let before = still_held(list.drop_last());
        if list.last().timer.expired() {
            before
        } else {
            before.push(list.last())
        }
    }
}

/// The extensions whose skill still runs.
pub open spec fn still_extending(list: Seq<OrderUpExtension>) -> Seq<OrderUpExtension>
    decreases list.len(),
{
    if list.len() == 0 {
        Seq::empty()
    } else {
        let before = still_extending(list.drop_last());
        if list.last().timer.expired() {
            before
        } else {
            before.push(list.last())
        }
    }
}

/// The tally once the effects that have run out no longer count.
pub open spec fn modifiers_after(modifiers: Modifiers, active: ActiveState) -> Modifiers {
    Modifiers {
        target_speed: taken_back(modifiers.target_speed, run_out(active.target_speed)),
        current_speed: taken_back(modifiers.current_speed, run_out(active.current_speed)),
        accel: taken_back(modifiers.accel, run_out(active.acceleration)),
        one_frame_accel: sat(
            modifiers.one_frame_accel + decay_kick(run_out(active.current_speed)),
        ) as i64,
        ..modifiers
    }
}

/// The runner without the effects, held effects and extensions that have run
/// out; what they added is taken back, and a naturally decaying speed effect
/// kicks once as it ends.
#[verifier::opaque]
pub open spec fn expired_self_skills_gone(s: RunnerState) -> RunnerState {
    RunnerState {
        tally: RunnerTally {
            modifiers: modifiers_after(s.tally.modifiers, s.active),
            ..s.tally
        },
        active: ActiveState {
            target_speed: still_running(s.active.target_speed),
            current_speed: still_running(s.active.current_speed),
            acceleration: still_running(s.active.acceleration),
            lane_movement: still_running(s.active.lane_movement),
            change_lane: still_running(s.active.change_lane),
        },
        held: still_held(s.held),
        extensions: still_extending(s.extensions),
        ..s
    }
}

fn drain_held(list: &mut Vec<HeldAdditionalEffect>)
    ensures
        final(list)@ == still_held(old(list)@),
{
    let ghost before = list@;
    let mut kept: Vec<HeldAdditionalEffect> = Vec::new();
    let mut i: usize = 0;
    while i < list.len()
        invariant
            list@ == before,
            i <= list@.len(),
            kept@ == still_held(before.take(i as int)),
        decreases list@.len() - i,
    {
        proof {
            assert(before.take(i + 1).drop_last() =~= before.take(i as int));
        }
        if list[i].timer.t < 0 {
            kept.push(list[i]);
        }
        i = i + 1;
    }
    proof {
        assert(before.take(i as int) =~= before);
    }
    *list = kept;
}

fn drain_extensions(list: &mut Vec<OrderUpExtension>)
    ensures
        final(list)@ == still_extending(old(list)@),
{
    let ghost before = list@;
    let mut kept: Vec<OrderUpExtension> = Vec::new();
    let mut i: usize = 0;
    while i < list.len()
        invariant
            list@ == before,
            i <= list@.len(),
            kept@ == still_extending(before.take(i as int)),
        decreases list@.len() - i,
    {
        proof {
            assert(before.take(i + 1).drop_last() =~= before.take(i as int));
        }
        if list[i].timer.t < 0 {
            kept.push(list[i]);
        }
        i = i + 1;
    }
    proof {
        assert(before.take(i as int) =~= before);
    }
    *list = kept;
}

impl Runner {
    /// End the effects, held effects and extensions that have run out.
    pub fn cleanup_expired_self_skills(&mut self)
        ensures
            final(self)@ == expired_self_skills_gone(old(self)@),
    {
        proof {
            reveal(expired_self_skills_gone);
        }
        let ended = drain_expired(&mut self.active.target_speed);
        self.tally.modifiers.target_speed = take_back(self.tally.modifiers.target_speed, &ended);
        let ended = drain_expired(&mut self.active.current_speed);
        self.tally.modifiers.current_speed = take_back(self.tally.modifiers.current_speed, &ended);
        self.tally.modifiers.one_frame_accel = plus(
            self.tally.modifiers.one_frame_accel,
            sum_decay_kick(&ended),
        );
        let ended = drain_expired(&mut self.active.acceleration);
        self.tally.modifiers.accel = take_back(self.tally.modifiers.accel, &ended);
        drain_expired(&mut self.active.lane_movement);
        drain_expired(&mut self.active.change_lane);
        drain_held(&mut self.held_additional_effects);
        drain_extensions(&mut self.order_up_extensions);
    }
}

/// Whether an overtake lengthens the skill now.
pub open spec fn extends(e: OrderUpExtension) -> bool {
    e.remaining > 0 && e.timer.t < 0
}

/// The extensions with one taken off each that extends now.
pub open spec fn extensions_used(list: Seq<OrderUpExtension>) -> Seq<OrderUpExtension> {
    Seq::new(
        list.len(),
        |i: int|
            if extends(list[i]) {
                OrderUpExtension { remaining: (list[i].remaining - 1) as u32, ..list[i] }
            } else {
                list[i]
            },
    )
}

/// The extensions of a list that extend now, in order.
pub open spec fn extending(list: Seq<OrderUpExtension>) -> Seq<OrderUpExtension>
    decreases list.len(),
{
    if list.len() == 0 {
        Seq::empty()
    } else {
        let before = extending(list.drop_last());
        if extends(list.last()) {
            before.push(list.last())
        } else {
            before
        }
    }
}

/// The timer with `seconds` more to run.
pub open spec fn set_back(timer: Timer, seconds: i64) -> Timer {
    Timer { t: sat(timer.t - seconds) as i64 }
}

/// The effects with those of `skill_id` lasting `seconds` longer.
pub open spec fn lengthened(list: Seq<ActiveSkill>, skill_id: SkillId, seconds: i64) -> Seq<
    ActiveSkill,
> {
    Seq::new(
        list.len(),
        |i: int|
            if list[i].skill_id == skill_id {
                ActiveSkill { duration_timer: set_back(list[i].duration_timer, seconds), ..list[i] }
            } else {
                list[i]
            },
    )
}

/// The held effects with those of `skill_id` waiting `seconds` longer.
pub open spec fn held_longer(
    list: Seq<HeldAdditionalEffect>,
    skill_id: SkillId,
    seconds: i64,
) -> Seq<HeldAdditionalEffect> {
    Seq::new(
        list.len(),
        |i: int|
            if list[i].skill_id == skill_id {
                HeldAdditionalEffect { timer: set_back(list[i].timer, seconds), ..list[i] }
            } else {
                list[i]
            },
    )
}

/// The extensions with those of `skill_id` open `seconds` longer.
pub open spec fn extending_longer(
    list: Seq<OrderUpExtension>,
    skill_id: SkillId,
    seconds: i64,
) -> Seq<OrderUpExtension> {
    Seq::new(
        list.len(),
        |i: int|
            if list[i].skill_id == skill_id {
                OrderUpExtension { timer: set_back(list[i].timer, seconds), ..list[i] }
            } else {
                list[i]
            },
    )
}

/// The runner with everything that skill `e` runs lasting longer.
pub open spec fn skill_lengthened(s: RunnerState, e: OrderUpExtension) -> RunnerState {
    RunnerState {
        active: ActiveState {
            target_speed: lengthened(s.active.target_speed, e.skill_id, e.seconds),
            current_speed: lengthened(s.active.current_speed, e.skill_id, e.seconds),
            acceleration: lengthened(s.active.acceleration, e.skill_id, e.seconds),
            lane_movement: lengthened(s.active.lane_movement, e.skill_id, e.seconds),
            change_lane: lengthened(s.active.change_lane, e.skill_id, e.seconds),
        },
        held: held_longer(s.held, e.skill_id, e.seconds),
        extensions: extending_longer(s.extensions, e.skill_id, e.seconds),
        ..s
    }
}

/// The runner with every skill of `extending` lengthened, in order.
pub open spec fn skills_lengthened(s: RunnerState, extending: Seq<OrderUpExtension>) -> RunnerState
    decreases extending.len(),
{
    if extending.len() == 0 {
        s
    } else {
        skill_lengthened(skills_lengthened(s, extending.drop_last()), extending.last())
    }
}

/// What an overtake makes of the runner: the skills it lengthens last longer,
/// then the held effects it sets off fire.
#[verifier::opaque]
pub open spec fn order_gained(s: RunnerState) -> RunnerState {
    held_fired(
        skills_lengthened(
            RunnerState { extensions: extensions_used(s.extensions), ..s },
            extending(s.extensions),
        ),
        HeldTrigger::OrderUp,
    )
}

fn lengthen(list: &mut Vec<ActiveSkill>, skill_id: SkillId, seconds: i64)
    ensures
        final(list)@ == lengthened(old(list)@, skill_id, seconds),
{
    let ghost before = list@;
    let mut i: usize = 0;
    while i < list.len()
        invariant
            list@.len() == before.len(),
            i <= list@.len(),
            forall|k: int|
                0 <= k < i ==> list@[k] == #[trigger] lengthened(before, skill_id, seconds)[k],
            forall|k: int| i <= k < before.len() ==> list@[k] == before[k],
        decreases list@.len() - i,
    {
        if list[i].skill_id == skill_id {
            list[i].duration_timer = Timer::new(minus(list[i].duration_timer.t, seconds));
        }
        i = i + 1;
    }
    proof {
        assert(list@ =~= lengthened(before, skill_id, seconds));
    }
}

fn hold_longer(list: &mut Vec<HeldAdditionalEffect>, skill_id: SkillId, seconds: i64)
    ensures
        final(list)@ == held_longer(old(list)@, skill_id, seconds),
{
    let ghost before = list@;
    let mut i: usize = 0;
    while i < list.len()
        invariant
            list@.len() == before.len(),
            i <= list@.len(),
            forall|k: int|
                0 <= k < i ==> list@[k] == #[trigger] held_longer(before, skill_id, seconds)[k],
            forall|k: int| i <= k < before.len() ==> list@[k] == before[k],
        decreases list@.len() - i,
    {
        if list[i].skill_id == skill_id {
            list[i].timer = Timer::new(minus(list[i].timer.t, seconds));
        }
        i = i + 1;
    }
    proof {
        assert(list@ =~= held_longer(before, skill_id, seconds));
    }
}

fn extend_longer(list: &mut Vec<OrderUpExtension>, skill_id: SkillId, seconds: i64)
    ensures
        final(list)@ == extending_longer(old(list)@, skill_id, seconds),
{
    let ghost before = list@;
    let mut i: usize = 0;
    while i < list.len()
        invariant
            list@.len() == before.len(),
            i <= list@.len(),
            forall|k: int|
                0 <= k < i ==> list@[k] == #[trigger] extending_longer(
                    before,
                    skill_id,
                    seconds,
                )[k],
            forall|k: int| i <= k < before.len() ==> list@[k] == before[k],
        decreases list@.len() - i,
    {
        if list[i].skill_id == skill_id {
            list[i].timer = Timer::new(minus(list[i].timer.t, seconds));
        }
        i = i + 1;
    }
    proof {
        assert(list@ =~= extending_longer(before, skill_id, seconds));
    }
}

fn use_extensions(list: &mut Vec<OrderUpExtension>) -> (used: Vec<OrderUpExtension>)
    ensures
        final(list)@ == extensions_used(old(list)@),
        used@ == extending(old(list)@),
{
    let ghost before = list@;
    let mut used: Vec<OrderUpExtension> = Vec::new();
    let mut i: usize = 0;
    while i < list.len()
        invariant
            list@.len() == before.len(),
            i <= list@.len(),
            used@ == extending(before.take(i as int)),
            forall|k: int| 0 <= k < i ==> list@[k] == #[trigger] extensions_used(before)[k],
            forall|k: int| i <= k < before.len() ==> list@[k] == before[k],
        decreases list@.len() - i,
    {
        proof {
            assert(before.take(i + 1).drop_last() =~= before.take(i as int));
        }
        let e = list[i];
        if e.remaining > 0 && e.timer.t < 0 {
            used.push(e);
            list[i].remaining = e.remaining - 1;
        }
        i = i + 1;
    }
    proof {
        assert(before.take(i as int) =~= before);
        assert(list@ =~= extensions_used(before));
    }
    used
}

impl Runner {
    /// An overtake: lengthen the skills that grow with overtakes, then fire the
    /// held effects that wait on one.
    pub fn on_order_up(&mut self)
        ensures
            final(self)@ == order_gained(old(self)@),
    {
        proof {
            reveal(order_gained);
        }
        let used = use_extensions(&mut self.order_up_extensions);
        let ghost start = self@;
        let mut i: usize = 0;
        while i < used.len()
            invariant
                i <= used@.len(),
                self@ == skills_lengthened(start, used@.take(i as int)),
            decreases used@.len() - i,
        {
            proof {
                assert(used@.take(i + 1).drop_last() =~= used@.take(i as int));
            }
            let e = used[i];
            lengthen(&mut self.active.target_speed, e.skill_id, e.seconds);
            lengthen(&mut self.active.current_speed, e.skill_id, e.seconds);
            lengthen(&mut self.active.acceleration, e.skill_id, e.seconds);
            lengthen(&mut self.active.lane_movement, e.skill_id, e.seconds);
            lengthen(&mut self.active.change_lane, e.skill_id, e.seconds);
            hold_longer(&mut self.held_additional_effects, e.skill_id, e.seconds);
            extend_longer(&mut self.order_up_extensions, e.skill_id, e.seconds);
            i = i + 1;
        }
        proof {
            assert(used@.take(i as int) =~= used@);
        }
        self.fire_held_additional_effects(HeldTrigger::OrderUp);
    }
}

/// `n / d` rounded up.
pub open spec fn quotient_up(n: int, d: int) -> int {
    -((-n) / d)
}

fn divide_up(n: i128, d: i128) -> (q: i128)
    requires
        d > 0,
        n > i128::MIN,
    ensures
        q == quotient_up(n as int, d as int),
{
    if n <= 0 {
        -((-n) / d)
    } else {
        let q: i128 = (n - 1) / d;
        proof {
            let r = (n - 1) as int % d as int;
            vstd::arithmetic::div_mod::lemma_fundamental_div_mod((n - 1) as int, d as int);
            assert(-n == d * (-(q + 1)) + (d - r - 1)) by (nonlinear_arith)
                requires
                    n - 1 == d * q + r,
            ;
            vstd::arithmetic::div_mod::lemma_fundamental_div_mod_converse(
                -n as int,
                d as int,
                -(q + 1),
                d - r - 1,
            );
            assert(q < i128::MAX) by (nonlinear_arith)
                requires
                    q == (n - 1) / (d as int),
                    1 <= n <= i128::MAX,
                    d > 0,
            ;
        }
        q + 1
    }
}

/// A span in whole ticks, rounded up; a span of whole ticks up to rounding (a
/// billionth of a tick) is that many ticks, not one more.
pub open spec fn whole_ticks(span: int, tick: int) -> int {
    quotient_up(span * 1_000_000_000 - tick, tick * 1_000_000_000)
}

/// Ticks from a skill's activation to the first tick it may activate again: its
/// effect ends on the first whole tick its duration has run, and the cooldown
/// counts whole ticks from that one.
pub open spec fn ticks_until_ready(duration: int, cooldown: int, tick: int) -> int {
    whole_ticks(duration, tick) + whole_ticks(cooldown, tick)
}

/// See [`ticks_until_ready`].
pub fn ready_ticks(duration: i64, cooldown: i64, tick: i64) -> (ticks: i128)
    requires
        tick > 0,
    ensures
        ticks == ticks_until_ready(duration as int, cooldown as int, tick as int),
        -0x1_0000_0000_0000_0000 <= ticks <= 0x1_0000_0000_0000_0001,
{
    let per: i128 = tick as i128 * 1_000_000_000;
    let effect: i128 = divide_up(duration as i128 * 1_000_000_000 - tick as i128, per);
    let wait: i128 = divide_up(cooldown as i128 * 1_000_000_000 - tick as i128, per);
    proof {
        lemma_whole_ticks_bound(duration as int, tick as int);
        lemma_whole_ticks_bound(cooldown as int, tick as int);
    }
    effect + wait
}

proof fn lemma_whole_ticks_bound(span: int, tick: int)
    requires
        tick > 0,
        -0x8000_0000_0000_0000 <= span <= 0x7fff_ffff_ffff_ffff,
    ensures
        -0x8000_0000_0000_0000 <= whole_ticks(span, tick) <= 0x8000_0000_0000_0000,
{
    let n = tick - span * 1_000_000_000;
    let d = tick * 1_000_000_000;
    let q = n / d;
    vstd::arithmetic::div_mod::lemma_fundamental_div_mod(n, d);
    let r = n % d;
    assert(whole_ticks(span, tick) == -q);
    assert(-0x8000_0000_0000_0000 <= q <= 0x8000_0000_0000_0000) by (nonlinear_arith)
        requires
            n == d * q + r,
            0 <= r < d,
            d == tick * 1_000_000_000,
            n == tick - span * 1_000_000_000,
            tick >= 1,
            -0x8000_0000_0000_0000 <= span <= 0x7fff_ffff_ffff_ffff,
    ;
}

/// Whether a pending skill takes no wit check: none are taken, it is a stat or
/// style skill, or it is a unique.
pub open spec fn skips_wit_check(p: PendingState, body: RunnerBody) -> bool {
    ||| !body.wit_checks_enabled
    ||| (p.effects.len() > 0 && 1 <= p.effects[0].effect_type.data_id() <= 6)
    ||| p.rarity == SkillRarity::Unique
}

/// Whether the runner's next wit check passes.
pub open spec fn wit_check_passes(s: RunnerState) -> bool {
    fraction_of(next_roll(s.wit_rolls)) <= s.body.wit_threshold
}

/// Whether a pending skill may activate this tick: inside its window, cooled
/// down, and (unless forced) its precondition latched and its condition
/// holding.
pub open spec fn may_activate(s: RunnerState, p: PendingState, field: FieldView) -> bool {
    &&& p.trigger.holds(s.body.position as int)
    &&& tick_reached(s.body, p.ready_at)
    &&& p.forced || (precondition_met(p.precondition) && condition_holds(
        p.extra_condition,
        own_state(s.body, s.tally),
        field,
    ))
}

/// Whether `other` is another exclusive alternative of the same skill as `p`.
pub open spec fn excluded_by(p: PendingState, other: PendingState) -> bool {
    &&& p.exclusive_alternative is Some
    &&& other.skill_id == p.skill_id
    &&& other.exclusive_alternative is Some
    &&& other.exclusive_alternative != p.exclusive_alternative
}

/// The pending skills with the other exclusive alternatives of `p` held until
/// `until`, their wit check passed if `wit_passed`.
pub open spec fn alternatives_held(
    pending: Seq<PendingState>,
    p: PendingState,
    until: i64,
    wit_passed: bool,
) -> Seq<PendingState> {
    Seq::new(
        pending.len(),
        |i: int|
            if excluded_by(p, pending[i]) {
                PendingState {
                    ready_at: larger(pending[i].ready_at as int, until as int) as i64,
                    wit_passed: pending[i].wit_passed || wit_passed,
                    ..pending[i]
                }
            } else {
                pending[i]
            },
    )
}

/// The race time of the first tick after now on which a skill with this
/// duration and cooldown may activate again.
pub open spec fn ready_time(body: RunnerBody, duration: i64, cooldown: i64) -> i64 {
    sat(
        body.accumulate_time.in_seconds() + ticks_until_ready(
            duration as int,
            cooldown as int,
            FRAME_DT as int,
        ) * FRAME_DT,
    ) as i64
}

/// The runner after a wit roll, if pending skill `p` takes one.
pub open spec fn wit_rolled(s: RunnerState, p: PendingState) -> RunnerState {
    if takes_no_roll(s, p) {
        s
    } else {
        RunnerState { wit_rolls: after_roll(s.wit_rolls), ..s }
    }
}

/// Whether pending skill `p` fires without a wit roll.
pub open spec fn takes_no_roll(s: RunnerState, p: PendingState) -> bool {
    p.forced || p.wit_passed || skips_wit_check(p, s.body)
}

/// What becomes of the pending skill at `i`, which may activate this tick, and
/// where the pass goes on: it fires, or its one wit check fails. A skill with a
/// cooldown stays, ready again when its effect and then the cooldown have run;
/// one without is done either way. Its other alternatives wait with it.
#[verifier::opaque]
pub open spec fn fired_or_failed(s: RunnerState, i: int, distance: i64) -> (RunnerState, int) {
    let p = s.pending[i];
    let s1 = wit_rolled(s, p);
    if takes_no_roll(s, p) || wit_check_passes(s) {
        let (s2, duration) = skill_activated(s1, p, distance);
        let ready_at = ready_time(s2.body, duration, p.cooldown);
        let until = if p.cooldown > 0 {
            ready_at
        } else {
            NEVER_READY
        };
        let held = alternatives_held(s2.pending, p, until, true);
        if p.cooldown > 0 {
            (
                RunnerState {
                    pending: held.update(
                        i,
                        PendingState { ready_at, wit_passed: true, ..held[i] },
                    ),
                    ..s2
                },
                i + 1,
            )
        } else {
            (RunnerState { pending: held.remove(i), ..s2 }, i)
        }
    } else {
        let held = alternatives_held(s1.pending, p, NEVER_READY, false);
        (RunnerState { pending: held.remove(i), ..s1 }, i)
    }
}

/// A pending skill moved on past the windows that lie behind `position`: the
/// next placed trigger takes the place of each, down to the last.
pub open spec fn moved_on(p: PendingState, position: int) -> PendingState
    decreases p.later_triggers.len(),
{
    if position >= p.trigger.end && p.later_triggers.len() > 0 {
        moved_on(
            PendingState {
                trigger: p.later_triggers[0],
                later_triggers: p.later_triggers.skip(1),
                ..p
            },
            position,
        )
    } else {
        p
    }
}

/// The list without `skill_id`.
pub open spec fn without_skill(list: Seq<SkillId>, skill_id: SkillId) -> Seq<SkillId>
    decreases list.len(),
{
    if list.len() == 0 {
        Seq::empty()
    } else {
        let before = without_skill(list.drop_last(), skill_id);
        if list.last() == skill_id {
            before
        } else {
            before.push(list.last())
        }
    }
}

/// What becomes of the pending skill at `i` this tick, and where the pass goes
/// on: one due to be dropped, or past its last window, is dropped; one that may
/// activate fires or fails; any other waits.
#[verifier::opaque]
pub open spec fn entry_checked(s: RunnerState, i: int, field: FieldView, distance: i64) -> (
    RunnerState,
    int,
) {
    let due = s.removal.contains(s.pending[i].skill_id);
    let p = if due {
        s.pending[i]
    } else {
        moved_on(s.pending[i], s.body.position as int)
    };
    let s1 = RunnerState { pending: s.pending.update(i, p), ..s };
    if due || s.body.position >= p.trigger.end {
        (
            RunnerState {
                pending: s1.pending.remove(i),
                removal: without_skill(s.removal, p.skill_id),
                ..s1
            },
            i,
        )
    } else if may_activate(s1, p, field) {
        fired_or_failed(s1, i, distance)
    } else {
        (s1, i + 1)
    }
}

proof fn lemma_fired_advances(s: RunnerState, i: int, distance: i64)
    requires
        0 <= i < s.pending.len(),
    ensures
        ({
            let (s1, next) = fired_or_failed(s, i, distance);
            0 <= next <= s1.pending.len() && s1.pending.len() - next == s.pending.len() - i - 1
        }),
{
    reveal(fired_or_failed);
    let p = s.pending[i];
    lemma_skill_activation_leaves(wit_rolled(s, p), p, distance);
}

/// The pass gets nearer its end with every entry.
pub proof fn lemma_entry_advances(s: RunnerState, i: int, field: FieldView, distance: i64)
    requires
        0 <= i < s.pending.len(),
    ensures
        ({
            let (s1, next) = entry_checked(s, i, field, distance);
            0 <= next <= s1.pending.len() && s1.pending.len() - next == s.pending.len() - i - 1
        }),
{
    reveal(entry_checked);
    let p = moved_on(s.pending[i], s.body.position as int);
    lemma_fired_advances(RunnerState { pending: s.pending.update(i, p), ..s }, i, distance);
}

/// The runner after the pending skills from `next` on have been checked, in
/// order.
pub open spec fn pass_from(s: RunnerState, next: int, field: FieldView, distance: i64) -> RunnerState
    decreases s.pending.len() - next,
{
    if 0 <= next < s.pending.len() {
        proof {
            lemma_entry_advances(s, next, field, distance);
        }
        let (s1, after) = entry_checked(s, next, field, distance);
        pass_from(s1, after, field, distance)
    } else {
        s
    }
}

/// A precondition once this tick has been read.
pub open spec fn latched_precondition(
    p: Option<PreconditionState>,
    body: RunnerBody,
    tally: RunnerTally,
    field: FieldView,
) -> Option<PreconditionState> {
    match p {
        Some(pre) => Some(
            PreconditionState {
                met: pre.met || (covered(pre.regions, body.position as int) && pre.check.holds(
                    own_state(body, tally),
                    field,
                )),
                ..pre
            },
        ),
        None => None,
    }
}

/// The runner with every precondition that holds this tick latched, whether or
/// not its skill's own window has opened.
#[verifier::opaque]
pub open spec fn preconditions_latched(s: RunnerState, field: FieldView) -> RunnerState {
    RunnerState {
        pending: Seq::new(
            s.pending.len(),
            |i: int|
                PendingState {
                    precondition: latched_precondition(
                        s.pending[i].precondition,
                        s.body,
                        s.tally,
                        field,
                    ),
                    ..s.pending[i]
                },
        ),
        ..s
    }
}

/// How far the runner is behind the leader the field shows; 0 without one.
pub open spec fn distance_from_top(body: RunnerBody, field: FieldView) -> i64 {
    match field.leader_position {
        Some(leader) => larger(sat(leader - body.position), 0) as i64,
        None => 0,
    }
}

/// Whether the runner gained a place this tick.
pub open spec fn gained_order(field: FieldView) -> bool {
    field.self_previous_order is Some && field.self_order is Some && field.self_order->0
        < field.self_previous_order->0
}

/// The runner as a new tick starts: the activation marks move on, what has run
/// out ends, and the gap to the leader is read.
#[verifier::opaque]
pub open spec fn tick_started(s: RunnerState, field: FieldView) -> RunnerState {
    let s1 = expired_self_skills_gone(
        RunnerState {
            tally: RunnerTally {
                activations_at_last_tick_start: s.tally.activations_at_tick_start,
                activations_at_tick_start: s.tally.skills_activated_count,
                ..s.tally
            },
            ..s
        },
    );
    RunnerState {
        tally: RunnerTally {
            activation_distance_from_top: distance_from_top(s.body, field),
            ..s1.tally
        },
        ..s1
    }
}

/// The runner just before her pending skills are checked: the tick has started,
/// an overtake has acted on her running skills, and preconditions have latched.
pub open spec fn ready_to_check(s: RunnerState, field: FieldView) -> RunnerState {
    let s1 = tick_started(s, field);
    let s2 = if gained_order(field) {
        order_gained(s1)
    } else {
        s1
    };
    preconditions_latched(s2, field)
}

/// The runner after this tick's skill pass.
pub open spec fn skills_processed(s: RunnerState, field: FieldView, distance: i64) -> RunnerState {
    pass_from(ready_to_check(s, field), 0, field, distance)
}

proof fn lemma_checked_alike(
    s: RunnerState,
    i: int,
    a: FieldView,
    b: FieldView,
    distance: i64,
)
    requires
        a.shows_the_same(b),
    ensures
        entry_checked(s, i, a, distance) == entry_checked(s, i, b, distance),
{
    reveal(entry_checked);
    let due = s.removal.contains(s.pending[i].skill_id);
    let p = if due {
        s.pending[i]
    } else {
        moved_on(s.pending[i], s.body.position as int)
    };
    if p.extra_condition is Some {
        a_condition_reads_only_what_the_field_shows(
            p.extra_condition->0,
            own_state(s.body, s.tally),
            a,
            b,
        );
    }
}

proof fn lemma_pass_alike(s: RunnerState, next: int, a: FieldView, b: FieldView, distance: i64)
    requires
        a.shows_the_same(b),
    ensures
        pass_from(s, next, a, distance) == pass_from(s, next, b, distance),
    decreases s.pending.len() - next,
{
    if 0 <= next < s.pending.len() {
        lemma_checked_alike(s, next, a, b, distance);
        lemma_entry_advances(s, next, a, distance);
        let (s1, after) = entry_checked(s, next, a, distance);
        lemma_pass_alike(s1, after, a, b, distance);
    }
}

/// A tick's skill pass reads only what the field shows: two views of the same
/// field leave the runner the same.
pub proof fn a_skill_pass_reads_only_what_the_field_shows(
    s: RunnerState,
    a: FieldView,
    b: FieldView,
    distance: i64,
)
    requires
        a.shows_the_same(b),
    ensures
        skills_processed(s, a, distance) == skills_processed(s, b, distance),
{
    reveal(tick_started);
    reveal(preconditions_latched);
    let s1 = tick_started(s, a);
    let s2 = if gained_order(a) {
        order_gained(s1)
    } else {
        s1
    };
    assert forall|i: int| 0 <= i < s2.pending.len() implies latched_precondition(
        #[trigger] s2.pending[i].precondition,
        s2.body,
        s2.tally,
        a,
    ) == latched_precondition(s2.pending[i].precondition, s2.body, s2.tally, b) by {
        if let Some(pre) = s2.pending[i].precondition {
            a_condition_reads_only_what_the_field_shows(
                pre.check,
                own_state(s2.body, s2.tally),
                a,
                b,
            );
        }
    }
    assert(preconditions_latched(s2, a).pending =~= preconditions_latched(s2, b).pending);
    lemma_pass_alike(ready_to_check(s, a), 0, a, b, distance);
}

proof fn lemma_pending_entry(pending: Seq<PendingSkill>, i: int)
    requires
        0 <= i < pending.len(),
    ensures
        pending_states(pending)[i] == pending[i]@,
{
}

impl Runner {
    fn should_skip_wit_check(&self, skill: &PendingSkill) -> (skip: bool)
        ensures
            skip == skips_wit_check(skill@, self.body),
    {
        if !self.body.wit_checks_enabled {
            return true;
        }
        if skill.effects.len() > 0 {
            let type_id: i32 = skill.effects[0].effect_type.id();
            if 1 <= type_id && type_id <= 6 {
                return true;
            }
        }
        skill.rarity == SkillRarity::Unique
    }

    /// Whether the pending skill at `idx` takes no wit check.
    pub fn should_skip_wit_check_at(&self, idx: usize) -> (skip: bool)
        requires
            idx < self.pending_skills@.len(),
        ensures
            skip == skips_wit_check(self@.pending[idx as int], self.body),
    {
        proof {
            lemma_pending_entry(self.pending_skills@, idx as int);
        }
        self.should_skip_wit_check(&self.pending_skills[idx])
    }

    /// Take a wit check.
    pub fn do_wit_check(&mut self) -> (passed: bool)
        ensures
            passed == wit_check_passes(old(self)@),
            final(self)@ == (RunnerState {
                wit_rolls: after_roll(old(self)@.wit_rolls),
                ..old(self)@
            }),
    {
        let roll: i64 = self.wit_rng.random();
        roll <= self.body.wit_threshold
    }

    fn pending_extra_passes(&self, idx: usize, field: &FieldView) -> (passes: bool)
        requires
            idx < self.pending_skills@.len(),
        ensures
            passes == condition_holds(
                self.pending_skills@[idx as int].extra_condition,
                own_state(self.body, self.tally),
                *field,
            ),
    {
        let seen = RunnerConditionView { runner: self, field }.observe();
        eval_dynamic(&self.pending_skills[idx].extra_condition, &seen)
    }

    /// Whether the pending skill at `idx` may activate this tick.
    pub fn pending_holds(&self, idx: usize, field: &FieldView) -> (holds: bool)
        requires
            idx < self.pending_skills@.len(),
        ensures
            holds == may_activate(self@, self@.pending[idx as int], *field),
    {
        proof {
            lemma_pending_entry(self.pending_skills@, idx as int);
        }
        let skill = &self.pending_skills[idx];
        skill.trigger.contains(self.body.position) && self.tick_reached(skill.ready_at) && (
        skill.forced || (DynamicPrecondition::is_met(skill.precondition.as_ref())
            && self.pending_extra_passes(idx, field)))
    }

    /// Hold the skill's other exclusive alternatives until race time `until`,
    /// their wit check passed if `wit_passed`.
    fn hold_exclusive_alternatives(&mut self, skill: &PendingSkill, until: i64, wit_passed: bool)
        ensures
            final(self)@ == (RunnerState {
                pending: alternatives_held(old(self)@.pending, skill@, until, wit_passed),
                ..old(self)@
            }),
    {
        let ghost before = self@;
        let k: usize = match skill.exclusive_alternative {
            Some(k) => k,
            None => {
                proof {
                    assert(self@.pending =~= alternatives_held(
                        before.pending,
                        skill@,
                        until,
                        wit_passed,
                    ));
                }
                return;
            },
        };
        let mut i: usize = 0;
        while i < self.pending_skills.len()
            invariant
                skill.exclusive_alternative == Some(k),
                before.pending.len() == self.pending_skills@.len(),
                i <= self.pending_skills@.len(),
                self@ == (RunnerState { pending: self@.pending, ..before }),
                forall|j: int|
                    0 <= j < i ==> self.pending_skills@[j]@ == #[trigger] alternatives_held(
                        before.pending,
                        skill@,
                        until,
                        wit_passed,
                    )[j],
                forall|j: int|
                    i <= j < before.pending.len() ==> self.pending_skills@[j]@ == before.pending[j],
            decreases self.pending_skills@.len() - i,
        {
            let other = &self.pending_skills[i];
            let excluded = other.skill_id == skill.skill_id && match other.exclusive_alternative {
                Some(m) => m != k,
                None => false,
            };
            if excluded {
                let ready_at: i64 = max_quantity(other.ready_at, until);
                let passed = other.wit_passed || wit_passed;
                self.pending_skills[i].ready_at = ready_at;
                self.pending_skills[i].wit_passed = passed;
            }
            i = i + 1;
        }
        proof {
            assert(self@.pending =~= alternatives_held(
                before.pending,
                skill@,
                until,
                wit_passed,
            ));
        }
    }

    /// Move the pending skill at `i` on past the windows behind the runner.
    fn move_on(&mut self, i: usize)
        requires
            i < old(self).pending_skills@.len(),
        ensures
            final(self)@ == (RunnerState {
                pending: old(self)@.pending.update(
                    i as int,
                    moved_on(old(self)@.pending[i as int], old(self).body.position as int),
                ),
                ..old(self)@
            }),
            final(self).pending_skills@.len() == old(self).pending_skills@.len(),
    {
        let ghost before = self@;
        let position: i64 = self.body.position;
        proof {
            assert(self@.pending =~= before.pending.update(i as int, before.pending[i as int]));
        }
        while position >= self.pending_skills[i].trigger.end
            && self.pending_skills[i].later_triggers.len() > 0
            invariant
                i < self.pending_skills@.len(),
                self.pending_skills@.len() == before.pending.len(),
                position == before.body.position,
                self@ == (RunnerState {
                    pending: before.pending.update(i as int, self.pending_skills@[i as int]@),
                    ..before
                }),
                moved_on(before.pending[i as int], position as int) == moved_on(
                    self.pending_skills@[i as int]@,
                    position as int,
                ),
            decreases self.pending_skills@[i as int].later_triggers@.len(),
        {
            let ghost was = self.pending_skills@[i as int]@;
            let ghost entries = self.pending_skills@;
            let next: Region = self.pending_skills[i].later_triggers.remove(0);
            self.pending_skills[i].trigger = next;
            proof {
                assert(self.pending_skills@[i as int]@.later_triggers
                    =~= was.later_triggers.skip(1));
                assert(self.pending_skills@ =~= entries.update(
                    i as int,
                    self.pending_skills@[i as int],
                ));
                assert forall|j: int| 0 <= j < entries.len() && j != i implies entries[j]@
                    == before.pending[j] by {
                    lemma_pending_entry(entries, j);
                }
                assert(self@.pending =~= before.pending.update(
                    i as int,
                    self.pending_skills@[i as int]@,
                ));
            }
        }
    }

    fn remove_pending(&mut self, i: usize)
        requires
            i < old(self).pending_skills@.len(),
        ensures
            final(self)@ == (RunnerState {
                pending: old(self)@.pending.remove(i as int),
                ..old(self)@
            }),
    {
        let ghost before = self@;
        self.pending_skills.remove(i);
        proof {
            assert(self@.pending =~= before.pending.remove(i as int));
        }
    }

    fn forget_removal(&mut self, skill_id: SkillId)
        ensures
            final(self)@ == (RunnerState {
                removal: without_skill(old(self)@.removal, skill_id),
                ..old(self)@
            }),
    {
        let ghost before = self.pending_skill_removal@;
        let mut kept: Vec<SkillId> = Vec::new();
        let mut i: usize = 0;
        while i < self.pending_skill_removal.len()
            invariant
                self.pending_skill_removal@ == before,
                i <= before.len(),
                kept@ == without_skill(before.take(i as int), skill_id),
            decreases before.len() - i,
        {
            proof {
                assert(before.take(i + 1).drop_last() =~= before.take(i as int));
            }
            if self.pending_skill_removal[i] != skill_id {
                kept.push(self.pending_skill_removal[i]);
            }
            i = i + 1;
        }
        proof {
            assert(before.take(i as int) =~= before);
        }
        self.pending_skill_removal = kept;
    }

    /// Fire the pending skill at `i`, or fail its wit check (see
    /// [`fired_or_failed`]); returns where the pass goes on.
    fn fire_or_fail(&mut self, i: usize, course_distance: i64) -> (next: usize)
        requires
            i < old(self).pending_skills@.len(),
        ensures
            (final(self)@, next as int) == fired_or_failed(
                old(self)@,
                i as int,
                course_distance,
            ),
            next <= final(self).pending_skills@.len(),
            final(self).pending_skills@.len() - next == old(self).pending_skills@.len() - i - 1,
    {
        let ghost start = self@;
        let total: usize = self.pending_skills.len();
        assert(i < total);
        proof {
            lemma_fired_advances(start, i as int, course_distance);
            reveal(fired_or_failed);
            lemma_pending_entry(self.pending_skills@, i as int);
        }
        let skill = self.pending_skills[i].duplicate();
        let skip = skill.forced || skill.wit_passed || self.should_skip_wit_check_at(i);
        let passed = skip || self.do_wit_check();
        proof {
            lemma_skill_activation_leaves(self@, skill@, course_distance);
        }
        if passed {
            let duration: i64 = self.activate_skill(&skill, course_distance);
            let ready_at: i64 = clamp_wide(
                self.body.accumulate_time.seconds() as i128 + ready_ticks(
                    duration,
                    skill.cooldown,
                    FRAME_DT,
                ) * FRAME_DT as i128,
            );
            let until: i64 = if skill.cooldown > 0 {
                ready_at
            } else {
                NEVER_READY
            };
            self.hold_exclusive_alternatives(&skill, until, true);
            if skill.cooldown > 0 {
                let ghost held = self@;
                proof {
                    lemma_pending_entry(self.pending_skills@, i as int);
                }
                self.pending_skills[i].ready_at = ready_at;
                self.pending_skills[i].wit_passed = true;
                proof {
                    assert(self@.pending =~= held.pending.update(
                        i as int,
                        PendingState { ready_at, wit_passed: true, ..held.pending[i as int] },
                    ));
                }
                return i + 1;
            }
        } else {
            self.hold_exclusive_alternatives(&skill, NEVER_READY, false);
        }
        self.remove_pending(i);
        i
    }

    /// Check the pending skill at `i` (see [`entry_checked`]); returns where
    /// the pass goes on.
    fn check_entry(&mut self, i: usize, field: &FieldView, course_distance: i64) -> (next: usize)
        requires
            i < old(self).pending_skills@.len(),
        ensures
            (final(self)@, next as int) == entry_checked(
                old(self)@,
                i as int,
                *field,
                course_distance,
            ),
            next <= final(self).pending_skills@.len(),
            final(self).pending_skills@.len() - next == old(self).pending_skills@.len() - i - 1,
    {
        proof {
            lemma_entry_advances(self@, i as int, *field, course_distance);
            reveal(entry_checked);
            lemma_pending_entry(self.pending_skills@, i as int);
        }
        let ghost start = self@;
        let total: usize = self.pending_skills.len();
        assert(i < total);
        let skill_id = self.pending_skills[i].skill_id;
        let due = contains_skill(&self.pending_skill_removal, skill_id);
        if !due {
            self.move_on(i);
            proof {
                lemma_moving_on_keeps_the_skill(
                    start.pending[i as int],
                    start.body.position as int,
                );
            }
        } else {
            proof {
                assert(start.pending =~= start.pending.update(i as int, start.pending[i as int]));
            }
        }
        proof {
            lemma_pending_entry(self.pending_skills@, i as int);
        }
        if due || self.body.position >= self.pending_skills[i].trigger.end {
            self.remove_pending(i);
            self.forget_removal(skill_id);
            return i;
        }
        if self.pending_holds(i, field) {
            self.fire_or_fail(i, course_distance)
        } else {
            i + 1
        }
    }

    fn latch_preconditions(&mut self, field: &FieldView)
        ensures
            final(self)@ == preconditions_latched(old(self)@, *field),
    {
        proof {
            reveal(preconditions_latched);
        }
        let ghost before = self@;
        let ghost latched = preconditions_latched(before, *field).pending;
        let mut i: usize = 0;
        while i < self.pending_skills.len()
            invariant
                latched == preconditions_latched(before, *field).pending,
                before.pending.len() == self.pending_skills@.len(),
                latched.len() == before.pending.len(),
                i <= self.pending_skills@.len(),
                self@ == (RunnerState { pending: self@.pending, ..before }),
                forall|j: int| 0 <= j < i ==> self.pending_skills@[j]@ == #[trigger] latched[j],
                forall|j: int|
                    i <= j < before.pending.len() ==> self.pending_skills@[j]@ == before.pending[j],
            decreases self.pending_skills@.len() - i,
        {
            proof {
                reveal(preconditions_latched);
            }
            let holds = match &self.pending_skills[i].precondition {
                Some(p) => {
                    let seen = RunnerConditionView { runner: self, field }.observe();
                    !p.met && p.covers(self.body.position) && p.check.eval(&seen)
                },
                None => false,
            };
            if holds {
                self.latch(i);
            }
            i = i + 1;
        }
        proof {
            assert(self@.pending =~= latched);
        }
    }

    fn latch(&mut self, i: usize)
        requires
            i < old(self).pending_skills@.len(),
            old(self).pending_skills@[i as int].precondition is Some,
        ensures
            final(self).pending_skills@.len() == old(self).pending_skills@.len(),
            final(self)@ == (RunnerState { pending: final(self)@.pending, ..old(self)@ }),
            forall|j: int|
                0 <= j < old(self).pending_skills@.len() && j != i
                    ==> #[trigger] final(self).pending_skills@[j] == old(self).pending_skills@[j],
            final(self).pending_skills@[i as int]@ == (PendingState {
                precondition: Some(
                    PreconditionState {
                        met: true,
                        ..precondition_of(old(self).pending_skills@[i as int])
                    },
                ),
                ..old(self).pending_skills@[i as int]@
            }),
    {
        let taken = self.pending_skills[i].precondition.take();
        if let Some(mut p) = taken {
            p.met = true;
            self.pending_skills[i].precondition = Some(p);
        }
    }

    /// Process the runner's own skill activations for this tick.
    pub fn process_skill_activations(&mut self, field: &FieldView, course_distance: i64)
        ensures
            final(self)@ == skills_processed(old(self)@, *field, course_distance),
    {
        proof {
            reveal(tick_started);
        }
        self.tally.activations_at_last_tick_start = self.tally.activations_at_tick_start;
        self.tally.activations_at_tick_start = self.tally.skills_activated_count;
        self.cleanup_expired_self_skills();
        proof {
            reveal(expired_self_skills_gone);
        }
        self.tally.activation_distance_from_top = match field.leader_position {
            Some(leader) => max_quantity(minus(leader, self.body.position), 0),
            None => 0,
        };
        if let (Some(previous), Some(current)) = (field.self_previous_order, field.self_order) {
            if current < previous {
                self.on_order_up();
            }
        }
        self.latch_preconditions(field);
        let ghost start = self@;
        let mut next: usize = 0;
        while next < self.pending_skills.len()
            invariant
                next <= self.pending_skills@.len(),
                pass_from(start, 0, *field, course_distance) == pass_from(
                    self@,
                    next as int,
                    *field,
                    course_distance,
                ),
            decreases self.pending_skills@.len() - next,
        {
            next = self.check_entry(next, field, course_distance);
        }
    }

    /// Activate the runner's gate skills at the start of the round.
    pub fn activate_gate_skills(&mut self, course_distance: i64)
        ensures
            forall|field: FieldView|
                field.is_empty_field() ==> final(self)@ == #[trigger] skills_processed(
                    old(self)@,
                    field,
                    course_distance,
                ),
    {
        let field = FieldView::at_gate();
        self.process_skill_activations(&field, course_distance);
        proof {
            assert forall|other: FieldView| other.is_empty_field() implies self@
                == #[trigger] skills_processed(old(self)@, other, course_distance) by {
                assert(field.other_snapshots@ =~= other.other_snapshots@);
                assert(field.active_runners@ =~= other.active_runners@);
                a_skill_pass_reads_only_what_the_field_shows(
                    old(self)@,
                    field,
                    other,
                    course_distance,
                );
            }
        }
    }
}

/// The value of the precondition a pending skill has.
pub open spec fn precondition_of(p: PendingSkill) -> PreconditionState {
    p.precondition->0@
}

/// Moving on changes a pending skill's windows and nothing else.
pub proof fn lemma_moving_on_keeps_the_skill(p: PendingState, position: int)
    ensures
        ({
            let after = moved_on(p, position);
            after == (PendingState {
                trigger: after.trigger,
                later_triggers: after.later_triggers,
                ..p
            }) && (position < after.trigger.end || after.later_triggers.len() == 0)
        }),
    decreases p.later_triggers.len(),
{
    if position >= p.trigger.end && p.later_triggers.len() > 0 {
        lemma_moving_on_keeps_the_skill(
            PendingState {
                trigger: p.later_triggers[0],
                later_triggers: p.later_triggers.skip(1),
                ..p
            },
            position,
        );
    }
}

} // verus!
