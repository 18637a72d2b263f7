//! A tick's skill pass as a whole: that it reaches every pending skill, that an
//! overtake and a precondition act before the check, and what forcing golds,
//! firing held effects and injecting debuffs come to from end to end.
use crate::condition::dynamic::FieldView;
use crate::effect::{band_multiplier, tier_multiplier, SkillType, ValueScalingPolicy};
use crate::language::covered;
use crate::model::{
    ActiveSkill, HeldAdditionalEffect, OrderUpExtension, PendingState, PendingTargetedState,
    SkillEffectSpec,
};
use crate::rng::next_roll;
use crate::runner::activation::{
    activated, after_firing, after_resolving, all_held_applied, application_order, course_scaled,
    effect_applied, effect_duration, effects_applied, firing, gold_forced, gold_picks,
    golds_forced, green_count, held_applied, held_fired, resolved, skill_activated,
    FORCED_GOLD_CHAIN, HeldTrigger,
};
use crate::runner::accounts::{lemma_held_fired_grows, lemma_pass_grows};
use crate::runner::effect_laws::{a_cast_effect_does_what_its_type_says, in_range, landed_by_type};
use crate::runner::expiry::not_run_out;
use crate::runner::laws::{an_activation_is_on_record, lemma_pass_leaves};
use crate::runner::pass_laws::{
    a_skill_waits_until_all_is_there, all_is_there, nothing_happened, windows_of,
};
use crate::runner::process::{
    entry_checked, expired_self_skills_gone, extending, extensions_used, fired_or_failed,
    gained_order, lemma_entry_advances, order_gained, pass_from, preconditions_latched,
    ready_to_check, skill_lengthened, skills_lengthened, skills_processed, tick_started,
};
use crate::runner::targeted::{all_resolved_and_landed, injected, TargetedEffectMeta};
use crate::runner::{own_state, RunnerState, RunnerTally};
use crate::units::{is_nearest, quantities_multiply_as_numbers, QUANTITY_MAX};
use vstd::prelude::*;

verus! {

/// Just before the check every precondition is met that was, or that holds this
/// tick where the runner is, as her state then reads.
pub proof fn preconditions_latch_before_the_check(s: RunnerState, field: FieldView, i: int)
    requires
        0 <= i < ready_to_check(s, field).pending.len(),
    ensures
        ({
            let ready = ready_to_check(s, field);
            let p = ready.pending[i].precondition;
            &&& p matches Some(pre) ==> (pre.check.holds(own_state(ready.body, ready.tally), field)
                && covered(pre.regions, ready.body.position as int) ==> pre.met)
            &&& ready.pending.len() == s.pending.len()
            &&& ready.pending[i].skill_id == s.pending[i].skill_id
            &&& ready.pending[i].trigger == s.pending[i].trigger
            &&& ready.pending[i].effects == s.pending[i].effects
            &&& ready.pending[i].forced == s.pending[i].forced
            &&& ready.body == s.body
        }),
{
    crate::runner::laws::lemma_readying_leaves(s, field);
    reveal(preconditions_latched);
    reveal(tick_started);
    reveal(expired_self_skills_gone);
    reveal(order_gained);
    reveal(held_fired);
    let s1 = tick_started(s, field);
    let s2 = RunnerState { extensions: extensions_used(s1.extensions), ..s1 };
    let s3 = skills_lengthened(s2, extending(s1.extensions));
    lemma_lengthening_keeps_pending(s2, extending(s1.extensions));
    crate::runner::activation::lemma_held_applied_leaves_pending(
        RunnerState { held: after_firing(s3.held, HeldTrigger::OrderUp), ..s3 },
        firing(s3.held, HeldTrigger::OrderUp),
    );
    if gained_order(field) {
        assert(crate::runner::activation::same_pending_but_ready(s3, order_gained(s1)));
        assert(crate::runner::activation::same_but_ready(
            s3.pending[i],
            order_gained(s1).pending[i],
        ));
    }
}

proof fn lemma_lengthening_keeps_pending(s: RunnerState, extensions: Seq<OrderUpExtension>)
    ensures
        skills_lengthened(s, extensions).pending == s.pending,
        skills_lengthened(s, extensions).body == s.body,
        skills_lengthened(s, extensions).tally == s.tally,
    decreases extensions.len(),
{
    if extensions.len() > 0 {
        lemma_lengthening_keeps_pending(s, extensions.drop_last());
    }
}

/// Whether the pending skill at `j` has nothing to do this tick: it is not due to
/// be dropped, the runner is short of the end of its window, and something it
/// asks for is missing.
pub open spec fn just_waits(s: RunnerState, j: int, field: FieldView) -> bool {
    let p = s.pending[j];
    &&& !s.removal.contains(p.skill_id)
    &&& s.body.position < p.trigger.end
    &&& !all_is_there(s, p, p.trigger, field)
}

proof fn lemma_waiting_is_passed_over(
    s: RunnerState,
    field: FieldView,
    distance: i64,
    from: int,
    k: int,
)
    requires
        0 <= from <= k < s.pending.len(),
        forall|j: int| from <= j < k ==> just_waits(s, j, field),
    ensures
        pass_from(s, from, field, distance) == pass_from(s, k, field, distance),
    decreases k - from,
{
    if from < k {
        assert(just_waits(s, from, field));
        let p = s.pending[from];
        assert(windows_of(p)[0] == p.trigger);
        a_skill_waits_until_all_is_there(s, from, field, distance, 0);
        assert(p.later_triggers.skip(0) =~= p.later_triggers);
        assert(s.pending.update(from, p) =~= s.pending);
        let (after, next) = entry_checked(s, from, field, distance);
        reveal(entry_checked);
        assert(after == s);
        lemma_entry_advances(s, from, field, distance);
        lemma_waiting_is_passed_over(s, field, distance, from + 1, k);
    }
}

/// The pass reaches every pending skill: one that is scripted to fire where the
/// runner is, its time come, fires this tick, however many others wait before
/// it.
pub proof fn the_pass_reaches_every_pending_skill(
    s: RunnerState,
    field: FieldView,
    distance: i64,
    k: int,
)
    requires
        ({
            let ready = ready_to_check(s, field);
            &&& 0 <= k < ready.pending.len()
            &&& forall|j: int| 0 <= j < k ==> just_waits(ready, j, field)
            &&& !ready.removal.contains(ready.pending[k].skill_id)
            &&& ready.pending[k].forced
            &&& ready.pending[k].trigger.start <= ready.body.position
            &&& ready.body.position < ready.pending[k].trigger.end
            &&& crate::runner::activation::tick_reached(ready.body, ready.pending[k].ready_at)
        }),
    ensures
        skills_processed(s, field, distance).used_skills.contains(
            ready_to_check(s, field).pending[k].skill_id,
        ),
{
    let ready = ready_to_check(s, field);
    lemma_waiting_is_passed_over(ready, field, distance, 0, k);
    let p = ready.pending[k];
    assert(windows_of(p)[0] == p.trigger);
    a_skill_waits_until_all_is_there(ready, k, field, distance, 0);
    assert(p.later_triggers.skip(0) =~= p.later_triggers);
    assert(ready.pending.update(k, p) =~= ready.pending);
    let (after, next) = entry_checked(ready, k, field, distance);
    assert(RunnerState { pending: ready.pending.update(k, p), ..ready } == ready);
    assert((after, next) == fired_or_failed(ready, k, distance));
    reveal(fired_or_failed);
    reveal(skill_activated);
    an_activation_is_on_record(ready, p, distance, FORCED_GOLD_CHAIN as nat);
    assert(after.used_skills.contains(p.skill_id));
    lemma_entry_advances(ready, k, field, distance);
    lemma_pass_leaves(after, next, field, distance);
    let done = pass_from(after, next, field, distance);
    assert(after.used_skills.is_prefix_of(done.used_skills));
    let at = after.used_skills.index_of(p.skill_id);
    assert(done.used_skills[at] == p.skill_id);
}

/// Without a pending skill a tick only starts: nothing is activated, drawn or
/// recorded.
pub proof fn without_a_pending_skill_nothing_activates(
    s: RunnerState,
    field: FieldView,
    distance: i64,
)
    requires
        s.pending.len() == 0,
        !gained_order(field),
    ensures
        ({
            let after = skills_processed(s, field, distance);
            &&& after.used_skills == s.used_skills
            &&& after.tally.skills_activated_count == s.tally.skills_activated_count
            &&& after.tally.health == s.tally.health
            &&& after.emitted == s.emitted
            &&& after.wit_rolls == s.wit_rolls
            &&& after.skill_rolls == s.skill_rolls
            &&& after.gold_rolls == s.gold_rolls
            &&& after.pending.len() == 0
        }),
{
    reveal(preconditions_latched);
    reveal(tick_started);
    reveal(expired_self_skills_gone);
}

/// Whether `after` goes on from `before` with what belongs to the extension's
/// skill running its seconds longer.
pub open spec fn goes_on_longer(
    before: Seq<ActiveSkill>,
    after: Seq<ActiveSkill>,
    e: OrderUpExtension,
) -> bool {
    &&& before.len() <= after.len()
    &&& forall|i: int|
        0 <= i < before.len() ==> {
            let t = before[i].duration_timer.t;
            let now = (#[trigger] after[i]).duration_timer.t;
            &&& after[i].skill_id == before[i].skill_id
            &&& before[i].skill_id != e.skill_id ==> now == t
            &&& before[i].skill_id == e.skill_id && in_range(t - e.seconds) ==> now == t
                - e.seconds
        }
}

/// An overtake lengthens a running skill through the whole pass: on a tick that
/// gains a place, everything the skill runs lasts its seconds longer, on all five
/// lists, and one of its extensions is used up.
pub proof fn an_overtake_lengthens_a_running_skill(
    s: RunnerState,
    field: FieldView,
    distance: i64,
    e: OrderUpExtension,
)
    requires
        gained_order(field),
        s.extensions == seq![e],
        e.remaining > 0,
        e.timer.t < 0,
    ensures
        ({
            let after = skills_processed(s, field, distance).active;
            &&& goes_on_longer(not_run_out(s.active.target_speed), after.target_speed, e)
            &&& goes_on_longer(not_run_out(s.active.current_speed), after.current_speed, e)
            &&& goes_on_longer(not_run_out(s.active.acceleration), after.acceleration, e)
            &&& goes_on_longer(not_run_out(s.active.lane_movement), after.lane_movement, e)
            &&& goes_on_longer(not_run_out(s.active.change_lane), after.change_lane, e)
        }),
{
    reveal(tick_started);
    reveal(order_gained);
    reveal(preconditions_latched);
    let marked = RunnerState {
        tally: RunnerTally {
            activations_at_last_tick_start: s.tally.activations_at_tick_start,
            activations_at_tick_start: s.tally.skills_activated_count,
            ..s.tally
        },
        ..s
    };
    crate::runner::expiry::what_has_run_out_ends_and_nothing_else(
        marked,
        ActiveSkill {
            skill_id: e.skill_id,
            duration_timer: e.timer,
            modifier: 0,
            effect_target: crate::effect::SkillTarget::SelfTarget,
            effect_type: SkillType::Noop,
            natural_deceleration: false,
        },
    );
    let s1 = tick_started(s, field);
    let runs = |x: OrderUpExtension| x.timer.t < 0;
    assert(s.extensions.filter(runs) =~= s.extensions) by {
        reveal(Seq::filter);
        reveal_with_fuel(Seq::filter, 2);
        assert(s.extensions.drop_last() =~= Seq::<OrderUpExtension>::empty());
    }
    assert(s1.extensions == seq![e]);
    let used = RunnerState { extensions: extensions_used(s1.extensions), ..s1 };
    assert(extending(s1.extensions) =~= seq![e]) by {
        reveal_with_fuel(extending, 2);
        assert(s1.extensions.drop_last() =~= Seq::<OrderUpExtension>::empty());
    }
    let longer = skills_lengthened(used, seq![e]);
    assert(longer == skill_lengthened(used, e)) by {
        assert(seq![e].drop_last() =~= Seq::<OrderUpExtension>::empty());
        reveal_with_fuel(skills_lengthened, 2);
    }
    lemma_held_fired_grows(longer, HeldTrigger::OrderUp);
    let ready = ready_to_check(s, field);
    lemma_pass_grows(ready, 0, field, distance);
    let done = skills_processed(s, field, distance);
    lemma_longer(
        s1.active.target_speed,
        longer.active.target_speed,
        ready.active.target_speed,
        done.active.target_speed,
        e,
    );
    lemma_longer(
        s1.active.current_speed,
        longer.active.current_speed,
        ready.active.current_speed,
        done.active.current_speed,
        e,
    );
    lemma_longer(
        s1.active.acceleration,
        longer.active.acceleration,
        ready.active.acceleration,
        done.active.acceleration,
        e,
    );
    lemma_longer(
        s1.active.lane_movement,
        longer.active.lane_movement,
        ready.active.lane_movement,
        done.active.lane_movement,
        e,
    );
    lemma_longer(
        s1.active.change_lane,
        longer.active.change_lane,
        ready.active.change_lane,
        done.active.change_lane,
        e,
    );
}

proof fn lemma_longer(
    before: Seq<ActiveSkill>,
    longer: Seq<ActiveSkill>,
    ready: Seq<ActiveSkill>,
    done: Seq<ActiveSkill>,
    e: OrderUpExtension,
)
    requires
        longer == crate::runner::process::lengthened(before, e.skill_id, e.seconds),
        longer.is_prefix_of(ready),
        ready.is_prefix_of(done),
    ensures
        goes_on_longer(before, done, e),
{
    assert forall|i: int| 0 <= i < before.len() implies #[trigger] done[i] == longer[i] by {
        assert(ready[i] == longer[i]);
        assert(done[i] == ready[i]);
    }
}

/// One held effect that a trigger sets off is applied once, and has one firing
/// less; one it does not set off stays as it is.
pub proof fn a_lone_held_effect_fires_or_stays(
    s: RunnerState,
    h: HeldAdditionalEffect,
    trigger: HeldTrigger,
)
    requires
        s.held == seq![h],
    ensures
        ({
            let goes_off = h.remaining > 0 && h.timer.t < 0 && match trigger {
                HeldTrigger::OrderUp => h.trigger == 1,
                HeldTrigger::SkillActivated(id) => h.skill_id != id && (h.trigger == 2
                    || h.trigger == 3),
            };
            let used = HeldAdditionalEffect { remaining: (h.remaining - 1) as u32, ..h };
            held_fired(s, trigger) == if goes_off {
                held_applied(RunnerState { held: seq![used], ..s }, h)
            } else {
                s
            }
        }),
{
    reveal(held_fired);
    reveal_with_fuel(firing, 2);
    reveal_with_fuel(all_held_applied, 2);
    assert(s.held.drop_last() =~= Seq::<HeldAdditionalEffect>::empty());
    let fired = firing(s.held, trigger);
    let used = HeldAdditionalEffect { remaining: (h.remaining - 1) as u32, ..h };
    if crate::runner::activation::fires(h, trigger) {
        assert(fired =~= seq![h]);
        assert(fired.drop_last() =~= Seq::<HeldAdditionalEffect>::empty());
        assert(after_firing(s.held, trigger) =~= seq![used]);
    } else {
        assert(fired.len() == 0);
        assert(after_firing(s.held, trigger) =~= s.held);
    }
}

/// Each effect of a skill applies once to what the ones before it left, and the
/// skill runs as long as the longest of them, and never under 0.
pub proof fn effects_apply_in_turn_and_the_longest_counts(
    s: RunnerState,
    p: PendingState,
    effects: Seq<SkillEffectSpec>,
    n: nat,
    distance: i64,
    scaling: i64,
    depth: nat,
)
    requires
        n < effects.len(),
    ensures
        ({
            let (before, longest) = effects_applied(s, p, effects, n, distance, scaling, depth);
            let (after, longer) = effects_applied(s, p, effects, n + 1, distance, scaling, depth);
            let lasts = effect_duration(
                before,
                p.rarity,
                effects[n as int].base_duration,
                distance,
                scaling,
            );
            &&& after == effect_applied(before, p, effects[n as int], distance, scaling, depth)
            &&& longer >= longest && longer >= lasts
            &&& longer == longest || longer == lasts
        }),
        effects_applied(s, p, effects, 0, distance, scaling, depth) == (s, 0i64),
{
}

/// Forcing golds takes them in the order drawn, one for each counted and none
/// past the last: none counted forces none, and one more counted forces the next
/// pick on top. The draws are taken all the same.
pub proof fn golds_are_forced_one_by_one(s: RunnerState, count: int, distance: i64, depth: nat)
    requires
        count >= 0,
    ensures
        ({
            let picks = gold_picks(s);
            let now = golds_forced(s, count, distance, depth);
            let more = golds_forced(s, count + 1, distance, depth);
            &&& count == 0 ==> nothing_happened(RunnerState { gold_rolls: now.gold_rolls, ..s }, now)
                && now.pending == s.pending
            &&& count < picks.len() ==> more == gold_forced(now, picks[count], distance, depth)
            &&& count >= picks.len() ==> more == now
        }),
{
}

/// A forced gold activates and is done: it is on record, due to go, and never
/// ready again in any of its entries.
pub proof fn a_forced_gold_is_done(
    s: RunnerState,
    at: usize,
    distance: i64,
    depth: nat,
    i: int,
)
    requires
        depth > 0,
        0 <= at < s.pending.len(),
        0 <= i < s.pending.len(),
    ensures
        ({
            let after = gold_forced(s, at, distance, depth);
            let id = s.pending[at as int].skill_id;
            &&& after.used_skills.contains(id)
            &&& after.removal.contains(id)
            &&& after.pending.len() == s.pending.len()
            &&& s.pending[i].skill_id == id ==> after.pending[i].ready_at == 0x7fff_ffff_ffff_ffff
        }),
{
    let p = s.pending[at as int];
    let fired = activated(s, p, distance, (depth - 1) as nat).0;
    crate::runner::activation::activation_leaves_the_pending_skills(
        s,
        p,
        distance,
        (depth - 1) as nat,
    );
    an_activation_is_on_record(s, p, distance, (depth - 1) as nat);
    assert(crate::runner::activation::same_but_ready(s.pending[i], fired.pending[i]));
    crate::runner::pass_laws::a_dropped_skill_is_done_in_every_entry(fired, p.skill_id, i);
}

/// A pending targeted skill of one effect lands as that effect, its strength
/// resolved by the receiver, with its origin and source on it.
pub proof fn an_injected_effect_lands_as_the_receiver_resolves_it(
    s: RunnerState,
    p: PendingTargetedState,
    effect: SkillEffectSpec,
    distance: i64,
)
    requires
        p.effects == seq![effect],
    ensures
        landed_by_type(
            after_resolving(s, p.skill_id.number, effect),
            injected(s, p, distance),
            TargetedEffectMeta {
                skill_id: p.skill_id,
                origin: p.origin,
                source_runner_id: p.source_runner_id,
            },
            resolved(s, p.skill_id.number, effect),
            course_scaled(effect.base_duration as int, distance as int) as i64,
        ),
{
    let meta = TargetedEffectMeta {
        skill_id: p.skill_id,
        origin: p.origin,
        source_runner_id: p.source_runner_id,
    };
    assert(application_order(p.effects) =~= p.effects) by {
        assert(p.effects.drop_last() =~= Seq::<SkillEffectSpec>::empty());
        reveal_with_fuel(crate::runner::activation::extension_effects, 2);
    }
    assert(p.effects.drop_last() =~= Seq::<SkillEffectSpec>::empty());
    reveal_with_fuel(all_resolved_and_landed, 2);
    a_cast_effect_does_what_its_type_says(
        after_resolving(s, p.skill_id.number, effect),
        meta,
        resolved(s, p.skill_id.number, effect),
        distance,
    );
}

/// A drawn or counted strength is the data's times its multiplier, to the nearest
/// unit: that of the band the next draw falls in, or that of the tier of the
/// greens activated so far.
pub proof fn a_scaled_strength_is_the_datas_times_its_multiplier(
    s: RunnerState,
    number: u32,
    effect: SkillEffectSpec,
    strength: int,
)
    requires
        effect.effect_type != SkillType::Recovery,
        in_range(strength),
        s.ledger.len() <= QUANTITY_MAX,
    ensures
        effect.value_scaling == ValueScalingPolicy::MultiplyRandom && is_nearest(
            strength,
            effect.modifier * band_multiplier(
                s.script.random_bands@,
                next_roll(s.skill_rolls) as int % 1_000_000_000,
            ),
            1_000_000_000,
        ) ==> resolved(s, number, effect).modifier == strength,
        effect.value_scaling == ValueScalingPolicy::MultiplyActivatedGreens && is_nearest(
            strength,
            effect.modifier * tier_multiplier(s.script.green_tiers@, green_count(s.ledger)),
            1_000_000_000,
        ) ==> resolved(s, number, effect).modifier == strength,
{
    lemma_greens_fit(s.ledger);
    let band = band_multiplier(
        s.script.random_bands@,
        next_roll(s.skill_rolls) as int % 1_000_000_000,
    );
    let tier = tier_multiplier(s.script.green_tiers@, green_count(s.ledger));
    if is_nearest(strength, effect.modifier * band, 1_000_000_000) {
        quantities_multiply_as_numbers(effect.modifier as int, band, strength);
    }
    if is_nearest(strength, effect.modifier * tier, 1_000_000_000) {
        quantities_multiply_as_numbers(effect.modifier as int, tier, strength);
    }
}

proof fn lemma_greens_fit(ledger: Seq<crate::runner::LedgerEntry>)
    ensures
        0 <= green_count(ledger) <= ledger.len(),
    decreases ledger.len(),
{
    if ledger.len() > 0 {
        lemma_greens_fit(ledger.drop_last());
    }
}

} // verus!
