//! A fresh round: which of a runner's skills are pending, and where.
use crate::condition::dynamic::{duplicate_condition, HalfCounts, PhaseCounts};
use crate::effect::{hits_opponents, is_external_debuff};
use crate::language::{copy_regions, Mood, Region, RegionList, Strategy};
use crate::model::{
    build_skill_effects, copy_effects, copy_tags, duplicate_precondition, effects_of,
    in_id_order, pending_states, real_units, targeted_states, to_real_units, trigger_states, PendingSkill,
    PendingState, PendingTargetedSkill, PendingTargetedState, Skill, SkillEffectSpec,
    SkillTrigger, TargetedSkillOrigin, TriggerState, READY_FROM_THE_START,
};
use crate::runner::activation::{course_scaled, scale_to_course};
use crate::runner::triggers::{
    build_skill_data, derive_target_strategy, skill_triggers, style_named,
    triggers_carry_the_skill_id, BuildSkillDataParams, ParsedAlternative,
};
use crate::runner::{
    find_scripted, scripted, ActiveLists, ActiveState, Runner, RunnerScript,
    RunnerState, RunnerTally, SkillQuantity, TargetedLists, TargetedState,
};
use crate::units::{divide_rounded, plus, rounded_quotient, sat, ONE};
use vstd::prelude::*;

verus! {

/// How far past its position a scripted activation may still fire: 10 m.
pub const FORCED_WINDOW: i64 = 10_000_000_000;

/// The window of an activation scripted at `position`.
pub open spec fn forced_window(position: i64) -> Region {
    Region { start: position, end: sat(position + FORCED_WINDOW) as i64 }
}

fn window_at(position: i64) -> (r: Region)
    ensures
        r == forced_window(position),
{
    Region::new(position, plus(position, FORCED_WINDOW))
}

/// The windows drawn for one trigger: one set per sample, each set holding the
/// windows of one round in position order.
pub type WindowSets = Vec<Vec<Region>>;

/// What a round is prepared from.
pub struct PrepareContext<'a> {
    /// Length of the course.
    pub course_distance: i64,
    /// The whole course as a region list.
    pub whole_course: &'a RegionList,
    /// Which round this is.
    pub round_iteration: usize,
    /// What the condition language makes of each skill's alternatives.
    pub parsed: &'a Vec<Vec<ParsedAlternative>>,
    /// What the condition language makes of each injected debuff's
    /// alternatives.
    pub parsed_debuffs: &'a Vec<Vec<ParsedAlternative>>,
    /// The windows drawn for each skill's triggers; a trigger without an entry
    /// has none.
    pub windows: &'a Vec<Vec<WindowSets>>,
}

impl PrepareContext<'_> {
    /// Whether every alternative of every skill and debuff has been through the
    /// condition language, and no drawn set is empty.
    pub open spec fn covers(&self, script: RunnerScript) -> bool {
        &&& self.parsed@.len() == script.skills@.len()
        &&& forall|i: int|
            0 <= i < self.parsed@.len() ==> (#[trigger] self.parsed@[i])@.len()
                == script.skills@[i].alternatives@.len()
        &&& self.parsed_debuffs@.len() == script.injected_debuffs@.len()
        &&& forall|i: int|
            0 <= i < self.parsed_debuffs@.len() ==> (#[trigger] self.parsed_debuffs@[i])@.len()
                == script.injected_debuffs@[i].skill.alternatives@.len()
        &&& forall|i: int, j: int, k: int|
            0 <= i < self.windows@.len() && 0 <= j < self.windows@[i]@.len() && 0 <= k
                < self.windows@[i]@[j]@.len() ==> (#[trigger] self.windows@[i]@[j]@[k])@.len() > 0
    }
}

/// The windows drawn for trigger `j` of skill `i`.
pub open spec fn drawn_sets(windows: Seq<Vec<WindowSets>>, i: int, j: int) -> Seq<Vec<Region>> {
    if 0 <= i < windows.len() && 0 <= j < windows[i]@.len() {
        windows[i]@[j]@
    } else {
        Seq::empty()
    }
}

/// The pending skills queued so far, and the numbers whose scripted activation
/// is among them.
#[verifier::ext_equal]
pub struct QueueState {
    pub pending: Seq<PendingState>,
    pub granted: Seq<u32>,
}

/// `number` added to the list, once.
pub open spec fn with_number(list: Seq<u32>, number: u32) -> Seq<u32> {
    if list.contains(number) {
        list
    } else {
        list.push(number)
    }
}

/// The windows a trigger gets this round: the scripted one, or the set drawn
/// for the round; none where none were drawn.
pub open spec fn round_windows(
    forced_position: Option<i64>,
    sets: Seq<Vec<Region>>,
    round: usize,
) -> Seq<Region> {
    match forced_position {
        Some(position) => seq![forced_window(position)],
        None => if sets.len() == 0 {
            Seq::empty()
        } else {
            sets[round as int % sets.len() as int]@
        },
    }
}

/// The cooldown of a trigger on a course `distance` long.
pub open spec fn cooldown_of(cooldown_time: Option<i64>, distance: i64) -> i64 {
    match cooldown_time {
        Some(raw) => course_scaled(real_units(raw as int), distance as int) as i64,
        None => 0,
    }
}

/// The pending skill of trigger `t` at `windows`. A forced one fires there
/// unconditionally: it keeps no condition, no cooldown and no later window.
pub open spec fn pending_of(
    t: TriggerState,
    windows: Seq<Region>,
    forced: bool,
    distance: i64,
) -> PendingState {
    PendingState {
        skill_id: t.skill_id,
        rarity: t.rarity,
        tags: t.tags,
        trigger: windows[0],
        effects: t.effects,
        extra_condition: if forced {
            None
        } else {
            t.extra_condition
        },
        target_strategy: t.target_strategy,
        duration_scaling: t.duration_scaling,
        cooldown: if forced {
            0
        } else {
            cooldown_of(t.cooldown_time, distance)
        },
        later_triggers: if forced {
            Seq::empty()
        } else {
            windows.skip(1)
        },
        ready_at: READY_FROM_THE_START,
        wit_passed: false,
        forced,
        precondition: if forced {
            None
        } else {
            t.precondition
        },
        exclusive_alternative: t.exclusive_alternative,
    }
}

/// The queue with trigger `t` added. The first trigger of a scripted skill is
/// forced at its position; the skill's exclusive alternatives then stay out,
/// and its other triggers wait at that position on their own conditions.
#[verifier::opaque]
pub open spec fn trigger_queued(
    q: QueueState,
    t: TriggerState,
    forced_positions: Seq<SkillQuantity>,
    sets: Seq<Vec<Region>>,
    round: usize,
    distance: i64,
) -> QueueState {
    let number = t.skill_id.number;
    let forced_position = scripted(forced_positions, number);
    let forced = forced_position is Some && !q.granted.contains(number);
    let granted = if forced_position is Some {
        with_number(q.granted, number)
    } else {
        q.granted
    };
    let windows = round_windows(forced_position, sets, round);
    if (forced_position is Some && !forced && t.exclusive_alternative is Some) || windows.len()
        == 0 {
        QueueState { granted, ..q }
    } else {
        QueueState { pending: q.pending.push(pending_of(t, windows, forced, distance)), granted }
    }
}

/// The queue with the first `n` triggers of skill `i` added.
pub open spec fn triggers_queued(
    q: QueueState,
    triggers: Seq<TriggerState>,
    forced_positions: Seq<SkillQuantity>,
    windows: Seq<Vec<WindowSets>>,
    i: int,
    round: usize,
    distance: i64,
    n: nat,
) -> QueueState
    decreases n,
{
    if n == 0 {
        q
    } else {
        trigger_queued(
            triggers_queued(
                q,
                triggers,
                forced_positions,
                windows,
                i,
                round,
                distance,
                (n - 1) as nat,
            ),
            triggers[n - 1],
            forced_positions,
            drawn_sets(windows, i, n - 1),
            round,
            distance,
        )
    }
}

/// The triggers of the runner's skill `i`.
pub open spec fn triggers_of_skill(
    script: RunnerScript,
    ctx: PrepareContext<'_>,
    i: int,
) -> Seq<TriggerState> {
    skill_triggers(script.skills@[i], ctx.parsed@[i]@, ctx.whole_course@, false)
}

/// The queue once the first `n` skills' triggers are in it.
pub open spec fn skills_queued(script: RunnerScript, ctx: PrepareContext<'_>, n: nat) -> QueueState
    decreases n,
{
    if n == 0 {
        QueueState { pending: Seq::empty(), granted: Seq::empty() }
    } else {
        let triggers = triggers_of_skill(script, ctx, n - 1);
        triggers_queued(
            skills_queued(script, ctx, (n - 1) as nat),
            triggers,
            script.forced_positions@,
            ctx.windows@,
            n - 1,
            ctx.round_iteration,
            ctx.course_distance,
            triggers.len(),
        )
    }
}

/// The first alternative from `k` on that has effects to apply.
pub open spec fn first_effective(skill: Skill, k: int) -> Option<int>
    decreases skill.alternatives@.len() - k,
{
    if k < 0 || k >= skill.alternatives@.len() {
        None
    } else if effects_of(skill.alternatives@[k]).len() > 0 {
        Some(k)
    } else {
        first_effective(skill, k + 1)
    }
}

/// The pending entry of a scripted skill that no trigger of its own brings in:
/// its first alternative with effects, forced at `position`.
pub open spec fn synthesized(skill: Skill, k: int, position: i64) -> PendingState {
    let alt = skill.alternatives@[k];
    PendingState {
        skill_id: skill.skill_id,
        rarity: skill.rarity,
        tags: skill.tags@,
        trigger: forced_window(position),
        effects: effects_of(alt),
        extra_condition: None,
        target_strategy: style_named(alt.condition@),
        duration_scaling: alt.duration_scaling,
        cooldown: 0,
        later_triggers: Seq::empty(),
        ready_at: READY_FROM_THE_START,
        wit_passed: false,
        forced: true,
        precondition: None,
        exclusive_alternative: None,
    }
}

/// The queue with a scripted skill added that has no trigger in it yet.
#[verifier::opaque]
pub open spec fn script_honored(
    q: QueueState,
    skill: Skill,
    forced_positions: Seq<SkillQuantity>,
) -> QueueState {
    let number = skill.skill_id.number;
    match scripted(forced_positions, number) {
        Some(position) => if q.granted.contains(number) {
            q
        } else {
            match first_effective(skill, 0) {
                Some(k) => QueueState {
                    pending: q.pending.push(synthesized(skill, k, position)),
                    granted: q.granted.push(number),
                },
                None => q,
            }
        },
        None => q,
    }
}

/// The queue once the first `n` skills' scripted activations are honored.
pub open spec fn scripts_honored(q: QueueState, script: RunnerScript, n: nat) -> QueueState
    decreases n,
{
    if n == 0 {
        q
    } else {
        script_honored(
            scripts_honored(q, script, (n - 1) as nat),
            script.skills@[n - 1],
            script.forced_positions@,
        )
    }
}

/// The pending skills a round starts with.
pub open spec fn round_queue(script: RunnerScript, ctx: PrepareContext<'_>) -> QueueState {
    scripts_honored(
        skills_queued(script, ctx, script.skills@.len()),
        script,
        script.skills@.len(),
    )
}

/// The debuffs on opponents among `effects`, in order.
pub open spec fn external_debuffs(effects: Seq<SkillEffectSpec>) -> Seq<SkillEffectSpec>
    decreases effects.len(),
{
    if effects.len() == 0 {
        Seq::empty()
    } else {
        let before = external_debuffs(effects.drop_last());
        let e = effects.last();
        if hits_opponents(e.effect_type, e.target, e.modifier as int) {
            before.push(e)
        } else {
            before
        }
    }
}

/// The injected debuffs queued once the first `n` triggers of debuff `position`
/// are in: each with a debuff among its effects, at the scripted position.
pub open spec fn debuff_triggers_queued(
    q: Seq<PendingTargetedState>,
    triggers: Seq<TriggerState>,
    position: i64,
    n: nat,
) -> Seq<PendingTargetedState>
    decreases n,
{
    if n == 0 {
        q
    } else {
        let before = debuff_triggers_queued(q, triggers, position, (n - 1) as nat);
        let t = triggers[n - 1];
        if external_debuffs(t.effects).len() == 0 {
            before
        } else {
            before.push(
                PendingTargetedState {
                    skill_id: t.skill_id,
                    origin: TargetedSkillOrigin::Injection,
                    source_runner_id: None,
                    trigger: forced_window(position),
                    effects: external_debuffs(t.effects),
                },
            )
        }
    }
}

/// The triggers of injected debuff `i`.
pub open spec fn triggers_of_debuff(
    script: RunnerScript,
    ctx: PrepareContext<'_>,
    i: int,
) -> Seq<TriggerState> {
    skill_triggers(
        script.injected_debuffs@[i].skill,
        ctx.parsed_debuffs@[i]@,
        ctx.whole_course@,
        false,
    )
}

/// The targeted skills a round starts with, once the first `n` injected debuffs
/// are in.
pub open spec fn debuffs_queued(script: RunnerScript, ctx: PrepareContext<'_>, n: nat) -> Seq<
    PendingTargetedState,
>
    decreases n,
{
    if n == 0 {
        Seq::empty()
    } else {
        let triggers = triggers_of_debuff(script, ctx, n - 1);
        debuff_triggers_queued(
            debuffs_queued(script, ctx, (n - 1) as nat),
            triggers,
            script.injected_debuffs@[n - 1].position,
            triggers.len(),
        )
    }
}

/// No effect of the runner's own skills.
pub open spec fn no_active() -> ActiveState {
    ActiveState {
        target_speed: Seq::empty(),
        current_speed: Seq::empty(),
        acceleration: Seq::empty(),
        lane_movement: Seq::empty(),
        change_lane: Seq::empty(),
    }
}

/// No targeted effect.
pub open spec fn no_targeted() -> TargetedState {
    TargetedState {
        target_speed: Seq::empty(),
        current_speed: Seq::empty(),
        acceleration: Seq::empty(),
        lane_movement: Seq::empty(),
        change_lane: Seq::empty(),
    }
}

/// The tally with its skill counts back at nothing.
pub open spec fn counts_reset(tally: RunnerTally) -> RunnerTally {
    RunnerTally {
        skills_activated_count: 0,
        activations_at_tick_start: 0,
        activations_at_last_tick_start: 0,
        skills_activated_phase_map: PhaseCounts { early: 0, mid: 0, late: 0, spurt: 0 },
        skills_activated_half_race_map: HalfCounts { first: 0, second: 0 },
        heals_activated_count: 0,
        activated_advantage_effect_types: 0,
        ..tally
    }
}

/// The runner with her skill tracking set up for a fresh round: nothing runs,
/// nothing has activated, and her skills and injected debuffs are pending.
pub open spec fn tracking_initialized(s: RunnerState, ctx: PrepareContext<'_>) -> RunnerState {
    RunnerState {
        tally: counts_reset(s.tally),
        active: no_active(),
        targeted: no_targeted(),
        pending: round_queue(s.script, ctx).pending,
        pending_targeted: debuffs_queued(s.script, ctx, s.script.injected_debuffs@.len()),
        held: Seq::empty(),
        extensions: Seq::empty(),
        used_skills: Seq::empty(),
        ledger: Seq::empty(),
        used_targeted: Seq::empty(),
        emitted: Seq::empty(),
        removal: Seq::empty(),
        ..s
    }
}

fn contains_number(list: &Vec<u32>, number: u32) -> (found: bool)
    ensures
        found == list@.contains(number),
{
    let mut i: usize = 0;
    while i < list.len()
        invariant
            i <= list.len(),
            forall|k: int| 0 <= k < i ==> list@[k] != number,
        decreases list.len() - i,
    {
        if list[i] == number {
            return true;
        }
        i = i + 1;
    }
    false
}

fn cooldown_on_course(cooldown_time: Option<i64>, distance: i64) -> (cooldown: i64)
    ensures
        cooldown == cooldown_of(cooldown_time, distance),
{
    match cooldown_time {
        Some(raw) => scale_to_course(to_real_units(raw), distance),
        None => 0,
    }
}

/// The windows of a trigger this round (see [`round_windows`]).
fn windows_for(
    forced_position: Option<i64>,
    ctx: &PrepareContext<'_>,
    i: usize,
    j: usize,
) -> (windows: Vec<Region>)
    ensures
        windows@ == round_windows(
            forced_position,
            drawn_sets(ctx.windows@, i as int, j as int),
            ctx.round_iteration,
        ),
{
    match forced_position {
        Some(position) => {
            let mut windows: Vec<Region> = Vec::new();
            windows.push(window_at(position));
            proof {
                assert(windows@ =~= seq![forced_window(position)]);
            }
            windows
        },
        None => {
            if i < ctx.windows.len() && j < ctx.windows[i].len() {
                let sets = &ctx.windows[i][j];
                let n: usize = sets.len();
                if n == 0 {
                    return Vec::new();
                }
                copy_regions(&sets[ctx.round_iteration % n])
            } else {
                Vec::new()
            }
        },
    }
}

/// All but the first of `windows`.
fn later_windows(windows: &Vec<Region>) -> (later: Vec<Region>)
    requires
        windows@.len() > 0,
    ensures
        later@ == windows@.skip(1),
{
    let mut later: Vec<Region> = Vec::new();
    let mut i: usize = 1;
    while i < windows.len()
        invariant
            1 <= i <= windows@.len(),
            later@ == windows@.subrange(1, i as int),
        decreases windows@.len() - i,
    {
        later.push(windows[i]);
        i = i + 1;
        proof {
            assert(windows@.subrange(1, i as int) =~= windows@.subrange(1, i - 1).push(
                windows@[i - 1],
            ));
        }
    }
    proof {
        assert(later@ =~= windows@.skip(1));
    }
    later
}

fn queue_trigger(
    pending: &mut Vec<PendingSkill>,
    granted: &mut Vec<u32>,
    t: &SkillTrigger,
    forced_positions: &Vec<SkillQuantity>,
    ctx: &PrepareContext<'_>,
    i: usize,
    j: usize,
)
    ensures
        (QueueState { pending: pending_states(final(pending)@), granted: final(granted)@ })
            == trigger_queued(
            QueueState { pending: pending_states(old(pending)@), granted: old(granted)@ },
            t@,
            forced_positions@,
            drawn_sets(ctx.windows@, i as int, j as int),
            ctx.round_iteration,
            ctx.course_distance,
        ),
{
    proof {
        reveal(trigger_queued);
    }
    let ghost before = pending@;
    let number: u32 = t.skill_id.base();
    let forced_position = find_scripted(forced_positions, number);
    let forced = forced_position.is_some() && !contains_number(granted, number);
    if forced {
        granted.push(number);
    }
    if forced_position.is_some() && !forced && t.exclusive_alternative.is_some() {
        return;
    }
    let windows = windows_for(forced_position, ctx, i, j);
    if windows.len() == 0 {
        return;
    }
    let entry = PendingSkill {
        skill_id: t.skill_id,
        rarity: t.rarity,
        tags: copy_tags(&t.tags),
        trigger: windows[0],
        effects: copy_effects(&t.effects),
        extra_condition: if forced {
            None
        } else {
            duplicate_condition(&t.extra_condition)
        },
        target_strategy: t.target_strategy,
        duration_scaling: t.duration_scaling,
        cooldown: if forced {
            0
        } else {
            cooldown_on_course(t.cooldown_time, ctx.course_distance)
        },
        later_triggers: if forced {
            Vec::new()
        } else {
            later_windows(&windows)
        },
        ready_at: READY_FROM_THE_START,
        wit_passed: false,
        forced,
        precondition: if forced {
            None
        } else {
            duplicate_precondition(&t.precondition)
        },
        exclusive_alternative: t.exclusive_alternative,
    };
    proof {
        assert(entry@ == pending_of(t@, windows@, forced, ctx.course_distance));
    }
    pending.push(entry);
    proof {
        assert(pending_states(pending@) =~= pending_states(before).push(entry@));
    }
}

fn honor_script(
    pending: &mut Vec<PendingSkill>,
    granted: &mut Vec<u32>,
    skill: &Skill,
    forced_positions: &Vec<SkillQuantity>,
)
    ensures
        (QueueState { pending: pending_states(final(pending)@), granted: final(granted)@ })
            == script_honored(
            QueueState { pending: pending_states(old(pending)@), granted: old(granted)@ },
            *skill,
            forced_positions@,
        ),
{
    proof {
        reveal(script_honored);
    }
    let ghost before = pending@;
    let number: u32 = skill.skill_id.base();
    let position: i64 = match find_scripted(forced_positions, number) {
        Some(position) => position,
        None => {
            return;
        },
    };
    if contains_number(granted, number) {
        return;
    }
    if let Some(k) = find_effective(skill) {
        let alt = &skill.alternatives[k];
        let entry = PendingSkill {
            skill_id: skill.skill_id,
            rarity: skill.rarity,
            tags: copy_tags(&skill.tags),
            trigger: window_at(position),
            effects: build_skill_effects(alt),
            extra_condition: None,
            target_strategy: derive_target_strategy(alt.condition.as_str()),
            duration_scaling: alt.duration_scaling,
            cooldown: 0,
            later_triggers: Vec::new(),
            ready_at: READY_FROM_THE_START,
            wit_passed: false,
            forced: true,
            precondition: None,
            exclusive_alternative: None,
        };
        proof {
            assert(entry@ == synthesized(*skill, k as int, position));
        }
        pending.push(entry);
        granted.push(number);
        proof {
            assert(pending_states(pending@) =~= pending_states(before).push(entry@));
        }
    }
}

/// The first alternative with effects to apply.
fn find_effective(skill: &Skill) -> (k: Option<usize>)
    ensures
        match k {
            Some(k) => first_effective(*skill, 0) == Some(k as int) && k
                < skill.alternatives@.len(),
            None => first_effective(*skill, 0) is None,
        },
{
    let mut k: usize = 0;
    while k < skill.alternatives.len()
        invariant
            k <= skill.alternatives@.len(),
            first_effective(*skill, 0) == first_effective(*skill, k as int),
        decreases skill.alternatives@.len() - k,
    {
        let effects = build_skill_effects(&skill.alternatives[k]);
        if effects.len() > 0 {
            return Some(k);
        }
        k = k + 1;
    }
    None
}

fn find_external_debuffs(effects: &Vec<SkillEffectSpec>) -> (external: Vec<SkillEffectSpec>)
    ensures
        external@ == external_debuffs(effects@),
{
    let mut external: Vec<SkillEffectSpec> = Vec::new();
    let mut i: usize = 0;
    while i < effects.len()
        invariant
            i <= effects@.len(),
            external@ == external_debuffs(effects@.take(i as int)),
        decreases effects@.len() - i,
    {
        proof {
            assert(effects@.take(i + 1).drop_last() =~= effects@.take(i as int));
        }
        let e = effects[i];
        if is_external_debuff(e.effect_type, e.target, e.modifier) {
            external.push(e);
        }
        i = i + 1;
    }
    proof {
        assert(effects@.take(i as int) =~= effects@);
    }
    external
}

/// The skills of a round, queued (see [`round_queue`]).
fn queue_skills(script: &RunnerScript, ctx: &PrepareContext<'_>) -> (pending: Vec<PendingSkill>)
    requires
        ctx.covers(*script),
    ensures
        pending_states(pending@) == round_queue(*script, *ctx).pending,
{
    let mut pending: Vec<PendingSkill> = Vec::new();
    let mut granted: Vec<u32> = Vec::new();
    let total: usize = script.skills.len();
    proof {
        assert(pending_states(pending@) =~= Seq::<PendingState>::empty());
    }
    let mut i: usize = 0;
    while i < total
        invariant
            ctx.covers(*script),
            total == script.skills@.len(),
            i <= total,
            (QueueState { pending: pending_states(pending@), granted: granted@ })
                == skills_queued(*script, *ctx, i as nat),
        decreases total - i,
    {
        let ghost start = QueueState { pending: pending_states(pending@), granted: granted@ };
        let triggers = build_skill_data(
            &BuildSkillDataParams {
                whole_course: ctx.whole_course,
                skill: &script.skills[i],
                parsed: &ctx.parsed[i],
                ignore_null_effects: false,
            },
        );
        let mut j: usize = 0;
        while j < triggers.len()
            invariant
                j <= triggers@.len(),
                (QueueState { pending: pending_states(pending@), granted: granted@ })
                    == triggers_queued(
                    start,
                    trigger_states(triggers@),
                    script.forced_positions@,
                    ctx.windows@,
                    i as int,
                    ctx.round_iteration,
                    ctx.course_distance,
                    j as nat,
                ),
            decreases triggers@.len() - j,
        {
            queue_trigger(
                &mut pending,
                &mut granted,
                &triggers[j],
                &script.forced_positions,
                ctx,
                i,
                j,
            );
            j = j + 1;
        }
        i = i + 1;
    }
    let ghost queued = QueueState { pending: pending_states(pending@), granted: granted@ };
    let mut i: usize = 0;
    while i < total
        invariant
            total == script.skills@.len(),
            i <= total,
            (QueueState { pending: pending_states(pending@), granted: granted@ })
                == scripts_honored(queued, *script, i as nat),
        decreases total - i,
    {
        honor_script(&mut pending, &mut granted, &script.skills[i], &script.forced_positions);
        i = i + 1;
    }
    pending
}

/// The injected debuffs of a round, queued (see [`debuffs_queued`]).
fn queue_debuffs(script: &RunnerScript, ctx: &PrepareContext<'_>) -> (queue: Vec<
    PendingTargetedSkill,
>)
    requires
        ctx.covers(*script),
    ensures
        targeted_states(queue@) == debuffs_queued(*script, *ctx, script.injected_debuffs@.len()),
{
    let mut queue: Vec<PendingTargetedSkill> = Vec::new();
    let total: usize = script.injected_debuffs.len();
    proof {
        assert(targeted_states(queue@) =~= Seq::<PendingTargetedState>::empty());
    }
    let mut i: usize = 0;
    while i < total
        invariant
            ctx.covers(*script),
            total == script.injected_debuffs@.len(),
            i <= total,
            targeted_states(queue@) == debuffs_queued(*script, *ctx, i as nat),
        decreases total - i,
    {
        let ghost start = targeted_states(queue@);
        let debuff = &script.injected_debuffs[i];
        let triggers = build_skill_data(
            &BuildSkillDataParams {
                whole_course: ctx.whole_course,
                skill: &debuff.skill,
                parsed: &ctx.parsed_debuffs[i],
                ignore_null_effects: false,
            },
        );
        let mut j: usize = 0;
        while j < triggers.len()
            invariant
                j <= triggers@.len(),
                targeted_states(queue@) == debuff_triggers_queued(
                    start,
                    trigger_states(triggers@),
                    debuff.position,
                    j as nat,
                ),
            decreases triggers@.len() - j,
        {
            let ghost before = queue@;
            let t = &triggers[j];
            let external = find_external_debuffs(&t.effects);
            if external.len() > 0 {
                let entry = PendingTargetedSkill {
                    skill_id: t.skill_id,
                    origin: TargetedSkillOrigin::Injection,
                    source_runner_id: None,
                    trigger: window_at(debuff.position),
                    effects: external,
                };
                queue.push(entry);
                proof {
                    assert(targeted_states(queue@) =~= targeted_states(before).push(entry@));
                }
            }
            j = j + 1;
        }
        i = i + 1;
    }
    queue
}

/// A stat as the condition language reads it: whole points.
pub open spec fn whole_points(stat: i64) -> int {
    let points = rounded_quotient(stat as int, ONE as int);
    if points > i32::MAX {
        i32::MAX as int
    } else if points < i32::MIN {
        i32::MIN as int
    } else {
        points
    }
}

fn round_to_points(stat: i64) -> (points: i32)
    ensures
        points == whole_points(stat),
{
    let points: i128 = divide_rounded(stat as i128, ONE as i128);
    if points > i32::MAX as i128 {
        i32::MAX
    } else if points < i32::MIN as i128 {
        i32::MIN
    } else {
        points as i32
    }
}

/// The five stats in whole points.
#[derive(Debug, Clone, Copy, PartialEq, Eq, Structural)]
pub struct StatLine {
    pub speed: i32,
    pub stamina: i32,
    pub power: i32,
    pub guts: i32,
    pub wit: i32,
}

/// What the condition language reads of a runner.
#[derive(Debug, Clone, Copy, PartialEq, Eq, Structural)]
pub struct SkillEvalRunner {
    pub base_stats: StatLine,
    pub strategy: Strategy,
    pub mood: Mood,
    pub popularity: i64,
}

impl Runner {
    /// What the condition language reads of the runner.
    pub fn skill_eval_runner(&self) -> (eval: SkillEvalRunner)
        ensures
            eval.base_stats.speed == whole_points(self.tally.base_stats.speed),
            eval.base_stats.stamina == whole_points(self.tally.base_stats.stamina),
            eval.base_stats.power == whole_points(self.tally.base_stats.power),
            eval.base_stats.guts == whole_points(self.tally.base_stats.guts),
            eval.base_stats.wit == whole_points(self.tally.base_stats.wit),
            eval.strategy == self.body.strategy,
            eval.mood == self.body.mood,
            eval.popularity == self.body.popularity,
    {
        SkillEvalRunner {
            base_stats: StatLine {
                speed: round_to_points(self.tally.base_stats.speed),
                stamina: round_to_points(self.tally.base_stats.stamina),
                power: round_to_points(self.tally.base_stats.power),
                guts: round_to_points(self.tally.base_stats.guts),
                wit: round_to_points(self.tally.base_stats.wit),
            },
            strategy: self.body.strategy,
            mood: self.body.mood,
            popularity: self.body.popularity,
        }
    }

    /// Reset and rebuild the skill tracking for a fresh round.
    pub fn initialize_skill_tracking(&mut self, ctx: &PrepareContext<'_>)
        requires
            ctx.covers(old(self).script),
        ensures
            final(self)@ == tracking_initialized(old(self)@, *ctx),
    {
        self.active = ActiveLists {
            target_speed: Vec::new(),
            current_speed: Vec::new(),
            acceleration: Vec::new(),
            lane_movement: Vec::new(),
            change_lane: Vec::new(),
        };
        self.targeted = TargetedLists {
            target_speed: Vec::new(),
            current_speed: Vec::new(),
            acceleration: Vec::new(),
            lane_movement: Vec::new(),
            change_lane: Vec::new(),
        };
        self.tally.skills_activated_count = 0;
        self.tally.activations_at_tick_start = 0;
        self.tally.activations_at_last_tick_start = 0;
        self.tally.skills_activated_phase_map = PhaseCounts { early: 0, mid: 0, late: 0, spurt: 0 };
        self.tally.skills_activated_half_race_map = HalfCounts { first: 0, second: 0 };
        self.tally.heals_activated_count = 0;
        self.tally.activated_advantage_effect_types = 0;
        self.used_skills = Vec::new();
        self.activated_ledger = Vec::new();
        self.used_targeted_skills = Vec::new();
        self.emitted_debuffs = Vec::new();
        self.pending_skill_removal = Vec::new();
        self.held_additional_effects = Vec::new();
        self.order_up_extensions = Vec::new();
        self.pending_skills = queue_skills(&self.script, ctx);
        self.initialize_targeted_skill_tracking(ctx);
    }

    /// Queue each injected debuff at its position, with the debuffs among its
    /// effects.
    fn initialize_targeted_skill_tracking(&mut self, ctx: &PrepareContext<'_>)
        requires
            ctx.covers(old(self).script),
        ensures
            final(self)@ == (RunnerState {
                pending_targeted: debuffs_queued(
                    old(self).script,
                    *ctx,
                    old(self).script.injected_debuffs@.len(),
                ),
                ..old(self)@
            }),
    {
        self.pending_targeted_skills = queue_debuffs(&self.script, ctx);
    }
}

/// Whether pending skill `p` is the scripted activation of skill `number`.
pub open spec fn is_scripted_activation(
    p: PendingState,
    number: u32,
    forced_positions: Seq<SkillQuantity>,
) -> bool {
    &&& p.forced
    &&& p.skill_id.number == number
    &&& scripted(forced_positions, number) is Some
    &&& p.trigger == forced_window(scripted(forced_positions, number)->0)
    &&& p.extra_condition is None
    &&& p.precondition is None
    &&& p.cooldown == 0
    &&& p.later_triggers.len() == 0
}

/// Whether one of the pending skills is the scripted activation of `number`.
pub open spec fn has_scripted_activation(
    pending: Seq<PendingState>,
    number: u32,
    forced_positions: Seq<SkillQuantity>,
) -> bool {
    exists|i: int|
        0 <= i < pending.len() && is_scripted_activation(
            #[trigger] pending[i],
            number,
            forced_positions,
        )
}

/// Whether the forced entries of a queue are scripted activations, at most one
/// per skill number, and the granted numbers are the ones that have one.
pub open spec fn scripts_in_order(q: QueueState, forced_positions: Seq<SkillQuantity>) -> bool {
    &&& forall|i: int|
        0 <= i < q.pending.len() && (#[trigger] q.pending[i]).forced ==> is_scripted_activation(
            q.pending[i],
            q.pending[i].skill_id.number,
            forced_positions,
        ) && q.granted.contains(q.pending[i].skill_id.number)
    &&& forall|i: int, j: int|
        0 <= i < j < q.pending.len() && (#[trigger] q.pending[i]).forced && (
        #[trigger] q.pending[j]).forced ==> q.pending[i].skill_id.number
            != q.pending[j].skill_id.number
    &&& forall|number: u32|
        #[trigger] q.granted.contains(number) ==> has_scripted_activation(
            q.pending,
            number,
            forced_positions,
        )
}

proof fn lemma_push_keeps_scripts_in_order(
    q: QueueState,
    p: PendingState,
    granted: Seq<u32>,
    forced_positions: Seq<SkillQuantity>,
)
    requires
        scripts_in_order(q, forced_positions),
        p.forced ==> is_scripted_activation(p, p.skill_id.number, forced_positions)
            && !q.granted.contains(p.skill_id.number) && granted == q.granted.push(
            p.skill_id.number,
        ),
        !p.forced ==> granted == q.granted,
    ensures
        scripts_in_order(QueueState { pending: q.pending.push(p), granted }, forced_positions),
        forall|number: u32| #[trigger] q.granted.contains(number) ==> granted.contains(number),
{
    let after = QueueState { pending: q.pending.push(p), granted };
    assert forall|number: u32| #[trigger] q.granted.contains(number) implies granted.contains(
        number,
    ) by {
        let k = q.granted.index_of(number);
        assert(granted[k] == number);
    }
    assert forall|i: int|
        0 <= i < after.pending.len() && (
        #[trigger] after.pending[i]).forced implies is_scripted_activation(
        after.pending[i],
        after.pending[i].skill_id.number,
        forced_positions,
    ) && granted.contains(after.pending[i].skill_id.number) by {
        if i < q.pending.len() {
            assert(q.pending[i].forced);
        } else {
            assert(granted[granted.len() - 1] == p.skill_id.number);
        }
    }
    assert forall|i: int, j: int|
        0 <= i < j < after.pending.len() && (#[trigger] after.pending[i]).forced && (
        #[trigger] after.pending[j]).forced implies after.pending[i].skill_id.number
        != after.pending[j].skill_id.number by {
        assert(q.pending[i].forced);
        if j < q.pending.len() {
            assert(q.pending[j].forced);
        }
    }
    assert forall|number: u32| #[trigger] granted.contains(number) implies has_scripted_activation(
        after.pending,
        number,
        forced_positions,
    ) by {
        if q.granted.contains(number) {
            let i = choose|i: int|
                0 <= i < q.pending.len() && is_scripted_activation(
                    #[trigger] q.pending[i],
                    number,
                    forced_positions,
                );
            assert(after.pending[i] == q.pending[i]);
        } else {
            let k = granted.index_of(number);
            assert(granted[k] == number);
            assert(k == q.granted.len()) by {
                if k < q.granted.len() {
                    assert(q.granted[k] == number);
                }
            }
            assert(after.pending[q.pending.len() as int] == p);
        }
    }
}

proof fn lemma_trigger_keeps_scripts_in_order(
    q: QueueState,
    t: TriggerState,
    forced_positions: Seq<SkillQuantity>,
    sets: Seq<Vec<Region>>,
    round: usize,
    distance: i64,
)
    requires
        scripts_in_order(q, forced_positions),
    ensures
        scripts_in_order(
            trigger_queued(q, t, forced_positions, sets, round, distance),
            forced_positions,
        ),
        forall|number: u32|
            #[trigger] q.granted.contains(number) ==> trigger_queued(
                q,
                t,
                forced_positions,
                sets,
                round,
                distance,
            ).granted.contains(number),
{
    reveal(trigger_queued);
    let number = t.skill_id.number;
    let forced_position = scripted(forced_positions, number);
    let forced = forced_position is Some && !q.granted.contains(number);
    let windows = round_windows(forced_position, sets, round);
    let granted = if forced_position is Some {
        with_number(q.granted, number)
    } else {
        q.granted
    };
    if windows.len() > 0 {
        lemma_push_keeps_scripts_in_order(
            q,
            pending_of(t, windows, forced, distance),
            granted,
            forced_positions,
        );
    }
}

proof fn lemma_triggers_keep_scripts_in_order(
    q: QueueState,
    triggers: Seq<TriggerState>,
    forced_positions: Seq<SkillQuantity>,
    windows: Seq<Vec<WindowSets>>,
    i: int,
    round: usize,
    distance: i64,
    n: nat,
)
    requires
        scripts_in_order(q, forced_positions),
    ensures
        scripts_in_order(
            triggers_queued(q, triggers, forced_positions, windows, i, round, distance, n),
            forced_positions,
        ),
    decreases n,
{
    if n > 0 {
        lemma_triggers_keep_scripts_in_order(
            q,
            triggers,
            forced_positions,
            windows,
            i,
            round,
            distance,
            (n - 1) as nat,
        );
        lemma_trigger_keeps_scripts_in_order(
            triggers_queued(
                q,
                triggers,
                forced_positions,
                windows,
                i,
                round,
                distance,
                (n - 1) as nat,
            ),
            triggers[n - 1],
            forced_positions,
            drawn_sets(windows, i, n - 1),
            round,
            distance,
        );
    }
}

proof fn lemma_skills_keep_scripts_in_order(
    script: RunnerScript,
    ctx: PrepareContext<'_>,
    n: nat,
)
    ensures
        scripts_in_order(skills_queued(script, ctx, n), script.forced_positions@),
    decreases n,
{
    if n > 0 {
        lemma_skills_keep_scripts_in_order(script, ctx, (n - 1) as nat);
        let triggers = triggers_of_skill(script, ctx, n - 1);
        lemma_triggers_keep_scripts_in_order(
            skills_queued(script, ctx, (n - 1) as nat),
            triggers,
            script.forced_positions@,
            ctx.windows@,
            n - 1,
            ctx.round_iteration,
            ctx.course_distance,
            triggers.len(),
        );
    }
}

proof fn lemma_honoring_keeps_scripts_in_order(
    q: QueueState,
    script: RunnerScript,
    n: nat,
)
    requires
        n <= script.skills@.len(),
        scripts_in_order(q, script.forced_positions@),
    ensures
        scripts_in_order(scripts_honored(q, script, n), script.forced_positions@),
        forall|i: int|
            0 <= i < n && scripted(
                script.forced_positions@,
                (#[trigger] script.skills@[i]).skill_id.number,
            ) is Some && first_effective(script.skills@[i], 0) is Some ==> scripts_honored(
                q,
                script,
                n,
            ).granted.contains(script.skills@[i].skill_id.number),
    decreases n,
{
    if n > 0 {
        lemma_honoring_keeps_scripts_in_order(q, script, (n - 1) as nat);
        let before = scripts_honored(q, script, (n - 1) as nat);
        let after = scripts_honored(q, script, n);
        let skill = script.skills@[n - 1];
        let number = skill.skill_id.number;
        reveal(script_honored);
        if let Some(position) = scripted(script.forced_positions@, number) {
            if !before.granted.contains(number) {
                if let Some(k) = first_effective(skill, 0) {
                    lemma_push_keeps_scripts_in_order(
                        before,
                        synthesized(skill, k, position),
                        before.granted.push(number),
                        script.forced_positions@,
                    );
                    assert(after.granted[before.granted.len() as int] == number);
                }
            }
        }
        assert forall|i: int|
            0 <= i < n && scripted(
                script.forced_positions@,
                (#[trigger] script.skills@[i]).skill_id.number,
            ) is Some && first_effective(
                script.skills@[i],
                0,
            ) is Some implies after.granted.contains(script.skills@[i].skill_id.number) by {
            if i < n - 1 {
                assert(before.granted.contains(script.skills@[i].skill_id.number));
            }
        }
    }
}

/// A scripted skill fires where the script says: every scripted skill with an
/// effect to apply has its unconditional activation among the pending skills of
/// the round, at the scripted position.
pub proof fn every_scripted_skill_is_pending(
    script: RunnerScript,
    ctx: PrepareContext<'_>,
    i: int,
)
    requires
        0 <= i < script.skills@.len(),
        scripted(script.forced_positions@, script.skills@[i].skill_id.number) is Some,
        first_effective(script.skills@[i], 0) is Some,
    ensures
        has_scripted_activation(
            round_queue(script, ctx).pending,
            script.skills@[i].skill_id.number,
            script.forced_positions@,
        ),
{
    lemma_skills_keep_scripts_in_order(script, ctx, script.skills@.len());
    lemma_honoring_keeps_scripts_in_order(
        skills_queued(script, ctx, script.skills@.len()),
        script,
        script.skills@.len(),
    );
}

/// A scripted skill fires once: no two forced entries of a round share a skill
/// number, and nothing is forced that is not scripted.
pub proof fn a_scripted_skill_is_forced_once(
    script: RunnerScript,
    ctx: PrepareContext<'_>,
    i: int,
    j: int,
)
    requires
        0 <= i < j < round_queue(script, ctx).pending.len(),
        round_queue(script, ctx).pending[i].forced,
        round_queue(script, ctx).pending[j].forced,
    ensures
        ({
            let pending = round_queue(script, ctx).pending;
            &&& pending[i].skill_id.number != pending[j].skill_id.number
            &&& is_scripted_activation(
                pending[i],
                pending[i].skill_id.number,
                script.forced_positions@,
            )
        }),
{
    lemma_skills_keep_scripts_in_order(script, ctx, script.skills@.len());
    lemma_honoring_keeps_scripts_in_order(
        skills_queued(script, ctx, script.skills@.len()),
        script,
        script.skills@.len(),
    );
}

/// Whether pending skills stand in ascending order of their numbers.
pub open spec fn pending_in_id_order(pending: Seq<PendingState>) -> bool {
    forall|i: int, j: int|
        0 <= i < j < pending.len() ==> (#[trigger] pending[i]).skill_id.number <= (
        #[trigger] pending[j]).skill_id.number
}

/// Whether no pending skill has a number past `number`.
spec fn pending_up_to(pending: Seq<PendingState>, number: u32) -> bool {
    forall|i: int| 0 <= i < pending.len() ==> (#[trigger] pending[i]).skill_id.number <= number
}

proof fn lemma_triggers_queue_in_order(
    q: QueueState,
    triggers: Seq<TriggerState>,
    forced_positions: Seq<SkillQuantity>,
    windows: Seq<Vec<WindowSets>>,
    i: int,
    round: usize,
    distance: i64,
    n: nat,
    number: u32,
)
    requires
        n <= triggers.len(),
        pending_in_id_order(q.pending),
        pending_up_to(q.pending, number),
        forall|j: int| 0 <= j < triggers.len() ==> (#[trigger] triggers[j]).skill_id.number
            == number,
    ensures
        ({
            let queued = triggers_queued(
                q,
                triggers,
                forced_positions,
                windows,
                i,
                round,
                distance,
                n,
            ).pending;
            pending_in_id_order(queued) && pending_up_to(queued, number)
        }),
    decreases n,
{
    if n > 0 {
        reveal(trigger_queued);
        lemma_triggers_queue_in_order(
            q,
            triggers,
            forced_positions,
            windows,
            i,
            round,
            distance,
            (n - 1) as nat,
            number,
        );
        assert(triggers[n - 1].skill_id.number == number);
    }
}

proof fn lemma_skills_queue_in_order(script: RunnerScript, ctx: PrepareContext<'_>, n: nat)
    requires
        n <= script.skills@.len(),
        in_id_order(script.skills@),
    ensures
        pending_in_id_order(skills_queued(script, ctx, n).pending),
        n > 0 ==> pending_up_to(
            skills_queued(script, ctx, n).pending,
            script.skills@[n - 1].skill_id.number,
        ),
        n == 0 ==> skills_queued(script, ctx, n).pending.len() == 0,
    decreases n,
{
    if n > 0 {
        lemma_skills_queue_in_order(script, ctx, (n - 1) as nat);
        let skill = script.skills@[n - 1];
        let triggers = triggers_of_skill(script, ctx, n - 1);
        assert forall|j: int| 0 <= j < triggers.len() implies (
        #[trigger] triggers[j]).skill_id.number == skill.skill_id.number by {
            triggers_carry_the_skill_id(
                skill,
                ctx.parsed@[n - 1]@,
                ctx.whole_course@,
                false,
                j,
            );
        }
        if n > 1 {
            assert(script.skills@[n - 2].skill_id.number <= skill.skill_id.number);
        }
        lemma_triggers_queue_in_order(
            skills_queued(script, ctx, (n - 1) as nat),
            triggers,
            script.forced_positions@,
            ctx.windows@,
            n - 1,
            ctx.round_iteration,
            ctx.course_distance,
            triggers.len(),
            skill.skill_id.number,
        );
    }
}

proof fn lemma_honoring_appends(q: QueueState, script: RunnerScript, n: nat)
    requires
        n <= script.skills@.len(),
    ensures
        q.pending.is_prefix_of(scripts_honored(q, script, n).pending),
    decreases n,
{
    if n > 0 {
        reveal(script_honored);
        lemma_honoring_appends(q, script, (n - 1) as nat);
    }
}

/// A runner's skills are pending, and so checked, in ascending id order; only a
/// scripted activation that no trigger of its skill brings in comes after them.
pub proof fn skills_are_pending_in_id_order(script: RunnerScript, ctx: PrepareContext<'_>)
    requires
        in_id_order(script.skills@),
    ensures
        ({
            let triggered = skills_queued(script, ctx, script.skills@.len()).pending;
            &&& pending_in_id_order(triggered)
            &&& triggered.is_prefix_of(round_queue(script, ctx).pending)
        }),
{
    lemma_skills_queue_in_order(script, ctx, script.skills@.len());
    lemma_honoring_appends(
        skills_queued(script, ctx, script.skills@.len()),
        script,
        script.skills@.len(),
    );
}

} // verus!
