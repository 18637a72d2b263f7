//! Which of a skill's alternatives give triggers, and what a round makes of
//! them.
use crate::condition::dynamic::DynamicCondition;
use crate::effect::hits_opponents;
use crate::language::{covered, mentions, narrowing_keeps_the_common_positions, Region, Strategy};
use crate::model::{
    effects_of, ActivationSamplePolicy, PendingState, PendingTargetedState, Skill,
    SkillAlternative, SkillEffectSpec, TargetedSkillOrigin, TriggerState,
};
use crate::runner::prepare::{
    cooldown_of, debuff_triggers_queued, debuffs_queued, drawn_sets, external_debuffs,
    first_effective, forced_window, round_queue, script_honored, scripts_honored, skills_queued,
    tracking_initialized, trigger_queued, triggers_queued, whole_points, PrepareContext,
    QueueState,
};
use crate::runner::triggers::{
    alternative_built, alternatives_built, skill_triggers, style_named, window_of,
    AppliedCondition, BuildState, ParsedAlternative,
};
use crate::runner::{scripted, RunnerState, SkillQuantity};
use crate::units::{is_nearest, rounding_is_to_the_nearest, QUANTITY_MAX};
use vstd::prelude::*;

verus! {

/// Whether an alternative asks for something beforehand.
pub open spec fn asks_first(alt: SkillAlternative) -> bool {
    alt.precondition is Some && alt.precondition->0@.len() != 0
}

/// Whether an alternative cannot be read: it has a condition, and its
/// precondition does not parse, or that leaves some of the course and the
/// condition does not parse.
pub open spec fn is_unreadable(
    alt: SkillAlternative,
    parsed: ParsedAlternative,
    course: Seq<Region>,
) -> bool {
    &&& alt.condition@.len() > 0
    &&& if asks_first(alt) {
        parsed.precondition is None || (parsed.precondition->0.regions@.len() > 0 && course.len()
            > 0 && parsed.condition is None)
    } else {
        parsed.condition is None
    }
}

/// Whether an alternative is live: it has a condition that holds somewhere on
/// the course, after its precondition if it has one, and an effect to apply
/// (unless that is not asked for).
pub open spec fn is_live(
    alt: SkillAlternative,
    parsed: ParsedAlternative,
    course: Seq<Region>,
    ignore_null_effects: bool,
) -> bool {
    &&& alt.condition@.len() > 0
    &&& asks_first(alt) ==> parsed.precondition is Some
        && parsed.precondition->0.regions@.len() > 0 && course.len() > 0
    &&& parsed.condition is Some
    &&& parsed.condition->0.regions@.len() > 0
    &&& effects_of(alt).len() > 0 || ignore_null_effects
}

/// Where the live ones among the first `n` alternatives stand, in order.
pub open spec fn live_places(
    skill: Skill,
    parsed: Seq<ParsedAlternative>,
    course: Seq<Region>,
    ignore_null_effects: bool,
    n: nat,
) -> Seq<int>
    decreases n,
{
    if n == 0 {
        Seq::empty()
    } else {
        let before = live_places(skill, parsed, course, ignore_null_effects, (n - 1) as nat);
        if is_live(skill.alternatives@[n - 1], parsed[n - 1], course, ignore_null_effects) {
            before.push(n - 1)
        } else {
            before
        }
    }
}

/// Whether `t` is the trigger of an alternative, its exclusion aside: the
/// skill's, with the alternative's windows, effects, conditions and times.
pub open spec fn stands_for(
    t: TriggerState,
    skill: Skill,
    alt: SkillAlternative,
    parsed: ParsedAlternative,
) -> bool {
    &&& t.skill_id == skill.skill_id
    &&& t.rarity == skill.rarity
    &&& t.tags == skill.tags@
    &&& t.sample_policy == parsed.sample_policy
    &&& t.regions == parsed.condition->0.regions@
    &&& t.effects == effects_of(alt)
    &&& t.extra_condition == parsed.condition->0.check
    &&& t.target_strategy == style_named(alt.condition@)
    &&& t.duration_scaling == alt.duration_scaling
    &&& t.cooldown_time == alt.cooldown_time
    &&& if asks_first(alt) && parsed.precondition->0.check is Some {
        &&& t.precondition is Some
        &&& t.precondition->0.regions == parsed.precondition->0.regions@
        &&& Some(t.precondition->0.check) == parsed.precondition->0.check
        &&& !t.precondition->0.met
    } else {
        t.precondition is None
    }
}

/// Whether a live alternative after the first excludes it: its condition names
/// neither of the tokens by which one triggers on its own.
pub open spec fn excludes_the_first(alt: SkillAlternative) -> bool {
    !mentions(alt.condition@, "is_activate_other_skill_detail"@) && !mentions(
        alt.condition@,
        "is_used_skill_id"@,
    )
}

/// Whether `built` is what the first `n` alternatives give: a trigger for each
/// live one, in order, the later ones that exclude the first marked with their
/// places, and the first marked too where one does.
pub open spec fn built_from_the_live(
    built: BuildState,
    skill: Skill,
    parsed: Seq<ParsedAlternative>,
    course: Seq<Region>,
    ignore_null_effects: bool,
    n: nat,
) -> bool {
    let live = live_places(skill, parsed, course, ignore_null_effects, n);
    let t = built.triggers;
    &&& t.len() == live.len()
    &&& forall|k: int| 0 <= k < live.len() ==> 0 <= #[trigger] live[k] < n
    &&& live.len() > 0 ==> built.first_alternative == live[0]
    &&& forall|k: int|
        0 <= k < live.len() ==> stands_for(
            #[trigger] t[k],
            skill,
            skill.alternatives@[live[k]],
            parsed[live[k]],
        )
    &&& forall|k: int|
        0 < k < live.len() ==> (#[trigger] t[k]).exclusive_alternative == if excludes_the_first(
            skill.alternatives@[live[k]],
        ) {
            Some(live[k] as usize)
        } else {
            None
        }
    &&& live.len() > 0 ==> t[0].exclusive_alternative == if exists|k: int|
        0 < k < live.len() && excludes_the_first(skill.alternatives@[#[trigger] live[k]]) {
        Some(live[0] as usize)
    } else {
        None
    }
}

proof fn lemma_built(
    skill: Skill,
    parsed: Seq<ParsedAlternative>,
    course: Seq<Region>,
    ignore: bool,
    n: nat,
)
    requires
        n <= skill.alternatives@.len() <= usize::MAX,
        forall|i: int|
            0 <= i < n ==> !is_unreadable(
                #[trigger] skill.alternatives@[i],
                parsed[i],
                course,
            ),
    ensures
        alternatives_built(skill, parsed, course, ignore, n) is Some,
        built_from_the_live(
            alternatives_built(skill, parsed, course, ignore, n)->0,
            skill,
            parsed,
            course,
            ignore,
            n,
        ),
    decreases n,
{
    if n > 0 {
        let m = (n - 1) as nat;
        lemma_built(skill, parsed, course, ignore, m);
        reveal(alternative_built);
        let alt = skill.alternatives@[n - 1];
        assert(!is_unreadable(alt, parsed[n - 1], course));
        let before = live_places(skill, parsed, course, ignore, m);
        let live = live_places(skill, parsed, course, ignore, n);
        let a = alternatives_built(skill, parsed, course, ignore, m)->0;
        let b = alternatives_built(skill, parsed, course, ignore, n)->0;
        assert(is_live(alt, parsed[n - 1], course, ignore) ==> b.triggers.len()
            == a.triggers.len() + 1);
        assert(!is_live(alt, parsed[n - 1], course, ignore) ==> b == a);
        if is_live(alt, parsed[n - 1], course, ignore) {
            let at = before.len() as int;
            assert(live[at] == n - 1);
            assert forall|k: int| 0 <= k < live.len() implies stands_for(
                #[trigger] b.triggers[k],
                skill,
                skill.alternatives@[live[k]],
                parsed[live[k]],
            ) by {
                if k < at {
                    assert(live[k] == before[k]);
                    assert(stands_for(
                        a.triggers[k],
                        skill,
                        skill.alternatives@[before[k]],
                        parsed[before[k]],
                    ));
                }
            }
            assert forall|k: int| 0 < k < live.len() implies (
            #[trigger] b.triggers[k]).exclusive_alternative == if excludes_the_first(
                skill.alternatives@[live[k]],
            ) {
                Some(live[k] as usize)
            } else {
                None
            } by {
                if k < at {
                    assert(live[k] == before[k]);
                    assert(b.triggers[k] == a.triggers[k]);
                }
            }
            if at > 0 {
                assert(live[0] == before[0]);
                if exists|k: int|
                    0 < k < before.len() && excludes_the_first(
                        skill.alternatives@[#[trigger] before[k]],
                    ) {
                    let k = choose|k: int|
                        0 < k < before.len() && excludes_the_first(
                            skill.alternatives@[#[trigger] before[k]],
                        );
                    assert(live[k] == before[k]);
                }
                if exists|k: int|
                    0 < k < live.len() && excludes_the_first(
                        skill.alternatives@[#[trigger] live[k]],
                    ) {
                    let k = choose|k: int|
                        0 < k < live.len() && excludes_the_first(
                            skill.alternatives@[#[trigger] live[k]],
                        );
                    if k < at {
                        assert(live[k] == before[k]);
                    }
                }
            }
        }
    }
}

proof fn lemma_unreadable(
    skill: Skill,
    parsed: Seq<ParsedAlternative>,
    course: Seq<Region>,
    ignore: bool,
    n: nat,
    i: int,
)
    requires
        0 <= i < n <= skill.alternatives@.len() <= usize::MAX,
        is_unreadable(skill.alternatives@[i], parsed[i], course),
    ensures
        alternatives_built(skill, parsed, course, ignore, n) is None,
    decreases n,
{
    reveal(alternative_built);
    if i < n - 1 {
        lemma_unreadable(skill, parsed, course, ignore, (n - 1) as nat, i);
    }
}

/// A skill has a trigger for each of its live alternatives, in the order of the
/// data (see [`built_from_the_live`]). One alternative that cannot be read leaves
/// it without any. Without a live alternative its first one stands past every
/// course and never holds, if it has an effect to apply.
pub proof fn live_alternatives_give_the_triggers(
    skill: Skill,
    parsed: Seq<ParsedAlternative>,
    course: Seq<Region>,
    ignore: bool,
)
    requires
        skill.alternatives@.len() <= usize::MAX,
    ensures
        ({
            let n = skill.alternatives@.len();
            let t = skill_triggers(skill, parsed, course, ignore);
            let live = live_places(skill, parsed, course, ignore, n);
            let unreadable = exists|i: int|
                0 <= i < n && is_unreadable(#[trigger] skill.alternatives@[i], parsed[i], course);
            &&& unreadable ==> t.len() == 0
            &&& !unreadable && live.len() > 0 ==> built_from_the_live(
                BuildState { triggers: t, first_alternative: live[0] as usize },
                skill,
                parsed,
                course,
                ignore,
                n,
            )
            &&& !unreadable && live.len() == 0 && n > 0 && (ignore || effects_of(
                skill.alternatives@[0],
            ).len() > 0) ==> {
                &&& t.len() == 1
                &&& t[0].skill_id == skill.skill_id
                &&& t[0].rarity == skill.rarity
                &&& t[0].tags == skill.tags@
                &&& t[0].effects == effects_of(skill.alternatives@[0])
                &&& t[0].extra_condition == Some(DynamicCondition::Never)
                &&& t[0].regions.len() == 1
                &&& t[0].regions[0].start == 9_999_000_000_000
                &&& t[0].regions[0].end == 9_999_000_000_000
                &&& t[0].precondition is None
                &&& t[0].exclusive_alternative is None
                &&& t[0].target_strategy is None
                &&& t[0].sample_policy == ActivationSamplePolicy::Immediate
                &&& t[0].duration_scaling == skill.alternatives@[0].duration_scaling
                &&& t[0].cooldown_time == skill.alternatives@[0].cooldown_time
            }
            &&& !unreadable && live.len() == 0 && (n == 0 || (!ignore && effects_of(
                skill.alternatives@[0],
            ).len() == 0)) ==> t.len() == 0
        }),
{
    let n = skill.alternatives@.len();
    if exists|i: int|
        0 <= i < n && is_unreadable(#[trigger] skill.alternatives@[i], parsed[i], course) {
        let i = choose|i: int|
            0 <= i < n && is_unreadable(#[trigger] skill.alternatives@[i], parsed[i], course);
        lemma_unreadable(skill, parsed, course, ignore, n, i);
    } else {
        lemma_built(skill, parsed, course, ignore, n);
    }
}

/// A condition is applied to the whole course, or from where its precondition
/// first holds to the end of the course.
pub proof fn a_condition_counts_from_its_precondition(
    alt: SkillAlternative,
    course: Seq<Region>,
    pre: Option<AppliedCondition>,
    position: int,
)
    ensures
        !asks_first(alt) ==> window_of(alt, course, pre) == Some(course),
        asks_first(alt) && (pre is None || pre->0.regions@.len() == 0 || course.len() == 0)
            ==> window_of(alt, course, pre) is None,
        asks_first(alt) && pre is Some && pre->0.regions@.len() > 0 && course.len() > 0
            ==> window_of(alt, course, pre) is Some && (covered(
            window_of(alt, course, pre)->0,
            position,
        ) <==> covered(course, position) && pre->0.regions@[0].start <= position && position
            < course.last().end),
{
    if pre is Some && pre->0.regions@.len() > 0 && course.len() > 0 {
        narrowing_keeps_the_common_positions(
            course,
            Region { start: pre->0.regions@[0].start, end: course.last().end },
            position,
        );
    }
}

/// Whether a condition counts runners of a style, or rushed opponents of it.
pub open spec fn counts_style(condition: Seq<char>, style: Strategy) -> bool {
    match style {
        Strategy::FrontRunner => mentions(condition, "running_style_count_nige_otherself"@)
            || mentions(condition, "running_style_temptation_opponent_count_nige"@),
        Strategy::PaceChaser => mentions(condition, "running_style_count_senko_otherself"@)
            || mentions(condition, "running_style_temptation_opponent_count_senko"@),
        Strategy::LateSurger => mentions(condition, "running_style_count_sashi_otherself"@)
            || mentions(condition, "running_style_temptation_opponent_count_sashi"@),
        Strategy::EndCloser => mentions(condition, "running_style_count_oikomi_otherself"@)
            || mentions(condition, "running_style_temptation_opponent_count_oikomi"@),
        Strategy::Runaway => false,
    }
}

/// The style a debuff hits is one its condition counts, the most forward of
/// several; it hits none in particular only where its condition counts none.
pub proof fn a_debuff_hits_the_style_it_counts(condition: Seq<char>)
    ensures
        match style_named(condition) {
            Some(style) => counts_style(condition, style),
            None => forall|style: Strategy| !#[trigger] counts_style(condition, style),
        },
        counts_style(condition, Strategy::FrontRunner) ==> style_named(condition) == Some(
            Strategy::FrontRunner,
        ),
        style_named(condition) == Some(Strategy::LateSurger) || style_named(condition) == Some(
            Strategy::EndCloser,
        ) ==> !counts_style(condition, Strategy::PaceChaser),
        style_named(condition) == Some(Strategy::EndCloser) ==> !counts_style(
            condition,
            Strategy::LateSurger,
        ),
{
}

/// A scripted activation may fire from its position to 10 m past it.
pub proof fn a_scripted_window_is_ten_metres(position: i64)
    ensures
        forced_window(position).start == position,
        position + 10_000_000_000 <= QUANTITY_MAX ==> forced_window(position).end == position
            + 10_000_000_000,
{
}

/// Whether `p` is the pending skill of trigger `t`, waiting from the start of
/// the race.
pub open spec fn waits_as(p: PendingState, t: TriggerState) -> bool {
    &&& p.skill_id == t.skill_id
    &&& p.rarity == t.rarity
    &&& p.tags == t.tags
    &&& p.effects == t.effects
    &&& p.target_strategy == t.target_strategy
    &&& p.duration_scaling == t.duration_scaling
    &&& p.exclusive_alternative == t.exclusive_alternative
    &&& p.ready_at == -0x8000_0000_0000_0000
    &&& !p.wit_passed
}

/// What a round makes of a trigger. Not scripted, it waits at the windows drawn
/// for the round, one set after the other from round to round, on its own
/// conditions and cooldown, and stays out where none were drawn. The first
/// trigger of a scripted skill fires at the scripted position whatever its
/// conditions, once. The skill's other triggers wait at that position on their
/// own conditions, and stay out where they exclude each other.
pub proof fn a_round_places_each_trigger(
    q: QueueState,
    t: TriggerState,
    positions: Seq<SkillQuantity>,
    sets: Seq<Vec<Region>>,
    round: usize,
    distance: i64,
)
    ensures
        ({
            let after = trigger_queued(q, t, positions, sets, round, distance);
            let number = t.skill_id.number;
            let at = scripted(positions, number);
            let first = !q.granted.contains(number);
            let entered = after.pending.len() == q.pending.len() + 1 && after.pending.drop_last()
                == q.pending && waits_as(after.pending.last(), t);
            let p = after.pending.last();
            let own_terms = p.extra_condition == t.extra_condition && p.precondition
                == t.precondition && p.cooldown == cooldown_of(t.cooldown_time, distance)
                && !p.forced;
            &&& at is None ==> after.granted == q.granted
            &&& at is None && sets.len() == 0 ==> after.pending == q.pending
            &&& at is None && sets.len() > 0 ==> {
                let set = sets[round as int % sets.len() as int]@;
                if set.len() == 0 {
                    after.pending == q.pending
                } else {
                    &&& entered
                    &&& own_terms
                    &&& p.trigger == set[0]
                    &&& p.later_triggers == set.skip(1)
                }
            }
            &&& at is Some ==> after.granted.contains(number)
            &&& at is Some && first ==> {
                &&& entered
                &&& p.forced
                &&& p.trigger.start == at->0
                &&& p.extra_condition is None
                &&& p.precondition is None
                &&& p.cooldown == 0
                &&& p.later_triggers.len() == 0
            }
            &&& at is Some && !first && t.exclusive_alternative is Some ==> after.pending
                == q.pending
            &&& at is Some && !first && t.exclusive_alternative is None ==> {
                &&& entered
                &&& own_terms
                &&& p.trigger.start == at->0
                &&& p.later_triggers.len() == 0
            }
        }),
{
    reveal(trigger_queued);
    let after = trigger_queued(q, t, positions, sets, round, distance);
    assert(after.pending.len() > q.pending.len() ==> after.pending.drop_last() =~= q.pending);
    let number = t.skill_id.number;
    if !q.granted.contains(number) {
        assert(q.granted.push(number)[q.granted.len() as int] == number);
    }
}

/// A cooldown grows with the course, from the data's raw units; without one in
/// the data there is none.
pub proof fn a_cooldown_grows_with_the_course(
    raw: i64,
    distance: i64,
    seconds: int,
    kilometres: int,
    cooldown: int,
)
    requires
        is_nearest(seconds, raw as int, 10_000),
        is_nearest(kilometres, distance as int, 1000),
        is_nearest(cooldown, seconds * kilometres, 1_000_000_000),
        -0x8000_0000_0000_0000 <= cooldown <= QUANTITY_MAX,
    ensures
        cooldown_of(Some(raw), distance) == cooldown,
        cooldown_of(None, distance) == 0,
{
    rounding_is_to_the_nearest(raw as int, 10_000, seconds);
    rounding_is_to_the_nearest(distance as int, 1000, kilometres);
    crate::units::quantities_multiply_as_numbers(seconds, kilometres, cooldown);
}

proof fn lemma_first_effective(skill: Skill, k: int)
    requires
        0 <= k <= skill.alternatives@.len(),
        forall|j: int|
            0 <= j < k ==> effects_of(#[trigger] skill.alternatives@[j]).len() == 0,
    ensures
        match first_effective(skill, k) {
            Some(i) => {
                &&& 0 <= i < skill.alternatives@.len()
                &&& effects_of(skill.alternatives@[i]).len() > 0
                &&& forall|j: int|
                    0 <= j < i ==> effects_of(#[trigger] skill.alternatives@[j]).len() == 0
            },
            None => forall|j: int|
                0 <= j < skill.alternatives@.len() ==> effects_of(
                    #[trigger] skill.alternatives@[j],
                ).len() == 0,
        },
    decreases skill.alternatives@.len() - k,
{
    if k < skill.alternatives@.len() && effects_of(skill.alternatives@[k]).len() == 0 {
        lemma_first_effective(skill, k + 1);
    }
}

/// A scripted skill that no trigger has brought in is forced at its position
/// with its first alternative that has an effect to apply; any other skill is
/// left as it is.
pub proof fn a_script_is_honored_without_a_trigger(
    q: QueueState,
    skill: Skill,
    positions: Seq<SkillQuantity>,
    k: int,
)
    ensures
        ({
            let after = script_honored(q, skill, positions);
            let number = skill.skill_id.number;
            let at = scripted(positions, number);
            let first = 0 <= k < skill.alternatives@.len() && effects_of(
                skill.alternatives@[k],
            ).len() > 0 && forall|j: int|
                0 <= j < k ==> effects_of(#[trigger] skill.alternatives@[j]).len() == 0;
            &&& at is None || q.granted.contains(number) ==> after == q
            &&& at is Some && !q.granted.contains(number) && first ==> {
                let p = after.pending.last();
                let alt = skill.alternatives@[k];
                &&& after.pending.len() == q.pending.len() + 1
                &&& after.pending.drop_last() == q.pending
                &&& after.granted.contains(number)
                &&& p.skill_id == skill.skill_id
                &&& p.rarity == skill.rarity
                &&& p.tags == skill.tags@
                &&& p.effects == effects_of(alt)
                &&& p.trigger.start == at->0
                &&& p.forced
                &&& p.extra_condition is None
                &&& p.precondition is None
                &&& p.cooldown == 0
                &&& p.later_triggers.len() == 0
                &&& p.exclusive_alternative is None
                &&& p.duration_scaling == alt.duration_scaling
                &&& p.target_strategy == style_named(alt.condition@)
                &&& p.ready_at == -0x8000_0000_0000_0000
                &&& !p.wit_passed
            }
        }),
{
    reveal(script_honored);
    lemma_first_effective(skill, 0);
    let after = script_honored(q, skill, positions);
    assert(after.pending.len() > q.pending.len() ==> after.pending.drop_last() =~= q.pending);
    let number = skill.skill_id.number;
    assert(q.granted.push(number)[q.granted.len() as int] == number);
    if let Some(i) = first_effective(skill, 0) {
        if 0 <= k < i {
            assert(effects_of(skill.alternatives@[k]).len() == 0);
        } else if i < k {
            assert(effects_of(skill.alternatives@[i]).len() > 0);
        }
    }
}

/// The debuffs among a skill's effects are those that hit opponents, in order.
pub proof fn debuffs_keep_their_order(effects: Seq<SkillEffectSpec>)
    ensures
        external_debuffs(effects) == effects.filter(
            |e: SkillEffectSpec| hits_opponents(e.effect_type, e.target, e.modifier as int),
        ),
    decreases effects.len(),
{
    reveal(Seq::filter);
    if effects.len() > 0 {
        debuffs_keep_their_order(effects.drop_last());
    }
}

/// An injected debuff waits at its position for each of its triggers that has a
/// debuff among its effects, and brings only those.
pub proof fn an_injected_debuff_waits_at_its_position(
    q: Seq<PendingTargetedState>,
    triggers: Seq<TriggerState>,
    position: i64,
)
    ensures
        ({
            let after = debuff_triggers_queued(q, triggers, position, triggers.len());
            let hitting = triggers.filter(
                |t: TriggerState| external_debuffs(t.effects).len() > 0,
            );
            &&& after.len() == q.len() + hitting.len()
            &&& after.take(q.len() as int) == q
            &&& forall|k: int|
                0 <= k < hitting.len() ==> {
                    let p = #[trigger] after[q.len() + k];
                    &&& p.skill_id == hitting[k].skill_id
                    &&& p.effects == external_debuffs(hitting[k].effects)
                    &&& p.trigger.start == position
                    &&& p.origin == TargetedSkillOrigin::Injection
                    &&& p.source_runner_id is None
                }
        }),
{
    lemma_debuffs_queued(q, triggers, position, triggers.len());
    assert(triggers.take(triggers.len() as int) =~= triggers);
}

proof fn lemma_debuffs_queued(
    q: Seq<PendingTargetedState>,
    triggers: Seq<TriggerState>,
    position: i64,
    n: nat,
)
    requires
        n <= triggers.len(),
    ensures
        ({
            let after = debuff_triggers_queued(q, triggers, position, n);
            let hitting = triggers.take(n as int).filter(
                |t: TriggerState| external_debuffs(t.effects).len() > 0,
            );
            &&& after.len() == q.len() + hitting.len()
            &&& after.take(q.len() as int) == q
            &&& forall|k: int|
                0 <= k < hitting.len() ==> {
                    let p = #[trigger] after[q.len() + k];
                    &&& p.skill_id == hitting[k].skill_id
                    &&& p.effects == external_debuffs(hitting[k].effects)
                    &&& p.trigger.start == position
                    &&& p.origin == TargetedSkillOrigin::Injection
                    &&& p.source_runner_id is None
                }
        }),
    decreases n,
{
    reveal(Seq::filter);
    let hits = |t: TriggerState| external_debuffs(t.effects).len() > 0;
    let after = debuff_triggers_queued(q, triggers, position, n);
    if n > 0 {
        lemma_debuffs_queued(q, triggers, position, (n - 1) as nat);
        let before = debuff_triggers_queued(q, triggers, position, (n - 1) as nat);
        assert(triggers.take(n as int).drop_last() =~= triggers.take(n - 1));
        let had = triggers.take(n - 1).filter(hits);
        let hitting = triggers.take(n as int).filter(hits);
        assert(after.take(q.len() as int) =~= before.take(q.len() as int));
        assert forall|k: int| 0 <= k < hitting.len() implies {
            let p = #[trigger] after[q.len() + k];
            &&& p.skill_id == hitting[k].skill_id
            &&& p.effects == external_debuffs(hitting[k].effects)
            &&& p.trigger.start == position
            &&& p.origin == TargetedSkillOrigin::Injection
            &&& p.source_runner_id is None
        } by {
            if k < had.len() {
                assert(after[q.len() + k] == before[q.len() + k]);
                assert(hitting[k] == had[k]);
            }
        }
    } else {
        assert(after.take(q.len() as int) =~= q);
    }
}

/// A fresh round starts from nothing: no effect runs, nothing is held, recorded,
/// emitted or due to go, and every count is 0; the runner's body, script, stats
/// and HP are as they were.
pub proof fn a_fresh_round_starts_from_nothing(s: RunnerState, ctx: PrepareContext<'_>)
    ensures
        ({
            let after = tracking_initialized(s, ctx);
            let a = after.active;
            let g = after.targeted;
            let t = after.tally;
            &&& a.target_speed.len() == 0 && a.current_speed.len() == 0 && a.acceleration.len()
                == 0 && a.lane_movement.len() == 0 && a.change_lane.len() == 0
            &&& g.target_speed.len() == 0 && g.current_speed.len() == 0 && g.acceleration.len()
                == 0 && g.lane_movement.len() == 0 && g.change_lane.len() == 0
            &&& after.held.len() == 0
            &&& after.extensions.len() == 0
            &&& after.used_skills.len() == 0
            &&& after.ledger.len() == 0
            &&& after.used_targeted.len() == 0
            &&& after.emitted.len() == 0
            &&& after.removal.len() == 0
            &&& t.skills_activated_count == 0
            &&& t.activations_at_tick_start == 0
            &&& t.activations_at_last_tick_start == 0
            &&& t.skills_activated_phase_map.early == 0 && t.skills_activated_phase_map.mid == 0
                && t.skills_activated_phase_map.late == 0 && t.skills_activated_phase_map.spurt
                == 0
            &&& t.skills_activated_half_race_map.first == 0
                && t.skills_activated_half_race_map.second == 0
            &&& t.heals_activated_count == 0
            &&& t.activated_advantage_effect_types == 0
            &&& t.health == s.tally.health
            &&& t.base_stats == s.tally.base_stats
            &&& t.adjusted_stats == s.tally.adjusted_stats
            &&& t.modifiers == s.tally.modifiers
            &&& t.position_keep_strategy == s.tally.position_keep_strategy
            &&& t.start_delay == s.tally.start_delay
            &&& after.body == s.body
            &&& after.script == s.script
            &&& after.wit_rolls == s.wit_rolls
            &&& after.skill_rolls == s.skill_rolls
            &&& after.gold_rolls == s.gold_rolls
        }),
{
}

/// The condition language reads stats in whole points, to the nearest.
pub proof fn stats_are_read_in_whole_points(stat: i64, points: int)
    requires
        is_nearest(points, stat as int, 1_000_000_000),
    ensures
        -0x8000_0000 <= points <= 0x7fff_ffff ==> whole_points(stat) == points,
        points > 0x7fff_ffff ==> whole_points(stat) == 0x7fff_ffff,
        points < -0x8000_0000 ==> whole_points(stat) == -0x8000_0000,
{
    rounding_is_to_the_nearest(stat as int, 1_000_000_000, points);
}

/// A skill's triggers all enter the queue: in a round without scripted positions,
/// with windows drawn for every trigger of skill `n`, the queue after the skill
/// is the queue before it and one pending skill for each trigger, in order, at
/// the first of its windows.
pub proof fn each_skill_queues_its_triggers(
    script: crate::runner::RunnerScript,
    ctx: PrepareContext<'_>,
    n: nat,
    j: int,
)
    requires
        script.forced_positions@.len() == 0,
        n < script.skills@.len(),
        ({
            let triggers = skill_triggers(
                script.skills@[n as int],
                ctx.parsed@[n as int]@,
                ctx.whole_course@,
                false,
            );
            &&& 0 <= j < triggers.len()
            &&& n < ctx.windows@.len()
            &&& ctx.windows@[n as int]@.len() >= triggers.len()
            &&& forall|k: int|
                0 <= k < triggers.len() ==> has_windows(
                    (#[trigger] ctx.windows@[n as int]@[k])@,
                    ctx.round_iteration,
                )
        }),
    ensures
        ({
            let triggers = skill_triggers(
                script.skills@[n as int],
                ctx.parsed@[n as int]@,
                ctx.whole_course@,
                false,
            );
            let before = skills_queued(script, ctx, n).pending;
            let after = skills_queued(script, ctx, n + 1).pending;
            let sets = ctx.windows@[n as int]@[j]@;
            &&& after.len() == before.len() + triggers.len()
            &&& after.take(before.len() as int) == before
            &&& waits_as(after[before.len() + j], triggers[j])
            &&& !after[before.len() + j].forced
            &&& after[before.len() + j].trigger == sets[ctx.round_iteration as int
                % sets.len() as int]@[0]
            &&& skills_queued(script, ctx, 0).pending.len() == 0
        }),
{
    let triggers = skill_triggers(
        script.skills@[n as int],
        ctx.parsed@[n as int]@,
        ctx.whole_course@,
        false,
    );
    let q = skills_queued(script, ctx, n);
    lemma_triggers_queued(q, triggers, script, ctx, n as int, triggers.len());
    assert(queued_so_far(q, triggers, script, ctx, n as int, triggers.len()));
    let after = skills_queued(script, ctx, n + 1).pending;
    assert(queued_at(q, after, triggers, ctx, n as int, j));
}

/// Whether the set of windows for the round holds one.
pub open spec fn has_windows(sets: Seq<Vec<Region>>, round: usize) -> bool {
    sets.len() > 0 && sets[round as int % sets.len() as int]@.len() > 0
}

spec fn queued_so_far(
    q: QueueState,
    triggers: Seq<TriggerState>,
    script: crate::runner::RunnerScript,
    ctx: PrepareContext<'_>,
    i: int,
    n: nat,
) -> bool {
    let after = triggers_queued(
        q,
        triggers,
        script.forced_positions@,
        ctx.windows@,
        i,
        ctx.round_iteration,
        ctx.course_distance,
        n,
    ).pending;
    &&& after.len() == q.pending.len() + n
    &&& after.take(q.pending.len() as int) == q.pending
    &&& forall|k: int| 0 <= k < n ==> #[trigger] queued_at(q, after, triggers, ctx, i, k)
}

spec fn queued_at(
    q: QueueState,
    after: Seq<PendingState>,
    triggers: Seq<TriggerState>,
    ctx: PrepareContext<'_>,
    i: int,
    k: int,
) -> bool {
    let p = after[q.pending.len() + k];
    let sets = ctx.windows@[i]@[k]@;
    &&& waits_as(p, triggers[k])
    &&& !p.forced
    &&& p.trigger == sets[ctx.round_iteration as int % sets.len() as int]@[0]
}

proof fn lemma_triggers_queued(
    q: QueueState,
    triggers: Seq<TriggerState>,
    script: crate::runner::RunnerScript,
    ctx: PrepareContext<'_>,
    i: int,
    n: nat,
)
    requires
        script.forced_positions@.len() == 0,
        n <= triggers.len(),
        0 <= i < ctx.windows@.len(),
        ctx.windows@[i]@.len() >= triggers.len(),
        forall|k: int|
            0 <= k < triggers.len() ==> has_windows(
                (#[trigger] ctx.windows@[i]@[k])@,
                ctx.round_iteration,
            ),
    ensures
        queued_so_far(q, triggers, script, ctx, i, n),
    decreases n,
{
    let after = triggers_queued(
        q,
        triggers,
        script.forced_positions@,
        ctx.windows@,
        i,
        ctx.round_iteration,
        ctx.course_distance,
        n,
    );
    if n > 0 {
        lemma_triggers_queued(q, triggers, script, ctx, i, (n - 1) as nat);
        let before = triggers_queued(
            q,
            triggers,
            script.forced_positions@,
            ctx.windows@,
            i,
            ctx.round_iteration,
            ctx.course_distance,
            (n - 1) as nat,
        );
        let sets = ctx.windows@[i]@[n - 1]@;
        assert(has_windows(sets, ctx.round_iteration));
        a_round_places_each_trigger(
            before,
            triggers[n - 1],
            script.forced_positions@,
            sets,
            ctx.round_iteration,
            ctx.course_distance,
        );
        assert(scripted(script.forced_positions@, triggers[n - 1].skill_id.number) is None);
        assert(drawn_sets(ctx.windows@, i, n - 1) == sets);
        assert(after == trigger_queued(
            before,
            triggers[n - 1],
            script.forced_positions@,
            sets,
            ctx.round_iteration,
            ctx.course_distance,
        ));
        assert(after.pending.drop_last() == before.pending);
        assert(after.pending.take(q.pending.len() as int) =~= before.pending.take(
            q.pending.len() as int,
        ));
        assert forall|k: int| 0 <= k < n implies #[trigger] queued_at(
            q,
            after.pending,
            triggers,
            ctx,
            i,
            k,
        ) by {
            let at = q.pending.len() + k;
            if k < n - 1 {
                assert(queued_at(q, before.pending, triggers, ctx, i, k));
                assert(after.pending.drop_last()[at] == after.pending[at]);
            } else {
                assert(after.pending.last() == after.pending[at]);
            }
        }
    } else {
        assert(after.pending.take(q.pending.len() as int) =~= q.pending);
    }
}

/// A round without scripted positions has nothing to honor.
pub proof fn without_a_script_nothing_is_forced(
    script: crate::runner::RunnerScript,
    ctx: PrepareContext<'_>,
    n: nat,
)
    requires
        script.forced_positions@.len() == 0,
        n <= script.skills@.len(),
    ensures
        scripts_honored(skills_queued(script, ctx, script.skills@.len()), script, n)
            == skills_queued(script, ctx, script.skills@.len()),
        round_queue(script, ctx) == scripts_honored(
            skills_queued(script, ctx, script.skills@.len()),
            script,
            script.skills@.len(),
        ),
    decreases n,
{
    if n > 0 {
        without_a_script_nothing_is_forced(script, ctx, (n - 1) as nat);
        reveal(script_honored);
    }
}

/// Injected debuffs wait one after the other: each where it is scripted, behind
/// the ones before it.
pub proof fn injected_debuffs_wait_one_after_the_other(
    script: crate::runner::RunnerScript,
    ctx: PrepareContext<'_>,
    n: nat,
)
    requires
        n < script.injected_debuffs@.len(),
    ensures
        ({
            let debuff = script.injected_debuffs@[n as int];
            let before = debuffs_queued(script, ctx, n);
            let after = debuffs_queued(script, ctx, n + 1);
            let hitting = skill_triggers(
                debuff.skill,
                ctx.parsed_debuffs@[n as int]@,
                ctx.whole_course@,
                false,
            ).filter(|t: TriggerState| external_debuffs(t.effects).len() > 0);
            &&& after.len() == before.len() + hitting.len()
            &&& after.take(before.len() as int) == before
            &&& forall|k: int|
                0 <= k < hitting.len() ==> {
                    let p = #[trigger] after[before.len() + k];
                    &&& p.skill_id == hitting[k].skill_id
                    &&& p.effects == external_debuffs(hitting[k].effects)
                    &&& p.trigger.start == debuff.position
                }
            &&& debuffs_queued(script, ctx, 0).len() == 0
        }),
{
    let debuff = script.injected_debuffs@[n as int];
    an_injected_debuff_waits_at_its_position(
        debuffs_queued(script, ctx, n),
        skill_triggers(debuff.skill, ctx.parsed_debuffs@[n as int]@, ctx.whole_course@, false),
        debuff.position,
    );
}

} // verus!
