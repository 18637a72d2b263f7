//! From a skill's data to its triggers: which alternatives are live on this
//! course, where, and what gates them at run time.
use crate::condition::dynamic::{duplicate_condition, DynamicCondition};
use crate::language::{mentions, narrowed, text_mentions, Region, RegionList, Strategy};
use crate::model::{
    build_skill_effects, copy_tags, effects_of, precondition_state, trigger_states,
    ActivationSamplePolicy, DynamicPrecondition, PreconditionState, Skill, SkillAlternative,
    SkillTrigger, TriggerState,
};
use vstd::prelude::*;

verus! {

/// A condition applied to the course: where its static part holds, and what is
/// left of it to check at run time.
#[derive(Debug)]
pub struct AppliedCondition {
    pub regions: RegionList,
    pub check: Option<DynamicCondition>,
}

/// What the condition language makes of one alternative. `None` stands for a
/// condition that does not parse or cannot be applied.
#[derive(Debug)]
pub struct ParsedAlternative {
    /// The precondition, applied to the whole course.
    pub precondition: Option<AppliedCondition>,
    /// The condition, applied to [`condition_window`].
    pub condition: Option<AppliedCondition>,
    /// How the condition places its activation windows.
    pub sample_policy: ActivationSamplePolicy,
}

/// Inputs to [`build_skill_data`].
pub struct BuildSkillDataParams<'a> {
    /// The whole course as a region list.
    pub whole_course: &'a RegionList,
    /// The skill.
    pub skill: &'a Skill,
    /// What the condition language makes of each of its alternatives.
    pub parsed: &'a Vec<ParsedAlternative>,
    /// Whether to keep triggers whose effect list is empty.
    pub ignore_null_effects: bool,
}

/// Whether a later alternative triggers on its own rather than as an exclusive
/// alternative of the first: its condition names the multi-trigger tokens.
pub open spec fn triggers_on_its_own(condition: Seq<char>) -> bool {
    mentions(condition, "is_activate_other_skill_detail"@) || mentions(
        condition,
        "is_used_skill_id"@,
    )
}

/// See [`triggers_on_its_own`].
pub fn condition_allows_second_trigger(condition: &str) -> (allows: bool)
    ensures
        allows == triggers_on_its_own(condition@),
{
    text_mentions(condition, "is_activate_other_skill_detail") || text_mentions(
        condition,
        "is_used_skill_id",
    )
}

/// Whether a condition names one of two tokens.
pub open spec fn names_either(condition: Seq<char>, a: Seq<char>, b: Seq<char>) -> bool {
    mentions(condition, a) || mentions(condition, b)
}

/// The running style a strategy-targeted debuff hits: the one its activation
/// condition counts among the others, or among the rushed opponents.
pub open spec fn style_named(condition: Seq<char>) -> Option<Strategy> {
    if names_either(
        condition,
        "running_style_count_nige_otherself"@,
        "running_style_temptation_opponent_count_nige"@,
    ) {
        Some(Strategy::FrontRunner)
    } else if names_either(
        condition,
        "running_style_count_senko_otherself"@,
        "running_style_temptation_opponent_count_senko"@,
    ) {
        Some(Strategy::PaceChaser)
    } else if names_either(
        condition,
        "running_style_count_sashi_otherself"@,
        "running_style_temptation_opponent_count_sashi"@,
    ) {
        Some(Strategy::LateSurger)
    } else if names_either(
        condition,
        "running_style_count_oikomi_otherself"@,
        "running_style_temptation_opponent_count_oikomi"@,
    ) {
        Some(Strategy::EndCloser)
    } else {
        None
    }
}

/// See [`style_named`].
pub fn derive_target_strategy(condition: &str) -> (style: Option<Strategy>)
    ensures
        style == style_named(condition@),
{
    if text_mentions(condition, "running_style_count_nige_otherself") || text_mentions(
        condition,
        "running_style_temptation_opponent_count_nige",
    ) {
        Some(Strategy::FrontRunner)
    } else if text_mentions(condition, "running_style_count_senko_otherself") || text_mentions(
        condition,
        "running_style_temptation_opponent_count_senko",
    ) {
        Some(Strategy::PaceChaser)
    } else if text_mentions(condition, "running_style_count_sashi_otherself") || text_mentions(
        condition,
        "running_style_temptation_opponent_count_sashi",
    ) {
        Some(Strategy::LateSurger)
    } else if text_mentions(condition, "running_style_count_oikomi_otherself") || text_mentions(
        condition,
        "running_style_temptation_opponent_count_oikomi",
    ) {
        Some(Strategy::EndCloser)
    } else {
        None
    }
}

/// Whether an alternative has a precondition: an empty one is none.
pub open spec fn has_precondition(alt: SkillAlternative) -> bool {
    alt.precondition is Some && alt.precondition->0@.len() > 0
}

fn names_precondition(alt: &SkillAlternative) -> (yes: bool)
    ensures
        yes == has_precondition(*alt),
{
    match &alt.precondition {
        Some(text) => text.as_str().unicode_len() > 0,
        None => false,
    }
}

/// Whether a precondition that holds on `pre` leaves any of the course.
pub open spec fn leaves_course(pre: Seq<Region>, whole_course: Seq<Region>) -> bool {
    pre.len() > 0 && whole_course.len() > 0
}

/// The stretches an alternative's condition is applied to: the whole course, or
/// with a precondition the part of it from where the precondition first holds.
pub open spec fn window_of(
    alt: SkillAlternative,
    whole_course: Seq<Region>,
    pre: Option<AppliedCondition>,
) -> Option<Seq<Region>> {
    if !has_precondition(alt) {
        Some(whole_course)
    } else if pre is None || !leaves_course(pre->0.regions@, whole_course) {
        None
    } else {
        Some(
            narrowed(
                whole_course,
                Region { start: pre->0.regions@[0].start, end: whole_course.last().end },
            ),
        )
    }
}

/// See [`window_of`]. `None` where the precondition does not parse or leaves
/// none of the course.
pub fn condition_window(
    alt: &SkillAlternative,
    whole_course: &RegionList,
    precondition: &Option<AppliedCondition>,
) -> (window: Option<RegionList>)
    ensures
        match window {
            Some(w) => window_of(*alt, whole_course@, *precondition) == Some(w@),
            None => window_of(*alt, whole_course@, *precondition) is None,
        },
{
    if !names_precondition(alt) {
        return Some(whole_course.duplicate());
    }
    match precondition {
        Some(pre) => {
            if pre.regions.0.len() == 0 || whole_course.0.len() == 0 {
                return None;
            }
            let bounds = Region::new(
                pre.regions.0[0].start,
                whole_course.0[whole_course.0.len() - 1].end,
            );
            Some(whole_course.narrow(&bounds))
        },
        None => None,
    }
}

/// What has been built so far: the triggers, and which alternative stands
/// behind the first of them.
#[verifier::ext_equal]
pub struct BuildState {
    pub triggers: Seq<TriggerState>,
    pub first_alternative: usize,
}

/// The runtime half of an alternative's precondition, unmet.
pub open spec fn runtime_precondition(
    alt: SkillAlternative,
    pre: Option<AppliedCondition>,
) -> Option<PreconditionState> {
    if !has_precondition(alt) || pre is None || pre->0.check is None {
        None
    } else {
        Some(
            PreconditionState {
                regions: pre->0.regions@,
                check: pre->0.check->0,
                met: false,
            },
        )
    }
}

/// The trigger an alternative gives.
pub open spec fn trigger_of(
    skill: Skill,
    alt: SkillAlternative,
    parsed: ParsedAlternative,
    exclusive_alternative: Option<usize>,
) -> TriggerState {
    TriggerState {
        skill_id: skill.skill_id,
        rarity: skill.rarity,
        tags: skill.tags@,
        sample_policy: parsed.sample_policy,
        regions: parsed.condition->0.regions@,
        effects: effects_of(alt),
        extra_condition: parsed.condition->0.check,
        target_strategy: style_named(alt.condition@),
        duration_scaling: alt.duration_scaling,
        cooldown_time: alt.cooldown_time,
        precondition: runtime_precondition(alt, parsed.precondition),
        exclusive_alternative,
    }
}

/// The triggers with the first one marked as an exclusive alternative, unless
/// it is one already.
pub open spec fn first_marked(triggers: Seq<TriggerState>, first: usize) -> Seq<TriggerState> {
    if triggers.len() > 0 && triggers[0].exclusive_alternative is None {
        triggers.update(
            0,
            TriggerState { exclusive_alternative: Some(first), ..triggers[0] },
        )
    } else {
        triggers
    }
}

/// What alternative `i` adds to what has been built; `None` where its condition
/// or precondition does not parse.
///
/// A later alternative naming the multi-trigger tokens triggers on its own. Any
/// other is the same skill under another condition, and excludes the first.
#[verifier::opaque]
pub open spec fn alternative_built(
    so_far: BuildState,
    skill: Skill,
    i: usize,
    parsed: ParsedAlternative,
    whole_course: Seq<Region>,
    ignore_null_effects: bool,
) -> Option<BuildState> {
    let alt = skill.alternatives@[i as int];
    if alt.condition@.len() == 0 {
        Some(so_far)
    } else if has_precondition(alt) && parsed.precondition is None {
        None
    } else if has_precondition(alt) && !leaves_course(
        parsed.precondition->0.regions@,
        whole_course,
    ) {
        Some(so_far)
    } else if parsed.condition is None {
        None
    } else if parsed.condition->0.regions@.len() == 0 {
        Some(so_far)
    } else if effects_of(alt).len() == 0 && !ignore_null_effects {
        Some(so_far)
    } else if so_far.triggers.len() == 0 {
        Some(
            BuildState {
                triggers: so_far.triggers.push(trigger_of(skill, alt, parsed, None)),
                first_alternative: i,
            },
        )
    } else if triggers_on_its_own(alt.condition@) {
        Some(
            BuildState {
                triggers: so_far.triggers.push(trigger_of(skill, alt, parsed, None)),
                ..so_far
            },
        )
    } else {
        Some(
            BuildState {
                triggers: first_marked(so_far.triggers, so_far.first_alternative).push(
                    trigger_of(skill, alt, parsed, Some(i)),
                ),
                ..so_far
            },
        )
    }
}

/// What the first `n` alternatives build; `None` once one does not parse.
pub open spec fn alternatives_built(
    skill: Skill,
    parsed: Seq<ParsedAlternative>,
    whole_course: Seq<Region>,
    ignore_null_effects: bool,
    n: nat,
) -> Option<BuildState>
    decreases n,
{
    if n == 0 {
        Some(BuildState { triggers: Seq::empty(), first_alternative: 0 })
    } else {
        match alternatives_built(skill, parsed, whole_course, ignore_null_effects, (n - 1) as nat) {
            Some(so_far) => alternative_built(
                so_far,
                skill,
                (n - 1) as usize,
                parsed[n - 1],
                whole_course,
                ignore_null_effects,
            ),
            None => None,
        }
    }
}

/// The position past every course at which a skill without a live alternative
/// is placed.
pub const AFTER_THE_COURSE: i64 = 9_999_000_000_000;

/// The trigger of a skill none of whose alternatives is live: its first one,
/// placed past the end of the course and never holding; none where it has no
/// effects to apply.
pub open spec fn fallback_triggers(skill: Skill, ignore_null_effects: bool) -> Seq<TriggerState> {
    if skill.alternatives@.len() == 0 {
        Seq::empty()
    } else {
        let first = skill.alternatives@[0];
        if effects_of(first).len() == 0 && !ignore_null_effects {
            Seq::empty()
        } else {
            seq![
                TriggerState {
                    skill_id: skill.skill_id,
                    rarity: skill.rarity,
                    tags: skill.tags@,
                    sample_policy: ActivationSamplePolicy::Immediate,
                    regions: seq![Region { start: AFTER_THE_COURSE, end: AFTER_THE_COURSE }],
                    effects: effects_of(first),
                    extra_condition: Some(DynamicCondition::Never),
                    target_strategy: None,
                    duration_scaling: first.duration_scaling,
                    cooldown_time: first.cooldown_time,
                    precondition: None,
                    exclusive_alternative: None,
                },
            ]
        }
    }
}

/// The triggers of a skill: those of its live alternatives in data order; none
/// at all where one that is reached does not parse; the fallback where none is
/// live.
pub open spec fn skill_triggers(
    skill: Skill,
    parsed: Seq<ParsedAlternative>,
    whole_course: Seq<Region>,
    ignore_null_effects: bool,
) -> Seq<TriggerState> {
    match alternatives_built(
        skill,
        parsed,
        whole_course,
        ignore_null_effects,
        skill.alternatives@.len(),
    ) {
        None => Seq::empty(),
        Some(built) => if built.triggers.len() > 0 {
            built.triggers
        } else {
            fallback_triggers(skill, ignore_null_effects)
        },
    }
}

fn runtime_half(alt: &SkillAlternative, pre: &Option<AppliedCondition>) -> (p: Option<
    DynamicPrecondition,
>)
    ensures
        precondition_state(p) == runtime_precondition(*alt, *pre),
{
    if !names_precondition(alt) {
        return None;
    }
    match pre {
        Some(applied) => match &applied.check {
            Some(check) => Some(
                DynamicPrecondition {
                    regions: applied.regions.duplicate(),
                    check: check.duplicate(),
                    met: false,
                },
            ),
            None => None,
        },
        None => None,
    }
}

/// What one alternative adds.
enum AlternativeResult {
    Unparsed,
    Skipped,
    Trigger(SkillTrigger),
}

impl BuildSkillDataParams<'_> {
    /// Whether every alternative has been through the condition language.
    pub open spec fn complete(&self) -> bool {
        self.parsed@.len() == self.skill.alternatives@.len()
    }

    fn alternative_trigger(&self, i: usize) -> (r: AlternativeResult)
        requires
            self.complete(),
            i < self.skill.alternatives@.len(),
        ensures
            forall|so_far: BuildState|
                match r {
                    AlternativeResult::Unparsed => (#[trigger] alternative_built(
                        so_far,
                        *self.skill,
                        i,
                        self.parsed@[i as int],
                        self.whole_course@,
                        self.ignore_null_effects,
                    )) is None,
                    AlternativeResult::Skipped => alternative_built(
                        so_far,
                        *self.skill,
                        i,
                        self.parsed@[i as int],
                        self.whole_course@,
                        self.ignore_null_effects,
                    ) == Some(so_far),
                    AlternativeResult::Trigger(t) => {
                        let alt = self.skill.alternatives@[i as int];
                        &&& t@ == trigger_of(*self.skill, alt, self.parsed@[i as int], None)
                        &&& alternative_built(
                            so_far,
                            *self.skill,
                            i,
                            self.parsed@[i as int],
                            self.whole_course@,
                            self.ignore_null_effects,
                        ) == added(so_far, t@, i, triggers_on_its_own(alt.condition@))
                    },
                },
    {
        proof {
            reveal(alternative_built);
        }
        let alt = &self.skill.alternatives[i];
        let parsed = &self.parsed[i];
        if alt.condition.as_str().unicode_len() == 0 {
            return AlternativeResult::Skipped;
        }
        if names_precondition(alt) {
            match &parsed.precondition {
                None => {
                    return AlternativeResult::Unparsed;
                },
                Some(pre) => {
                    if pre.regions.0.len() == 0 || self.whole_course.0.len() == 0 {
                        return AlternativeResult::Skipped;
                    }
                },
            }
        }
        let applied = match &parsed.condition {
            None => {
                return AlternativeResult::Unparsed;
            },
            Some(applied) => applied,
        };
        if applied.regions.0.len() == 0 {
            return AlternativeResult::Skipped;
        }
        let effects = build_skill_effects(alt);
        if effects.len() == 0 && !self.ignore_null_effects {
            return AlternativeResult::Skipped;
        }
        AlternativeResult::Trigger(
            SkillTrigger {
                skill_id: self.skill.skill_id,
                rarity: self.skill.rarity,
                tags: copy_tags(&self.skill.tags),
                sample_policy: parsed.sample_policy,
                regions: applied.regions.duplicate(),
                effects,
                extra_condition: duplicate_condition(&applied.check),
                target_strategy: derive_target_strategy(alt.condition.as_str()),
                duration_scaling: alt.duration_scaling,
                cooldown_time: alt.cooldown_time,
                precondition: runtime_half(alt, &parsed.precondition),
                exclusive_alternative: None,
            },
        )
    }
}

/// What has been built with trigger `t` of alternative `i` added.
pub open spec fn added(so_far: BuildState, t: TriggerState, i: usize, on_its_own: bool) -> Option<
    BuildState,
> {
    Some(
        if so_far.triggers.len() == 0 {
            BuildState { triggers: so_far.triggers.push(t), first_alternative: i }
        } else if on_its_own {
            BuildState { triggers: so_far.triggers.push(t), ..so_far }
        } else {
            BuildState {
                triggers: first_marked(so_far.triggers, so_far.first_alternative).push(
                    TriggerState { exclusive_alternative: Some(i), ..t },
                ),
                ..so_far
            }
        },
    )
}

fn fallback(skill: &Skill, ignore_null_effects: bool) -> (triggers: Vec<SkillTrigger>)
    ensures
        trigger_states(triggers@) == fallback_triggers(*skill, ignore_null_effects),
{
    let mut triggers: Vec<SkillTrigger> = Vec::new();
    if skill.alternatives.len() == 0 {
        proof {
            assert(trigger_states(triggers@) =~= Seq::<TriggerState>::empty());
        }
        return triggers;
    }
    let first = &skill.alternatives[0];
    let effects = build_skill_effects(first);
    if effects.len() == 0 && !ignore_null_effects {
        proof {
            assert(trigger_states(triggers@) =~= Seq::<TriggerState>::empty());
        }
        return triggers;
    }
    let mut after_end = RegionList::new();
    after_end.push(Region::new(AFTER_THE_COURSE, AFTER_THE_COURSE));
    proof {
        assert(after_end@ =~= seq![Region { start: AFTER_THE_COURSE, end: AFTER_THE_COURSE }]);
    }
    triggers.push(
        SkillTrigger {
            skill_id: skill.skill_id,
            rarity: skill.rarity,
            tags: copy_tags(&skill.tags),
            sample_policy: ActivationSamplePolicy::Immediate,
            regions: after_end,
            effects,
            extra_condition: Some(DynamicCondition::Never),
            target_strategy: None,
            duration_scaling: first.duration_scaling,
            cooldown_time: first.cooldown_time,
            precondition: None,
            exclusive_alternative: None,
        },
    );
    proof {
        assert(trigger_states(triggers@) =~= fallback_triggers(*skill, ignore_null_effects));
    }
    triggers
}

/// Build the triggers of a skill (see [`skill_triggers`]).
pub fn build_skill_data(params: &BuildSkillDataParams<'_>) -> (triggers: Vec<SkillTrigger>)
    requires
        params.complete(),
    ensures
        trigger_states(triggers@) == skill_triggers(
            *params.skill,
            params.parsed@,
            params.whole_course@,
            params.ignore_null_effects,
        ),
{
    let mut triggers: Vec<SkillTrigger> = Vec::new();
    let mut first_alternative: usize = 0;
    let mut i: usize = 0;
    let total: usize = params.skill.alternatives.len();
    proof {
        assert(trigger_states(triggers@) =~= Seq::<TriggerState>::empty());
    }
    while i < total
        invariant
            params.complete(),
            total == params.skill.alternatives@.len(),
            i <= total,
            alternatives_built(
                *params.skill,
                params.parsed@,
                params.whole_course@,
                params.ignore_null_effects,
                i as nat,
            ) == Some(BuildState { triggers: trigger_states(triggers@), first_alternative }),
        decreases total - i,
    {
        let ghost before = triggers@;
        let ghost so_far = BuildState { triggers: trigger_states(triggers@), first_alternative };
        proof {
            assert(alternatives_built(
                *params.skill,
                params.parsed@,
                params.whole_course@,
                params.ignore_null_effects,
                (i + 1) as nat,
            ) == alternative_built(
                so_far,
                *params.skill,
                i,
                params.parsed@[i as int],
                params.whole_course@,
                params.ignore_null_effects,
            ));
        }
        match params.alternative_trigger(i) {
            AlternativeResult::Unparsed => {
                let none: Vec<SkillTrigger> = Vec::new();
                proof {
                    assert(trigger_states(none@) =~= Seq::<TriggerState>::empty());
                    lemma_unparsed_stays_unparsed(
                        *params.skill,
                        params.parsed@,
                        params.whole_course@,
                        params.ignore_null_effects,
                        (i + 1) as nat,
                        total as nat,
                    );
                }
                return none;
            },
            AlternativeResult::Skipped => {},
            AlternativeResult::Trigger(trigger) => {
                let ghost plain = trigger@;
                let mut trigger = trigger;
                if triggers.len() == 0 {
                    first_alternative = i;
                } else if !condition_allows_second_trigger(
                    params.skill.alternatives[i].condition.as_str(),
                ) {
                    trigger.exclusive_alternative = Some(i);
                    if triggers[0].exclusive_alternative.is_none() {
                        triggers[0].exclusive_alternative = Some(first_alternative);
                    }
                    proof {
                        assert(trigger_states(triggers@) =~= first_marked(
                            trigger_states(before),
                            first_alternative,
                        ));
                    }
                }
                let ghost marked = triggers@;
                triggers.push(trigger);
                proof {
                    assert(trigger_states(triggers@) =~= trigger_states(marked).push(trigger@));
                }
            },
        }
        i = i + 1;
    }
    if triggers.len() > 0 {
        triggers
    } else {
        fallback(params.skill, params.ignore_null_effects)
    }
}

proof fn lemma_unparsed_stays_unparsed(
    skill: Skill,
    parsed: Seq<ParsedAlternative>,
    whole_course: Seq<Region>,
    ignore_null_effects: bool,
    n: nat,
    m: nat,
)
    requires
        n <= m,
        alternatives_built(skill, parsed, whole_course, ignore_null_effects, n) is None,
    ensures
        alternatives_built(skill, parsed, whole_course, ignore_null_effects, m) is None,
    decreases m,
{
    if n < m {
        lemma_unparsed_stays_unparsed(
            skill,
            parsed,
            whole_course,
            ignore_null_effects,
            n,
            (m - 1) as nat,
        );
    }
}

/// How the exclusive alternatives among what has been built from `n`
/// alternatives are numbered: the first trigger is one exactly where a later
/// one is, the first trigger's number is its alternative's, and later ones have
/// higher numbers in order.
pub open spec fn alternatives_in_order(b: BuildState, n: nat) -> bool {
    let t = b.triggers;
    &&& t.len() > 0 ==> b.first_alternative < n
    &&& t.len() > 0 ==> (t[0].exclusive_alternative is None || t[0].exclusive_alternative == Some(
        b.first_alternative,
    ))
    &&& forall|k: int|
        0 < k < t.len() && (#[trigger] t[k]).exclusive_alternative is Some
            ==> b.first_alternative < t[k].exclusive_alternative->0 < n
            && t[0].exclusive_alternative is Some
    &&& forall|j: int, k: int|
        0 < j < k < t.len() && (#[trigger] t[j]).exclusive_alternative is Some && (
        #[trigger] t[k]).exclusive_alternative is Some ==> t[j].exclusive_alternative->0
            < t[k].exclusive_alternative->0
    &&& t.len() == 1 ==> t[0].exclusive_alternative is None
}

proof fn lemma_alternatives_in_order(
    skill: Skill,
    parsed: Seq<ParsedAlternative>,
    whole_course: Seq<Region>,
    ignore_null_effects: bool,
    n: nat,
)
    requires
        n <= usize::MAX,
    ensures
        alternatives_built(skill, parsed, whole_course, ignore_null_effects, n) matches Some(b)
            ==> alternatives_in_order(b, n),
    decreases n,
{
    if n > 0 {
        lemma_alternatives_in_order(
            skill,
            parsed,
            whole_course,
            ignore_null_effects,
            (n - 1) as nat,
        );
        reveal(alternative_built);
    }
}

/// A skill's exclusive alternatives carry their places in the data: no two of
/// its triggers share one, they stand in data order, and a lone trigger
/// excludes nothing.
pub proof fn exclusive_alternatives_are_numbered_in_data_order(
    skill: Skill,
    parsed: Seq<ParsedAlternative>,
    whole_course: Seq<Region>,
    ignore_null_effects: bool,
    j: int,
    k: int,
)
    requires
        skill.alternatives@.len() <= usize::MAX,
    ensures
        ({
            let t = skill_triggers(skill, parsed, whole_course, ignore_null_effects);
            &&& t.len() == 1 ==> t[0].exclusive_alternative is None
            &&& 0 <= j < k < t.len() && t[j].exclusive_alternative is Some
                && t[k].exclusive_alternative is Some ==> t[j].exclusive_alternative->0
                < t[k].exclusive_alternative->0 < skill.alternatives@.len()
        }),
{
    lemma_alternatives_in_order(
        skill,
        parsed,
        whole_course,
        ignore_null_effects,
        skill.alternatives@.len(),
    );
}

proof fn lemma_alternatives_are_the_skills(
    skill: Skill,
    parsed: Seq<ParsedAlternative>,
    whole_course: Seq<Region>,
    ignore_null_effects: bool,
    n: nat,
)
    ensures
        alternatives_built(skill, parsed, whole_course, ignore_null_effects, n) matches Some(b)
            ==> forall|j: int|
            0 <= j < b.triggers.len() ==> (#[trigger] b.triggers[j]).skill_id == skill.skill_id,
    decreases n,
{
    if n > 0 {
        reveal(alternative_built);
        lemma_alternatives_are_the_skills(
            skill,
            parsed,
            whole_course,
            ignore_null_effects,
            (n - 1) as nat,
        );
    }
}

/// Every trigger of a skill carries the skill's id.
pub proof fn triggers_carry_the_skill_id(
    skill: Skill,
    parsed: Seq<ParsedAlternative>,
    whole_course: Seq<Region>,
    ignore_null_effects: bool,
    j: int,
)
    requires
        0 <= j < skill_triggers(skill, parsed, whole_course, ignore_null_effects).len(),
    ensures
        skill_triggers(skill, parsed, whole_course, ignore_null_effects)[j].skill_id
            == skill.skill_id,
{
    lemma_alternatives_are_the_skills(
        skill,
        parsed,
        whole_course,
        ignore_null_effects,
        skill.alternatives@.len(),
    );
}

} // verus!
