//! Skill value objects: the skill data, the effects built from it, and the
//! pending and active skills of a race.
use crate::condition::dynamic::{duplicate_condition, DynamicCondition};
use crate::effect::{
    policy_of_usage, type_with_id, SkillRarity, SkillTarget, SkillType, ValueScalingPolicy,
};
use crate::language::{copy_regions, covered, Region, RegionList, RunnerId, SkillId, Strategy};
use crate::math::Timer;
use crate::units::{divide_rounded, rounded_quotient, ONE};
use vstd::prelude::*;

verus! {

/// An effect as the skill data has it, before its duration is attached and its
/// strength scaled.
#[derive(Debug, Clone, Copy, PartialEq, Eq, Structural)]
pub struct RawSkillEffect {
    /// Strength in raw (x10000) units.
    pub modifier: i64,
    /// Target selector.
    pub target: SkillTarget,
    /// Raw effect type id.
    pub effect_type: i32,
    /// Usage code (how the strength scales).
    pub value_usage: Option<i32>,
    /// Level-usage code.
    pub value_level_usage: Option<i32>,
    /// The tier multiplier the data has already applied to `modifier`, when it
    /// did. Absent on a tiered usage means the tier is unknown, and the effect
    /// is dropped.
    pub pre_applied_multiplier: Option<i64>,
    /// Additional activation: the effect does nothing at activation and is
    /// applied, for the skill's remaining duration, each time its trigger fires
    /// while the skill is active. 1 each overtake (up to 3), 2 and 3 each other
    /// skill activated (up to 3, up to 2). `None` = applied at activation.
    pub additional_activate_type: Option<i32>,
}

/// One alternative (condition branch) of a skill.
#[derive(Debug, Clone)]
pub struct SkillAlternative {
    /// Base duration in raw (x10000) units.
    pub base_duration: i64,
    /// Cooldown between activations (raw units).
    pub cooldown_time: Option<i64>,
    /// Duration scaling code. `None` or 1 = none; 2 = distance behind the
    /// leader, 3 and 7 = remaining HP tables, applied at activation; 4 =
    /// lengthened by overtakes. Other codes run unscaled.
    pub duration_scaling: Option<i32>,
    /// The activation condition.
    pub condition: String,
    /// The precondition.
    pub precondition: Option<String>,
    /// The effects this alternative applies.
    pub effects: Vec<RawSkillEffect>,
}

/// A skill as the data has it.
#[derive(Debug, Clone)]
pub struct Skill {
    /// Skill identifier.
    pub skill_id: SkillId,
    /// Rarity tier.
    pub rarity: SkillRarity,
    /// Master-data tags.
    pub tags: Vec<i32>,
    /// Condition branches; the first satisfiable one is used.
    pub alternatives: Vec<SkillAlternative>,
}

/// Whether skills stand in ascending order of their numbers.
pub open spec fn in_id_order(skills: Seq<Skill>) -> bool {
    forall|i: int, j: int|
        0 <= i < j < skills.len() ==> (#[trigger] skills[i]).skill_id.number <= (
        #[trigger] skills[j]).skill_id.number
}

/// `skill` added to a list in id order, after those of its own number.
pub open spec fn placed(list: Seq<Skill>, skill: Skill) -> Seq<Skill>
    decreases list.len(),
{
    if list.len() == 0 || list.last().skill_id.number <= skill.skill_id.number {
        list.push(skill)
    } else {
        placed(list.drop_last(), skill).push(list.last())
    }
}

/// The skills in id order, those of one number in the order they came.
pub open spec fn id_sorted(skills: Seq<Skill>) -> Seq<Skill>
    decreases skills.len(),
{
    if skills.len() == 0 {
        Seq::empty()
    } else {
        placed(id_sorted(skills.drop_last()), skills.last())
    }
}

proof fn lemma_placed_at(list: Seq<Skill>, skill: Skill, k: int)
    requires
        0 <= k <= list.len(),
        k == 0 || list[k - 1].skill_id.number <= skill.skill_id.number,
        forall|i: int| k <= i < list.len() ==> (#[trigger] list[i]).skill_id.number > skill.skill_id.number,
    ensures
        placed(list, skill) == list.insert(k, skill),
    decreases list.len(),
{
    if k == list.len() {
        assert(list.insert(k, skill) =~= list.push(skill));
    } else {
        assert(list[list.len() - 1].skill_id.number > skill.skill_id.number);
        lemma_placed_at(list.drop_last(), skill, k);
        assert(list.drop_last().insert(k, skill).push(list.last()) =~= list.insert(k, skill));
    }
}

proof fn lemma_placed_keeps_order(list: Seq<Skill>, skill: Skill)
    requires
        in_id_order(list),
    ensures
        in_id_order(placed(list, skill)),
        placed(list, skill).len() == list.len() + 1,
        placed(list, skill).to_multiset() == list.to_multiset().insert(skill),
        placed(list, skill).last().skill_id.number == if list.len() == 0
            || list.last().skill_id.number <= skill.skill_id.number {
            skill.skill_id.number
        } else {
            list.last().skill_id.number
        },
    decreases list.len(),
{
    broadcast use vstd::seq_lib::group_to_multiset_ensures;
    broadcast use vstd::multiset::group_multiset_axioms;

    if list.len() > 0 && list.last().skill_id.number > skill.skill_id.number {
        let front = list.drop_last();
        assert(in_id_order(front));
        lemma_placed_keeps_order(front, skill);
        assert(front.push(list.last()) =~= list);
        let p = placed(front, skill);
        assert(p.last().skill_id.number <= list.last().skill_id.number) by {
            if front.len() > 0 {
                assert(front.last() == list[list.len() - 2]);
            }
        }
        assert forall|i: int, j: int| 0 <= i < j < p.push(list.last()).len() implies (
        #[trigger] p.push(list.last())[i]).skill_id.number <= (
        #[trigger] p.push(list.last())[j]).skill_id.number by {
            if i < p.len() - 1 {
                assert(p[i].skill_id.number <= p[p.len() - 1].skill_id.number);
            }
            if j < p.len() {
                assert(p[i].skill_id.number <= p[j].skill_id.number);
            }
        }
        assert(placed(list, skill).to_multiset() =~= list.to_multiset().insert(skill));
    } else {
        assert forall|i: int, j: int| 0 <= i < j < list.push(skill).len() implies (
        #[trigger] list.push(skill)[i]).skill_id.number <= (
        #[trigger] list.push(skill)[j]).skill_id.number by {
            if i < list.len() - 1 {
                assert(list[i].skill_id.number <= list[list.len() - 1].skill_id.number);
            }
            if j < list.len() {
                assert(list[i].skill_id.number <= list[j].skill_id.number);
            }
        }
    }
}

/// Sorting skills by id puts them in ascending order and keeps every one.
pub proof fn sorting_orders_the_skills(skills: Seq<Skill>)
    ensures
        in_id_order(id_sorted(skills)),
        id_sorted(skills).len() == skills.len(),
        id_sorted(skills).to_multiset() == skills.to_multiset(),
    decreases skills.len(),
{
    broadcast use vstd::seq_lib::group_to_multiset_ensures;

    if skills.len() > 0 {
        sorting_orders_the_skills(skills.drop_last());
        lemma_placed_keeps_order(id_sorted(skills.drop_last()), skills.last());
        assert(skills.drop_last().push(skills.last()) =~= skills);
    } else {
        assert(skills =~= Seq::<Skill>::empty());
    }
}

fn place_skill(list: &mut Vec<Skill>, skill: Skill)
    ensures
        final(list)@ == placed(old(list)@, skill),
{
    let mut k: usize = list.len();
    while k > 0 && list[k - 1].skill_id.number > skill.skill_id.number
        invariant
            k <= list@.len(),
            list@ == old(list)@,
            forall|i: int|
                k <= i < list@.len() ==> (#[trigger] list@[i]).skill_id.number
                    > skill.skill_id.number,
        decreases k,
    {
        k = k - 1;
    }
    proof {
        lemma_placed_at(list@, skill, k as int);
    }
    list.insert(k, skill);
}

/// The skills in id order: see [`id_sorted`].
pub fn sort_skills(skills: Vec<Skill>) -> (sorted: Vec<Skill>)
    ensures
        sorted@ == id_sorted(skills@),
{
    let mut rest = skills;
    let mut sorted: Vec<Skill> = Vec::new();
    let ghost mut taken: int = 0;
    proof {
        assert(skills@.skip(0) =~= skills@);
        assert(skills@.take(0) =~= Seq::<Skill>::empty());
    }
    while rest.len() > 0
        invariant
            0 <= taken <= skills@.len(),
            rest@ == skills@.skip(taken),
            sorted@ == id_sorted(skills@.take(taken)),
        decreases rest@.len(),
    {
        let skill = rest.remove(0);
        place_skill(&mut sorted, skill);
        proof {
            assert(skills@.take(taken + 1).drop_last() =~= skills@.take(taken));
            assert(skills@.take(taken + 1).last() == skill);
            assert(rest@ =~= skills@.skip(taken + 1));
            taken = taken + 1;
        }
    }
    proof {
        assert(skills@.take(taken) =~= skills@);
    }
    sorted
}

/// A built effect: duration and strength in real units, and how the strength
/// is derived when it fires.
#[derive(Debug, Clone, Copy, PartialEq, Eq, Structural)]
pub struct SkillEffectSpec {
    /// Target selector.
    pub target: SkillTarget,
    /// Effect type.
    pub effect_type: SkillType,
    /// Duration in seconds.
    pub base_duration: i64,
    /// Base strength, before value scaling.
    pub modifier: i64,
    /// How the strength at activation is derived from `modifier`.
    pub value_scaling: ValueScalingPolicy,
    /// Additional activation trigger; `None` = at activation.
    pub additional_activate_type: Option<i32>,
    /// Level-usage code (carried only).
    pub value_level_usage: Option<i32>,
}

/// An effect whose strength has been derived: it is never derived again.
#[derive(Debug, Clone, Copy, PartialEq, Eq, Structural)]
pub struct ResolvedSkillEffect {
    /// Target selector.
    pub target: SkillTarget,
    /// Effect type.
    pub effect_type: SkillType,
    /// Duration in seconds.
    pub base_duration: i64,
    /// Strength in real units.
    pub modifier: i64,
}

/// Why an effect cannot be modeled, and so is dropped.
#[derive(Debug, Clone, Copy, PartialEq, Eq, Structural)]
pub enum UnmodeledEffect {
    /// The raw type id has no [`SkillType`]. Carries the id.
    EffectType(i32),
    /// The usage code has no [`ValueScalingPolicy`]. Carries the code.
    ValueUsage(i32),
    /// A tiered usage came without the multiplier the data applied, so which
    /// tier is baked into the strength is unknown. Carries the code.
    MissingPreAppliedMultiplier(i32),
}

/// Raw (x10000) units in real units.
pub open spec fn real_units(raw: int) -> int {
    rounded_quotient(raw, 10000)
}

/// See [`real_units`].
pub fn to_real_units(raw: i64) -> (scaled: i64)
    ensures
        scaled == real_units(raw as int),
{
    let scaled: i128 = divide_rounded(raw as i128, 10000);
    scaled as i64
}

/// The built form of one raw effect, or why there is none: the type is looked
/// up first, then the usage, then the tier.
pub open spec fn classified(effect: RawSkillEffect, base_duration: i64) -> Result<
    SkillEffectSpec,
    UnmodeledEffect,
> {
    match type_with_id(effect.effect_type as int) {
        None => Err(UnmodeledEffect::EffectType(effect.effect_type)),
        Some(effect_type) => match policy_of_usage(effect.value_usage) {
            None => Err(UnmodeledEffect::ValueUsage(effect.value_usage->0)),
            Some(value_scaling) => if value_scaling == ValueScalingPolicy::PreAppliedTier
                && effect.pre_applied_multiplier is None {
                Err(UnmodeledEffect::MissingPreAppliedMultiplier(effect.value_usage->0))
            } else {
                Ok(
                    SkillEffectSpec {
                        target: effect.target,
                        effect_type,
                        base_duration,
                        modifier: real_units(effect.modifier as int) as i64,
                        value_scaling,
                        additional_activate_type: effect.additional_activate_type,
                        value_level_usage: effect.value_level_usage,
                    },
                )
            },
        },
    }
}

/// Classify one raw effect: the built effect, or why it cannot be modeled.
fn classify_effect(effect: &RawSkillEffect, base_duration: i64) -> (r: Result<
    SkillEffectSpec,
    UnmodeledEffect,
>)
    ensures
        r == classified(*effect, base_duration),
{
    let effect_type = match SkillType::from_id(effect.effect_type) {
        Some(t) => t,
        None => {
            return Err(UnmodeledEffect::EffectType(effect.effect_type));
        },
    };
    let value_scaling = match ValueScalingPolicy::from_value_usage(effect.value_usage) {
        Ok(p) => p,
        Err(e) => {
            return Err(UnmodeledEffect::ValueUsage(e.0));
        },
    };
    if value_scaling == ValueScalingPolicy::PreAppliedTier
        && effect.pre_applied_multiplier.is_none() {
        let usage: i32 = match effect.value_usage {
            Some(code) => code,
            None => 0,
        };
        return Err(UnmodeledEffect::MissingPreAppliedMultiplier(usage));
    }
    Ok(
        SkillEffectSpec {
            target: effect.target,
            effect_type,
            base_duration,
            modifier: to_real_units(effect.modifier),
            value_scaling,
            additional_activate_type: effect.additional_activate_type,
            value_level_usage: effect.value_level_usage,
        },
    )
}

/// The effects of a list that can be modeled, built, in order.
pub open spec fn modeled(effects: Seq<RawSkillEffect>, base_duration: i64) -> Seq<SkillEffectSpec>
    decreases effects.len(),
{
    if effects.len() == 0 {
        Seq::empty()
    } else {
        let before = modeled(effects.drop_last(), base_duration);
        match classified(effects.last(), base_duration) {
            Ok(spec_of) => before.push(spec_of),
            Err(_) => before,
        }
    }
}

/// The effects of a list that cannot be modeled: where each stands, and why.
pub open spec fn unmodeled(effects: Seq<RawSkillEffect>, base_duration: i64) -> Seq<
    (usize, UnmodeledEffect),
>
    decreases effects.len(),
{
    if effects.len() == 0 {
        Seq::empty()
    } else {
        let before = unmodeled(effects.drop_last(), base_duration);
        match classified(effects.last(), base_duration) {
            Ok(_) => before,
            Err(reason) => before.push(((effects.len() - 1) as usize, reason)),
        }
    }
}

/// The built effects of an alternative.
pub open spec fn effects_of(alt: SkillAlternative) -> Seq<SkillEffectSpec> {
    modeled(alt.effects@, real_units(alt.base_duration as int) as i64)
}

/// Build the effects of one alternative; those that cannot be modeled are left
/// out, and the others stay.
pub fn build_skill_effects(alt: &SkillAlternative) -> (effects: Vec<SkillEffectSpec>)
    ensures
        effects@ == effects_of(*alt),
{
    let base_duration: i64 = to_real_units(alt.base_duration);
    let mut effects: Vec<SkillEffectSpec> = Vec::new();
    let mut i: usize = 0;
    while i < alt.effects.len()
        invariant
            i <= alt.effects.len(),
            effects@ == modeled(alt.effects@.take(i as int), base_duration),
        decreases alt.effects.len() - i,
    {
        proof {
            assert(alt.effects@.take(i + 1).drop_last() =~= alt.effects@.take(i as int));
        }
        if let Ok(built) = classify_effect(&alt.effects[i], base_duration) {
            effects.push(built);
        }
        i = i + 1;
    }
    proof {
        assert(alt.effects@.take(i as int) =~= alt.effects@);
    }
    effects
}

/// The effects of an alternative that [`build_skill_effects`] leaves out: where
/// each stands in the alternative's list, and why.
pub fn unmodeled_effects(alt: &SkillAlternative) -> (dropped: Vec<(usize, UnmodeledEffect)>)
    ensures
        dropped@ == unmodeled(alt.effects@, real_units(alt.base_duration as int) as i64),
{
    let base_duration: i64 = to_real_units(alt.base_duration);
    let mut dropped: Vec<(usize, UnmodeledEffect)> = Vec::new();
    let mut i: usize = 0;
    while i < alt.effects.len()
        invariant
            i <= alt.effects.len(),
            dropped@ == unmodeled(alt.effects@.take(i as int), base_duration),
        decreases alt.effects.len() - i,
    {
        proof {
            assert(alt.effects@.take(i + 1).drop_last() =~= alt.effects@.take(i as int));
        }
        if let Err(reason) = classify_effect(&alt.effects[i], base_duration) {
            dropped.push((i, reason));
        }
        i = i + 1;
    }
    proof {
        assert(alt.effects@.take(i as int) =~= alt.effects@);
    }
    dropped
}

/// Dropped effects are reported in the order of the list: each at a later place
/// than the one before it.
pub proof fn dropped_effects_are_reported_in_order(
    effects: Seq<RawSkillEffect>,
    base_duration: i64,
)
    requires
        effects.len() <= usize::MAX,
    ensures
        forall|j: int, k: int|
            0 <= j < k < unmodeled(effects, base_duration).len() ==> (#[trigger] unmodeled(
                effects,
                base_duration,
            )[j]).0 < (#[trigger] unmodeled(effects, base_duration)[k]).0,
        forall|k: int|
            0 <= k < unmodeled(effects, base_duration).len() ==> (#[trigger] unmodeled(
                effects,
                base_duration,
            )[k]).0 < effects.len(),
    decreases effects.len(),
{
    if effects.len() > 0 {
        let init = effects.drop_last();
        dropped_effects_are_reported_in_order(init, base_duration);
        let before = unmodeled(init, base_duration);
        let all = unmodeled(effects, base_duration);
        assert forall|k: int| 0 <= k < all.len() implies (#[trigger] all[k]).0 < effects.len() by {
            if k < before.len() {
                assert(all[k] == before[k]);
            }
        }
        assert forall|j: int, k: int| 0 <= j < k < all.len() implies (#[trigger] all[j]).0 < (
        #[trigger] all[k]).0 by {
            assert(all[j] == before[j]);
            if k < before.len() {
                assert(all[k] == before[k]);
            }
        }
    }
}

/// Every raw effect is either built or reported, never both and never neither:
/// the two lists add up to the raw one, and what is reported at a place is why
/// that place's effect was not built.
pub proof fn built_and_reported_effects_partition_the_list(
    effects: Seq<RawSkillEffect>,
    base_duration: i64,
)
    requires
        effects.len() <= usize::MAX,
    ensures
        modeled(effects, base_duration).len() + unmodeled(effects, base_duration).len()
            == effects.len(),
        forall|k: int|
            0 <= k < unmodeled(effects, base_duration).len() ==> {
                let (at, reason) = #[trigger] unmodeled(effects, base_duration)[k];
                at < effects.len() && classified(effects[at as int], base_duration)
                    == Err::<SkillEffectSpec, UnmodeledEffect>(reason)
            },
        forall|i: int|
            0 <= i < effects.len() && classified(#[trigger] effects[i], base_duration) is Err
                ==> exists|k: int|
                0 <= k < unmodeled(effects, base_duration).len() && (#[trigger] unmodeled(
                    effects,
                    base_duration,
                )[k]).0 == i,
        forall|k: int|
            0 <= k < modeled(effects, base_duration).len() ==> exists|i: int|
                0 <= i < effects.len() && classified(#[trigger] effects[i], base_duration) == Ok::<
                    SkillEffectSpec,
                    UnmodeledEffect,
                >(#[trigger] modeled(effects, base_duration)[k]),
    decreases effects.len(),
{
    if effects.len() > 0 {
        let init = effects.drop_last();
        built_and_reported_effects_partition_the_list(init, base_duration);
        let all = unmodeled(effects, base_duration);
        let before = unmodeled(init, base_duration);
        assert forall|k: int| 0 <= k < all.len() implies {
            let (at, reason) = #[trigger] all[k];
            at < effects.len() && classified(effects[at as int], base_duration) == Err::<
                SkillEffectSpec,
                UnmodeledEffect,
            >(reason)
        } by {
            if k < before.len() {
                assert(all[k] == before[k]);
                assert(init[before[k].0 as int] == effects[before[k].0 as int]);
            }
        }
        assert forall|i: int|
            0 <= i < effects.len() && classified(#[trigger] effects[i], base_duration) is Err implies exists|
            k: int,
        | 0 <= k < all.len() && (#[trigger] all[k]).0 == i by {
            if i < init.len() {
                assert(classified(init[i], base_duration) is Err);
                let k = choose|k: int| 0 <= k < before.len() && (#[trigger] before[k]).0 == i;
                assert(all[k] == before[k]);
            } else {
                assert(all[all.len() - 1].0 == i);
            }
        }
        let built = modeled(effects, base_duration);
        let built_before = modeled(init, base_duration);
        assert forall|k: int| 0 <= k < built.len() implies exists|i: int|
            0 <= i < effects.len() && classified(#[trigger] effects[i], base_duration) == Ok::<
                SkillEffectSpec,
                UnmodeledEffect,
            >(#[trigger] built[k]) by {
            if k < built_before.len() {
                assert(built[k] == built_before[k]);
                let i = choose|i: int|
                    0 <= i < init.len() && classified(#[trigger] init[i], base_duration) == Ok::<
                        SkillEffectSpec,
                        UnmodeledEffect,
                    >(built_before[k]);
                assert(classified(effects[i], base_duration) == Ok::<
                    SkillEffectSpec,
                    UnmodeledEffect,
                >(built[k]));
            } else {
                assert(classified(effects[effects.len() - 1], base_duration) == Ok::<
                    SkillEffectSpec,
                    UnmodeledEffect,
                >(built[k]));
            }
        }
    }
}

/// Where a targeted skill came from.
#[derive(Debug, Clone, Copy, PartialEq, Eq, Structural)]
pub enum TargetedSkillOrigin {
    /// Injected from outside the race.
    Injection,
    /// Cast by another runner during the race.
    Runner,
}

/// How a skill's activation windows are placed.
#[derive(Debug, Clone, Copy, PartialEq, Eq, Structural)]
pub enum ActivationSamplePolicy {
    /// At the start of its windows.
    Immediate,
    /// Somewhere in its windows.
    Random,
    /// Somewhere on a straight.
    StraightRandom,
    /// One place on each of up to four corners.
    AllCornerRandom,
    /// At a given position.
    Fixed(i64),
}

/// The runtime half of a skill's precondition: checked every tick the runner is
/// inside `regions`, and once it has held the skill's own condition is armed
/// for the rest of the race.
#[derive(Debug)]
pub struct DynamicPrecondition {
    /// Where the precondition's static part holds.
    pub regions: RegionList,
    /// Its dynamic part.
    pub check: DynamicCondition,
    /// Whether it has held yet this race.
    pub met: bool,
}

/// The value of a [`DynamicPrecondition`].
#[verifier::ext_equal]
pub struct PreconditionState {
    pub regions: Seq<Region>,
    pub check: DynamicCondition,
    pub met: bool,
}

impl View for DynamicPrecondition {
    type V = PreconditionState;

    open spec fn view(&self) -> PreconditionState {
        PreconditionState { regions: self.regions@, check: self.check, met: self.met }
    }
}

/// The value of an optional precondition.
pub open spec fn precondition_state(p: Option<DynamicPrecondition>) -> Option<PreconditionState> {
    match p {
        Some(p) => Some(p@),
        None => None,
    }
}

/// Whether an optional precondition allows the skill's condition to be checked.
pub open spec fn precondition_met(p: Option<PreconditionState>) -> bool {
    p is Some ==> p->0.met
}

impl DynamicPrecondition {
    /// Whether the precondition allows the skill's condition to be checked.
    pub fn is_met(precondition: Option<&DynamicPrecondition>) -> (met: bool)
        ensures
            met == (precondition is None || precondition->0.met),
    {
        match precondition {
            Some(p) => p.met,
            None => true,
        }
    }

    /// Whether `position` is inside the precondition's static regions.
    pub fn covers(&self, position: i64) -> (inside: bool)
        ensures
            inside == covered(self.regions@, position as int),
    {
        self.regions.contains(position)
    }

    /// The same precondition again.
    pub fn duplicate(&self) -> (copy: DynamicPrecondition)
        ensures
            copy@ == self@,
    {
        DynamicPrecondition {
            regions: self.regions.duplicate(),
            check: self.check.duplicate(),
            met: self.met,
        }
    }
}

/// The same optional precondition again.
pub fn duplicate_precondition(p: &Option<DynamicPrecondition>) -> (copy: Option<
    DynamicPrecondition,
>)
    ensures
        precondition_state(copy) == precondition_state(*p),
{
    match p {
        Some(p) => Some(p.duplicate()),
        None => None,
    }
}

/// A skill prepared for activation: its windows, and the runtime predicate that
/// gates it.
#[derive(Debug)]
pub struct SkillTrigger {
    /// Skill identifier.
    pub skill_id: SkillId,
    /// Rarity tier.
    pub rarity: SkillRarity,
    /// Master-data tags.
    pub tags: Vec<i32>,
    /// How activation windows are placed.
    pub sample_policy: ActivationSamplePolicy,
    /// Candidate activation windows.
    pub regions: RegionList,
    /// Effects applied on activation.
    pub effects: Vec<SkillEffectSpec>,
    /// Runtime gate evaluated each tick (`None` == always-true).
    pub extra_condition: Option<DynamicCondition>,
    /// The running style a strategy-targeted debuff hits.
    pub target_strategy: Option<Strategy>,
    /// The alternative's duration scaling code.
    pub duration_scaling: Option<i32>,
    /// The alternative's base cooldown (raw x10000 seconds), if any.
    pub cooldown_time: Option<i64>,
    /// The runtime half of the alternative's precondition, if it has one.
    pub precondition: Option<DynamicPrecondition>,
    /// The alternative's index in the skill data when the skill has another
    /// live alternative it excludes; `None` for a skill's only live
    /// alternative, and for one that triggers on its own.
    pub exclusive_alternative: Option<usize>,
}

/// The value of a [`SkillTrigger`].
#[verifier::ext_equal]
pub struct TriggerState {
    pub skill_id: SkillId,
    pub rarity: SkillRarity,
    pub tags: Seq<i32>,
    pub sample_policy: ActivationSamplePolicy,
    pub regions: Seq<Region>,
    pub effects: Seq<SkillEffectSpec>,
    pub extra_condition: Option<DynamicCondition>,
    pub target_strategy: Option<Strategy>,
    pub duration_scaling: Option<i32>,
    pub cooldown_time: Option<i64>,
    pub precondition: Option<PreconditionState>,
    pub exclusive_alternative: Option<usize>,
}

impl View for SkillTrigger {
    type V = TriggerState;

    open spec fn view(&self) -> TriggerState {
        TriggerState {
            skill_id: self.skill_id,
            rarity: self.rarity,
            tags: self.tags@,
            sample_policy: self.sample_policy,
            regions: self.regions@,
            effects: self.effects@,
            extra_condition: self.extra_condition,
            target_strategy: self.target_strategy,
            duration_scaling: self.duration_scaling,
            cooldown_time: self.cooldown_time,
            precondition: precondition_state(self.precondition),
            exclusive_alternative: self.exclusive_alternative,
        }
    }
}

/// The values of a list of triggers.
pub open spec fn trigger_states(triggers: Seq<SkillTrigger>) -> Seq<TriggerState> {
    Seq::new(triggers.len(), |i: int| triggers[i]@)
}

/// The tier of a value against ascending cuts: the first cut it is under names
/// its tier, and past the last cut the last tier stands.
pub open spec fn hp_tier_long(hp: int) -> int {
    if hp < 2000 * ONE {
        1_000_000_000
    } else if hp < 2400 * ONE {
        1_500_000_000
    } else if hp < 2600 * ONE {
        2_000_000_000
    } else if hp < 2800 * ONE {
        2_200_000_000
    } else if hp < 3000 * ONE {
        2_500_000_000
    } else if hp < 3200 * ONE {
        3_000_000_000
    } else if hp < 3500 * ONE {
        3_500_000_000
    } else {
        4_000_000_000
    }
}

/// See [`hp_tier_long`].
pub open spec fn hp_tier_short(hp: int) -> int {
    if hp < 1500 * ONE {
        1_000_000_000
    } else if hp < 1800 * ONE {
        1_500_000_000
    } else if hp < 2000 * ONE {
        2_000_000_000
    } else if hp < 2100 * ONE {
        2_500_000_000
    } else {
        3_000_000_000
    }
}

/// The duration multiplier of a scaling code: 2 grows with the distance behind
/// the leader, `min(0.8 + distance / 62.5 m, 1.6)`; 3 and 7 are tables of the
/// remaining HP; every other code is 1.
pub open spec fn duration_multiplier(code: Option<i32>, hp: int, distance_from_top: int) -> int {
    match code {
        Some(c) => if c == 2 {
            let behind = if distance_from_top > 0 {
                distance_from_top
            } else {
                0
            };
            let grown = 800_000_000 + rounded_quotient(2 * behind, 125);
            if grown < 1_600_000_000 {
                grown
            } else {
                1_600_000_000
            }
        } else if c == 3 {
            hp_tier_long(hp)
        } else if c == 7 {
            hp_tier_short(hp)
        } else {
            ONE as int
        },
        None => ONE as int,
    }
}

fn band(value: i64, cuts: &[i64], tiers: &[i64]) -> (tier: i64)
    requires
        tiers@.len() == cuts@.len() + 1,
    ensures
        exists|i: int|
            0 <= i <= cuts@.len() && tier == tiers@[i] && (i < cuts@.len() ==> value < cuts@[i]) && (
            forall|k: int| 0 <= k < i ==> value >= #[trigger] cuts@[k]),
{
    let mut i: usize = 0;
    while i < cuts.len()
        invariant
            i <= cuts@.len(),
            tiers@.len() == cuts@.len() + 1,
            forall|k: int| 0 <= k < i ==> value >= #[trigger] cuts@[k],
        decreases cuts@.len() - i,
    {
        if value < cuts[i] {
            return tiers[i];
        }
        i = i + 1;
    }
    tiers[i]
}

fn find_hp_tier_long(hp: i64) -> (tier: i64)
    ensures
        tier == hp_tier_long(hp as int),
{
    let cuts: [i64; 7] = [
        2_000_000_000_000,
        2_400_000_000_000,
        2_600_000_000_000,
        2_800_000_000_000,
        3_000_000_000_000,
        3_200_000_000_000,
        3_500_000_000_000,
    ];
    let tiers: [i64; 8] = [
        1_000_000_000,
        1_500_000_000,
        2_000_000_000,
        2_200_000_000,
        2_500_000_000,
        3_000_000_000,
        3_500_000_000,
        4_000_000_000,
    ];
    let tier: i64 = band(hp, &cuts, &tiers);
    proof {
        let i = choose|i: int|
            0 <= i <= cuts@.len() && tier == tiers@[i] && (i < cuts@.len() ==> hp < cuts@[i]) && (
            forall|k: int| 0 <= k < i ==> hp >= #[trigger] cuts@[k]);
        assert(i > 0 ==> hp >= cuts@[i - 1]);
    }
    tier
}

fn find_hp_tier_short(hp: i64) -> (tier: i64)
    ensures
        tier == hp_tier_short(hp as int),
{
    let cuts: [i64; 4] = [
        1_500_000_000_000,
        1_800_000_000_000,
        2_000_000_000_000,
        2_100_000_000_000,
    ];
    let tiers: [i64; 5] = [
        1_000_000_000,
        1_500_000_000,
        2_000_000_000,
        2_500_000_000,
        3_000_000_000,
    ];
    let tier: i64 = band(hp, &cuts, &tiers);
    proof {
        let i = choose|i: int|
            0 <= i <= cuts@.len() && tier == tiers@[i] && (i < cuts@.len() ==> hp < cuts@[i]) && (
            forall|k: int| 0 <= k < i ==> hp >= #[trigger] cuts@[k]);
        assert(i > 0 ==> hp >= cuts@[i - 1]);
    }
    tier
}

/// See [`duration_multiplier`].
pub fn duration_scaling_multiplier(
    code: Option<i32>,
    hp: i64,
    distance_from_top: i64,
) -> (multiplier: i64)
    ensures
        multiplier == duration_multiplier(code, hp as int, distance_from_top as int),
{
    match code {
        Some(c) => {
            if c == 2 {
                let behind: i128 = if distance_from_top > 0 {
                    distance_from_top as i128
                } else {
                    0
                };
                let grown: i128 = 800_000_000 + divide_rounded(2 * behind, 125);
                if grown < 1_600_000_000 {
                    grown as i64
                } else {
                    1_600_000_000
                }
            } else if c == 3 {
                find_hp_tier_long(hp)
            } else if c == 7 {
                find_hp_tier_short(hp)
            } else {
                ONE
            }
        },
        None => ONE,
    }
}

/// A duration multiplier lies between 0.8 and 4, and no code shrinks it as HP
/// or the distance behind the leader grows.
pub proof fn duration_multipliers_grow(
    code: Option<i32>,
    hp: int,
    more_hp: int,
    gap: int,
    wider_gap: int,
)
    requires
        hp <= more_hp,
        gap <= wider_gap,
    ensures
        800_000_000 <= duration_multiplier(code, hp, gap) <= 4_000_000_000,
        duration_multiplier(code, hp, gap) <= duration_multiplier(code, more_hp, wider_gap),
{
}

/// An additional-activation effect, held back when its skill activates and
/// applied, for the skill's remaining duration, each time its trigger fires
/// while the skill is active.
#[derive(Debug, Clone, Copy, PartialEq, Eq, Structural)]
pub struct HeldAdditionalEffect {
    /// The skill that carries the effect.
    pub skill_id: SkillId,
    /// The held effect.
    pub effect: SkillEffectSpec,
    /// 1 each overtake, 2 / 3 each other skill activated.
    pub trigger: i32,
    /// Firings left.
    pub remaining: u32,
    /// The skill's remaining duration, counting up to 0.
    pub timer: Timer,
}

/// How often a held effect of this trigger may fire.
pub open spec fn firing_limit(trigger: i32) -> u32 {
    if trigger == 3 {
        2
    } else {
        3
    }
}

impl HeldAdditionalEffect {
    /// How often a held effect of this trigger may fire: 3 times, or 2 for
    /// trigger 3.
    pub fn limit(trigger: i32) -> (n: u32)
        ensures
            n == firing_limit(trigger),
    {
        if trigger == 3 {
            2
        } else {
            3
        }
    }
}

/// A running skill that each overtake lengthens.
#[derive(Debug, Clone, Copy, PartialEq, Eq, Structural)]
pub struct OrderUpExtension {
    /// The running skill.
    pub skill_id: SkillId,
    /// Extensions left.
    pub remaining: u32,
    /// Seconds added per overtake.
    pub seconds: i64,
    /// The skill's remaining duration, counting up to 0.
    pub timer: Timer,
}

/// `ready_at` of a skill that has not activated yet.
pub const READY_FROM_THE_START: i64 = -0x8000_0000_0000_0000;

/// `ready_at` of a skill that will not activate again this race.
pub const NEVER_READY: i64 = 0x7fff_ffff_ffff_ffff;

/// A skill whose trigger point has been fixed, awaiting the runner reaching it.
#[derive(Debug)]
pub struct PendingSkill {
    /// Skill identifier.
    pub skill_id: SkillId,
    /// Rarity tier.
    pub rarity: SkillRarity,
    /// Master-data tags, recorded in the ledger when the skill activates.
    pub tags: Vec<i32>,
    /// The concrete trigger window.
    pub trigger: Region,
    /// Effects applied on activation.
    pub effects: Vec<SkillEffectSpec>,
    /// Runtime gate evaluated each tick (`None` == always-true).
    pub extra_condition: Option<DynamicCondition>,
    /// The running style a strategy-targeted debuff hits.
    pub target_strategy: Option<Strategy>,
    /// The alternative's duration scaling code.
    pub duration_scaling: Option<i32>,
    /// Cooldown in seconds; 0 = the skill activates at most once.
    pub cooldown: i64,
    /// Later trigger windows, in position order; the skill moves to the next
    /// when it passes the current one.
    pub later_triggers: Vec<Region>,
    /// Race time of the first tick a cooled-down skill may activate again on.
    pub ready_at: i64,
    /// Whether the once-per-race wit check has already passed.
    pub wit_passed: bool,
    /// A scripted activation: the skill fires when the runner reaches its
    /// window, whatever its conditions and its wit check.
    pub forced: bool,
    /// The runtime half of the precondition, latched once it holds.
    pub precondition: Option<DynamicPrecondition>,
    /// See [`SkillTrigger::exclusive_alternative`]: the skill's exclusive
    /// alternatives share one wit check and one cooldown.
    pub exclusive_alternative: Option<usize>,
}

/// The value of a [`PendingSkill`].
#[verifier::ext_equal]
pub struct PendingState {
    pub skill_id: SkillId,
    pub rarity: SkillRarity,
    pub tags: Seq<i32>,
    pub trigger: Region,
    pub effects: Seq<SkillEffectSpec>,
    pub extra_condition: Option<DynamicCondition>,
    pub target_strategy: Option<Strategy>,
    pub duration_scaling: Option<i32>,
    pub cooldown: i64,
    pub later_triggers: Seq<Region>,
    pub ready_at: i64,
    pub wit_passed: bool,
    pub forced: bool,
    pub precondition: Option<PreconditionState>,
    pub exclusive_alternative: Option<usize>,
}

impl View for PendingSkill {
    type V = PendingState;

    open spec fn view(&self) -> PendingState {
        PendingState {
            skill_id: self.skill_id,
            rarity: self.rarity,
            tags: self.tags@,
            trigger: self.trigger,
            effects: self.effects@,
            extra_condition: self.extra_condition,
            target_strategy: self.target_strategy,
            duration_scaling: self.duration_scaling,
            cooldown: self.cooldown,
            later_triggers: self.later_triggers@,
            ready_at: self.ready_at,
            wit_passed: self.wit_passed,
            forced: self.forced,
            precondition: precondition_state(self.precondition),
            exclusive_alternative: self.exclusive_alternative,
        }
    }
}

/// The values of a list of pending skills.
pub open spec fn pending_states(pending: Seq<PendingSkill>) -> Seq<PendingState> {
    Seq::new(pending.len(), |i: int| pending[i]@)
}

/// The same tags again.
pub fn copy_tags(tags: &Vec<i32>) -> (copy: Vec<i32>)
    ensures
        copy@ == tags@,
{
    let mut copy: Vec<i32> = Vec::new();
    let mut i: usize = 0;
    while i < tags.len()
        invariant
            i <= tags.len(),
            copy@ == tags@.take(i as int),
        decreases tags.len() - i,
    {
        copy.push(tags[i]);
        i = i + 1;
        proof {
            assert(tags@.take(i as int) =~= tags@.take(i - 1).push(tags@[i - 1]));
        }
    }
    proof {
        assert(tags@.take(i as int) =~= tags@);
    }
    copy
}

/// The same effects again.
pub fn copy_effects(effects: &Vec<SkillEffectSpec>) -> (copy: Vec<SkillEffectSpec>)
    ensures
        copy@ == effects@,
{
    let mut copy: Vec<SkillEffectSpec> = Vec::new();
    let mut i: usize = 0;
    while i < effects.len()
        invariant
            i <= effects.len(),
            copy@ == effects@.take(i as int),
        decreases effects.len() - i,
    {
        copy.push(effects[i]);
        i = i + 1;
        proof {
            assert(effects@.take(i as int) =~= effects@.take(i - 1).push(effects@[i - 1]));
        }
    }
    proof {
        assert(effects@.take(i as int) =~= effects@);
    }
    copy
}

impl PendingSkill {
    /// The same pending skill again.
    pub fn duplicate(&self) -> (copy: PendingSkill)
        ensures
            copy@ == self@,
    {
        PendingSkill {
            skill_id: self.skill_id,
            rarity: self.rarity,
            tags: copy_tags(&self.tags),
            trigger: self.trigger,
            effects: copy_effects(&self.effects),
            extra_condition: duplicate_condition(&self.extra_condition),
            target_strategy: self.target_strategy,
            duration_scaling: self.duration_scaling,
            cooldown: self.cooldown,
            later_triggers: copy_regions(&self.later_triggers),
            ready_at: self.ready_at,
            wit_passed: self.wit_passed,
            forced: self.forced,
            precondition: duplicate_precondition(&self.precondition),
            exclusive_alternative: self.exclusive_alternative,
        }
    }
}

/// A debuff on opponents that a runner emitted this frame, for the race to
/// route onto its targets; the caster never applies it to herself.
#[derive(Debug, Clone, Copy, PartialEq, Eq, Structural)]
pub struct EmittedDebuff {
    /// The skill that produced the debuff.
    pub skill_id: SkillId,
    /// The effect to apply to each target, its strength already derived.
    pub effect: ResolvedSkillEffect,
    /// The effect's target selector.
    pub target: SkillTarget,
    /// The running style a strategy-targeted debuff hits.
    pub target_strategy: Option<Strategy>,
}

/// A targeted skill awaiting its trigger point.
#[derive(Debug)]
pub struct PendingTargetedSkill {
    /// Skill identifier.
    pub skill_id: SkillId,
    /// Where this targeted skill came from.
    pub origin: TargetedSkillOrigin,
    /// The source runner, when cast by another runner.
    pub source_runner_id: Option<RunnerId>,
    /// The concrete trigger window.
    pub trigger: Region,
    /// Effects applied on activation.
    pub effects: Vec<SkillEffectSpec>,
}

/// The value of a [`PendingTargetedSkill`].
#[verifier::ext_equal]
pub struct PendingTargetedState {
    pub skill_id: SkillId,
    pub origin: TargetedSkillOrigin,
    pub source_runner_id: Option<RunnerId>,
    pub trigger: Region,
    pub effects: Seq<SkillEffectSpec>,
}

impl View for PendingTargetedSkill {
    type V = PendingTargetedState;

    open spec fn view(&self) -> PendingTargetedState {
        PendingTargetedState {
            skill_id: self.skill_id,
            origin: self.origin,
            source_runner_id: self.source_runner_id,
            trigger: self.trigger,
            effects: self.effects@,
        }
    }
}

/// The values of a list of pending targeted skills.
pub open spec fn targeted_states(pending: Seq<PendingTargetedSkill>) -> Seq<PendingTargetedState> {
    Seq::new(pending.len(), |i: int| pending[i]@)
}

impl PendingTargetedSkill {
    /// The same pending targeted skill again.
    pub fn duplicate(&self) -> (copy: PendingTargetedSkill)
        ensures
            copy@ == self@,
    {
        PendingTargetedSkill {
            skill_id: self.skill_id,
            origin: self.origin,
            source_runner_id: self.source_runner_id,
            trigger: self.trigger,
            effects: copy_effects(&self.effects),
        }
    }
}

/// An effect running on a runner.
#[derive(Debug, Clone, Copy, PartialEq, Eq, Structural)]
pub struct ActiveSkill {
    /// Skill identifier.
    pub skill_id: SkillId,
    /// Remaining-duration timer.
    pub duration_timer: Timer,
    /// Effect strength in real units.
    pub modifier: i64,
    /// Target selector.
    pub effect_target: SkillTarget,
    /// Effect type.
    pub effect_type: SkillType,
    /// Whether the current-speed effect adds a one-frame acceleration when it
    /// ends.
    pub natural_deceleration: bool,
}

/// A targeted effect running on a runner.
#[derive(Debug, Clone, Copy, PartialEq, Eq, Structural)]
pub struct ActiveTargetedSkill {
    /// The underlying active effect.
    pub skill: ActiveSkill,
    /// Where this targeted skill came from.
    pub origin: TargetedSkillOrigin,
    /// The source runner, when cast by another runner.
    pub source_runner_id: Option<RunnerId>,
}

/// The data's raw units are ten-thousandths of a real one.
pub proof fn raw_units_are_ten_thousandths(raw: int)
    ensures
        crate::units::is_nearest(real_units(raw), raw, 10_000),
        raw % 10_000 == 0 ==> real_units(raw) * 10_000 == raw,
{
    crate::units::rounding_is_to_the_nearest(raw, 10_000, raw / 10_000);
}

/// The ids of the effect types in the skill data.
pub proof fn each_effect_type_has_its_id(id: int)
    ensures
        type_with_id(id) == Some(SkillType::Noop) <==> id == 0,
        type_with_id(id) == Some(SkillType::SpeedUp) <==> id == 1,
        type_with_id(id) == Some(SkillType::StaminaUp) <==> id == 2,
        type_with_id(id) == Some(SkillType::PowerUp) <==> id == 3,
        type_with_id(id) == Some(SkillType::GutsUp) <==> id == 4,
        type_with_id(id) == Some(SkillType::WisdomUp) <==> id == 5,
        type_with_id(id) == Some(SkillType::ChangeStrategy) <==> id == 6,
        type_with_id(id) == Some(SkillType::Recovery) <==> id == 9,
        type_with_id(id) == Some(SkillType::MultiplyStartDelay) <==> id == 10,
        type_with_id(id) == Some(SkillType::RushedDuration) <==> id == 13,
        type_with_id(id) == Some(SkillType::SetStartDelay) <==> id == 14,
        type_with_id(id) == Some(SkillType::CurrentSpeed) <==> id == 21,
        type_with_id(id) == Some(SkillType::CurrentSpeedWithNaturalDeceleration) <==> id == 22,
        type_with_id(id) == Some(SkillType::TargetSpeed) <==> id == 27,
        type_with_id(id) == Some(SkillType::LaneMovementSpeed) <==> id == 28,
        type_with_id(id) == Some(SkillType::RushedChance) <==> id == 29,
        type_with_id(id) == Some(SkillType::Accel) <==> id == 31,
        type_with_id(id) == Some(SkillType::ChangeLane) <==> id == 35,
        type_with_id(id) == Some(SkillType::ActivateRandomGold) <==> id == 37,
        type_with_id(id) == Some(SkillType::ExtendEvolvedDuration) <==> id == 42,
{
    assert forall|t: SkillType| type_with_id(id) == Some(t) <==> #[trigger] t.data_id() == id by {
        if t.data_id() == id {
            let u = choose|u: SkillType| #[trigger] u.data_id() == id;
            crate::effect::data_ids_are_distinct(t, u);
        }
    }
    assert(SkillType::Noop.data_id() == 0);
    assert(SkillType::SpeedUp.data_id() == 1);
    assert(SkillType::StaminaUp.data_id() == 2);
    assert(SkillType::PowerUp.data_id() == 3);
    assert(SkillType::GutsUp.data_id() == 4);
    assert(SkillType::WisdomUp.data_id() == 5);
    assert(SkillType::ChangeStrategy.data_id() == 6);
    assert(SkillType::Recovery.data_id() == 9);
    assert(SkillType::MultiplyStartDelay.data_id() == 10);
    assert(SkillType::RushedDuration.data_id() == 13);
    assert(SkillType::SetStartDelay.data_id() == 14);
    assert(SkillType::CurrentSpeed.data_id() == 21);
    assert(SkillType::CurrentSpeedWithNaturalDeceleration.data_id() == 22);
    assert(SkillType::TargetSpeed.data_id() == 27);
    assert(SkillType::LaneMovementSpeed.data_id() == 28);
    assert(SkillType::RushedChance.data_id() == 29);
    assert(SkillType::Accel.data_id() == 31);
    assert(SkillType::ChangeLane.data_id() == 35);
    assert(SkillType::ActivateRandomGold.data_id() == 37);
    assert(SkillType::ExtendEvolvedDuration.data_id() == 42);
}

/// An effect is built exactly where its type is known, its usage code is one of
/// none, 1, 8, 12 and 14, and a tiered one says which tier the data applied; it
/// is then as the data has it, in real units. Otherwise the first of these that
/// fails is why.
pub proof fn an_effect_is_built_as_the_data_has_it(effect: RawSkillEffect, base_duration: i64)
    ensures
        ({
            let built = classified(effect, base_duration);
            let known = exists|t: SkillType| #[trigger] t.data_id() == effect.effect_type;
            let usage = effect.value_usage;
            let supported = usage is None || usage == Some(1i32) || usage == Some(8i32) || usage
                == Some(12i32) || usage == Some(14i32);
            let tiered = usage == Some(12i32) && effect.pre_applied_multiplier is None;
            &&& !known ==> built == Err::<SkillEffectSpec, UnmodeledEffect>(
                UnmodeledEffect::EffectType(effect.effect_type),
            )
            &&& known && !supported ==> built == Err::<SkillEffectSpec, UnmodeledEffect>(
                UnmodeledEffect::ValueUsage(usage->0),
            )
            &&& known && tiered ==> built == Err::<SkillEffectSpec, UnmodeledEffect>(
                UnmodeledEffect::MissingPreAppliedMultiplier(12),
            )
            &&& known && supported && !tiered ==> built is Ok && {
                let spec_of = built->Ok_0;
                &&& spec_of.target == effect.target
                &&& spec_of.effect_type.data_id() == effect.effect_type
                &&& spec_of.base_duration == base_duration
                &&& crate::units::is_nearest(
                    spec_of.modifier as int,
                    effect.modifier as int,
                    10_000,
                )
                &&& spec_of.additional_activate_type == effect.additional_activate_type
                &&& spec_of.value_level_usage == effect.value_level_usage
                &&& spec_of.value_scaling == if usage == Some(8i32) {
                    ValueScalingPolicy::MultiplyRandom
                } else if usage == Some(12i32) {
                    ValueScalingPolicy::PreAppliedTier
                } else if usage == Some(14i32) {
                    ValueScalingPolicy::MultiplyActivatedGreens
                } else {
                    ValueScalingPolicy::Direct
                }
            }
        }),
{
    raw_units_are_ten_thousandths(effect.modifier as int);
    let q = real_units(effect.modifier as int);
    assert(i64::MIN <= q <= i64::MAX);
}

/// Effects are built one by one: what a list builds is what its parts build, in
/// order.
pub proof fn lists_are_built_part_by_part(
    a: Seq<RawSkillEffect>,
    b: Seq<RawSkillEffect>,
    base_duration: i64,
)
    ensures
        modeled(a + b, base_duration) == modeled(a, base_duration) + modeled(b, base_duration),
    decreases b.len(),
{
    if b.len() == 0 {
        assert(a + b =~= a);
    } else {
        lists_are_built_part_by_part(a, b.drop_last(), base_duration);
        assert((a + b).drop_last() =~= a + b.drop_last());
    }
    assert(modeled(a + b, base_duration) =~= modeled(a, base_duration) + modeled(
        b,
        base_duration,
    ));
}

/// How a duration is scaled: by the distance behind the leader from 0.8 up, 1 for
/// every 62.5 m more, to 1.6; by the HP left in steps; and not at all without one
/// of these codes.
pub proof fn durations_scale_by_their_code(code: Option<i32>, hp: int, gap: int, grown: int)
    ensures
        code != Some(2i32) && code != Some(3i32) && code != Some(7i32) ==> duration_multiplier(
            code,
            hp,
            gap,
        ) == 1_000_000_000,
        code == Some(2i32) && gap <= 0 ==> duration_multiplier(code, hp, gap) == 800_000_000,
        code == Some(2i32) && gap >= 50_000_000_000 ==> duration_multiplier(code, hp, gap)
            == 1_600_000_000,
        code == Some(2i32) && 0 <= gap < 50_000_000_000 && crate::units::is_nearest(
            grown,
            gap * 10,
            625,
        ) ==> duration_multiplier(code, hp, gap) == 800_000_000 + grown,
        code == Some(3i32) ==> {
            let m = duration_multiplier(code, hp, gap);
            let points = |n: int| n * 1_000_000_000;
            &&& hp < points(2000) ==> m == 1_000_000_000
            &&& points(2000) <= hp < points(2400) ==> m == 1_500_000_000
            &&& points(2400) <= hp < points(2600) ==> m == 2_000_000_000
            &&& points(2600) <= hp < points(2800) ==> m == 2_200_000_000
            &&& points(2800) <= hp < points(3000) ==> m == 2_500_000_000
            &&& points(3000) <= hp < points(3200) ==> m == 3_000_000_000
            &&& points(3200) <= hp < points(3500) ==> m == 3_500_000_000
            &&& points(3500) <= hp ==> m == 4_000_000_000
        },
        code == Some(7i32) ==> {
            let m = duration_multiplier(code, hp, gap);
            let points = |n: int| n * 1_000_000_000;
            &&& hp < points(1500) ==> m == 1_000_000_000
            &&& points(1500) <= hp < points(1800) ==> m == 1_500_000_000
            &&& points(1800) <= hp < points(2000) ==> m == 2_000_000_000
            &&& points(2000) <= hp < points(2100) ==> m == 2_500_000_000
            &&& points(2100) <= hp ==> m == 3_000_000_000
        },
{
    if code == Some(2i32) && gap >= 0 {
        let q = rounded_quotient(2 * gap, 125);
        crate::units::rounding_is_to_the_nearest(2 * gap, 125, q);
        if crate::units::is_nearest(grown, gap * 10, 625) {
            crate::units::rounding_is_to_the_nearest(2 * gap, 125, grown);
        }
    }
}

/// How often a held effect may fire: three times, or twice for the third
/// trigger.
pub proof fn held_effects_fire_two_or_three_times(trigger: i32)
    ensures
        trigger == 3 <==> firing_limit(trigger) == 2,
        trigger != 3 <==> firing_limit(trigger) == 3,
{
}

/// Skills of one number keep the order they came in.
pub proof fn sorting_keeps_the_order_of_one_number(skills: Seq<Skill>, number: u32)
    ensures
        id_sorted(skills).filter(|s: Skill| s.skill_id.number == number) == skills.filter(
            |s: Skill| s.skill_id.number == number,
        ),
    decreases skills.len(),
{
    reveal(Seq::filter);
    if skills.len() > 0 {
        sorting_keeps_the_order_of_one_number(skills.drop_last(), number);
        sorting_orders_the_skills(skills.drop_last());
        lemma_placed_filtered(id_sorted(skills.drop_last()), skills.last(), number);
    }
}

proof fn lemma_placed_filtered(list: Seq<Skill>, skill: Skill, number: u32)
    requires
        in_id_order(list),
    ensures
        ({
            let of = |s: Skill| s.skill_id.number == number;
            placed(list, skill).filter(of) == if skill.skill_id.number == number {
                list.filter(of).push(skill)
            } else {
                list.filter(of)
            }
        }),
    decreases list.len(),
{
    reveal(Seq::filter);
    let of = |s: Skill| s.skill_id.number == number;
    if list.len() == 0 || list.last().skill_id.number <= skill.skill_id.number {
        assert(list.push(skill).drop_last() =~= list);
    } else {
        let front = list.drop_last();
        lemma_placed_filtered(front, skill, number);
        assert(placed(front, skill).push(list.last()).drop_last() =~= placed(front, skill));
        if list.last().skill_id.number == number {
            assert(skill.skill_id.number != number);
        }
    }
}

} // verus!
