use honse_sim::condition::dynamic::{
    get_dynamic_condition, register_all_dynamic_conditions, ActiveRunner, ConditionRegistry,
    ConditionTimers, DynamicCondition, DynamicConditionFactory, FieldView, Observable,
};
use honse_sim::effect::{
    GreenTier, ScalingBand, SkillRarity, SkillTarget, SkillType, ValueScalingPolicy,
};
use honse_sim::language::{
    Comparison, Phase, Region, RegionList, RunnerId, SkillId, Strategy,
};
use honse_sim::math::{RaceClock, CLOCK_UNITS_PER_SECOND, FRAME_CLOCK_UNITS};
use honse_sim::model::{
    ActivationSamplePolicy, DynamicPrecondition, RawSkillEffect, ResolvedSkillEffect, Skill,
    SkillAlternative, SkillEffectSpec, SkillTrigger, TargetedSkillOrigin,
};
use honse_sim::rng::Rolls;
use honse_sim::runner::prepare::PrepareContext;
use honse_sim::runner::process::ready_ticks;
use honse_sim::runner::triggers::{
    build_skill_data, condition_window, derive_target_strategy, AppliedCondition,
    BuildSkillDataParams, ParsedAlternative,
};
use honse_sim::runner::{
    Health, InjectedDebuff, Runner, RunnerBody, RunnerConditionView, RunnerScript, RunnerTally,
    SkillQuantity, StatBlock, FRAME_DT,
};

/// A quantity in billionths.
fn q(x: f64) -> i64 {
    (x * 1e9).round() as i64
}

/// Seconds in clock units.
fn clock(seconds: f64) -> u64 {
    (seconds * CLOCK_UNITS_PER_SECOND as f64).round() as u64
}

/// The race a skill's condition is applied to.
#[derive(Clone)]
struct World {
    distance: f64,
    running_style: i64,
    used: Vec<u32>,
}

impl World {
    fn long() -> World {
        World {
            distance: 2400.0,
            running_style: 2,
            used: vec![],
        }
    }

    fn whole_course(&self) -> RegionList {
        RegionList(vec![Region::new(0, q(self.distance))])
    }
}

fn compares(value: i64, comparison: Comparison, arg: i64) -> bool {
    match comparison {
        Comparison::Eq => value == arg,
        Comparison::Neq => value != arg,
        Comparison::Lt => value < arg,
        Comparison::Lte => value <= arg,
        Comparison::Gt => value > arg,
        Comparison::Gte => value >= arg,
    }
}

/// Where on the course a term can hold, and what is left of it to check.
type Term = ((f64, f64), Option<DynamicCondition>);

fn term(text: &str, world: &World) -> Option<Term> {
    let ops = [
        ("==", Comparison::Eq),
        ("!=", Comparison::Neq),
        (">=", Comparison::Gte),
        ("<=", Comparison::Lte),
        (">", Comparison::Gt),
        ("<", Comparison::Lt),
    ];
    let (at, op, comparison) = ops
        .iter()
        .find_map(|(op, c)| text.find(op).map(|at| (at, *op, *c)))?;
    let name = &text[..at];
    let arg: i64 = text[at + op.len()..].parse().ok()?;
    let d = world.distance;
    let everywhere = (0.0, d);
    let bounds = [0.0, d / 6.0, d * 2.0 / 3.0, d * 5.0 / 6.0, d];
    let fixed = |value: i64| {
        let holds = compares(value, comparison, arg);
        Some((if holds { everywhere } else { (0.0, 0.0) }, None))
    };
    let own = |what: Observable| DynamicConditionFactory::Own(what).build(arg, comparison);
    match name {
        "phase" => {
            let held: Vec<i64> = (0..4).filter(|p| compares(*p, comparison, arg)).collect();
            let (Some(first), Some(last)) = (held.first(), held.last()) else {
                return Some(((0.0, 0.0), None));
            };
            Some(((bounds[*first as usize], bounds[*last as usize + 1]), None))
        }
        "phase_laterhalf_random" => Some(((d * 5.0 / 12.0, d * 2.0 / 3.0), None)),
        "running_style" => fixed(world.running_style),
        "distance_type" => fixed(4),
        "is_dirtgrade" => fixed(1),
        "ground_condition" => fixed(2),
        "season" => fixed(3),
        "rotation" => fixed(1),
        "weather" => fixed(1),
        "is_lastspurt" => Some(((bounds[2], d), Some(own(Observable::IsLastSpurt)))),
        "compete_fight_count" => Some((everywhere, Some(own(Observable::IsDueling)))),
        "temptation_count" => Some((everywhere, Some(own(Observable::TemptationCount)))),
        "accumulatetime" => Some((everywhere, Some(own(Observable::AccumulateTime)))),
        "is_activate_any_skill" => Some((
            everywhere,
            Some(
                DynamicConditionFactory::Own(Observable::RecentSkillActivations)
                    .build(arg, Comparison::Gte),
            ),
        )),
        "is_activate_other_skill_detail" => Some((
            everywhere,
            Some(
                DynamicConditionFactory::Own(Observable::SkillsActivatedCount)
                    .build(arg, Comparison::Gte),
            ),
        )),
        "is_used_skill_id" => Some((
            everywhere,
            Some(if world.used.contains(&(arg as u32)) {
                DynamicCondition::Always
            } else {
                DynamicCondition::Never
            }),
        )),
        _ => {
            let mut registry = ConditionRegistry::new();
            register_all_dynamic_conditions(&mut registry);
            let token = get_dynamic_condition(&registry, name)?;
            Some((everywhere, Some(token.build(arg, comparison))))
        }
    }
}

/// A condition applied to `window`; none where it does not parse.
fn applied(condition: &str, window: &RegionList, world: &World) -> Option<AppliedCondition> {
    let mut regions = RegionList::new();
    let mut check: Option<DynamicCondition> = None;
    let mut unchecked = false;
    for branch in condition.split('@') {
        let mut bounds = (0.0, world.distance);
        let mut all: Option<DynamicCondition> = None;
        for text in branch.split('&') {
            let (held, part) = term(text, world)?;
            bounds = (f64::max(bounds.0, held.0), f64::min(bounds.1, held.1));
            all = match (all, part) {
                (Some(a), Some(b)) => Some(DynamicCondition::And(Box::new(a), Box::new(b))),
                (a, b) => a.or(b),
            };
        }
        let before = regions.0.len();
        for w in &window.0 {
            let common = w.intersect(&Region::new(q(bounds.0), q(bounds.1)));
            if common.start < common.end {
                regions.push(common);
            }
        }
        if regions.0.len() == before {
            continue;
        }
        match all {
            None => unchecked = true,
            Some(b) => {
                check = Some(match check {
                    None => b,
                    Some(a) => DynamicCondition::Or(Box::new(a), Box::new(b)),
                });
            }
        }
    }
    if unchecked {
        check = None;
    }
    Some(AppliedCondition { regions, check })
}

fn parse(skill: &Skill, world: &World) -> Vec<ParsedAlternative> {
    let whole = world.whole_course();
    let nothing = || AppliedCondition {
        regions: RegionList::new(),
        check: None,
    };
    skill
        .alternatives
        .iter()
        .map(|alt| {
            let precondition = match alt.precondition.as_deref() {
                None | Some("") => None,
                Some(text) => applied(text, &whole, world),
            };
            let condition = match condition_window(alt, &whole, &precondition) {
                None => Some(nothing()),
                Some(_) if alt.condition.is_empty() => Some(nothing()),
                Some(window) => applied(&alt.condition, &window, world),
            };
            ParsedAlternative {
                precondition,
                condition,
                sample_policy: ActivationSamplePolicy::Immediate,
            }
        })
        .collect()
}

fn build_in(skill: &Skill, world: &World) -> Vec<SkillTrigger> {
    let parsed = parse(skill, world);
    build_skill_data(&BuildSkillDataParams {
        whole_course: &world.whole_course(),
        skill,
        parsed: &parsed,
        ignore_null_effects: false,
    })
}

fn build(skill: &Skill) -> Vec<SkillTrigger> {
    build_in(skill, &World::long())
}

fn effect(modifier: f64, effect_type: i32) -> RawSkillEffect {
    RawSkillEffect {
        modifier: q(modifier),
        target: SkillTarget::SelfTarget,
        effect_type,
        value_usage: None,
        value_level_usage: None,
        pre_applied_multiplier: None,
        additional_activate_type: None,
    }
}

fn target_speed_skill(id: u32, rarity: SkillRarity, condition: &str) -> Skill {
    Skill {
        skill_id: SkillId::new(id),
        rarity,
        tags: vec![],
        alternatives: vec![SkillAlternative {
            base_duration: q(30000.0),
            cooldown_time: None,
            duration_scaling: None,
            condition: condition.to_owned(),
            precondition: None,
            effects: vec![effect(4500.0, 27)],
        }],
    }
}

/// A skill of a running style that raises wit, bundled with a vision effect.
fn savvy_skill(id: u32) -> Skill {
    let leveled = |modifier: f64, effect_type: i32| RawSkillEffect {
        value_usage: Some(1),
        value_level_usage: Some(1),
        ..effect(modifier, effect_type)
    };
    Skill {
        skill_id: SkillId::new(id),
        rarity: SkillRarity::White,
        tags: vec![],
        alternatives: vec![SkillAlternative {
            base_duration: q(-10000.0),
            cooldown_time: None,
            duration_scaling: None,
            condition: "running_style==2".to_owned(),
            precondition: None,
            effects: vec![leveled(600000.0, 5), leveled(100000.0, 8)],
        }],
    }
}

fn runaway_skill(condition: &str) -> Skill {
    Skill {
        skill_id: SkillId::new(202051),
        rarity: SkillRarity::Gold,
        tags: vec![101, 612],
        alternatives: vec![SkillAlternative {
            base_duration: q(-1.0),
            cooldown_time: Some(0),
            duration_scaling: None,
            condition: condition.to_owned(),
            precondition: Some(String::new()),
            effects: vec![RawSkillEffect {
                value_usage: Some(1),
                value_level_usage: Some(1),
                ..effect(0.0, 6)
            }],
        }],
    }
}

/// A carrier that applies 4500 and forces `golds` golds.
fn gold_carrier(condition: &str, golds: f64) -> Skill {
    let mut carrier = target_speed_skill(110071, SkillRarity::White, condition);
    carrier.alternatives[0]
        .effects
        .push(effect(golds * 10000.0, 37));
    carrier
}

fn runner_with_skills(skills: Vec<Skill>) -> Runner {
    runner_with_skills_forced(skills, vec![])
}

fn runner_with_skills_forced(skills: Vec<Skill>, forced_positions: Vec<(u32, f64)>) -> Runner {
    let stats = StatBlock {
        speed: q(1000.0),
        stamina: q(1000.0),
        power: q(1000.0),
        guts: q(1000.0),
        wit: q(800.0),
    };
    let mut body = RunnerBody::at_gate(RunnerId(0), Strategy::PaceChaser);
    // 100 - 9000 / 800 percent.
    body.wit_threshold = q(0.8875);
    let mut script = RunnerScript::with_skills(skills);
    script.forced_positions = forced_positions
        .iter()
        .map(|(number, position)| SkillQuantity {
            number: *number,
            quantity: q(*position),
        })
        .collect();
    script.green_tags = (601..=614).collect();
    script.green_tiers = [(0, 0.0), (3, 1.0), (5, 2.0), (6, 3.0)]
        .iter()
        .map(|(at_least, multiplier)| GreenTier {
            at_least: *at_least,
            multiplier: q(*multiplier),
        })
        .collect();
    let health = Health {
        current: q(1000.0),
        max: q(1000.0),
    };
    let tally = RunnerTally::fresh(Strategy::PaceChaser, stats, health);
    Runner::new(
        body,
        script,
        tally,
        Rolls::new(vec![0]),
        Rolls::new(vec![0]),
        Rolls::new(vec![0]),
    )
}

fn prepare(r: &mut Runner) {
    prepare_in(r, &World::long());
}

/// `prepare` on a course of `distance` metres (cooldowns scale with it).
fn prepare_on(r: &mut Runner, distance: f64) {
    let world = World {
        distance,
        ..World::long()
    };
    prepare_in(r, &world);
}

/// A fresh round: the skills queued, every window drawn as the whole of its
/// region, and what fires at the start fired.
fn prepare_in(r: &mut Runner, world: &World) {
    let parsed: Vec<Vec<ParsedAlternative>> =
        r.script.skills.iter().map(|s| parse(s, world)).collect();
    let parsed_debuffs: Vec<Vec<ParsedAlternative>> = r
        .script
        .injected_debuffs
        .iter()
        .map(|d| parse(&d.skill, world))
        .collect();
    let windows: Vec<Vec<Vec<Vec<Region>>>> = r
        .script
        .skills
        .iter()
        .map(|s| {
            build_in(s, world)
                .iter()
                .map(|t| vec![t.regions.0.clone()])
                .collect()
        })
        .collect();
    r.body.course_distance = q(world.distance);
    r.initialize_skill_tracking(&PrepareContext {
        course_distance: q(world.distance),
        whole_course: &world.whole_course(),
        round_iteration: 0,
        parsed: &parsed,
        parsed_debuffs: &parsed_debuffs,
        windows: &windows,
    });
    r.activate_gate_skills(q(world.distance));
}

fn used(r: &Runner, id: u32) -> bool {
    r.used_skills.contains(&SkillId::new(id))
}

fn green_count(r: &Runner) -> usize {
    r.activated_ledger.iter().filter(|e| e.green).count()
}

fn process(r: &mut Runner, field: &FieldView) {
    r.process_skill_activations(field, q(2400.0));
}

fn pending_trigger(r: &Runner, id: u32) -> Region {
    r.pending_skills
        .iter()
        .find(|p| p.skill_id == SkillId::new(id))
        .expect("pending")
        .trigger
}

fn activate_first(r: &mut Runner, field: &FieldView) {
    r.body.position = r.pending_skills[0].trigger.start + q(0.5);
    process(r, field);
}

fn with_leader(position: i64) -> FieldView {
    FieldView {
        leader_position: Some(position),
        ..FieldView::at_gate()
    }
}

fn with_timers(timers: ConditionTimers) -> FieldView {
    FieldView {
        condition_timers: Some(timers),
        ..FieldView::at_gate()
    }
}

/// Run `ticks` activation passes, 1 m and 1/15 s apart, with the leader
/// `ahead` metres in front.
fn run_ticks(r: &mut Runner, ahead: f64, ticks: usize) {
    for _ in 0..ticks {
        let field = with_leader(r.body.position + q(ahead));
        process(r, &field);
        r.body.position += q(1.0);
        r.body.accumulate_time.advance(clock(1.0 / 15.0));
    }
}

// --- building triggers ---

#[test]
fn build_skill_data_produces_trigger_for_phase_condition() {
    let skill = target_speed_skill(100001, SkillRarity::Gold, "phase>=2");
    let triggers = build(&skill);
    assert_eq!(triggers.len(), 1);
    assert!(!triggers[0].regions.0.is_empty());
    assert_eq!(triggers[0].effects[0].effect_type, SkillType::TargetSpeed);
    assert!(triggers[0].regions.0[0].start >= q(1200.0));
}

#[test]
fn empty_precondition_is_treated_as_none_and_still_activates() {
    let none_pre = target_speed_skill(200012, SkillRarity::Gold, "phase>=1");
    assert_eq!(
        build(&none_pre).len(),
        1,
        "baseline: no precondition activates"
    );

    let mut empty_pre = target_speed_skill(200012, SkillRarity::Gold, "phase>=1");
    empty_pre.alternatives[0].precondition = Some(String::new());
    let triggers = build(&empty_pre);
    assert_eq!(
        triggers.len(),
        1,
        "empty precondition must behave like no precondition, not suppress the trigger"
    );
    assert!(!triggers[0].regions.0.is_empty());
}

#[test]
fn a_precondition_keeps_its_runtime_half() {
    // A static precondition part (phase) and a dynamic one (order). The static
    // part narrows the window; the dynamic part is carried, unmet, for the race
    // to latch.
    let mut skill = target_speed_skill(910031, SkillRarity::Gold, "phase>=2");
    skill.alternatives[0].precondition = Some("phase>=1&order<=5".to_owned());
    let triggers = build(&skill);
    assert_eq!(triggers.len(), 1);
    let pre = triggers[0]
        .precondition
        .as_ref()
        .expect("the order check is carried");
    assert!(!pre.met);
    assert!(!DynamicPrecondition::is_met(Some(pre)));
    assert!(DynamicPrecondition::is_met(None));

    // A purely static precondition carries nothing to latch.
    skill.alternatives[0].precondition = Some("phase>=1".to_owned());
    assert!(build(&skill)[0].precondition.is_none());
}

#[test]
fn build_skill_data_keeps_full_regions_for_dynamic_condition() {
    let skill = target_speed_skill(100002, SkillRarity::Gold, "is_lastspurt==1");
    let triggers = build(&skill);
    assert_eq!(triggers.len(), 1);
    assert!(!triggers[0].regions.0.is_empty());
    // Last-spurt portion of the course (>= half distance).
    assert!(triggers[0].regions.0[0].start >= q(1200.0));
}

#[test]
fn savvy_skill_builds_trigger_with_only_wisdom_effect() {
    // A skill that bundles a modeled effect with an unmodeled one still
    // triggers, carrying only the modeled one.
    let triggers = build(&savvy_skill(201531));
    assert_eq!(triggers.len(), 1, "the Savvy skill must still trigger");
    assert_eq!(
        triggers[0].effects.len(),
        1,
        "only the modeled effect remains"
    );
    assert_eq!(triggers[0].effects[0].effect_type, SkillType::WisdomUp);
}

#[test]
fn derive_target_strategy_reads_both_hesitant_and_frenzied_tokens() {
    // Hesitant (EnemyStrategy) family.
    assert_eq!(
        derive_target_strategy("running_style_count_nige_otherself>=1"),
        Some(Strategy::FrontRunner)
    );
    // Frenzied (KakariStrategy) family: the four running styles.
    assert_eq!(
        derive_target_strategy("running_style_temptation_opponent_count_nige>=1&is_temptation==0"),
        Some(Strategy::FrontRunner)
    );
    assert_eq!(
        derive_target_strategy("running_style_temptation_opponent_count_senko>=1&is_temptation==0"),
        Some(Strategy::PaceChaser)
    );
    assert_eq!(
        derive_target_strategy("running_style_temptation_opponent_count_sashi>=1&is_temptation==0"),
        Some(Strategy::LateSurger)
    );
    assert_eq!(
        derive_target_strategy(
            "running_style_temptation_opponent_count_oikomi>=1&is_temptation==0"
        ),
        Some(Strategy::EndCloser)
    );
    assert_eq!(derive_target_strategy("phase>=2"), None);
}

// --- greens and the effects that scale with them ---

fn green(id: u32, tags: Vec<i32>, condition: &str, effect_type: i32) -> Skill {
    Skill {
        skill_id: SkillId::new(id),
        rarity: SkillRarity::White,
        tags,
        alternatives: vec![SkillAlternative {
            base_duration: q(-10000.0),
            cooldown_time: Some(0),
            duration_scaling: None,
            condition: condition.to_owned(),
            precondition: Some(String::new()),
            effects: vec![RawSkillEffect {
                value_usage: Some(1),
                value_level_usage: Some(1),
                ..effect(400000.0, effect_type)
            }],
        }],
    }
}

fn copano_rickey_full_skills() -> Vec<Skill> {
    let usage = |modifier: f64, effect_type: i32, value_usage: i32| RawSkillEffect {
        value_usage: Some(value_usage),
        ..effect(modifier, effect_type)
    };
    let mut savvy = green(201532, vec![102, 405, 612], "running_style==2", 5);
    savvy.alternatives[0].effects.push(RawSkillEffect {
        value_usage: Some(1),
        value_level_usage: Some(1),
        ..effect(50000.0, 8)
    });
    vec![
        Skill {
            skill_id: SkillId::new(100981),
            rarity: SkillRarity::Unique,
            tags: vec![401, 403],
            alternatives: vec![SkillAlternative {
                base_duration: q(50000.0),
                cooldown_time: None,
                duration_scaling: None,
                condition: "phase_laterhalf_random==1".to_owned(),
                precondition: Some(String::new()),
                effects: vec![
                    usage(2500.0, 27, 1),
                    usage(500.0, 27, 14),
                    usage(500.0, 31, 14),
                ],
            }],
        },
        savvy,
        green(202252, vec![401, 606], "is_dirtgrade==1", 1),
        green(
            200162,
            vec![403, 601],
            "ground_condition==2@ground_condition==3@ground_condition==4",
            3,
        ),
    ]
}

fn copano_rickey_extra_greens() -> Vec<Skill> {
    vec![
        green(200192, vec![401, 603], "season==3", 1),
        green(200012, vec![401, 608], "rotation==1", 1),
        green(200212, vec![404, 602], "weather==1", 4),
    ]
}

fn copano_on_dirtgrade(skills: Vec<Skill>) -> Runner {
    let mut r = runner_with_skills(skills);
    prepare_on(&mut r, 2000.0);
    r
}

fn proc_luck_runs_my_way(r: &mut Runner) {
    r.body.wit_checks_enabled = false;
    r.body.position = pending_trigger(r, 100981).start + q(0.5);
    r.process_skill_activations(&FieldView::at_gate(), q(2000.0));
}

#[test]
fn copano_rickey_usage_14_benefits_from_activated_greens() {
    // 100981 and three greens (201532/612, 202252/606, 200162/601).
    let mut uma1 = copano_on_dirtgrade(copano_rickey_full_skills());
    assert_eq!(
        green_count(&uma1),
        3,
        "the three green skills must activate on a dirt-grade Good-ground course"
    );
    proc_luck_runs_my_way(&mut uma1);
    assert!(used(&uma1, 100981), "100981 must proc");

    // Only 100981: no greens, the 0x tier.
    let mut uma2 = copano_on_dirtgrade(vec![copano_rickey_full_skills().remove(0)]);
    assert_eq!(green_count(&uma2), 0);
    proc_luck_runs_my_way(&mut uma2);
    assert!(used(&uma2, 100981));

    // Three greens reach the 1x tier, which adds 0.05 to the shared 0.25.
    assert_eq!(uma1.tally.modifiers.target_speed, q(0.30));
    assert_eq!(uma2.tally.modifiers.target_speed, q(0.25));
    let accel_delta = uma1.tally.modifiers.accel - uma2.tally.modifiers.accel;
    assert_eq!(accel_delta, q(0.05));
}

#[test]
fn copano_rickey_usage_14_reaches_tier_3_with_six_greens() {
    let mut skills = copano_rickey_full_skills();
    skills.extend(copano_rickey_extra_greens());
    let mut uma1 = copano_on_dirtgrade(skills);
    assert_eq!(green_count(&uma1), 6, "all six greens must activate");
    proc_luck_runs_my_way(&mut uma1);
    assert!(used(&uma1, 100981));

    let mut uma2 = copano_on_dirtgrade(vec![copano_rickey_full_skills().remove(0)]);
    proc_luck_runs_my_way(&mut uma2);

    // Six greens reach the 3x tier: 0.05 * 3 on top of 0.25.
    assert_eq!(uma1.tally.modifiers.target_speed, q(0.40));
    let accel_delta = uma1.tally.modifiers.accel - uma2.tally.modifiers.accel;
    assert_eq!(accel_delta, q(0.15));
}

#[test]
fn activation_records_green_tags_in_ledger() {
    let mut green = target_speed_skill(200011, SkillRarity::Gold, "phase>=2");
    green.tags = vec![401, 608];
    let mut r = runner_with_skills(vec![green]);
    prepare(&mut r);
    r.body.wit_checks_enabled = false;
    // Tags flow through the trigger onto the pending skill.
    assert_eq!(r.pending_skills[0].tags, vec![401, 608]);
    activate_first(&mut r, &FieldView::at_gate());
    assert_eq!(r.tally.skills_activated_count, 1);
    assert_eq!(green_count(&r), 1);
}

#[test]
fn activation_ignores_non_green_tags_in_ledger() {
    let mut non_green = target_speed_skill(202181, SkillRarity::Gold, "phase>=2");
    non_green.tags = vec![404, 405];
    let mut r = runner_with_skills(vec![non_green]);
    prepare(&mut r);
    r.body.wit_checks_enabled = false;
    activate_first(&mut r, &FieldView::at_gate());
    assert_eq!(r.tally.skills_activated_count, 1);
    assert_eq!(green_count(&r), 0);
}

// --- preparing a round ---

#[test]
fn pending_skills_built_on_prepare() {
    let mut r = runner_with_skills(vec![target_speed_skill(
        100001,
        SkillRarity::Gold,
        "phase>=2",
    )]);
    prepare(&mut r);
    assert_eq!(r.pending_skills.len(), 1);
    assert_eq!(r.pending_skills[0].skill_id, SkillId::new(100001));
}

/// A negative current-speed effect on all the others.
fn debuff_skill(id: u32) -> Skill {
    Skill {
        skill_id: SkillId::new(id),
        rarity: SkillRarity::White,
        tags: vec![],
        alternatives: vec![SkillAlternative {
            base_duration: q(30000.0),
            cooldown_time: None,
            duration_scaling: None,
            condition: "phase>=0".to_owned(),
            precondition: None,
            effects: vec![RawSkillEffect {
                target: SkillTarget::All,
                ..effect(-5000.0, 31)
            }],
        }],
    }
}

#[test]
fn injected_debuff_queues_fixed_position_targeted_skill() {
    let mut r = runner_with_skills(vec![]);
    r.script.injected_debuffs = vec![InjectedDebuff {
        skill: debuff_skill(700001),
        position: q(800.0),
    }];
    prepare(&mut r);
    assert_eq!(r.pending_targeted_skills.len(), 1);
    let pending = &r.pending_targeted_skills[0];
    assert_eq!(pending.skill_id, SkillId::new(700001));
    assert!(matches!(pending.origin, TargetedSkillOrigin::Injection));
    // The trigger window lies around position 800.
    assert!(pending.trigger.start <= q(800.0) && pending.trigger.end >= q(800.0));
    assert_eq!(pending.effects.len(), 1);
    assert!(pending.effects[0].modifier < 0);
}

#[test]
fn injected_non_debuff_effect_is_ignored() {
    // A self-targeted positive effect is not an external debuff.
    let mut skill = debuff_skill(700002);
    skill.alternatives[0].effects[0].target = SkillTarget::SelfTarget;
    skill.alternatives[0].effects[0].modifier = q(5000.0);
    let mut r = runner_with_skills(vec![]);
    r.script.injected_debuffs = vec![InjectedDebuff {
        skill,
        position: q(800.0),
    }];
    prepare(&mut r);
    assert!(r.pending_targeted_skills.is_empty());
}

#[test]
fn forced_position_bypasses_dynamic_condition_and_wit_check() {
    // `order==1` is checked at run time and cannot hold with no field resolved.
    // A scripted position fires the skill anyway, wit checks left on.
    let skill = target_speed_skill(100001, SkillRarity::Gold, "phase>=0&order==1");

    let mut control = runner_with_skills(vec![skill.clone()]);
    prepare(&mut control);
    control.body.position = q(1000.5);
    process(&mut control, &FieldView::at_gate());
    assert_eq!(
        control.tally.skills_activated_count, 0,
        "control must not fire"
    );

    let mut r = runner_with_skills_forced(vec![skill], vec![(100001, 1000.0)]);
    prepare(&mut r);
    assert_eq!(r.pending_skills.len(), 1);
    assert!(r.pending_skills[0].forced);
    assert_eq!(
        r.pending_skills[0].trigger,
        Region::new(q(1000.0), q(1010.0))
    );

    r.body.position = q(1000.5);
    process(&mut r, &FieldView::at_gate());
    assert_eq!(r.tally.skills_activated_count, 1);
    assert!(used(&r, 100001));
}

#[test]
fn forced_position_overrides_statically_unsatisfiable_condition() {
    // `distance_type==1` never holds here: the trigger survives only at a
    // window past the end of the course.
    let skill = target_speed_skill(100002, SkillRarity::Gold, "distance_type==1");

    let mut control = runner_with_skills(vec![skill.clone()]);
    prepare(&mut control);
    assert!(control.pending_skills[0].trigger.start > q(2400.0));

    let mut r = runner_with_skills_forced(vec![skill], vec![(100002, 1200.0)]);
    prepare(&mut r);
    assert_eq!(r.pending_skills.len(), 1);
    assert!(r.pending_skills[0].forced);
    assert_eq!(
        r.pending_skills[0].trigger,
        Region::new(q(1200.0), q(1210.0))
    );

    r.body.position = q(1200.5);
    process(&mut r, &FieldView::at_gate());
    assert_eq!(r.tally.skills_activated_count, 1);
    assert!(used(&r, 100002));
    assert_eq!(r.tally.modifiers.target_speed, q(0.45));
}

#[test]
fn forced_position_synthesizes_trigger_when_none_is_built() {
    // A condition that does not parse builds no trigger; the scripted entry is
    // made from the alternative's effects.
    let skill = target_speed_skill(100003, SkillRarity::Gold, "unknown_token_xyz==1");

    let mut control = runner_with_skills(vec![skill.clone()]);
    prepare(&mut control);
    assert!(control.pending_skills.is_empty(), "control has no trigger");

    let mut r = runner_with_skills_forced(vec![skill], vec![(100003, 800.0)]);
    prepare(&mut r);
    assert_eq!(r.pending_skills.len(), 1);
    assert!(r.pending_skills[0].forced);
    assert_eq!(r.pending_skills[0].trigger, Region::new(q(800.0), q(810.0)));

    r.body.position = q(800.5);
    process(&mut r, &FieldView::at_gate());
    assert_eq!(r.tally.skills_activated_count, 1);
    assert!(used(&r, 100003));
}

// --- activations ---

#[test]
fn target_speed_skill_activates_and_applies_modifier() {
    let mut r = runner_with_skills(vec![target_speed_skill(
        100001,
        SkillRarity::Gold,
        "phase>=2",
    )]);
    prepare(&mut r);
    r.body.wit_checks_enabled = false;
    activate_first(&mut r, &FieldView::at_gate());

    assert_eq!(r.active.target_speed.len(), 1);
    assert!(r.tally.modifiers.target_speed > 0);
    assert_eq!(r.tally.skills_activated_count, 1);
    assert!(used(&r, 100001));
    assert!(r.pending_skills.is_empty());
}

#[test]
fn is_activate_any_skill_reads_an_activation_on_this_tick_or_the_last() {
    // An early skill fires in the Mid-Race; 120011 waits in the Late-Race for
    // another activation; `other`, if given, fires on entering it.
    let fire = |other: Option<u32>| {
        let mut skills = vec![
            target_speed_skill(100001, SkillRarity::Gold, "phase>=1"),
            target_speed_skill(
                120011,
                SkillRarity::Unique,
                "phase>=2&is_activate_any_skill==1",
            ),
        ];
        if let Some(id) = other {
            skills.push(target_speed_skill(id, SkillRarity::White, "phase>=2"));
        }
        let mut r = runner_with_skills(skills);
        prepare(&mut r);
        r.body.wit_checks_enabled = false;
        let late = pending_trigger(&r, 120011).start;
        r.body.position = r.pending_skills[0].trigger.start + q(1.0);
        process(&mut r, &FieldView::at_gate());
        assert_eq!(r.tally.skills_activated_count, 1, "the early skill");
        // A tick later, still in the Mid-Race.
        r.body.position += q(1.0);
        process(&mut r, &FieldView::at_gate());
        let mut ticks = Vec::new();
        for tick in 0..3 {
            r.body.position = late + q(1.0) + q(f64::from(tick));
            process(&mut r, &FieldView::at_gate());
            if used(&r, 120011) {
                ticks.push(tick);
            }
        }
        ticks.first().copied()
    };
    // The early activation is two ticks old: it never fires.
    assert_eq!(fire(None), None);
    // The pass checks skills in ascending id order: a lower id fires first and
    // 120011 follows on the same tick; a higher id fires after 120011 was
    // checked, so 120011 follows on the next.
    assert_eq!(fire(Some(110001)), Some(0), "a lower id");
    assert_eq!(fire(Some(200331)), Some(1), "a higher id");
}

#[test]
fn temptation_count_reads_the_runners_own_spells() {
    let fires = |spells: i64| {
        let mut r = runner_with_skills(vec![target_speed_skill(
            900591,
            SkillRarity::Gold,
            "phase>=2&temptation_count==0",
        )]);
        prepare(&mut r);
        r.body.wit_checks_enabled = false;
        r.body.rushed_spells = spells;
        activate_first(&mut r, &FieldView::at_gate());
        used(&r, 900591)
    };
    assert!(fires(0));
    // A spell in the Mid-Race, long over.
    assert!(!fires(1));
}

#[test]
fn owned_debuff_effect_is_not_self_applied() {
    // A self buff bundled with a Current Speed debuff on the others: the caster
    // gets the buff, never the debuff.
    let mut skill = target_speed_skill(202131, SkillRarity::Gold, "phase>=2");
    skill.alternatives[0].base_duration = q(18000.0);
    skill.alternatives[0].effects = vec![
        effect(3500.0, 27),
        RawSkillEffect {
            target: SkillTarget::All,
            ..effect(-1500.0, 21)
        },
    ];
    let mut r = runner_with_skills(vec![skill]);
    prepare(&mut r);
    r.body.wit_checks_enabled = false;
    activate_first(&mut r, &FieldView::at_gate());

    assert_eq!(r.active.target_speed.len(), 1);
    assert!(r.tally.modifiers.target_speed > 0);
    assert!(r.active.current_speed.is_empty());
    assert_eq!(r.tally.modifiers.current_speed, 0);
    assert_eq!(r.tally.skills_activated_count, 1);
    assert!(used(&r, 202131));
    // It goes out to the others instead, at the strength it was resolved at.
    assert_eq!(r.emitted_debuffs.len(), 1);
    assert_eq!(r.emitted_debuffs[0].skill_id, SkillId::new(202131));
    assert_eq!(r.emitted_debuffs[0].effect.modifier, q(-0.15));
    assert_eq!(r.emitted_debuffs[0].target, SkillTarget::All);
}

#[test]
fn recovery_increments_heal_count() {
    let mut skill = target_speed_skill(300001, SkillRarity::White, "phase>=2");
    skill.alternatives[0].base_duration = 0;
    skill.alternatives[0].effects = vec![effect(5000.0, 9)];
    let mut r = runner_with_skills(vec![skill]);
    prepare(&mut r);
    r.body.wit_checks_enabled = false;
    activate_first(&mut r, &FieldView::at_gate());
    assert_eq!(r.tally.heals_activated_count, 1);
}

#[test]
fn change_strategy_skips_wit_check() {
    let mut r = runner_with_skills(vec![runaway_skill("phase>=2")]);
    r.body.strategy = Strategy::FrontRunner;
    prepare(&mut r);

    assert_eq!(r.pending_skills.len(), 1);
    assert!(r.should_skip_wit_check_at(0));
}

#[test]
fn runaway_activates_at_gate_and_promotes_only_position_keep_strategy() {
    let mut r = runner_with_skills(vec![runaway_skill("running_style==1")]);
    r.body.strategy = Strategy::FrontRunner;
    r.tally.position_keep_strategy = Strategy::FrontRunner;

    let world = World {
        running_style: 1,
        ..World::long()
    };
    prepare_in(&mut r, &world);

    assert_eq!(
        r.body.strategy,
        Strategy::FrontRunner,
        "the race-entry strategy remains unchanged"
    );
    assert_eq!(r.tally.position_keep_strategy, Strategy::Runaway);
    assert_eq!(r.tally.skills_activated_count, 1);
    assert!(used(&r, 202051));
}

#[test]
fn savvy_skill_activates_at_gate_and_applies_wit_bonus() {
    let baseline = runner_with_skills(vec![]);
    let wit_before = baseline.tally.adjusted_stats.wit;

    let mut r = runner_with_skills(vec![savvy_skill(201531)]);
    prepare(&mut r);

    // Green skill consumed off the pending queue at the start.
    assert!(r.pending_skills.is_empty());
    assert_eq!(
        r.tally.skills_activated_count, 1,
        "Savvy must fire, not be dropped"
    );
    assert!(used(&r, 201531));
    assert_eq!(
        r.tally.adjusted_stats.wit,
        wit_before + q(60.0),
        "the modeled Wisdom Up (+60) must apply"
    );
}

#[test]
fn receive_targeted_effect_applies_current_speed() {
    let mut r = runner_with_skills(vec![]);
    prepare(&mut r);
    let effects = vec![ResolvedSkillEffect {
        target: SkillTarget::All,
        effect_type: SkillType::CurrentSpeed,
        base_duration: q(3.0),
        modifier: q(-0.5),
    }];
    r.receive_targeted_effect(SkillId::new(999), effects, RunnerId(5), q(2400.0));
    assert_eq!(r.targeted.current_speed.len(), 1);
    assert!(r.tally.modifiers.current_speed < 0);
    assert_eq!(r.used_targeted_skills.len(), 1);
    // The receiver applies the caster-resolved value verbatim.
    assert_eq!(r.targeted.current_speed[0].skill.modifier, q(-0.5));
}

#[test]
fn active_skill_expires_and_reverses_modifier() {
    let mut r = runner_with_skills(vec![target_speed_skill(
        100001,
        SkillRarity::Gold,
        "phase>=2",
    )]);
    prepare(&mut r);
    r.body.wit_checks_enabled = false;
    let field = FieldView::at_gate();
    activate_first(&mut r, &field);
    assert!(r.tally.modifiers.target_speed > 0);
    r.active.target_speed[0].duration_timer.t = 0;
    process(&mut r, &field);
    assert!(r.active.target_speed.is_empty());
    assert_eq!(r.tally.modifiers.target_speed, 0);
}

// --- forced golds ---

/// Put the runner inside the carrier's window, ahead of the gold's own, and
/// run one activation pass.
fn fire_carrier(r: &mut Runner) {
    let carrier = pending_trigger(r, 110071);
    let gold = pending_trigger(r, 200002);
    r.body.position = carrier.start + q(0.5);
    assert!(
        r.body.position < gold.start,
        "the gold's own window is later"
    );
    process(r, &FieldView::at_gate());
}

#[test]
fn a_forced_gold_runs_its_full_duration() {
    let carrier = gold_carrier("phase==1", 1.0);
    let gold = target_speed_skill(200002, SkillRarity::Gold, "phase>=2");
    let mut r = runner_with_skills(vec![carrier, gold]);
    prepare(&mut r);
    r.body.wit_checks_enabled = false;
    fire_carrier(&mut r);
    let forced = r
        .active
        .target_speed
        .iter()
        .find(|a| a.skill_id == SkillId::new(200002))
        .expect("the gold was forced");
    assert_eq!(-forced.duration_timer.t, q(3.0 * 2.4));
}

#[test]
fn a_gold_cooling_down_is_not_forced_again() {
    let carrier = gold_carrier("phase==1", 1.0);
    let gold = target_speed_skill(200002, SkillRarity::Gold, "phase>=2");
    let mut r = runner_with_skills(vec![carrier, gold]);
    prepare(&mut r);
    r.body.wit_checks_enabled = false;
    // The gold has fired and waits out its cooldown.
    let at = r
        .pending_skills
        .iter()
        .position(|p| p.skill_id == SkillId::new(200002))
        .expect("gold pending");
    r.pending_skills[at].ready_at = r.body.accumulate_time.seconds() + q(60.0);
    fire_carrier(&mut r);
    assert!(r
        .active
        .target_speed
        .iter()
        .all(|a| a.skill_id != SkillId::new(200002)));
}

/// A gold is a candidate from its ready tick, counted in whole ticks as for
/// its own condition, and not a tick before.
#[test]
fn a_gold_is_forced_from_its_exact_ready_tick() {
    const DISTANCE: f64 = 2600.0;
    let carrier = gold_carrier("infront_near_lane_time>=3", 1.0);
    let mut gold = target_speed_skill(201662, SkillRarity::Gold, "behind_near_lane_time>=3");
    gold.alternatives[0].effects[0].modifier = q(3500.0);
    gold.alternatives[0].cooldown_time = Some(q(300000.0));
    let field = |near_behind: f64, near_infront: f64| {
        with_timers(ConditionTimers {
            near_behind: q(near_behind),
            near_infront: q(near_infront),
            ..ConditionTimers::default()
        })
    };
    let ready = ready_ticks(
        q(3.0 * (DISTANCE / 1000.0)),
        q(30.0 * DISTANCE / 1000.0),
        FRAME_DT,
    ) as u32;
    let mut wrong = Vec::new();
    // First firings 15 ticks apart from tick 150, over most of a race.
    for first in (150_u32..1050).step_by(15) {
        for (after, forced) in [(ready - 1, false), (ready, true)] {
            let mut r = runner_with_skills(vec![carrier.clone(), gold.clone()]);
            prepare_on(&mut r, DISTANCE);
            r.body.wit_checks_enabled = false;
            // Both armed over the whole race.
            assert_eq!(r.pending_skills.len(), 2, "the carrier and the gold");
            for pending in &mut r.pending_skills {
                pending.trigger = Region::new(0, q(DISTANCE));
            }
            r.body.position = q(1000.0);
            // The clock steps a tick at a time, as in the race.
            for _ in 0..first {
                r.body.accumulate_time.advance(FRAME_CLOCK_UNITS);
            }
            r.process_skill_activations(&field(30.0, 0.0), q(DISTANCE));
            assert_eq!(r.tally.skills_activated_count, 1, "tick {first}: the gold");
            for _ in 0..after {
                r.body.accumulate_time.advance(FRAME_CLOCK_UNITS);
            }
            r.process_skill_activations(&field(0.0, 30.0), q(DISTANCE));
            // The carrier, and the gold again if it was a candidate.
            let expected = if forced { 3 } else { 2 };
            if r.tally.skills_activated_count != expected {
                wrong.push((first, after, r.tally.skills_activated_count));
            }
        }
    }
    assert!(
        wrong.is_empty(),
        "ready after {ready} ticks; (first firing, carrier after, fired) {wrong:?}"
    );
}

// --- held effects and extensions ---

/// Activation duration of a target-speed skill carrying `duration_scaling`,
/// activated with the leader `ahead` metres in front.
fn activated_duration(duration_scaling: Option<i32>, ahead: f64) -> i64 {
    let mut skill = target_speed_skill(100001, SkillRarity::Gold, "phase>=2");
    skill.alternatives[0].duration_scaling = duration_scaling;
    let mut r = runner_with_skills(vec![skill]);
    prepare(&mut r);
    r.body.wit_checks_enabled = false;
    r.body.position = r.pending_skills[0].trigger.start + q(0.5);
    let field = with_leader(r.body.position + q(ahead));
    process(&mut r, &field);
    assert_eq!(r.active.target_speed.len(), 1);
    -r.active.target_speed[0].duration_timer.t
}

/// A target-speed skill (4500) with a second target-speed effect (500) held as
/// an additional activation of `trigger`.
fn skill_with_held_effect(id: u32, trigger: i32) -> Skill {
    let mut skill = target_speed_skill(id, SkillRarity::Gold, "phase>=2");
    skill.alternatives[0].effects.push(RawSkillEffect {
        additional_activate_type: Some(trigger),
        ..effect(500.0, 27)
    });
    skill
}

fn overtaking() -> FieldView {
    FieldView {
        self_previous_order: Some(5),
        self_order: Some(4),
        ..FieldView::at_gate()
    }
}

#[test]
fn additional_activation_order_up_fires_on_overtakes_only_up_to_three() {
    // The effect does nothing at activation; it applies for the remaining
    // duration on each overtake, up to 3 times.
    let mut r = runner_with_skills(vec![skill_with_held_effect(100531, 1)]);
    prepare(&mut r);
    r.body.wit_checks_enabled = false;
    activate_first(&mut r, &FieldView::at_gate());
    assert_eq!(
        r.active.target_speed.len(),
        1,
        "held effect not applied at activation"
    );
    assert_eq!(r.tally.modifiers.target_speed, q(0.45));

    // A pass with no overtake fires nothing.
    process(&mut r, &FieldView::at_gate());
    assert_eq!(r.active.target_speed.len(), 1);

    for _ in 0..5 {
        process(&mut r, &overtaking());
    }
    assert_eq!(r.active.target_speed.len(), 4, "1 + 3 firings, capped");
    assert_eq!(r.tally.modifiers.target_speed, q(0.45 + 3.0 * 0.05));
    // Each firing runs for the skill's remaining duration, not a fresh one.
    let base = r.active.target_speed[0].duration_timer.t;
    for fired in &r.active.target_speed[1..] {
        assert_eq!(fired.duration_timer.t, base);
    }
}

#[test]
fn additional_activation_any_skill_fires_on_other_skills_not_itself() {
    // Type 3: each other skill activated, up to 2.
    let mut skills = vec![skill_with_held_effect(110211, 3)];
    for id in [200001, 200002, 200003] {
        skills.push(target_speed_skill(id, SkillRarity::White, "phase>=2"));
    }
    let mut r = runner_with_skills(skills);
    prepare(&mut r);
    r.body.wit_checks_enabled = false;
    // Activate the carrier alone first.
    let carrier = r
        .pending_skills
        .iter()
        .position(|p| p.skill_id == SkillId::new(110211))
        .expect("carrier pending");
    let carrier_skill = r.pending_skills.remove(carrier);
    r.body.position = carrier_skill.trigger.start + q(0.5);
    r.pending_skills.insert(0, carrier_skill);
    let others = r.pending_skills.split_off(1);
    process(&mut r, &FieldView::at_gate());
    assert_eq!(
        r.active.target_speed.len(),
        1,
        "its own activation does not fire it"
    );

    // Three other skills activate; the held effect fires on two of them.
    r.pending_skills = others;
    let position = r.body.position;
    for p in &mut r.pending_skills {
        p.trigger = Region::new(position - q(1.0), position + q(10.0));
    }
    process(&mut r, &FieldView::at_gate());
    assert_eq!(r.active.target_speed.len(), 1 + 3 + 2);
}

#[test]
fn duration_scaling_4_extends_every_modifier_per_overtake_up_to_three() {
    // +1 s per overtake while active, up to 3, scaled by distance / 1000 like
    // the base duration, applied to all the skill's modifiers.
    let mut skill = target_speed_skill(100531, SkillRarity::Gold, "phase>=2");
    skill.alternatives[0].duration_scaling = Some(4);
    let mut r = runner_with_skills(vec![skill]);
    prepare(&mut r);
    r.body.wit_checks_enabled = false;
    activate_first(&mut r, &FieldView::at_gate());
    let before = -r.active.target_speed[0].duration_timer.t;
    for _ in 0..5 {
        process(&mut r, &overtaking());
    }
    let after = -r.active.target_speed[0].duration_timer.t;
    assert_eq!(after - before, q(3.0 * 2.4), "3 x 1 s x 2400 / 1000");

    // Without code 4 an overtake changes nothing.
    let mut r = runner_with_skills(vec![target_speed_skill(
        100531,
        SkillRarity::Gold,
        "phase>=2",
    )]);
    prepare(&mut r);
    r.body.wit_checks_enabled = false;
    activate_first(&mut r, &FieldView::at_gate());
    let before = r.active.target_speed[0].duration_timer.t;
    process(&mut r, &overtaking());
    assert_eq!(r.active.target_speed[0].duration_timer.t, before);
}

#[test]
fn duration_scaling_2_stretches_by_distance_behind_the_leader() {
    // min(0.8 + distance / 62.5 m, 1.6): 50 m behind 1.6x, 12.5 m 1.0x, leading
    // 0.8x.
    let direct = activated_duration(None, 50.0);
    let scaled = |ratio: f64| (direct as f64 * ratio).round() as i64;
    assert_eq!(activated_duration(Some(2), 50.0), scaled(1.6));
    assert_eq!(activated_duration(Some(2), 12.5), scaled(1.0));
    assert_eq!(activated_duration(Some(2), 0.0), scaled(0.8));
    assert_eq!(activated_duration(Some(2), 500.0), scaled(1.6));
    // Direct (1) and unmodeled codes do not scale.
    assert_eq!(activated_duration(Some(1), 50.0), direct);
    assert_eq!(activated_duration(Some(5), 50.0), direct);
}

// --- cooldowns and windows ---

#[test]
fn cooldown_rearms_at_a_later_trigger_after_base_times_distance() {
    // Cooldown = base x distance / 1000: 30 s base at 2400 m -> 72 s.
    let prepared = || {
        let mut skill = target_speed_skill(200331, SkillRarity::White, "phase>=2");
        skill.alternatives[0].cooldown_time = Some(q(300000.0));
        let mut r = runner_with_skills(vec![skill]);
        prepare(&mut r);
        // Two placed triggers, 20 m apart.
        let start = r.pending_skills[0].trigger.start;
        r.pending_skills[0].trigger = Region::new(start, start + q(10.0));
        r.pending_skills[0].later_triggers =
            vec![Region::new(start + q(20.0), start + q(30.0))];
        r.body.wit_checks_enabled = false;
        r.body.position = start + q(5.0);
        (r, start)
    };
    let (mut r, start) = prepared();
    assert_eq!(r.pending_skills[0].cooldown, q(72.0));
    process(&mut r, &FieldView::at_gate());
    assert_eq!(r.tally.skills_activated_count, 1);
    assert!(
        r.pending_skills[0].wit_passed,
        "stays armed, wit check spent"
    );

    // The next trigger arrives inside the cooldown: no activation.
    r.body.position = start + q(12.0);
    process(&mut r, &FieldView::at_gate());
    r.body.position = start + q(25.0);
    r.body.accumulate_time.advance(clock(10.0));
    process(&mut r, &FieldView::at_gate());
    assert_eq!(r.tally.skills_activated_count, 1, "inside the cooldown");

    // Same again with the cooldown elapsed: it fires, without a new wit roll
    // (checks on). The cooldown runs from the end of the 7.2 s effect, so the
    // trigger reached 73 s after the activation is still inside it and the one
    // reached at 80 s is not.
    let (mut r, start) = prepared();
    process(&mut r, &FieldView::at_gate());
    r.body.wit_checks_enabled = true;
    r.wit_rng = Rolls::new(vec![999_999_999]);
    r.body.position = start + q(12.0);
    process(&mut r, &FieldView::at_gate());
    r.body.accumulate_time.advance(clock(73.0));
    r.body.position = start + q(25.0);
    process(&mut r, &FieldView::at_gate());
    assert_eq!(
        r.tally.skills_activated_count, 1,
        "inside effect + cooldown"
    );
    r.body.accumulate_time.advance(clock(7.0));
    r.body.position = start + q(26.0);
    process(&mut r, &FieldView::at_gate());
    assert_eq!(r.tally.skills_activated_count, 2, "after the cooldown");
}

#[test]
fn a_single_window_skill_fires_again_after_its_cooldown() {
    // One window, a 3 s effect and a 30 s base cooldown (7.2 s and 72 s at
    // 2400 m).
    let mut skill = target_speed_skill(201662, SkillRarity::White, "phase>=2");
    skill.alternatives[0].cooldown_time = Some(q(300000.0));
    let mut r = runner_with_skills(vec![skill]);
    prepare(&mut r);
    r.body.wit_checks_enabled = false;
    activate_first(&mut r, &FieldView::at_gate());
    assert_eq!(r.tally.skills_activated_count, 1);
    assert_eq!(r.pending_skills.len(), 1, "still armed");
    r.body.accumulate_time.advance(clock(71.0));
    process(&mut r, &FieldView::at_gate());
    assert_eq!(r.tally.skills_activated_count, 1, "inside the cooldown");
    r.body.accumulate_time.advance(clock(8.5));
    process(&mut r, &FieldView::at_gate());
    assert_eq!(r.tally.skills_activated_count, 2, "after the cooldown");
}

#[test]
fn the_cooldown_runs_from_the_end_of_the_effect() {
    // A 7.2 s effect, a 72 s cooldown.
    let mut skill = target_speed_skill(201662, SkillRarity::White, "phase>=2");
    skill.alternatives[0].cooldown_time = Some(q(300000.0));
    let mut r = runner_with_skills(vec![skill]);
    prepare(&mut r);
    r.body.wit_checks_enabled = false;
    activate_first(&mut r, &FieldView::at_gate());
    let fired_at = r.body.accumulate_time.seconds();
    assert_eq!(fired_at, 0);
    let ready = ready_ticks(q(7.2), q(72.0), FRAME_DT) as u32;
    assert_eq!(
        r.pending_skills[0].ready_at,
        fired_at + i64::from(ready) * FRAME_DT
    );
    // The condition holds throughout: it waits for the effect's 7.2 s.
    r.body.accumulate_time.advance(clock(72.5));
    process(&mut r, &FieldView::at_gate());
    assert_eq!(
        r.tally.skills_activated_count, 1,
        "cooldown counted from the activation"
    );
    r.body.accumulate_time = RaceClock::after_ticks(ready - 1, FRAME_CLOCK_UNITS);
    process(&mut r, &FieldView::at_gate());
    assert_eq!(r.tally.skills_activated_count, 1, "a tick short");
    r.body.accumulate_time = RaceClock::after_ticks(ready, FRAME_CLOCK_UNITS);
    process(&mut r, &FieldView::at_gate());
    assert_eq!(r.tally.skills_activated_count, 2, "the ready tick");
}

#[test]
fn ready_ticks_count_the_effect_then_the_cooldown_in_whole_ticks() {
    const GAME_TICK: f64 = 0.0666;
    let see_ya_later = |distance: f64, tick: f64| {
        let duration = 3.0 * (distance / 1000.0);
        let cooldown = 300000.0 / 10000.0 * distance / 1000.0;
        ready_ticks(q(duration), q(cooldown), q(tick))
    };
    assert_eq!(see_ya_later(2600.0, GAME_TICK), 1290, "118 + 1172");
    assert_eq!(see_ya_later(1600.0, GAME_TICK), 794, "73 + 721");
    assert_eq!(see_ya_later(2000.0, GAME_TICK), 992, "91 + 901");
    assert_eq!(see_ya_later(1700.0, GAME_TICK), 843, "77 + 766");
    assert_eq!(see_ya_later(2600.0, 1.0 / 15.0), 1287, "117 + 1170");
    assert_eq!(see_ya_later(1600.0, 1.0 / 15.0), 792, "72 + 720");
    assert_eq!(ready_ticks(0, q(72.0), q(1.0 / 15.0)), 1080, "instant");
}

/// A skill re-armed into a condition that already holds fires again on its
/// ready tick and not before, whichever tick it first fired on.
#[test]
fn a_re_armed_skill_fires_on_its_ready_tick_counted_in_whole_ticks() {
    let mut skill = target_speed_skill(
        201662,
        SkillRarity::White,
        "behind_near_lane_time>=3&accumulatetime>=10",
    );
    skill.alternatives[0].effects[0].modifier = q(3500.0);
    skill.alternatives[0].cooldown_time = Some(q(300000.0));
    let spell = with_timers(ConditionTimers {
        near_behind: q(30.0),
        ..ConditionTimers::default()
    });
    for distance in [2600.0, 1600.0] {
        let ready = ready_ticks(
            q(3.0 * (distance / 1000.0)),
            q(30.0 * distance / 1000.0),
            FRAME_DT,
        );
        let mut late = Vec::new();
        // First firings a second apart from 10 s, over most of a race.
        for first in (0..900).step_by(15) {
            let mut r = runner_with_skills(vec![skill.clone()]);
            prepare_on(&mut r, distance);
            r.body.wit_checks_enabled = false;
            // The clock steps a tick at a time, as in the race.
            while r.body.accumulate_time.seconds() < q(10.0) {
                r.body.accumulate_time.advance(FRAME_CLOCK_UNITS);
            }
            for _ in 0..first {
                r.body.accumulate_time.advance(FRAME_CLOCK_UNITS);
            }
            r.body.position = r.pending_skills[0].trigger.start + q(0.5);
            r.process_skill_activations(&spell, q(distance));
            assert_eq!(
                r.tally.skills_activated_count, 1,
                "{distance} m: first firing"
            );
            let mut ticks: i128 = 0;
            while r.tally.skills_activated_count == 1 && ticks <= ready + 2 {
                r.body.accumulate_time.advance(FRAME_CLOCK_UNITS);
                r.process_skill_activations(&spell, q(distance));
                ticks += 1;
            }
            if ticks != ready {
                late.push((first, ticks));
            }
        }
        assert!(
            late.is_empty(),
            "{distance} m: ready after {ready} ticks; (ticks past 10 s, fired after) {late:?}"
        );
    }
}

#[test]
fn a_passed_window_moves_on_to_the_next_placed_trigger() {
    let mut skill = target_speed_skill(200331, SkillRarity::White, "phase>=2");
    skill.alternatives[0].cooldown_time = Some(q(300000.0));
    let mut r = runner_with_skills(vec![skill]);
    prepare(&mut r);
    r.body.wit_checks_enabled = false;
    r.pending_skills[0].trigger = Region::new(q(100.0), q(110.0));
    r.pending_skills[0].later_triggers = vec![Region::new(q(900.0), q(910.0))];
    r.body.position = q(105.0);
    process(&mut r, &FieldView::at_gate());
    assert_eq!(r.tally.skills_activated_count, 1);
    r.body.position = q(500.0); // past the first window
    process(&mut r, &FieldView::at_gate());
    assert_eq!(r.pending_skills[0].trigger, Region::new(q(900.0), q(910.0)));
    r.body.accumulate_time.advance(clock(80.0));
    r.body.position = q(905.0);
    process(&mut r, &FieldView::at_gate());
    assert_eq!(r.tally.skills_activated_count, 2);
    r.body.position = q(950.0); // past the last window: done
    process(&mut r, &FieldView::at_gate());
    assert!(r.pending_skills.is_empty());
}

#[test]
fn a_rival_token_is_checked_from_the_first_tick_of_every_region() {
    let skill = target_speed_skill(
        202401,
        SkillRarity::Gold,
        "phase==0&is_overtake==1@phase==2&is_overtake==1",
    );
    let regions = build(&skill)[0].regions.0.clone();
    assert_eq!(regions.len(), 2, "{regions:?}");
    let target = |held: bool| {
        with_timers(ConditionTimers {
            has_overtake_target: held,
            ..ConditionTimers::default()
        })
    };
    let runner = || {
        let mut r = runner_with_skills(vec![skill.clone()]);
        prepare(&mut r);
        r.body.wit_checks_enabled = false;
        r
    };

    let r = runner();
    assert_eq!(r.pending_skills[0].trigger, regions[0]);
    assert_eq!(r.pending_skills[0].later_triggers, regions[1..].to_vec());

    // First region: nothing while no target, then the first tick one is.
    let mut r = runner();
    r.body.position = regions[0].start + q(0.5);
    process(&mut r, &target(false));
    assert_eq!(r.tally.skills_activated_count, 0);
    r.body.position += q(1.0);
    process(&mut r, &target(true));
    assert_eq!(r.tally.skills_activated_count, 1, "the first tick it holds");

    // Second region, the first region passed without a target.
    let mut r = runner();
    r.body.position = regions[0].start + q(0.5);
    process(&mut r, &target(false));
    r.body.position = regions[1].start - q(1.0); // past the first window
    process(&mut r, &target(false));
    r.body.position = regions[1].start + q(0.5);
    process(&mut r, &target(true));
    assert_eq!(
        r.tally.skills_activated_count, 1,
        "the second region's first tick"
    );
}

#[test]
fn a_window_passed_into_the_next_is_checked_on_the_same_tick() {
    let skill = target_speed_skill(
        202401,
        SkillRarity::Gold,
        "phase==0&is_overtake==1@phase==1&is_overtake==1",
    );
    let regions = build(&skill)[0].regions.0.clone();
    let mut r = runner_with_skills(vec![skill]);
    prepare(&mut r);
    r.body.wit_checks_enabled = false;
    // The first tick past the first window already lies in the second.
    r.body.position = regions[1].start;
    let field = with_timers(ConditionTimers {
        has_overtake_target: true,
        ..ConditionTimers::default()
    });
    process(&mut r, &field);
    assert_eq!(r.tally.skills_activated_count, 1);
}

#[test]
fn a_showdown_skill_fires_on_the_first_tick_of_her_duel() {
    let skill = target_speed_skill(100341, SkillRarity::Unique, "compete_fight_count>0");
    let regions = build(&skill)[0].regions.0.clone();
    let field = |dueling: bool| FieldView {
        active_runners: vec![ActiveRunner {
            is_self: true,
            position: 0,
            strategy: Strategy::PaceChaser,
            gate: 0,
            popularity: 0,
            is_rushed: false,
            is_dueling: dueling,
            has_dueled: false,
            activated_advantage_effect_types: 0,
        }],
        ..FieldView::at_gate()
    };
    let mut r = runner_with_skills(vec![skill]);
    prepare(&mut r);
    r.body.wit_checks_enabled = false;
    assert_eq!(r.pending_skills[0].trigger, regions[0], "the whole window");

    r.body.position = regions[0].start + q(0.5);
    process(&mut r, &field(false));
    assert_eq!(r.tally.skills_activated_count, 0, "no duel yet");
    r.body.position += q(1.0);
    r.body.is_dueling = true;
    process(&mut r, &field(true));
    assert_eq!(r.tally.skills_activated_count, 1, "the duel's first tick");
}

// --- exclusive alternatives ---

/// A skill of two alternatives: the first applies 4500, the second 3500, both
/// with `cooldown_time`.
fn two_alternative_skill(
    id: u32,
    rarity: SkillRarity,
    conditions: [&str; 2],
    cooldown_time: Option<f64>,
) -> Skill {
    let mut skill = target_speed_skill(id, rarity, conditions[0]);
    skill.alternatives[0].cooldown_time = cooldown_time.map(q);
    let mut second = skill.alternatives[0].clone();
    second.condition = conditions[1].to_owned();
    second.effects[0].modifier = q(3500.0);
    skill.alternatives.push(second);
    skill
}

#[test]
fn exclusive_alternatives_fire_the_first_that_holds_once() {
    let fire = |ahead: f64| {
        let skill = two_alternative_skill(
            110101,
            SkillRarity::Unique,
            ["phase>=2&distance_diff_top<=5", "phase>=2"],
            Some(5_000_000.0),
        );
        let mut r = runner_with_skills(vec![skill]);
        prepare(&mut r);
        assert_eq!(r.pending_skills.len(), 2, "both alternatives kept");
        r.body.position = r.pending_skills[0].trigger.start + q(0.5);
        run_ticks(&mut r, ahead, 3);
        (
            r.tally.skills_activated_count,
            r.tally.modifiers.target_speed,
        )
    };
    // Both hold: the first fires, and only it.
    assert_eq!(fire(2.0), (1, q(0.45)));
    // Only the second holds: it fires, once.
    assert_eq!(fire(9.0), (1, q(0.35)));
}

#[test]
fn exclusive_alternatives_share_one_wit_check_and_one_cooldown() {
    let runner = |rolls: Vec<f64>| {
        let skill = two_alternative_skill(
            100671,
            SkillRarity::White,
            [
                "phase>=2&distance_diff_top<=5",
                "phase>=2&distance_diff_top>5",
            ],
            Some(300_000.0),
        );
        let mut r = runner_with_skills(vec![skill]);
        prepare(&mut r);
        r.wit_rng = Rolls::new(rolls.iter().map(|x| q(*x) as u64).collect());
        r.body.position = r.pending_skills[0].trigger.start + q(0.5);
        r
    };
    // The first roll passes, every later one would fail.
    let mut r = runner(vec![0.0, 0.99]);
    run_ticks(&mut r, 2.0, 1);
    assert_eq!(r.tally.skills_activated_count, 1, "the first alternative");
    r.body.accumulate_time.advance(clock(10.0));
    run_ticks(&mut r, 9.0, 1);
    assert_eq!(
        r.tally.skills_activated_count, 1,
        "the second, inside the cooldown"
    );
    r.body.accumulate_time.advance(clock(63.0));
    run_ticks(&mut r, 9.0, 1);
    assert_eq!(
        r.tally.skills_activated_count, 1,
        "the second, 73 s on: inside effect + cooldown"
    );
    r.body.accumulate_time.advance(clock(7.0));
    run_ticks(&mut r, 9.0, 1);
    assert_eq!(
        r.tally.skills_activated_count, 2,
        "the second, after the cooldown, on the roll already passed"
    );
    assert_eq!(r.tally.modifiers.target_speed, q(0.80));

    // The first roll fails, every later one would pass: the skill is out
    // whichever alternative comes to hold.
    let mut r = runner(vec![0.99, 0.0]);
    run_ticks(&mut r, 2.0, 1);
    run_ticks(&mut r, 9.0, 3);
    assert_eq!(r.tally.skills_activated_count, 0);
}

#[test]
fn multi_trigger_tokens_keep_their_own_trigger() {
    let fire = |conditions: [&str; 2], used: Vec<u32>| {
        let skill = two_alternative_skill(110641, SkillRarity::Unique, conditions, None);
        let mut r = runner_with_skills(vec![skill]);
        let world = World {
            used: used.clone(),
            ..World::long()
        };
        prepare_in(&mut r, &world);
        for id in used {
            r.used_skills.push(SkillId::new(id));
        }
        r.body.position = r.pending_skills[0].trigger.start + q(0.5);
        run_ticks(&mut r, 2.0, 3);
        (
            r.tally.skills_activated_count,
            r.tally.modifiers.target_speed,
        )
    };
    assert_eq!(
        fire(
            ["phase>=2", "phase>=2&is_activate_other_skill_detail==1"],
            vec![]
        ),
        (2, q(0.80)),
        "both stages"
    );
    let runaway_first = ["phase>=2&is_used_skill_id==202051", "phase>=2"];
    assert_eq!(fire(runaway_first, vec![202051]), (1, q(0.45)));
    assert_eq!(fire(runaway_first, vec![]), (1, q(0.35)));
}

#[test]
fn a_scripted_skill_fires_once_through_its_first_alternative() {
    let skill = two_alternative_skill(
        110101,
        SkillRarity::Unique,
        ["phase>=2&distance_diff_top<=5", "phase>=2"],
        Some(5_000_000.0),
    );
    let mut r = runner_with_skills_forced(vec![skill], vec![(110101, 1700.0)]);
    prepare(&mut r);
    assert_eq!(r.pending_skills.len(), 1, "one scripted activation");
    r.body.position = q(1700.5);
    run_ticks(&mut r, 9.0, 3);
    assert_eq!(r.tally.skills_activated_count, 1);
    assert_eq!(r.tally.modifiers.target_speed, q(0.45));
}

/// The strengths at which 200002 is running.
fn gold_applied(r: &Runner) -> Vec<i64> {
    r.active
        .target_speed
        .iter()
        .filter(|a| a.skill_id == SkillId::new(200002))
        .map(|a| a.modifier)
        .collect()
}

#[test]
fn a_forced_gold_is_one_candidate_whatever_its_alternatives() {
    // A carrier forcing two golds, and one gold of two alternatives: the gold
    // fires once, through its first alternative, and not again in its window.
    let carrier = gold_carrier("phase==1", 2.0);
    let gold = two_alternative_skill(
        200002,
        SkillRarity::Gold,
        ["phase>=2&distance_diff_top<=5", "phase>=2"],
        None,
    );
    let mut r = runner_with_skills(vec![carrier, gold]);
    prepare(&mut r);
    r.body.wit_checks_enabled = false;
    let window = pending_trigger(&r, 200002);
    fire_carrier(&mut r);
    assert_eq!(gold_applied(&r), vec![q(0.45)]);
    r.body.position = window.start + q(0.5);
    run_ticks(&mut r, 2.0, 3);
    assert_eq!(gold_applied(&r), vec![q(0.45)]);
    assert_eq!(
        r.tally.skills_activated_count, 2,
        "the carrier and the gold"
    );
}

#[test]
fn a_forced_gold_with_a_second_stage_is_one_candidate() {
    for rarity in [SkillRarity::Gold, SkillRarity::Evolution] {
        let gold = two_alternative_skill(
            200002,
            rarity,
            ["phase>=2", "phase>=2&is_activate_other_skill_detail==1"],
            None,
        );
        let mut r = runner_with_skills(vec![gold_carrier("phase==1", 2.0), gold]);
        prepare(&mut r);
        r.body.wit_checks_enabled = false;
        let entries = r
            .pending_skills
            .iter()
            .filter(|p| p.skill_id == SkillId::new(200002))
            .count();
        assert_eq!(entries, 2, "{rarity:?}: both stages pending");
        let window = pending_trigger(&r, 200002);
        fire_carrier(&mut r);
        assert_eq!(gold_applied(&r), vec![q(0.45)], "{rarity:?}");
        r.body.position = window.start + q(0.5);
        run_ticks(&mut r, 2.0, 3);
        assert_eq!(gold_applied(&r), vec![q(0.45)], "{rarity:?}");
        assert_eq!(
            r.tally.skills_activated_count, 2,
            "{rarity:?}: the carrier and the gold"
        );
    }
}

// --- order, records and accounts ---

#[test]
fn skills_stand_in_id_order() {
    let named = |id: u32, condition: &str| target_speed_skill(id, SkillRarity::White, condition);
    let script = RunnerScript::with_skills(vec![
        named(300, "a"),
        named(100, "b"),
        named(300, "c"),
        named(200, "d"),
    ]);
    let order: Vec<(u32, &str)> = script
        .skills
        .iter()
        .map(|s| (s.skill_id.number, s.alternatives[0].condition.as_str()))
        .collect();
    assert_eq!(
        order,
        vec![(100, "b"), (200, "d"), (300, "a"), (300, "c")],
        "ascending, those of one number as they came"
    );
}

#[test]
fn pending_skills_stand_in_id_order_and_synthesized_ones_come_last() {
    let mut r = runner_with_skills_forced(
        vec![
            target_speed_skill(300, SkillRarity::White, "phase>=2"),
            target_speed_skill(100, SkillRarity::White, "unknown_token_xyz==1"),
            target_speed_skill(200, SkillRarity::White, "phase>=1"),
        ],
        vec![(100, 50.0)],
    );
    prepare(&mut r);
    let ids: Vec<u32> = r.pending_skills.iter().map(|p| p.skill_id.number).collect();
    assert_eq!(ids, vec![200, 300, 100]);
}

#[test]
fn a_round_starts_afresh() {
    let mut r = runner_with_skills(vec![target_speed_skill(
        100001,
        SkillRarity::Gold,
        "phase>=2",
    )]);
    prepare(&mut r);
    r.body.wit_checks_enabled = false;
    activate_first(&mut r, &FieldView::at_gate());
    assert_eq!(r.tally.skills_activated_count, 1);
    r.body.position = 0;
    prepare(&mut r);
    assert_eq!(r.tally.skills_activated_count, 0);
    assert!(r.used_skills.is_empty());
    assert!(r.active.target_speed.is_empty());
    assert_eq!(r.pending_skills.len(), 1);
}

#[test]
fn windows_are_drawn_by_round() {
    let skill = target_speed_skill(100001, SkillRarity::Gold, "phase>=2");
    let world = World::long();
    let sets = vec![
        vec![Region::new(q(1700.0), q(1710.0))],
        vec![
            Region::new(q(1800.0), q(1810.0)),
            Region::new(q(1900.0), q(1910.0)),
        ],
    ];
    for (round, start, later) in [(0, 1700.0, 0), (1, 1800.0, 1), (2, 1700.0, 0)] {
        let mut r = runner_with_skills(vec![skill.clone()]);
        let parsed = vec![parse(&skill, &world)];
        r.initialize_skill_tracking(&PrepareContext {
            course_distance: q(2400.0),
            whole_course: &world.whole_course(),
            round_iteration: round,
            parsed: &parsed,
            parsed_debuffs: &vec![],
            windows: &vec![vec![sets.clone()]],
        });
        assert_eq!(r.pending_skills[0].trigger.start, q(start));
        assert_eq!(r.pending_skills[0].later_triggers.len(), later);
    }
    // Without a drawn window the skill is not pending.
    let mut r = runner_with_skills(vec![skill.clone()]);
    let parsed = vec![parse(&skill, &world)];
    r.initialize_skill_tracking(&PrepareContext {
        course_distance: q(2400.0),
        whole_course: &world.whole_course(),
        round_iteration: 0,
        parsed: &parsed,
        parsed_debuffs: &vec![],
        windows: &vec![],
    });
    assert!(r.pending_skills.is_empty());
}

#[test]
fn a_skill_pass_moves_nobody_and_forgets_nothing() {
    let mut r = runner_with_skills(vec![
        target_speed_skill(100001, SkillRarity::Gold, "phase>=2"),
        target_speed_skill(100002, SkillRarity::Gold, "phase>=3"),
    ]);
    prepare(&mut r);
    r.body.wit_checks_enabled = false;
    activate_first(&mut r, &FieldView::at_gate());
    let position = r.body.position;
    r.receive_targeted_effect(
        SkillId::new(999),
        vec![slow_down(-0.5)],
        RunnerId(5),
        q(2400.0),
    );
    process(&mut r, &overtaking());
    assert_eq!(r.body.position, position);
    assert!(used(&r, 100001));
    assert_eq!(r.tally.skills_activated_count, 1);
    assert_eq!(r.targeted.current_speed.len(), 1);
    assert_eq!(r.used_targeted_skills.len(), 1);
    assert_eq!(r.pending_skills.len(), 1);
}

#[test]
fn effects_that_end_leave_no_trace() {
    let mut short = target_speed_skill(100001, SkillRarity::Gold, "phase>=2");
    short.alternatives[0].base_duration = q(10000.0);
    short.alternatives[0].effects.push(effect(700.0, 31));
    short.alternatives[0].effects.push(effect(-123.0, 22));
    let long = target_speed_skill(100002, SkillRarity::Gold, "phase>=2");
    let mut r = runner_with_skills(vec![short, long]);
    prepare(&mut r);
    r.body.wit_checks_enabled = false;
    activate_first(&mut r, &FieldView::at_gate());
    assert_eq!(r.tally.modifiers.target_speed, q(0.90));
    assert_eq!(r.tally.modifiers.accel, q(0.07));
    assert_eq!(r.tally.modifiers.current_speed, q(-0.0123));
    // The short skill's effects run out; the long one's still runs.
    for list in [
        &mut r.active.target_speed,
        &mut r.active.acceleration,
        &mut r.active.current_speed,
    ] {
        for active in list.iter_mut() {
            active.duration_timer.advance(q(2.4));
        }
    }
    process(&mut r, &FieldView::at_gate());
    assert_eq!(r.tally.modifiers.target_speed, q(0.45));
    assert_eq!(r.tally.modifiers.accel, 0);
    assert_eq!(r.tally.modifiers.current_speed, 0);
    // A speed effect that decays leaves a one-frame kick of its strength.
    assert_eq!(r.tally.modifiers.one_frame_accel, q(-0.0123));
    assert_eq!(r.active.target_speed.len(), 1);
}

#[test]
fn the_stretch_of_evolved_skills_applies_last() {
    let mut skill = target_speed_skill(100001, SkillRarity::Evolution, "phase>=2");
    skill.alternatives[0].effects.insert(0, effect(15000.0, 42));
    let later = target_speed_skill(100002, SkillRarity::Evolution, "phase>=2");
    let mut r = runner_with_skills(vec![skill, later]);
    prepare(&mut r);
    r.body.wit_checks_enabled = false;
    activate_first(&mut r, &FieldView::at_gate());
    let duration = |id: u32| {
        r.active
            .target_speed
            .iter()
            .find(|a| a.skill_id == SkillId::new(id))
            .map(|a| -a.duration_timer.t)
    };
    // Its own effect runs unstretched, the next evolved skill's half as long
    // again.
    assert_eq!(duration(100001), Some(q(7.2)));
    assert_eq!(duration(100002), Some(q(10.8)));
}

#[test]
fn stat_effects_never_go_under_one() {
    let mut r = runner_with_skills(vec![]);
    let apply = |r: &mut Runner, effect_type: SkillType, modifier: f64| {
        r.apply_self_effect(
            SkillId::new(1),
            &ResolvedSkillEffect {
                target: SkillTarget::SelfTarget,
                effect_type,
                base_duration: 0,
                modifier: q(modifier),
            },
            0,
        );
    };
    apply(&mut r, SkillType::SpeedUp, -5000.0);
    assert_eq!(r.tally.adjusted_stats.speed, q(1.0));
    apply(&mut r, SkillType::StaminaUp, 40.0);
    assert_eq!(r.tally.adjusted_stats.stamina, q(1040.0));
    assert_eq!(r.tally.base_stats.stamina, q(1040.0));
    apply(&mut r, SkillType::PowerUp, 40.0);
    assert_eq!(r.tally.adjusted_stats.power, q(1040.0));
    assert_eq!(r.tally.base_stats.power, q(1000.0));
    apply(&mut r, SkillType::GutsUp, 60.0);
    assert_eq!(r.tally.adjusted_stats.guts, q(1060.0));
    apply(&mut r, SkillType::SetStartDelay, 0.08);
    apply(&mut r, SkillType::MultiplyStartDelay, 0.4);
    assert_eq!(r.tally.start_delay, q(0.032));
    apply(&mut r, SkillType::LaneMovementSpeed, 0.035);
    assert_eq!(r.active.lane_movement.len(), 1);
    apply(&mut r, SkillType::ChangeLane, 1.0);
    assert_eq!(r.active.change_lane.len(), 1);
    // Read before the race, or only ever cast on others.
    let before = r.tally;
    apply(&mut r, SkillType::RushedChance, 1.0);
    apply(&mut r, SkillType::RushedDuration, 5.0);
    apply(&mut r, SkillType::Noop, 5.0);
    assert_eq!(r.tally, before);
}

#[test]
fn a_recovery_late_in_the_race_brings_up_the_last_spurt() {
    let recover = |phase: Phase, spurting: bool| {
        let mut r = runner_with_skills(vec![]);
        r.body.phase = phase;
        r.body.is_last_spurt = spurting;
        r.tally.health.current = q(500.0);
        r.apply_self_effect(
            SkillId::new(1),
            &ResolvedSkillEffect {
                target: SkillTarget::SelfTarget,
                effect_type: SkillType::Recovery,
                base_duration: 0,
                modifier: q(0.055),
            },
            0,
        );
        (r.tally.health.current, r.tally.last_spurt_check_due)
    };
    assert_eq!(recover(Phase::MidRace, false), (q(555.0), false));
    assert_eq!(recover(Phase::LateRace, false), (q(555.0), true));
    assert_eq!(recover(Phase::LastSpurt, true), (q(555.0), false));
}

#[test]
fn a_random_multiplier_takes_one_draw_and_an_override_none() {
    let mut r = runner_with_skills(vec![]);
    r.script.random_bands = [(0.6, 0.0), (0.9, 0.02), (1.0, 0.04)]
        .iter()
        .map(|(below, multiplier)| ScalingBand {
            below: q(*below),
            multiplier: q(*multiplier),
        })
        .collect();
    r.skill_rng = Rolls::new(vec![q(0.7) as u64, q(0.95) as u64, q(0.1) as u64]);
    let spec = |effect_type: SkillType| SkillEffectSpec {
        target: SkillTarget::SelfTarget,
        effect_type,
        base_duration: 0,
        modifier: q(10.0),
        value_scaling: ValueScalingPolicy::MultiplyRandom,
        additional_activate_type: None,
        value_level_usage: None,
    };
    assert_eq!(
        r.resolve_effect(7, &spec(SkillType::TargetSpeed)).modifier,
        q(0.2)
    );
    r.script.stamina_drain_overrides = vec![SkillQuantity {
        number: 7,
        quantity: q(-0.03),
    }];
    assert_eq!(
        r.resolve_effect(7, &spec(SkillType::Recovery)).modifier,
        q(-0.03),
        "the override, without a draw"
    );
    assert_eq!(
        r.resolve_effect(8, &spec(SkillType::Recovery)).modifier,
        q(0.4)
    );
    assert_eq!(
        r.resolve_effect(7, &spec(SkillType::TargetSpeed)).modifier,
        0
    );
}

#[test]
fn a_skill_that_fails_its_wit_check_is_out() {
    let mut r = runner_with_skills(vec![target_speed_skill(
        200331,
        SkillRarity::White,
        "phase>=2",
    )]);
    prepare(&mut r);
    r.wit_rng = Rolls::new(vec![q(0.9) as u64, 0]);
    activate_first(&mut r, &FieldView::at_gate());
    assert_eq!(r.tally.skills_activated_count, 0);
    assert!(r.pending_skills.is_empty());
    // The threshold itself passes; a unique and a stat skill take no check.
    let mut r = runner_with_skills(vec![
        target_speed_skill(200331, SkillRarity::White, "phase>=2"),
        target_speed_skill(200332, SkillRarity::Unique, "phase>=2"),
    ]);
    prepare(&mut r);
    assert!(!r.should_skip_wit_check_at(0));
    assert!(r.should_skip_wit_check_at(1));
    r.wit_rng = Rolls::new(vec![q(0.8875) as u64]);
    assert!(r.do_wit_check());
    r.wit_rng = Rolls::new(vec![q(0.8875) as u64 + 1]);
    assert!(!r.do_wit_check());
}

#[test]
fn a_precondition_latches_before_the_window_opens() {
    let mut skill = target_speed_skill(910031, SkillRarity::Gold, "phase>=2");
    skill.alternatives[0].precondition = Some("phase>=1&order<=5".to_owned());
    let placed = |order: i64| FieldView {
        self_order: Some(order),
        ..FieldView::at_gate()
    };
    let run = |early: i64| {
        let mut r = runner_with_skills(vec![skill.clone()]);
        prepare(&mut r);
        r.body.wit_checks_enabled = false;
        r.body.position = q(1000.0);
        process(&mut r, &placed(early));
        // In the window, the precondition itself no longer holding.
        r.body.position = q(1700.0);
        process(&mut r, &placed(9));
        r.tally.skills_activated_count
    };
    assert_eq!(run(5), 1, "met at 1000 m, and it stays met");
    assert_eq!(run(6), 0, "never met");
}

#[test]
fn a_precondition_narrows_the_conditions_window() {
    let mut skill = target_speed_skill(910031, SkillRarity::Gold, "phase>=0");
    skill.alternatives[0].precondition = Some("phase>=1".to_owned());
    assert_eq!(
        build(&skill)[0].regions.0,
        vec![Region::new(q(400.0), q(2400.0))]
    );
    // One that never holds leaves no live alternative.
    skill.alternatives[0].precondition = Some("distance_type==1".to_owned());
    assert_eq!(build(&skill)[0].regions.0[0].start, q(9999.0));
    // One that does not parse leaves no trigger at all.
    skill.alternatives[0].precondition = Some("unknown_token_xyz==1".to_owned());
    assert!(build(&skill).is_empty());
}

#[test]
fn a_skill_without_modeled_effects_has_no_trigger() {
    let mut skill = target_speed_skill(100001, SkillRarity::Gold, "phase>=2");
    skill.alternatives[0].effects = vec![effect(1.0, 999)];
    assert!(build(&skill).is_empty());
    let world = World::long();
    let kept = build_skill_data(&BuildSkillDataParams {
        whole_course: &world.whole_course(),
        skill: &skill,
        parsed: &parse(&skill, &world),
        ignore_null_effects: true,
    });
    assert_eq!(kept.len(), 1);
    assert!(kept[0].effects.is_empty());
    skill.alternatives.clear();
    assert!(build(&skill).is_empty());
}

#[test]
fn alternatives_are_numbered_in_data_order() {
    let mut skill = two_alternative_skill(110101, SkillRarity::Unique, ["phase>=2", "phase>=1"], None);
    skill.alternatives.insert(
        0,
        SkillAlternative {
            condition: String::new(),
            ..skill.alternatives[0].clone()
        },
    );
    let triggers = build(&skill);
    assert_eq!(triggers.len(), 2);
    assert_eq!(triggers[0].exclusive_alternative, Some(1));
    assert_eq!(triggers[1].exclusive_alternative, Some(2));
    assert!(triggers.iter().all(|t| t.skill_id == SkillId::new(110101)));
}

#[test]
fn the_draws_decide_which_golds_are_forced() {
    let forced = |rolls: Vec<u64>| {
        let mut r = runner_with_skills(vec![
            gold_carrier("phase==1", 1.0),
            target_speed_skill(200002, SkillRarity::Gold, "phase>=2"),
            target_speed_skill(200004, SkillRarity::Evolution, "phase>=2"),
            target_speed_skill(200006, SkillRarity::White, "phase>=2"),
        ]);
        prepare(&mut r);
        r.body.wit_checks_enabled = false;
        r.force_skill_activator_rng = Rolls::new(rolls);
        fire_carrier(&mut r);
        let ids: Vec<u32> = r.used_skills.iter().map(|s| s.number).collect();
        // The gold is spent: its entry is dropped on the next pass.
        process(&mut r, &FieldView::at_gate());
        assert!(r
            .pending_skills
            .iter()
            .all(|p| !ids.contains(&p.skill_id.number)));
        assert!(r.pending_skill_removal.is_empty());
        ids
    };
    // The last of the two is exchanged with the one drawn among both. The
    // carrier goes on record after the gold it forces.
    assert_eq!(forced(vec![1, 0]), vec![200002, 110071]);
    assert_eq!(forced(vec![0, 0]), vec![200004, 110071]);
}

// --- targeted effects ---

fn slow_down(modifier: f64) -> ResolvedSkillEffect {
    ResolvedSkillEffect {
        target: SkillTarget::All,
        effect_type: SkillType::CurrentSpeed,
        base_duration: q(3.0),
        modifier: q(modifier),
    }
}

#[test]
fn an_injected_debuff_lands_in_its_window_and_wears_off() {
    let mut skill = debuff_skill(700001);
    skill.alternatives[0].effects[0].effect_type = 21;
    let mut r = runner_with_skills(vec![target_speed_skill(
        100001,
        SkillRarity::Gold,
        "phase>=2",
    )]);
    r.script.injected_debuffs = vec![InjectedDebuff {
        skill,
        position: q(800.0),
    }];
    prepare(&mut r);
    r.body.position = q(790.0);
    r.process_targeted_skill_activations(q(2400.0));
    assert_eq!(r.pending_targeted_skills.len(), 1, "not there yet");
    r.body.position = q(801.0);
    r.process_targeted_skill_activations(q(2400.0));
    assert!(r.pending_targeted_skills.is_empty());
    assert_eq!(r.tally.modifiers.current_speed, q(-0.5));
    assert_eq!(r.targeted.current_speed[0].skill.duration_timer.t, q(-7.2));
    assert_eq!(r.used_targeted_skills[0].position, q(801.0));
    assert!(matches!(
        r.targeted.current_speed[0].origin,
        TargetedSkillOrigin::Injection
    ));
    // Her own skills are as they were.
    assert_eq!(r.pending_skills.len(), 1);
    r.targeted.current_speed[0].skill.duration_timer.t = 0;
    r.process_targeted_skill_activations(q(2400.0));
    assert_eq!(r.tally.modifiers.current_speed, 0);
    assert!(r.targeted.current_speed.is_empty());
}

#[test]
fn a_passed_injection_is_dropped() {
    let mut r = runner_with_skills(vec![]);
    r.script.injected_debuffs = vec![InjectedDebuff {
        skill: debuff_skill(700001),
        position: q(800.0),
    }];
    prepare(&mut r);
    r.body.position = q(810.0);
    r.process_targeted_skill_activations(q(2400.0));
    assert!(r.pending_targeted_skills.is_empty());
    assert!(r.used_targeted_skills.is_empty());
}

#[test]
fn overlapping_targeted_effects_are_taken_back_one_by_one() {
    let mut r = runner_with_skills(vec![]);
    prepare(&mut r);
    r.receive_targeted_effect(
        SkillId::new(1),
        vec![slow_down(-0.5), slow_down(-0.25)],
        RunnerId(5),
        q(2400.0),
    );
    assert_eq!(r.tally.modifiers.current_speed, q(-0.75));
    r.targeted.current_speed[0].skill.duration_timer.t = 0;
    r.cleanup_expired_targeted_skills();
    assert_eq!(r.tally.modifiers.current_speed, q(-0.25));
    assert_eq!(r.targeted.current_speed.len(), 1);
    assert_eq!(r.targeted.current_speed[0].source_runner_id, Some(RunnerId(5)));
}

#[test]
fn a_frenzy_lengthens_only_a_rush_that_is_on() {
    let frenzy = ResolvedSkillEffect {
        target: SkillTarget::KakariStrategy,
        effect_type: SkillType::RushedDuration,
        base_duration: 0,
        modifier: q(5.0),
    };
    for (rushed, longer) in [(true, 17.0), (false, 12.0)] {
        let mut r = runner_with_skills(vec![]);
        r.body.is_rushed = rushed;
        r.tally.rushed_max_duration = q(12.0);
        r.receive_targeted_effect(SkillId::new(1), vec![frenzy], RunnerId(5), q(2400.0));
        assert_eq!(r.tally.rushed_max_duration, q(longer));
    }
}

#[test]
fn what_the_condition_language_reads_of_a_runner() {
    let mut r = runner_with_skills(vec![]);
    r.tally.base_stats.wit = q(799.5);
    r.tally.base_stats.guts = q(600.49);
    r.body.popularity = 3;
    let eval = r.skill_eval_runner();
    assert_eq!(eval.base_stats.speed, 1000);
    assert_eq!(eval.base_stats.wit, 800);
    assert_eq!(eval.base_stats.guts, 600);
    assert_eq!(eval.strategy, Strategy::PaceChaser);
    assert_eq!(eval.popularity, 3);
}

#[test]
fn a_used_skill_is_known_to_its_conditions() {
    let mut r = runner_with_skills(vec![]);
    r.used_skills.push(SkillId::new(202051));
    let field = FieldView::at_gate();
    let view = RunnerConditionView {
        runner: &r,
        field: &field,
    };
    assert!(view.has_used_skill(SkillId::new(202051)));
    assert!(!view.has_used_skill(SkillId::new(202052)));
}

#[test]
fn activations_are_counted_by_phase_and_half() {
    let mut r = runner_with_skills(vec![
        target_speed_skill(100001, SkillRarity::Gold, "phase>=1"),
        target_speed_skill(100002, SkillRarity::Gold, "phase>=2"),
    ]);
    prepare(&mut r);
    r.body.wit_checks_enabled = false;
    r.body.phase = Phase::MidRace;
    activate_first(&mut r, &FieldView::at_gate());
    r.body.phase = Phase::LateRace;
    activate_first(&mut r, &FieldView::at_gate());
    let field = FieldView::at_gate();
    let view = RunnerConditionView {
        runner: &r,
        field: &field,
    }
    .observe();
    let phases = [0, 1, 2, 3, 4].map(|p| view.skills_activated_in_phase(p));
    assert_eq!(phases, [0, 1, 1, 0, 0]);
    let halves = [0, 1, 2].map(|h| view.skills_activated_half_race(h));
    assert_eq!(halves, [1, 1, 0]);
}

#[test]
fn a_pass_that_ends_and_starts_effects_keeps_the_accounts() {
    let mut second = target_speed_skill(100002, SkillRarity::Gold, "phase>=3");
    second.alternatives[0].effects[0] = effect(2500.0, 27);
    let mut r = runner_with_skills(vec![
        target_speed_skill(100001, SkillRarity::Gold, "phase>=2"),
        second,
    ]);
    prepare(&mut r);
    r.body.wit_checks_enabled = false;
    r.tally.modifiers.target_speed = q(0.1);
    let field = FieldView::at_gate();
    activate_first(&mut r, &field);
    assert_eq!(r.tally.modifiers.target_speed, q(0.1) + q(0.45));

    r.active.target_speed[0].duration_timer.t = 0;
    activate_first(&mut r, &field);
    assert_eq!(r.active.target_speed.len(), 1);
    assert_eq!(r.active.target_speed[0].skill_id, SkillId::new(100002));
    assert_eq!(r.tally.modifiers.target_speed, q(0.1) + q(0.25));
}

// --- counts ---

fn assert_counts_agree(r: &Runner, count: i64) {
    let phases = r.tally.skills_activated_phase_map;
    let halves = r.tally.skills_activated_half_race_map;
    assert_eq!(r.tally.skills_activated_count, count);
    assert_eq!(phases.early + phases.mid + phases.late + phases.spurt, count);
    assert_eq!(halves.first + halves.second, count);
}

#[test]
fn the_counts_agree_after_every_activation() {
    let mut r = runner_with_skills(vec![
        gold_carrier("phase==1", 1.0),
        target_speed_skill(200002, SkillRarity::Gold, "phase>=2"),
        target_speed_skill(200003, SkillRarity::White, "phase>=2"),
    ]);
    assert_counts_agree(&r, 0);
    prepare(&mut r);
    r.body.wit_checks_enabled = false;
    r.body.phase = Phase::MidRace;
    // The carrier and the gold it forces.
    fire_carrier(&mut r);
    assert_counts_agree(&r, 2);
    assert_eq!(r.tally.skills_activated_phase_map.mid, 2);
    assert_eq!(r.tally.skills_activated_half_race_map.first, 2);
    // One more, alone, in the second half.
    r.body.phase = Phase::LateRace;
    r.body.position = pending_trigger(&r, 200003).start + q(0.5);
    process(&mut r, &FieldView::at_gate());
    assert_counts_agree(&r, 3);
    assert_eq!(r.tally.skills_activated_phase_map.late, 1);
    assert_eq!(r.tally.skills_activated_half_race_map.second, 1);
    // What others cast on her counts as nothing.
    r.receive_targeted_effect(
        SkillId::new(999),
        vec![slow_down(-0.5)],
        RunnerId(5),
        q(2400.0),
    );
    r.process_targeted_skill_activations(q(2400.0));
    assert_counts_agree(&r, 3);
}

/// A carrier that forces a gold, a gold that forces one in turn, and a plain
/// one; the forcing gold draws itself `links` times before the plain one.
fn chained(links: usize) -> Runner {
    let mut forcing = target_speed_skill(200001, SkillRarity::Gold, "phase>=2");
    forcing.alternatives[0].effects.push(effect(10000.0, 37));
    let mut r = runner_with_skills(vec![
        gold_carrier("phase==1", 1.0),
        forcing,
        target_speed_skill(200002, SkillRarity::Gold, "phase>=2"),
    ]);
    // Of two candidates an odd draw keeps the first in front.
    let mut draws = [1, 0].repeat(links);
    draws.extend([0, 0]);
    r.force_skill_activator_rng = Rolls::new(draws);
    prepare(&mut r);
    r.body.wit_checks_enabled = false;
    r
}

#[test]
fn a_chain_of_forced_golds_runs_to_its_end() {
    for links in [0, 1, 2, 63, 64, 65, 200] {
        let mut r = chained(links);
        let at = r
            .pending_skills
            .iter()
            .position(|p| p.skill_id == SkillId::new(110071))
            .expect("carrier pending");
        let carrier = r.pending_skills.remove(at);
        r.activate_skill(&carrier, q(2400.0));
        // The carrier, the forcing gold as often as it was drawn, the plain one.
        assert_counts_agree(&r, links as i64 + 2);
        assert!(used(&r, 200002), "{links}");
        assert_eq!(used(&r, 200001), links > 0, "{links}");
        assert_eq!(r.active.target_speed.len(), links + 2);
    }
}
