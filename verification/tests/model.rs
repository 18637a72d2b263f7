use honse_sim::effect::{
    SkillTarget, SkillType, UnsupportedValueUsage, ValueScalingPolicy,
};
use honse_sim::math::{RaceClock, Timer, CLOCK_UNITS_PER_SECOND, FRAME_CLOCK_UNITS};
use honse_sim::model::{
    build_skill_effects, duration_scaling_multiplier, unmodeled_effects, HeldAdditionalEffect,
    RawSkillEffect, SkillAlternative, UnmodeledEffect,
};
use honse_sim::units::{divide_rounded, minus, negated, plus, times, ONE, QUANTITY_MAX};

fn q(x: f64) -> i64 {
    (x * 1e9).round() as i64
}

#[test]
fn timer_advances() {
    let mut timer = Timer::new(q(-1.0));
    timer.advance(q(0.5));
    timer.advance(q(0.5));
    assert_eq!(timer.t, q(0.0));
}

/// A clock reading as seconds, exactly: clock units are a power of two.
fn float_seconds(clock: &RaceClock) -> f64 {
    clock.clock_units() as f64 / CLOCK_UNITS_PER_SECOND as f64
}

#[test]
fn the_race_clock_sums_float32_steps() {
    let dt = FRAME_CLOCK_UNITS;
    assert_eq!(
        dt as f64 / CLOCK_UNITS_PER_SECOND as f64,
        f64::from(0.0666_f32)
    );
    let mut clock = RaceClock::new();
    assert_eq!(float_seconds(&clock).to_bits(), 0.0_f64.to_bits());
    let mut game = 0.0_f32;
    for tick in 1..=1500_u32 {
        clock.advance(dt);
        game += 0.0666_f32;
        assert_eq!(clock.ticks(), tick);
        assert_eq!(
            float_seconds(&clock).to_bits(),
            f64::from(game).to_bits(),
            "tick {tick}"
        );
    }
    let at = |n| float_seconds(&RaceClock::after_ticks(n, dt));
    assert_eq!(at(1), 0.066600002348423);
    assert_eq!(at(2), 0.133200004696846);
    assert_eq!(at(15), 0.9990001916885376);
    assert_eq!(at(16), 1.0656001567840576);
    assert_eq!(at(150), 9.989988327026367);
    assert_eq!(at(151), 10.056588172912598);
    assert_eq!(at(1424), 94.83755493164062);
    assert_eq!(at(1426), 94.97074890136719);
    // The same readings in billionths.
    assert_eq!(RaceClock::after_ticks(1, dt).seconds(), 66_600_002);
    assert_eq!(RaceClock::after_ticks(150, dt).seconds(), 9_989_988_327);
    assert_eq!(RaceClock::default().seconds(), 0);
}

#[test]
fn the_race_clock_rounds_to_its_tick_through_a_long_race() {
    let dt = f64::from(0.0666_f32);
    let mut clock = RaceClock::new();
    for tick in 1..=7581_u32 {
        clock.advance(FRAME_CLOCK_UNITS);
        let ticks = float_seconds(&clock) / dt;
        assert_eq!(ticks.round(), f64::from(tick), "tick {tick}");
        if tick <= 5000 {
            assert!(
                (ticks - f64::from(tick)).abs() < 0.1,
                "tick {tick}: {ticks}"
            );
        }
        assert_eq!(
            divide_rounded(clock.seconds() as i128, 66_600_002),
            i128::from(tick)
        );
    }
}

#[test]
fn the_clock_rounds_halves_to_the_even_significand() {
    // 2^24 + 1 lies halfway between two float32 values; 2^24 is the even one.
    let mut clock = RaceClock::new();
    clock.advance(0x100_0001);
    assert_eq!(clock.clock_units(), 0x100_0000);
    let mut clock = RaceClock::new();
    clock.advance(0x100_0003);
    assert_eq!(clock.clock_units(), 0x100_0004);
    let mut clock = RaceClock::new();
    clock.advance(u64::MAX);
    assert_eq!(clock.clock_units(), u64::MAX);
}

#[test]
fn duration_scaling_remaining_hp_tables_match_the_doc() {
    let f = |code, hp: f64| duration_scaling_multiplier(Some(code), q(hp), q(0.0));
    // Type 1 (3): boundaries are inclusive on the upper tier.
    let hp3 = [
        1999.0, 2000.0, 2399.0, 2400.0, 2600.0, 2800.0, 3000.0, 3200.0, 3499.0, 3500.0,
    ];
    let want3 = [1.0, 1.5, 1.5, 2.0, 2.2, 2.5, 3.0, 3.5, 3.5, 4.0];
    for (hp, want) in hp3.iter().zip(want3) {
        assert_eq!(f(3, *hp), q(want), "code 3 at {hp}");
    }
    // Type 2 (7).
    let hp7 = [1499.0, 1500.0, 1800.0, 2000.0, 2099.0, 2100.0];
    let want7 = [1.0, 1.5, 2.0, 2.5, 2.5, 3.0];
    for (hp, want) in hp7.iter().zip(want7) {
        assert_eq!(f(7, *hp), q(want), "code 7 at {hp}");
    }
    // Direct, absent and not-applied codes are 1.0 whatever the HP.
    for code in [None, Some(1), Some(4), Some(5), Some(6)] {
        assert_eq!(duration_scaling_multiplier(code, q(4000.0), q(100.0)), q(1.0));
    }
}

#[test]
fn duration_scaling_by_distance_is_capped() {
    let f = |behind: f64| duration_scaling_multiplier(Some(2), 0, q(behind));
    assert_eq!(f(0.0), q(0.8));
    assert_eq!(f(-5.0), q(0.8));
    assert_eq!(f(25.0), q(1.2));
    assert_eq!(f(50.0), q(1.6));
    assert_eq!(f(80.0), q(1.6));
}

fn raw(modifier: f64, target: SkillTarget, effect_type: i32, usage: Option<i32>) -> RawSkillEffect {
    RawSkillEffect {
        modifier: q(modifier),
        target,
        effect_type,
        value_usage: usage,
        value_level_usage: None,
        pre_applied_multiplier: None,
        additional_activate_type: None,
    }
}

fn alternative(base_duration: f64, condition: &str, effects: Vec<RawSkillEffect>) -> SkillAlternative {
    SkillAlternative {
        base_duration: q(base_duration),
        cooldown_time: None,
        duration_scaling: None,
        condition: condition.to_owned(),
        precondition: None,
        effects,
    }
}

#[test]
fn build_skill_effects_scales_by_10000() {
    let alt = alternative(
        30000.0,
        "phase>=2",
        vec![
            raw(4500.0, SkillTarget::SelfTarget, 27, None),
            raw(-10000.0, SkillTarget::All, 9, Some(8)),
        ],
    );
    let effects = build_skill_effects(&alt);
    assert_eq!(effects.len(), 2);
    assert_eq!(effects[0].base_duration, q(3.0));
    assert_eq!(effects[0].modifier, q(0.45));
    assert_eq!(effects[0].effect_type, SkillType::TargetSpeed);
    assert_eq!(effects[1].modifier, q(-1.0));
    assert_eq!(effects[1].effect_type, SkillType::Recovery);
    assert_eq!(effects[1].value_scaling, ValueScalingPolicy::MultiplyRandom);
}

#[test]
fn build_skill_effects_skips_unknown_type_and_keeps_known() {
    // A Savvy-shaped alternative bundles Wisdom Up (5, modeled) with a vision
    // effect (8, unmodeled). The unknown type must be dropped, not reject the
    // whole alternative.
    let mut wisdom = raw(600000.0, SkillTarget::SelfTarget, 5, Some(1));
    wisdom.value_level_usage = Some(1);
    let mut vision = raw(100000.0, SkillTarget::SelfTarget, 8, Some(1));
    vision.value_level_usage = Some(1);
    let alt = alternative(-10000.0, "running_style==2", vec![wisdom, vision]);
    let effects = build_skill_effects(&alt);
    assert_eq!(effects.len(), 1, "the unmodeled type-8 effect is dropped");
    assert_eq!(effects[0].effect_type, SkillType::WisdomUp);
    assert_eq!(effects[0].modifier, q(60.0));
}

#[test]
fn unmodeled_effects_reports_exactly_what_build_drops() {
    // One effect per drop reason plus a modeled Direct one: an unsupported
    // usage (19), a tiered usage that never said which tier it carries (12),
    // and an unmodeled effect type (8). The report and the builder must
    // partition the same list.
    let alt = alternative(
        50000.0,
        "phase>=2",
        vec![
            raw(2500.0, SkillTarget::SelfTarget, 27, Some(1)),
            raw(500.0, SkillTarget::SelfTarget, 27, Some(12)),
            raw(500.0, SkillTarget::SelfTarget, 8, Some(1)),
            raw(500.0, SkillTarget::SelfTarget, 27, Some(19)),
        ],
    );

    assert_eq!(
        unmodeled_effects(&alt),
        vec![
            (1, UnmodeledEffect::MissingPreAppliedMultiplier(12)),
            (2, UnmodeledEffect::EffectType(8)),
            (3, UnmodeledEffect::ValueUsage(19)),
        ]
    );
    assert_eq!(
        build_skill_effects(&alt).len() + unmodeled_effects(&alt).len(),
        alt.effects.len(),
        "every raw effect is either built or reported, never both or neither"
    );
}

#[test]
fn unmodeled_effects_is_empty_for_a_fully_modeled_alternative() {
    let alt = alternative(
        30000.0,
        "phase>=2",
        vec![raw(4500.0, SkillTarget::SelfTarget, 27, None)],
    );
    assert!(unmodeled_effects(&alt).is_empty());
}

#[test]
fn build_skill_effects_all_unknown_yields_empty() {
    let alt = alternative(0.0, "", vec![raw(1.0, SkillTarget::SelfTarget, 999, None)]);
    assert!(build_skill_effects(&alt).is_empty());
}

#[test]
fn a_tier_the_data_states_is_kept() {
    let mut tiered = raw(500.0, SkillTarget::SelfTarget, 27, Some(12));
    tiered.pre_applied_multiplier = Some(q(1.2));
    let alt = alternative(50000.0, "phase>=2", vec![tiered]);
    let effects = build_skill_effects(&alt);
    assert_eq!(effects.len(), 1);
    assert_eq!(effects[0].modifier, q(0.05));
    assert_eq!(effects[0].value_scaling, ValueScalingPolicy::PreAppliedTier);
    // An effect failing on both counts is reported by its type.
    let both = alternative(
        0.0,
        "",
        vec![raw(1.0, SkillTarget::SelfTarget, 502, Some(19))],
    );
    assert_eq!(
        unmodeled_effects(&both),
        vec![(0, UnmodeledEffect::EffectType(502))]
    );
}

#[test]
fn effect_ids_and_usages_are_looked_up() {
    for id in 0..64 {
        if let Some(t) = SkillType::from_id(id) {
            assert_eq!(t.id(), id);
        }
    }
    assert_eq!(SkillType::from_id(37), Some(SkillType::ActivateRandomGold));
    assert_eq!(SkillType::from_id(8), None);
    assert_eq!(
        ValueScalingPolicy::from_value_usage(None),
        Ok(ValueScalingPolicy::Direct)
    );
    assert_eq!(
        ValueScalingPolicy::from_value_usage(Some(14)),
        Ok(ValueScalingPolicy::MultiplyActivatedGreens)
    );
    assert_eq!(
        ValueScalingPolicy::from_value_usage(Some(19)),
        Err(UnsupportedValueUsage(19))
    );
}

#[test]
fn held_effects_have_their_limits() {
    assert_eq!(HeldAdditionalEffect::limit(1), 3);
    assert_eq!(HeldAdditionalEffect::limit(2), 3);
    assert_eq!(HeldAdditionalEffect::limit(3), 2);
}

#[test]
fn quantities_stop_at_the_ends_of_their_range() {
    assert_eq!(plus(QUANTITY_MAX, ONE), QUANTITY_MAX);
    assert_eq!(minus(i64::MIN, ONE), i64::MIN);
    assert_eq!(negated(i64::MIN), QUANTITY_MAX);
    assert_eq!(times(q(1.5), q(2.0)), q(3.0));
    assert_eq!(times(3, q(0.5)), 2, "halves round away from zero");
    assert_eq!(times(-3, q(0.5)), -2);
    assert_eq!(times(QUANTITY_MAX, QUANTITY_MAX), QUANTITY_MAX);
    assert_eq!(divide_rounded(7, 2), 4);
    assert_eq!(divide_rounded(-7, 2), -4);
    assert_eq!(divide_rounded(6, 4), 2);
    assert_eq!(divide_rounded(5, 4), 1);
}

#[test]
fn dropped_effects_are_reported_in_list_order() {
    let alt = alternative(
        0.0,
        "",
        vec![
            raw(1.0, SkillTarget::SelfTarget, 999, None),
            raw(4500.0, SkillTarget::SelfTarget, 27, None),
            raw(1.0, SkillTarget::SelfTarget, 8, None),
            raw(1.0, SkillTarget::SelfTarget, 999, None),
        ],
    );
    let places: Vec<usize> = unmodeled_effects(&alt).iter().map(|d| d.0).collect();
    assert_eq!(places, vec![0, 2, 3]);
}
