use honse_sim::condition::dynamic::{
    order_rate_band_index, ConditionTimers, ORDER_CONTINUE_GRACE_SECONDS,
};
use honse_sim::effect::SkillTarget;
use honse_sim::language::{RunnerId, Strategy};
use honse_sim::math::{RaceClock, FRAME_CLOCK_UNITS};
use honse_sim::pacing::PACEMAKER_HOLD_CHECKS;
use honse_sim::race_support::gates::assign_gates;
use honse_sim::race_support::reads::{
    build_field_view, condition_value, front_blocking_runner, has_side_blocking_runner,
    is_overtaking_runner, proximity_snapshots, resolve_debuff_targets, ProximitySnapshot,
};
use honse_sim::race_support::snapshot::{
    build_field_snapshot, FieldOrderTracker, FieldSnapshot, OrderUpWindows, SnapEntry,
};
use honse_sim::race_support::timers::update_condition_timers;
use honse_sim::rng::Rolls;
use honse_sim::runner::{
    ForcedRank, Health, NamedValue, Runner, RunnerBody, RunnerScript, RunnerTally, StatBlock,
    FRAME_DT,
};
use std::collections::HashMap;

fn q(x: f64) -> i64 {
    (x * 1e9).round() as i64
}

fn secs(t: i64) -> f64 {
    t as f64 / 1e9
}

fn test_runner(id: u32, strategy: Strategy) -> Runner {
    let stats = StatBlock {
        speed: q(1000.0),
        stamina: q(1000.0),
        power: q(1000.0),
        guts: q(1000.0),
        wit: q(800.0),
    };
    let health = Health {
        current: q(2000.0),
        max: q(2000.0),
    };
    Runner::new(
        RunnerBody::at_gate(RunnerId(id), strategy),
        RunnerScript::with_skills(vec![]),
        RunnerTally::fresh(strategy, stats, health),
        Rolls::new(vec![]),
        Rolls::new(vec![]),
        Rolls::new(vec![]),
    )
}

fn entry(id: u32, position: f64, strategy: Strategy) -> SnapEntry {
    SnapEntry {
        id: RunnerId(id),
        position: q(position),
        current_lane: 0,
        current_speed: q(20.0),
        target_speed: q(20.0),
        front_blocker: None,
        strategy,
        gate: 0,
        is_rushed: false,
        is_dueling: false,
        has_dueled: false,
        activated_advantage_effect_types: 0,
        popularity: 0,
    }
}

fn snapshot(entries: Vec<SnapEntry>) -> FieldSnapshot {
    FieldSnapshot {
        num_total: entries.len() as i64,
        num_active: entries.len() as i64,
        entries,
        order: HashMap::new(),
        previous_order: HashMap::new(),
        pacer: None,
        pacer_position: None,
        pacer_strategy: None,
        second_place_position: None,
        leader_position: None,
        last_position: None,
        condition_timers: HashMap::new(),
    }
}

fn ids(mut v: Vec<RunnerId>) -> Vec<RunnerId> {
    v.sort_by_key(|r| r.0);
    v
}

#[test]
fn a_front_less_snapshot_rewrites_nobody_and_lets_the_role_move() {
    let mut runners: Vec<Runner> = [
        (0_u32, Strategy::PaceChaser),
        (1, Strategy::PaceChaser),
        (2, Strategy::LateSurger),
    ]
    .into_iter()
    .map(|(id, strategy)| {
        let mut r = test_runner(id, strategy);
        r.body.gate = i64::from(id);
        r
    })
    .collect();
    let mut tracker = FieldOrderTracker::new();

    // Opening frame: every position is 0.0, so the rail of the most forward
    // style present takes the role.
    let snap = build_field_snapshot(&runners, &[], &mut tracker);
    assert_eq!(snap.pacer, Some(RunnerId(0)));
    assert_eq!(snap.pacer_strategy, Some(Strategy::PaceChaser));

    assert_eq!(tracker.opening_pacemaker, Some(RunnerId(0)));

    // A later frame with her style-mate in front, still inside her hold:
    // the role stays with her.
    runners[1].body.position = q(12.0);
    let snap = build_field_snapshot(&runners, &[], &mut tracker);
    assert_eq!(snap.pacer, Some(RunnerId(0)));

    // Past her hold: the role moves with the lead, and every runner still
    // owns the style she started with.
    runners[0].body.pos_keep_checks_run = PACEMAKER_HOLD_CHECKS;
    let snap = build_field_snapshot(&runners, &[], &mut tracker);
    assert_eq!(snap.pacer, Some(RunnerId(1)));
    assert_eq!(snap.pacer_strategy, Some(Strategy::PaceChaser));
    assert!(runners
        .iter()
        .all(|r| r.tally.position_keep_strategy == r.body.strategy));
}

#[test]
fn a_fronted_snapshot_records_no_opening_hold() {
    let runners: Vec<Runner> = [
        (0_u32, Strategy::PaceChaser),
        (1, Strategy::FrontRunner),
        (2, Strategy::LateSurger),
    ]
    .into_iter()
    .map(|(id, strategy)| {
        let mut r = test_runner(id, strategy);
        r.body.gate = i64::from(id);
        r
    })
    .collect();
    let mut tracker = FieldOrderTracker::new();

    let snap = build_field_snapshot(&runners, &[], &mut tracker);
    assert_eq!(snap.pacer, Some(RunnerId(1)));
    assert_eq!(tracker.opening_pacemaker, None);
}

#[test]
fn enemy_strategy_targets_matching_others_only() {
    // R0 = caster (Late Surger), R1/R2 front runners, R3 pace chaser.
    let snap = snapshot(vec![
        entry(0, 100.0, Strategy::LateSurger),
        entry(1, 120.0, Strategy::FrontRunner),
        entry(2, 80.0, Strategy::Runaway), // Runaway counts as nige (front)
        entry(3, 90.0, Strategy::PaceChaser),
    ]);
    let got = resolve_debuff_targets(
        &snap,
        RunnerId(0),
        SkillTarget::EnemyStrategy,
        Some(Strategy::FrontRunner),
    );
    assert_eq!(ids(got), vec![RunnerId(1), RunnerId(2)]);
}

#[test]
fn enemy_strategy_excludes_self_even_if_same_style() {
    // A front runner casting a nige-targeting debuff hits the *other* front
    // runner, never itself.
    let snap = snapshot(vec![
        entry(0, 100.0, Strategy::FrontRunner),
        entry(1, 120.0, Strategy::FrontRunner),
        entry(2, 90.0, Strategy::PaceChaser),
    ]);
    let got = resolve_debuff_targets(
        &snap,
        RunnerId(0),
        SkillTarget::EnemyStrategy,
        Some(Strategy::FrontRunner),
    );
    assert_eq!(got, vec![RunnerId(1)]);
}

#[test]
fn enemy_strategy_without_derived_strategy_hits_nobody() {
    let snap = snapshot(vec![
        entry(0, 100.0, Strategy::LateSurger),
        entry(1, 120.0, Strategy::FrontRunner),
    ]);
    let got = resolve_debuff_targets(&snap, RunnerId(0), SkillTarget::EnemyStrategy, None);
    assert!(got.is_empty());
}

#[test]
fn all_and_position_relative_targets() {
    let snap = snapshot(vec![
        entry(0, 100.0, Strategy::PaceChaser),  // caster
        entry(1, 120.0, Strategy::FrontRunner), // ahead
        entry(2, 80.0, Strategy::LateSurger),   // behind
    ]);
    assert_eq!(
        ids(resolve_debuff_targets(
            &snap,
            RunnerId(0),
            SkillTarget::All,
            None
        )),
        vec![RunnerId(1), RunnerId(2)]
    );
    assert_eq!(
        resolve_debuff_targets(&snap, RunnerId(0), SkillTarget::AheadOfSelf, None),
        vec![RunnerId(1)]
    );
    assert_eq!(
        resolve_debuff_targets(&snap, RunnerId(0), SkillTarget::BehindSelf, None),
        vec![RunnerId(2)]
    );
}

#[test]
fn selectors_that_are_not_routed_reach_nobody() {
    let snap = snapshot(vec![
        entry(0, 100.0, Strategy::PaceChaser),
        entry(1, 120.0, Strategy::FrontRunner),
    ]);
    for target in [
        SkillTarget::SelfTarget,
        SkillTarget::InFov,
        SkillTarget::AheadOfPosition,
        SkillTarget::AllAllies,
        SkillTarget::KakariAhead,
        SkillTarget::KakariBehind,
        SkillTarget::UmaId,
        SkillTarget::UsedRecovery,
    ] {
        let got =
            resolve_debuff_targets(&snap, RunnerId(0), target, Some(Strategy::FrontRunner));
        assert!(got.is_empty(), "{target:?}");
    }
    let got = resolve_debuff_targets(
        &snap,
        RunnerId(0),
        SkillTarget::KakariStrategy,
        Some(Strategy::FrontRunner),
    );
    assert_eq!(got, vec![RunnerId(1)]);
    // A caster who is not racing has no side to speak of.
    let got = resolve_debuff_targets(&snap, RunnerId(9), SkillTarget::AheadOfSelf, None);
    assert!(got.is_empty());
}

#[test]
fn assign_gates_keeps_fixed_gates_and_deals_the_rest() {
    let fixed = [None, Some(0), None, Some(2)];
    let mut rng = Rolls::new(vec![1]);
    let gates = assign_gates(&fixed, 4, &mut rng);
    assert_eq!(gates[1], 0);
    assert_eq!(gates[3], 2);
    let mut free = vec![gates[0], gates[2]];
    free.sort_unstable();
    assert_eq!(free, vec![1, 3]);
}

#[test]
fn assign_gates_without_fixed_gates_is_a_permutation() {
    let mut rng = Rolls::new(vec![7, 11, 3, 900, 12345, 6, 2, 1]);
    let mut gates = assign_gates(&[None; 9], 9, &mut rng);
    gates.sort_unstable();
    assert_eq!(gates, (0..9).collect::<Vec<i64>>());
}

#[test]
fn assign_gates_follows_the_draws() {
    // 3 swaps with 0, then 2 with 2, then 1 with 0.
    let mut rng = Rolls::new(vec![0, 2, 0, 99]);
    assert_eq!(assign_gates(&[None; 4], 4, &mut rng), vec![1, 3, 2, 0]);
    assert_eq!(rng.draw(), 99, "one draw less than there are free gates");
    // A fully pinned field takes none.
    let mut rng = Rolls::new(vec![5, 6]);
    assert_eq!(
        assign_gates(&[Some(1), Some(0)], 2, &mut rng),
        vec![1, 0]
    );
    assert_eq!(rng.draw(), 5);
    // Nor with gates to spare.
    let mut rng = Rolls::new(vec![5, 6]);
    assert_eq!(
        assign_gates(&[Some(4), Some(0)], 9, &mut rng),
        vec![4, 0]
    );
    assert_eq!(rng.draw(), 5);
    // One free slot among spare gates: the shuffle runs over all of them.
    let mut rng = Rolls::new(vec![0, 1, 7]);
    assert_eq!(assign_gates(&[Some(1), None], 4, &mut rng), vec![1, 3]);
    assert_eq!(rng.draw(), 7);
    // More slots than gates: the rest get 0; a gate claimed twice is honored.
    let mut rng = Rolls::new(vec![0]);
    assert_eq!(
        assign_gates(&[Some(0), None, None, Some(0), Some(40)], 2, &mut rng),
        vec![0, 1, 0, 0, 40]
    );
}

// --- condition timers ---

const DT: i64 = FRAME_DT;
const LANE: f64 = 1.5;

/// A two-runner field: `a` at 100 m, `b` behind it by `gap` metres and
/// `lanes` lanes, with placements `order_a` / `order_b` this frame and the
/// given previous placements.
fn pair(gap: f64, lanes: f64, now: (i64, i64), before: (i64, i64)) -> FieldSnapshot {
    let mut a = entry(1, 100.0, Strategy::FrontRunner);
    let mut b = entry(2, 100.0 - gap, Strategy::PaceChaser);
    b.current_lane = q(lanes * LANE);
    a.current_lane = 0;
    let mut snap = snapshot(vec![a, b]);
    snap.order.insert(1, now.0);
    snap.order.insert(2, now.1);
    snap.previous_order.insert(1, before.0);
    snap.previous_order.insert(2, before.1);
    snap
}

fn tick(snap: &mut FieldSnapshot, tracker: &mut FieldOrderTracker) -> ConditionTimers {
    update_condition_timers(snap, tracker, &[], DT, q(LANE));
    snap.condition_timers[&1]
}

#[test]
fn the_narrow_near_lane_spell_never_outlasts_the_wide_one() {
    let mut tracker = FieldOrderTracker::new();
    let gaps = [2.0, 4.0, 4.9, 2.5, 2.6, 5.0, 5.1, 1.0, 1.0, 6.0, 2.0];
    let mut narrow = 0;
    for gap in gaps {
        let t = tick(&mut pair(gap, 0.5, (1, 2), (1, 2)), &mut tracker);
        assert!(t.near_behind <= t.near_behind_set1, "{gap}");
        narrow = narrow.max(t.near_behind);
    }
    assert_eq!(narrow, 2 * DT);
}

#[test]
fn near_behind_counts_seconds_held_not_the_race_clock() {
    // 2 m behind, same lane: right behind by the 2.5 m / 1 lane window.
    let mut tracker = FieldOrderTracker::new();
    let mut t = ConditionTimers::default();
    for _ in 0..30 {
        t = tick(&mut pair(2.0, 0.0, (1, 2), (1, 2)), &mut tracker);
    }
    assert!(
        (secs(t.near_behind) - 1.998).abs() < 1e-6,
        "30 ticks = 1.998 s, got {}",
        t.near_behind
    );
    // Out of range (3 m) for one frame: back to zero.
    t = tick(&mut pair(3.0, 0.0, (1, 2), (1, 2)), &mut tracker);
    assert_eq!(t.near_behind, 0);
    // But within the set1 window (5 m, 2.7 lanes).
    assert!(t.near_behind_set1 > q(2.0));
}

#[test]
fn near_lane_timers_reach_three_seconds_on_the_46th_tick() {
    let mut tracker = FieldOrderTracker::new();
    let mut t = ConditionTimers::default();
    for _ in 0..45 {
        t = tick(&mut pair(2.0, 0.0, (1, 2), (1, 2)), &mut tracker);
    }
    assert!(secs(t.near_behind) < 3.0, "45 ticks: {}", t.near_behind);
    assert!((secs(t.near_behind) - 2.997).abs() < 1e-6, "{}", t.near_behind);
    t = tick(&mut pair(2.0, 0.0, (1, 2), (1, 2)), &mut tracker);
    assert!(secs(t.near_behind) >= 3.0, "46 ticks: {}", t.near_behind);
    assert!((secs(t.near_behind) - 3.0636).abs() < 1e-6, "{}", t.near_behind);
}

#[test]
fn near_lane_timers_reset_when_the_runners_own_placement_changes() {
    let mut tracker = FieldOrderTracker::new();
    for _ in 0..30 {
        tick(&mut pair(2.0, 0.0, (1, 2), (1, 2)), &mut tracker);
    }
    let t = tick(&mut pair(2.0, 0.0, (1, 2), (2, 1)), &mut tracker);
    assert_eq!(t.near_behind, 0);
    assert_eq!(t.near_behind_set1, 0);
}

#[test]
fn near_behind_needs_the_same_lane() {
    let mut tracker = FieldOrderTracker::new();
    let t = tick(&mut pair(2.0, 1.5, (1, 2), (1, 2)), &mut tracker);
    assert_eq!(t.near_behind, 0, "1.5 lanes is outside the 1-lane window");
    assert!(t.near_behind_set1 > 0, "but inside set1's 2.7 lanes");
}

#[test]
fn near_lane_timers_read_only_the_placement_adjacent_uma() {
    // 1 at 100 m; 2 one metre behind, `lanes_2` lanes out; 3 two metres
    // behind in 1's lane. Placements 1, 2, 3, unchanged.
    let field = |lanes_2: f64| {
        let one = entry(1, 100.0, Strategy::FrontRunner);
        let mut two = entry(2, 99.0, Strategy::PaceChaser);
        let three = entry(3, 98.0, Strategy::PaceChaser);
        two.current_lane = q(lanes_2 * LANE);
        let mut snap = snapshot(vec![one, two, three]);
        for id in 1..=3 {
            snap.order.insert(id, i64::from(id));
            snap.previous_order.insert(id, i64::from(id));
        }
        snap
    };
    let timers = |snap: &mut FieldSnapshot, id: u32| {
        update_condition_timers(snap, &mut FieldOrderTracker::new(), &[], DT, q(LANE));
        snap.condition_timers[&id]
    };

    // 2 runs three lanes out: 3 is in 1's windows, but not adjacent.
    let t = timers(&mut field(3.0), 1);
    assert_eq!(t.near_behind, 0, "3 is not directly behind");
    assert_eq!(t.near_behind_set1, 0, "nor for set1 (5 m, 2.7 lanes)");
    let t = timers(&mut field(3.0), 3);
    assert_eq!(t.near_infront, 0, "1 is not directly ahead");

    // 2 comes within a lane: now the adjacent uma is in the windows.
    let t = timers(&mut field(0.5), 1);
    assert!(t.near_behind > 0, "2 is directly behind");
    assert!(t.near_behind_set1 > 0);
    let t = timers(&mut field(0.5), 3);
    assert!(t.near_infront > 0, "2 is directly ahead");
}

#[test]
fn near_lane_timers_count_an_uma_exactly_one_lane_off() {
    let timers = |lanes: f64| {
        // 1 on the rail, 2 two metres behind and `lanes` lanes out.
        let mut snap = pair(2.0, lanes, (1, 2), (1, 2));
        update_condition_timers(&mut snap, &mut FieldOrderTracker::new(), &[], DT, q(LANE));
        (
            snap.condition_timers[&1].near_behind,
            snap.condition_timers[&2].near_infront,
        )
    };
    let (behind, infront) = timers(1.0);
    assert!(behind > 0, "2 is right behind 1, one lane out");
    assert!(infront > 0, "1 is right in front of 2, one lane in");
    assert_eq!(timers(1.01), (0, 0), "past one lane");
}

#[test]
fn near_lane_timers_count_one_lane_off_up_to_rounding() {
    const HORSE_LANE: f64 = 11.25 / 18.0;
    let timers = |lane_1: i64, lane_2: i64| {
        // 1 in `lane_1`, 2 two metres behind in `lane_2`.
        let mut snap = pair(2.0, 0.0, (1, 2), (1, 2));
        snap.entries[0].current_lane = lane_1;
        snap.entries[1].current_lane = lane_2;
        update_condition_timers(
            &mut snap,
            &mut FieldOrderTracker::new(),
            &[],
            DT,
            q(HORSE_LANE),
        );
        (
            snap.condition_timers[&1].near_behind > 0,
            snap.condition_timers[&2].near_infront > 0,
        )
    };
    assert_eq!(HORSE_LANE, 0.625);
    assert_eq!(timers(0, q(HORSE_LANE.next_up())), (true, true), "one ulp past");
    let outside = 1.7 + HORSE_LANE;
    assert!(
        outside - 1.7 > HORSE_LANE,
        "1.7 + 0.625 reads past one lane"
    );
    assert_eq!(
        timers(q(1.7), q(outside)),
        (true, true),
        "one lane outside 1.7 m"
    );
    // A nanometre past is still one lane off; two are not.
    assert_eq!(timers(0, q(HORSE_LANE) + 1), (true, true));
    assert_eq!(timers(0, q(HORSE_LANE) + 2), (false, false));
    assert_eq!(
        timers(0, q(HORSE_LANE + 1e-6)),
        (false, false),
        "a micrometre past"
    );
}

#[test]
fn side_block_timers_read_the_documented_window() {
    let blocked = |gap: f64, lanes: f64, front_blocked: bool| {
        let mut snap = pair(gap, lanes, (1, 2), (1, 2));
        // Blocked in front by a runner outside the pair.
        snap.entries[0].front_blocker = front_blocked.then_some(RunnerId(9));
        let t = tick(&mut snap, &mut FieldOrderTracker::new());
        (t.blocked_side > 0, t.blocked_all > 0)
    };
    // 2 m behind, half a lane across: inside 3 m, outside 1.05 m.
    assert_eq!(blocked(2.0, 0.5, true), (false, false));
    // Half a metre behind, a lane and a half across: outside one lane,
    // inside two.
    assert_eq!(blocked(0.5, 1.5, false), (true, false));
    assert_eq!(blocked(0.5, 1.5, true), (true, true));
    // On the same line.
    assert_eq!(blocked(0.5, 0.0, false), (true, false));
    // Just outside either edge.
    assert_eq!(blocked(1.1, 0.0, false), (false, false));
    assert_eq!(blocked(0.5, 2.1, false), (false, false));

    // Wherever the rival is, the timer holds exactly when the physics
    // step finds her side-blocking.
    let mut me = test_runner(1, Strategy::FrontRunner);
    me.body.position = q(100.0);
    me.body.current_lane = 0;
    for gap in [0.0, 0.5, 1.0, 1.1, 2.0, 2.9, 3.5] {
        for lanes in [0.0, 0.5, 0.9, 1.5, 1.9, 2.5] {
            let snap = pair(gap, lanes, (1, 2), (1, 2));
            let physics = has_side_blocking_runner(&me, &proximity_snapshots(&snap), q(LANE));
            assert_eq!(
                blocked(gap, lanes, false).0,
                physics,
                "{gap} m behind, {lanes} lanes across"
            );
        }
    }
}

#[test]
fn is_behind_in_reads_the_runner_directly_behind() {
    let mut tracker = FieldOrderTracker::new();
    // b behind a, on a lane closer to the fence than a.
    let mut snap = pair(4.0, 0.0, (1, 2), (1, 2));
    snap.entries[0].current_lane = q(3.0);
    snap.entries[1].current_lane = q(1.0);
    assert!(tick(&mut snap, &mut tracker).behind_is_inner);
    let mut snap = pair(4.0, 0.0, (1, 2), (1, 2));
    snap.entries[0].current_lane = q(1.0);
    snap.entries[1].current_lane = q(3.0);
    assert!(!tick(&mut snap, &mut tracker).behind_is_inner);
}

/// [`pair`] with `b` 1 m/s faster than `a`, by current and by target speed.
fn chase(gap: f64, lanes: f64) -> FieldSnapshot {
    let mut snap = pair(gap, lanes, (1, 2), (1, 2));
    snap.entries[1].current_speed = q(21.0);
    snap.entries[1].target_speed = q(21.0);
    snap
}

/// One tick on a fresh tracker: whether `b` has an overtake target, and
/// whether `a` is one.
fn targets(mut snap: FieldSnapshot) -> (bool, bool) {
    update_condition_timers(&mut snap, &mut FieldOrderTracker::new(), &[], DT, q(LANE));
    (
        snap.condition_timers[&2].has_overtake_target,
        snap.condition_timers[&1].overtaken > 0,
    )
}

#[test]
fn overtake_target_is_1_to_20_m_ahead_and_caught_within_15_s() {
    // b 10 m behind a and 1 m/s faster: catches in 10 s, a is b's target.
    assert_eq!(targets(chase(10.0, 0.0)), (true, true));
    // 0.5 m/s faster: 20 s to catch, no target.
    let mut snap = chase(10.0, 0.0);
    snap.entries[1].current_speed = q(20.5);
    assert_eq!(targets(snap), (false, false));
    // 25 m ahead: out of range however fast.
    let mut snap = chase(25.0, 0.0);
    snap.entries[1].current_speed = q(30.0);
    assert_eq!(targets(snap), (false, false));
    // Under 1 m ahead: not a target however fast.
    assert_eq!(targets(chase(0.5, 0.0)), (false, false));
}

#[test]
fn overtake_target_is_inside_the_vision_cone() {
    // 5 m ahead the cone reaches 2.44 lanes either side.
    assert_eq!(targets(chase(5.0, 2.0)), (true, true));
    assert_eq!(targets(chase(5.0, 3.0)), (false, false));
    assert_eq!(targets(chase(5.0, -3.0)), (false, false));
    // 15 m ahead (7.5 s to catch at 2 m/s) it reaches 5.31 lanes.
    let wide = |lanes: f64| {
        let mut snap = chase(15.0, lanes);
        snap.entries[1].current_speed = q(22.0);
        targets(snap)
    };
    assert_eq!(wide(5.0), (true, true));
    assert_eq!(wide(5.5), (false, false));
}

#[test]
fn overtake_target_is_slower_by_target_speed_or_the_front_blocker() {
    // a aims faster than b and runs free: not a target, although b closes
    // on her at 1 m/s now.
    let mut snap = chase(10.0, 0.0);
    snap.entries[0].target_speed = q(22.0);
    assert_eq!(targets(snap), (false, false));
    // The same a, blocked in front and slower than b's target: a target.
    let mut snap = chase(10.0, 0.0);
    snap.entries[0].target_speed = q(22.0);
    snap.entries[0].front_blocker = Some(RunnerId(9));
    assert_eq!(targets(snap), (true, true));
    // Half a metre ahead at the same speed, but blocking b in front.
    let mut snap = pair(0.5, 0.0, (1, 2), (1, 2));
    snap.entries[1].front_blocker = Some(RunnerId(1));
    assert_eq!(targets(snap), (true, true));
}

#[test]
fn overtake_timers_count_only_targets_in_the_vision_cone() {
    let held = |lanes: f64| {
        let mut tracker = FieldOrderTracker::new();
        let mut t = HashMap::new();
        for _ in 0..30 {
            let mut snap = chase(5.0, lanes);
            update_condition_timers(&mut snap, &mut tracker, &[], DT, q(LANE));
            t = snap.condition_timers;
        }
        (t[&2].overtake_target_no_order_up, t[&1].overtaken)
    };
    let (no_order_up, overtaken) = held(2.0);
    assert!(
        (secs(no_order_up) - 30.0 * secs(DT)).abs() < 1e-9,
        "30 ticks = 1.998 s, got {no_order_up}"
    );
    assert!(
        (secs(overtaken) - 30.0 * secs(DT)).abs() < 1e-9,
        "30 ticks = 1.998 s, got {overtaken}"
    );
    assert_eq!(held(3.0), (0, 0));
}

#[test]
fn order_up_counters_count_runners_passed_in_their_windows() {
    let mut tracker = FieldOrderTracker::new();
    tracker.order_up_windows = Some(OrderUpWindows {
        middle_start: q(400.0),
        late_start: q(1600.0),
        final_corner_start: Some(q(1800.0)),
    });
    // Runner 1 at `at` goes from 3rd to 1st past runners 2 and 3.
    let pass_two = |tracker: &mut FieldOrderTracker, at: f64| {
        let mut snap = snapshot(vec![
            entry(1, at, Strategy::LateSurger),
            entry(2, at - 1.0, Strategy::FrontRunner),
            entry(3, at - 2.0, Strategy::PaceChaser),
        ]);
        for (id, now, before) in [(1, 1, 3), (2, 2, 1), (3, 3, 2)] {
            snap.order.insert(id, now);
            snap.previous_order.insert(id, before);
        }
        update_condition_timers(&mut snap, tracker, &[], DT, q(LANE));
        let t = snap.condition_timers[&1];
        (
            t.order_up_middle,
            t.order_up_end_after,
            t.order_up_finalcorner_after,
        )
    };
    assert_eq!(pass_two(&mut tracker, 300.0), (0, 0, 0), "early race");
    assert_eq!(pass_two(&mut tracker, 1000.0), (2, 0, 0));
    assert_eq!(pass_two(&mut tracker, 1700.0), (2, 2, 0));
    assert_eq!(pass_two(&mut tracker, 1900.0), (2, 4, 2));
    // Being passed counts nothing for the runners she passed.
    let t = tracker.condition_timers[&2];
    assert_eq!(t.order_up_middle + t.order_up_end_after, 0);

    // Without the course windows nothing is counted.
    let mut tracker = FieldOrderTracker::new();
    assert_eq!(pass_two(&mut tracker, 1900.0), (0, 0, 0));
}

#[test]
fn the_course_windows_are_its_sixths_and_thirds() {
    let w = OrderUpWindows::for_course(q(2400.0), Some(q(1800.0)));
    assert_eq!(w.middle_start, q(400.0));
    assert_eq!(w.late_start, q(1600.0));
    assert_eq!(w.final_corner_start, Some(q(1800.0)));
}

#[test]
fn continue_bands_keep_the_threshold_place() {
    let runners: Vec<Runner> = (1..=12_u32)
        .map(|id| {
            let mut r = test_runner(id, Strategy::PaceChaser);
            r.body.accumulate_time = RaceClock::after_ticks(90, FRAME_CLOCK_UNITS); // 5.994 s
            r
        })
        .collect();
    let mut snap = snapshot(
        (1..=12_u32)
            .map(|id| entry(id, 1000.0 - 10.0 * f64::from(id), Strategy::PaceChaser))
            .collect(),
    );
    for id in 1..=12_u32 {
        snap.order.insert(id, i64::from(id));
        snap.previous_order.insert(id, i64::from(id));
    }
    let mut tracker = FieldOrderTracker::new();
    update_condition_timers(&mut snap, &mut tracker, &runners, DT, q(LANE));

    let in20 = order_rate_band_index(20).expect("a band");
    let out70 = order_rate_band_index(70).expect("a band");
    let timers = |id: u32| snap.condition_timers[&id];
    assert!(timers(2).in_band.get(in20));
    assert!(!timers(3).in_band.get(in20));
    assert!(timers(8).out_band.get(out70));
    assert!(!timers(7).out_band.get(out70));
}

#[test]
fn continue_bands_follow_gametoras_worked_examples() {
    // The first tick past the grace (tick 76, 5.0616 s), runner k in
    // place k of n.
    let latched = |n: u32| {
        let runners: Vec<Runner> = (1..=n)
            .map(|id| {
                let mut r = test_runner(id, Strategy::PaceChaser);
                r.body.accumulate_time = RaceClock::after_ticks(76, FRAME_CLOCK_UNITS);
                assert!(r.body.accumulate_time.seconds() > ORDER_CONTINUE_GRACE_SECONDS);
                r
            })
            .collect();
        let mut snap = snapshot(
            (1..=n)
                .map(|id| entry(id, 1000.0 - 10.0 * f64::from(id), Strategy::PaceChaser))
                .collect(),
        );
        for id in 1..=n {
            snap.order.insert(id, i64::from(id));
            snap.previous_order.insert(id, i64::from(id));
        }
        update_condition_timers(&mut snap, &mut FieldOrderTracker::new(), &runners, DT, q(LANE));
        snap.condition_timers
    };
    let band = |rate: f64| order_rate_band_index((rate * 100.0).round() as i64).expect("a band");

    let nine = latched(9);
    // (rate, the best place outside the top rate)
    for (rate, edge) in [(0.7, 6_u32), (0.5, 5), (0.4, 4), (0.2, 2)] {
        let out = |place: u32| nine[&place].out_band.get(band(rate));
        assert!(out(edge), "out {rate}: place {edge} of 9 holds");
        assert!(out(9), "out {rate}: place 9 of 9 holds");
        assert!(!out(edge - 1), "out {rate}: place {} of 9", edge - 1);
    }
    let ten = latched(10);
    // (field, rate, the worst place within the top rate)
    for (field, n, rate, edge) in [
        (&ten, 10, 0.2, 2_u32),
        (&ten, 10, 0.4, 4),
        (&ten, 10, 0.5, 5),
        (&ten, 10, 0.8, 8),
        (&nine, 9, 0.2, 2),
        (&nine, 9, 0.4, 4),
        (&nine, 9, 0.5, 5),
        (&nine, 9, 0.8, 7),
    ] {
        let within = |place: u32| field[&place].in_band.get(band(rate));
        assert!(within(1), "in {rate}: place 1 of {n} holds");
        assert!(within(edge), "in {rate}: place {edge} of {n} holds");
        assert!(!within(edge + 1), "in {rate}: place {} of {n}", edge + 1);
    }
}

#[test]
fn bands_are_not_latched_during_the_grace_period() {
    let mut r = test_runner(1, Strategy::PaceChaser);
    r.body.accumulate_time = RaceClock::after_ticks(75, FRAME_CLOCK_UNITS); // 4.995 s
    let runners = vec![r];
    let mut snap = pair(2.0, 0.0, (2, 1), (2, 1));
    let mut tracker = FieldOrderTracker::new();
    update_condition_timers(&mut snap, &mut tracker, &runners, DT, q(LANE));
    assert!(snap.condition_timers[&1].in_band.top20);
    assert!(snap.condition_timers[&1].out_band.top80);
}

#[test]
fn the_field_view_carries_the_last_position_and_popularity() {
    let mut runners: Vec<Runner> = [
        (0_u32, Strategy::PaceChaser),
        (1, Strategy::FrontRunner),
        (2, Strategy::LateSurger),
    ]
    .into_iter()
    .map(|(id, strategy)| {
        let mut r = test_runner(id, strategy);
        r.body.gate = i64::from(id);
        r.body.popularity = i64::from(3 - id);
        r
    })
    .collect();
    runners[0].body.position = q(120.0);
    runners[1].body.position = q(150.0);
    runners[2].body.position = q(90.0);
    let mut tracker = FieldOrderTracker::new();
    let snap = build_field_snapshot(&runners, &[], &mut tracker);
    assert_eq!(snap.leader_position, Some(q(150.0)));
    assert_eq!(snap.last_position, Some(q(90.0)));
    let view = build_field_view(RunnerId(0), &snap, false);
    assert_eq!(view.last_position, Some(q(90.0)));
    let favourite = view
        .active_runners
        .iter()
        .find(|a| a.popularity == 1)
        .expect("popularity carried");
    assert_eq!(favourite.strategy, Strategy::LateSurger);
}

#[test]
fn overtake_target_timer_resets_on_moving_up_a_place() {
    let mut tracker = FieldOrderTracker::new();
    for _ in 0..30 {
        let mut snap = chase(10.0, 0.0);
        update_condition_timers(&mut snap, &mut tracker, &[], DT, q(LANE));
    }
    assert!(tracker.condition_timers[&2].overtake_target_no_order_up > q(1.9));
    let mut snap = pair(10.0, 0.0, (2, 1), (1, 2));
    snap.entries[1].current_speed = q(21.0);
    snap.entries[1].target_speed = q(21.0);
    update_condition_timers(&mut snap, &mut tracker, &[], DT, q(LANE));
    assert_eq!(snap.condition_timers[&2].overtake_target_no_order_up, 0);
}

// --- the snapshot's places ---

#[test]
fn finished_runners_hold_the_top_places_and_scripted_places_stand() {
    let mut runners: Vec<Runner> = (0..5_u32)
        .map(|id| test_runner(id, Strategy::PaceChaser))
        .collect();
    for (i, position) in [2400.0, 2300.0, 2350.0, 2410.0, 2350.0].into_iter().enumerate() {
        runners[i].body.position = q(position);
    }
    let mut tracker = FieldOrderTracker::new();
    tracker.runner_order.insert(4, 5);
    let finished = [RunnerId(3), RunnerId(0)];
    let snap = build_field_snapshot(&runners, &finished, &mut tracker);
    assert_eq!(snap.order[&3], 1);
    assert_eq!(snap.order[&0], 2);
    // Level runners keep the order they are listed in.
    assert_eq!(snap.order[&2], 3);
    assert_eq!(snap.order[&4], 4);
    assert_eq!(snap.order[&1], 5);
    assert_eq!(snap.previous_order.len(), 1);
    assert_eq!(snap.previous_order[&4], 5);
    assert_eq!(snap.num_active, 3);
    assert_eq!(snap.num_total, 5);
    assert_eq!(snap.leader_position, Some(q(2350.0)));
    assert_eq!(snap.second_place_position, Some(q(2350.0)));
    assert_eq!(snap.last_position, Some(q(2300.0)));
    assert_eq!(tracker.runner_order[&1], 5);
    assert_eq!(tracker.previous_runner_order[&4], 5);

    runners[1].script.forced_rank = vec![
        ForcedRank {
            start: q(0.0),
            end: q(100.0),
            rank: 9,
        },
        ForcedRank {
            start: q(2300.0),
            end: q(2400.0),
            rank: 1,
        },
    ];
    let snap = build_field_snapshot(&runners, &finished, &mut tracker);
    assert_eq!(snap.order[&1], 1);
    assert_eq!(snap.previous_order[&1], 5);

    tracker.reset();
    assert!(tracker.runner_order.is_empty());
    assert_eq!(tracker.pacer, None);
}

#[test]
fn an_empty_field_keeps_the_last_pacer() {
    let mut tracker = FieldOrderTracker::new();
    tracker.pacer = Some(RunnerId(7));
    let snap = build_field_snapshot(&[], &[], &mut tracker);
    assert_eq!(snap.pacer, Some(RunnerId(7)));
    assert_eq!(snap.pacer_position, None);
    assert_eq!(snap.leader_position, None);
    assert_eq!(snap.second_place_position, None);
    assert_eq!(snap.last_position, None);
}

// --- proximity reads ---

fn prox(id: u32, position: f64, lane: f64, speed: f64) -> ProximitySnapshot {
    ProximitySnapshot {
        id: RunnerId(id),
        position: q(position),
        current_lane: q(lane),
        current_speed: q(speed),
        target_speed: q(speed),
        is_front_blocked: false,
    }
}

#[test]
fn the_closest_runner_in_the_narrowing_window_blocks() {
    let mut me = test_runner(1, Strategy::PaceChaser);
    me.body.position = q(100.0);
    me.body.current_lane = q(1.0);
    let lane = q(1.0);
    let block = front_blocking_runner(
        &me,
        &[
            prox(1, 100.5, 1.0, 20.0),
            prox(2, 101.5, 1.0, 19.0),
            prox(3, 101.0, 1.0, 18.0),
            prox(4, 99.5, 1.0, 18.0),
        ],
        lane,
    )
    .expect("blocked");
    assert_eq!(block.id, RunnerId(3));
    assert_eq!(block.distance_gap, q(1.0));
    assert_eq!(block.speed, q(18.0));
    // One metre ahead the window reaches 0.525 lanes either side.
    let at = |position: f64, across: f64| {
        front_blocking_runner(&me, &[prox(2, position, 1.0 + across, 18.0)], lane).is_some()
    };
    assert!(at(101.0, 0.525));
    assert!(!at(101.0, 0.526));
    assert!(at(101.0, -0.525));
    assert!(!at(102.0, 0.0), "2 m is out of reach");
    assert!(!at(100.0, 0.0), "level is not ahead");
}

#[test]
fn overtaking_needs_speed_and_room() {
    let mut me = test_runner(1, Strategy::PaceChaser);
    me.body.position = q(100.0);
    me.body.current_speed = q(20.0);
    let lane = q(1.0);
    assert!(is_overtaking_runner(&me, &[prox(2, 105.0, 2.0, 19.0)], lane));
    assert!(!is_overtaking_runner(&me, &[prox(2, 105.1, 0.0, 19.0)], lane));
    assert!(!is_overtaking_runner(&me, &[prox(2, 101.0, 2.1, 19.0)], lane));
    assert!(!is_overtaking_runner(&me, &[prox(2, 101.0, 0.0, 20.0)], lane));
    assert!(!is_overtaking_runner(&me, &[prox(1, 101.0, 0.0, 10.0)], lane));
}

#[test]
fn condition_values_fall_back_to_their_start() {
    let mut r = test_runner(1, Strategy::PaceChaser);
    r.script.conditions = vec![
        NamedValue {
            name: "blocked_side".to_string(),
            value: 3,
        },
        NamedValue {
            name: "overtake".to_string(),
            value: 4,
        },
    ];
    r.script.condition_values = vec![NamedValue {
        name: "overtake".to_string(),
        value: 9,
    }];
    assert_eq!(condition_value(&r, "overtake"), 9);
    assert_eq!(condition_value(&r, "blocked_side"), 3);
    assert_eq!(condition_value(&r, "unknown"), 0);
}

#[test]
fn the_field_view_shows_the_others() {
    let mut snap = pair(2.0, 1.0, (1, 2), (2, 1));
    snap.num_total = 7;
    let mut tracker = FieldOrderTracker::new();
    tick(&mut snap, &mut tracker);
    let view = build_field_view(RunnerId(2), &snap, true);
    assert_eq!(view.self_order, Some(2));
    assert_eq!(view.self_previous_order, Some(1));
    assert_eq!(view.num_umas, 7);
    assert!(view.is_front_blocked);
    assert_eq!(view.other_snapshots.len(), 1);
    assert_eq!(view.other_snapshots[0].position, q(100.0));
    assert_eq!(view.active_runners.len(), 2);
    assert!(view.active_runners[1].is_self);
    assert_eq!(view.condition_timers, Some(snap.condition_timers[&2]));
    let view = build_field_view(RunnerId(9), &snap, false);
    assert_eq!(view.self_order, None);
    assert_eq!(view.condition_timers, None);
    assert_eq!(view.other_snapshots.len(), 2);
}
