use honse_sim::condition::blocking::register_blocking_conditions;
use honse_sim::condition::dynamic::{
    eval_dynamic, get_dynamic_condition, has_dynamic_condition, order_rate_band_index,
    register_all_dynamic_conditions, register_dynamic_condition, ActiveRunner, ConditionRegistry, ConditionTimers,
    DynamicCondition, DynamicConditionFactory, FieldView, Observable, OrderRateBand, OwnState,
    RunnerSnapshot, RunnerView,
};
use honse_sim::condition::order::register_order_conditions;
use honse_sim::condition::proximity::register_proximity_conditions;
use honse_sim::language::{Comparison, Strategy};

fn q(x: f64) -> i64 {
    (x * 1e9).round() as i64
}

/// A lightweight runner: only what a condition reads is set.
struct TestRunner {
    own: OwnState,
    field: FieldView,
}

impl Default for TestRunner {
    fn default() -> Self {
        TestRunner {
            own: OwnState::default(),
            field: FieldView::at_gate(),
        }
    }
}

fn eval(condition: &DynamicCondition, runner: &TestRunner) -> bool {
    condition.eval(&RunnerView {
        own: runner.own,
        field: &runner.field,
    })
}

fn registry() -> ConditionRegistry {
    let mut registry = ConditionRegistry::new();
    register_all_dynamic_conditions(&mut registry);
    registry
}

// --- order ---

struct Order {
    position: f64,
    accumulate_time: f64,
    num_umas: i64,
    current_order: Option<i64>,
    previous_order: Option<i64>,
    leader_position: Option<f64>,
    last_position: Option<f64>,
    timers: Option<ConditionTimers>,
}

impl Default for Order {
    fn default() -> Self {
        Order {
            position: 0.0,
            accumulate_time: 0.0,
            num_umas: 0,
            current_order: None,
            previous_order: None,
            leader_position: None,
            last_position: None,
            timers: None,
        }
    }
}

impl Order {
    fn runner(self) -> TestRunner {
        let mut r = TestRunner::default();
        r.own.position = q(self.position);
        r.own.accumulate_time = q(self.accumulate_time);
        r.field.num_umas = self.num_umas;
        r.field.self_order = self.current_order;
        r.field.self_previous_order = self.previous_order;
        r.field.leader_position = self.leader_position.map(q);
        r.field.last_position = self.last_position.map(q);
        r.field.condition_timers = self.timers;
        r
    }
}

#[test]
fn order_compares_current_order() {
    let mut registry = ConditionRegistry::new();
    register_order_conditions(&mut registry);
    let factory = get_dynamic_condition(&registry, "order").expect("registered");
    let cond = factory.build(3, Comparison::Lte);

    let third = Order {
        current_order: Some(3),
        ..Default::default()
    };
    assert!(eval(&cond, &third.runner()));

    let fourth = Order {
        current_order: Some(4),
        ..Default::default()
    };
    assert!(!eval(&cond, &fourth.runner()));

    let unknown = Order::default();
    assert!(!eval(&cond, &unknown.runner()));
}

#[test]
fn order_rate_in_continue_respects_grace_period() {
    let mut registry = ConditionRegistry::new();
    register_order_conditions(&mut registry);
    let factory = get_dynamic_condition(&registry, "order_rate_in50_continue").expect("registered");
    let cond = factory.build(1, Comparison::Eq);

    // 12 runners, threshold = round(12*0.5)=6; order 3 <= 6 and time > 5s -> active.
    let active = Order {
        num_umas: 12,
        current_order: Some(3),
        accumulate_time: 6.0,
        ..Default::default()
    };
    assert!(eval(&cond, &active.runner()));

    // Same position but before the grace period -> inactive.
    let too_early = Order {
        num_umas: 12,
        current_order: Some(3),
        accumulate_time: 4.0,
        ..Default::default()
    };
    assert!(!eval(&cond, &too_early.runner()));
}

#[test]
fn change_order_up_detects_improvement() {
    let mut registry = ConditionRegistry::new();
    register_order_conditions(&mut registry);
    let factory = get_dynamic_condition(&registry, "change_order_up_middle").expect("registered");
    let cond = factory.build(1, Comparison::Eq);

    let improved = Order {
        previous_order: Some(5),
        current_order: Some(3),
        ..Default::default()
    };
    assert!(eval(&cond, &improved.runner()));

    let dropped = Order {
        previous_order: Some(3),
        current_order: Some(5),
        ..Default::default()
    };
    assert!(!eval(&cond, &dropped.runner()));
}

#[test]
fn change_order_up_counts_the_runners_passed_in_its_window() {
    let mut registry = ConditionRegistry::new();
    register_order_conditions(&mut registry);
    let end_after = get_dynamic_condition(&registry, "change_order_up_end_after").expect("registered");
    let middle = get_dynamic_condition(&registry, "change_order_up_middle").expect("registered");
    let final_corner =
        get_dynamic_condition(&registry, "change_order_up_finalcorner_after").expect("registered");
    let with = |middle: i64, end_after: i64, final_corner: i64| {
        Order {
            // No improvement on this tick: the count is what is read.
            previous_order: Some(4),
            current_order: Some(4),
            timers: Some(ConditionTimers {
                order_up_middle: middle,
                order_up_end_after: end_after,
                order_up_finalcorner_after: final_corner,
                ..ConditionTimers::default()
            }),
            ..Default::default()
        }
        .runner()
    };
    let gte = Comparison::Gte;

    assert!(eval(&end_after.build(2, gte), &with(0, 2, 0)));
    assert!(!eval(&end_after.build(3, gte), &with(5, 2, 0)));
    assert!(eval(&middle.build(3, gte), &with(3, 0, 0)));
    assert!(!eval(&middle.build(1, gte), &with(0, 4, 4)));
    assert!(eval(&final_corner.build(2, gte), &with(0, 3, 2)));
    assert!(!eval(&final_corner.build(2, gte), &with(0, 3, 1)));
}

#[test]
fn distance_diff_rate_is_a_share_of_the_fields_spread() {
    let mut registry = ConditionRegistry::new();
    register_order_conditions(&mut registry);
    let factory = get_dynamic_condition(&registry, "distance_diff_rate").expect("registered");
    // Leader at 1300 m, last at 1200 m: a 100 m spread on a 2400 m course.
    let at = |position: f64| {
        let mut r = Order {
            position,
            leader_position: Some(1300.0),
            last_position: Some(1200.0),
            ..Default::default()
        }
        .runner();
        r.own.course_distance = q(2400.0);
        r
    };
    assert!(eval(&factory.build(30, Comparison::Lte), &at(1275.0))); // 25 %
    assert!(!eval(&factory.build(30, Comparison::Lte), &at(1250.0))); // 50 %
    assert!(eval(&factory.build(75, Comparison::Gte), &at(1210.0))); // 90 %
    assert!(!eval(&factory.build(75, Comparison::Gte), &at(1250.0)));
    // No spread (one runner left): she is at the front.
    let alone = Order {
        position: 1300.0,
        leader_position: Some(1300.0),
        last_position: Some(1300.0),
        ..Default::default()
    };
    assert!(eval(&factory.build(0, Comparison::Eq), &alone.runner()));
}

#[test]
fn distance_diff_top_floors_meters() {
    let mut registry = ConditionRegistry::new();
    register_order_conditions(&mut registry);
    let factory = get_dynamic_condition(&registry, "distance_diff_top").expect("registered");
    let cond = factory.build(5, Comparison::Gte);

    let behind = Order {
        position: 100.0,
        leader_position: Some(106.7),
        ..Default::default()
    };
    assert!(eval(&cond, &behind.runner())); // floor(6.7) = 6 >= 5

    let close = Order {
        position: 100.0,
        leader_position: Some(103.0),
        ..Default::default()
    };
    assert!(!eval(&cond, &close.runner())); // floor(3) = 3 < 5
}

#[test]
fn order_rate_rounds_the_share_of_the_field_half_up() {
    let registry = registry();
    let rate = get_dynamic_condition(&registry, "order_rate").expect("registered");
    let at = |place: i64| {
        Order {
            num_umas: 9,
            current_order: Some(place),
            ..Default::default()
        }
        .runner()
    };
    // round(9 * 0.5) = 5.
    assert!(eval(&rate.build(50, Comparison::Lte), &at(5)));
    assert!(!eval(&rate.build(50, Comparison::Lte), &at(6)));
    assert!(eval(&rate.build(50, Comparison::Eq), &at(5)));
    assert!(eval(&rate.build(50, Comparison::Gt), &at(6)));
}

#[test]
fn out_bands_keep_the_threshold_place_without_a_live_field() {
    let registry = registry();
    let out70 = get_dynamic_condition(&registry, "order_rate_out70_continue").expect("registered");
    let cond = out70.build(1, Comparison::Eq);
    let at = |place: i64| {
        Order {
            num_umas: 12,
            current_order: Some(place),
            accumulate_time: 6.0,
            ..Default::default()
        }
        .runner()
    };
    // round(12 * 0.7) = 8.
    assert!(eval(&cond, &at(8)));
    assert!(!eval(&cond, &at(7)));
    // A live field's latch stands over the current tick.
    let mut timers = ConditionTimers::default();
    timers.out_band.top70 = false;
    let mut latched = at(8);
    latched.field.condition_timers = Some(timers);
    assert!(!eval(&cond, &latched));
}

#[test]
fn distance_diff_top_float_reads_decimeters() {
    let registry = registry();
    let factory = get_dynamic_condition(&registry, "distance_diff_top_float").expect("registered");
    let r = Order {
        position: 100.0,
        leader_position: Some(106.7),
        ..Default::default()
    }
    .runner();
    assert!(eval(&factory.build(67, Comparison::Eq), &r));
    assert!(eval(&factory.build(66, Comparison::Gt), &r));
    assert!(!eval(&factory.build(68, Comparison::Gte), &r));
}

#[test]
fn change_order_onetime_is_the_difference_in_place() {
    let registry = registry();
    let factory = get_dynamic_condition(&registry, "change_order_onetime").expect("registered");
    let r = Order {
        previous_order: Some(5),
        current_order: Some(3),
        ..Default::default()
    }
    .runner();
    assert!(eval(&factory.build(-2, Comparison::Eq), &r));
    assert!(eval(&factory.build(0, Comparison::Lt), &r));
    assert!(!eval(&factory.build(0, Comparison::Lt), &Order::default().runner()));
}

#[test]
fn is_behind_in_needs_a_live_field() {
    let registry = registry();
    let cond = get_dynamic_condition(&registry, "is_behind_in")
        .expect("registered")
        .build(1, Comparison::Eq);
    assert!(!eval(&cond, &Order::default().runner()));
    let live = Order {
        timers: Some(ConditionTimers {
            behind_is_inner: true,
            ..ConditionTimers::default()
        }),
        ..Default::default()
    };
    assert!(eval(&cond, &live.runner()));
}

// --- proximity ---

fn snap(position: f64, lane: f64) -> RunnerSnapshot {
    RunnerSnapshot {
        position: q(position),
        current_lane: q(lane),
        current_speed: q(0.0),
    }
}

fn near(position: f64, lane: f64, time: f64, snapshots: Vec<RunnerSnapshot>) -> TestRunner {
    let mut r = TestRunner::default();
    r.own.position = q(position);
    r.own.current_lane = q(lane);
    r.own.horse_lane = q(1.0);
    r.own.accumulate_time = q(time);
    r.field.other_snapshots = snapshots;
    r
}

#[test]
fn near_count_counts_runners_within_window() {
    let mut registry = ConditionRegistry::new();
    register_proximity_conditions(&mut registry);
    let factory = get_dynamic_condition(&registry, "near_count").expect("registered");
    let cond = factory.build(2, Comparison::Gte);

    let crowded = near(
        100.0,
        0.0,
        0.0,
        vec![snap(101.0, 0.0), snap(99.0, 1.0), snap(120.0, 0.0)],
    );
    assert!(eval(&cond, &crowded)); // two within 3m & lane window

    let sparse = near(100.0, 0.0, 0.0, vec![snap(101.0, 0.0)]);
    assert!(!eval(&cond, &sparse));
}

#[test]
fn is_surrounded_needs_a_runner_in_front_behind_and_outside() {
    let mut registry = ConditionRegistry::new();
    register_proximity_conditions(&mut registry);
    let factory = get_dynamic_condition(&registry, "is_surrounded").expect("registered");
    let cond = factory.build(1, Comparison::Eq);
    // She runs 2 lanes off the fence.
    let field = |snapshots: Vec<RunnerSnapshot>| near(100.0, 2.0, 0.0, snapshots);

    // In front and behind in her lane, nobody outside: not surrounded.
    assert!(!eval(&cond, &field(vec![snap(102.0, 2.0), snap(98.0, 2.0)])));
    // With a runner outside, two lanes out: surrounded.
    assert!(eval(
        &cond,
        &field(vec![snap(102.0, 2.0), snap(98.0, 2.0), snap(100.5, 4.0)])
    ));
    // 1.2 lanes across still counts in front and behind (under 1.5).
    assert!(eval(
        &cond,
        &field(vec![snap(102.0, 3.2), snap(98.0, 0.8), snap(100.5, 4.0)])
    ));
    // The runner outside must be under 1.5 m along, under 3 lanes out,
    // and out, not in.
    for beside in [snap(101.6, 4.0), snap(100.5, 5.0), snap(100.5, 1.0)] {
        assert!(!eval(
            &cond,
            &field(vec![snap(102.0, 2.0), snap(98.0, 2.0), beside])
        ));
    }
    // 3 m exactly is not in front.
    assert!(!eval(
        &cond,
        &field(vec![snap(103.0, 2.0), snap(98.0, 2.0), snap(100.5, 4.0)])
    ));
    // One runner passing on the next lane out is both in front and outside.
    assert!(eval(&cond, &field(vec![snap(101.0, 3.0), snap(98.0, 2.0)])));
}

#[test]
fn bashin_diff_infront_uses_nearest_runner() {
    let mut registry = ConditionRegistry::new();
    register_proximity_conditions(&mut registry);
    let factory = get_dynamic_condition(&registry, "bashin_diff_infront").expect("registered");
    let cond = factory.build(1, Comparison::Lte);

    // nearest infront is 2m ahead -> 2/2.5 = 0.8 <= 1
    let runner = near(100.0, 0.0, 0.0, vec![snap(102.0, 0.0), snap(110.0, 0.0)]);
    assert!(eval(&cond, &runner));

    let none_infront = near(100.0, 0.0, 0.0, vec![snap(98.0, 0.0)]);
    assert!(!eval(&cond, &none_infront));
}

#[test]
fn infront_near_lane_time_uses_elapsed_time() {
    let mut registry = ConditionRegistry::new();
    register_proximity_conditions(&mut registry);
    let factory = get_dynamic_condition(&registry, "infront_near_lane_time").expect("registered");
    let cond = factory.build(1, Comparison::Gte);

    let close = near(100.0, 0.0, 3.0, vec![snap(102.0, 0.0)]);
    assert!(eval(&cond, &close));

    let far = near(100.0, 0.0, 3.0, vec![snap(102.0, 5.0)]);
    assert!(!eval(&cond, &far));
}

#[test]
fn bashin_diff_behind_is_a_ratio_of_lengths() {
    let registry = registry();
    let factory = get_dynamic_condition(&registry, "bashin_diff_behind").expect("registered");
    // 5 m behind is two bashins.
    let runner = near(100.0, 0.0, 0.0, vec![snap(80.0, 0.0), snap(95.0, 0.0)]);
    assert!(eval(&factory.build(2, Comparison::Eq), &runner));
    assert!(!eval(&factory.build(2, Comparison::Lt), &runner));
}

#[test]
fn near_infront_count_leaves_out_the_runners_behind() {
    let registry = registry();
    let factory = get_dynamic_condition(&registry, "near_infront_count").expect("registered");
    let runner = near(100.0, 0.0, 0.0, vec![snap(101.0, 0.0), snap(99.0, 0.0)]);
    assert!(eval(&factory.build(1, Comparison::Eq), &runner));
}

#[test]
fn visiblehorse_counts_runners_level_to_20_m_ahead() {
    let registry = registry();
    let factory = get_dynamic_condition(&registry, "visiblehorse").expect("registered");
    let runner = near(
        100.0,
        0.0,
        0.0,
        vec![
            snap(100.0, 0.0),
            snap(120.0, 11.5),
            snap(120.5, 0.0),
            snap(99.9, 0.0),
            snap(110.0, 11.6),
        ],
    );
    assert!(eval(&factory.build(2, Comparison::Eq), &runner));
}

#[test]
fn near_lane_conditions_read_the_live_timers() {
    let registry = registry();
    let behind = get_dynamic_condition(&registry, "behind_near_lane_time").expect("registered");
    let set1 = get_dynamic_condition(&registry, "behind_near_lane_time_set1").expect("registered");
    let infront = get_dynamic_condition(&registry, "infront_near_lane_time").expect("registered");
    let mut r = near(100.0, 0.0, 90.0, vec![snap(102.0, 0.0), snap(98.0, 0.0)]);
    r.field.condition_timers = Some(ConditionTimers {
        near_behind: q(3.0),
        near_behind_set1: q(4.0),
        near_infront: q(5.0),
        ..ConditionTimers::default()
    });
    assert!(eval(&behind.build(3, Comparison::Eq), &r));
    assert!(eval(&set1.build(4, Comparison::Eq), &r));
    assert!(eval(&infront.build(5, Comparison::Eq), &r));
}

// --- blocking ---

fn rival(position: f64, lane: f64, speed: f64) -> RunnerSnapshot {
    RunnerSnapshot {
        position: q(position),
        current_lane: q(lane),
        current_speed: q(speed),
    }
}

struct Block {
    position: f64,
    current_lane: f64,
    current_speed: f64,
    lane_change_speed: f64,
    lane_move_outward: bool,
    accumulate_time: f64,
    is_front_blocked: bool,
    snapshots: Vec<RunnerSnapshot>,
}

impl Default for Block {
    fn default() -> Self {
        Block {
            position: 0.0,
            current_lane: 0.0,
            current_speed: 0.0,
            lane_change_speed: 0.0,
            lane_move_outward: false,
            accumulate_time: 0.0,
            is_front_blocked: false,
            snapshots: vec![],
        }
    }
}

impl Block {
    fn runner(self) -> TestRunner {
        let mut r = TestRunner::default();
        r.own.position = q(self.position);
        r.own.current_lane = q(self.current_lane);
        r.own.current_speed = q(self.current_speed);
        r.own.lane_change_speed = q(self.lane_change_speed);
        r.own.lane_move_outward = self.lane_move_outward;
        r.own.horse_lane = q(1.0);
        r.own.accumulate_time = q(self.accumulate_time);
        r.field.is_front_blocked = self.is_front_blocked;
        r.field.other_snapshots = self.snapshots;
        r.field.active_runners = vec![ActiveRunner {
            is_self: true,
            position: q(self.position),
            strategy: Strategy::FrontRunner,
            gate: 0,
            is_rushed: false,
            is_dueling: false,
            has_dueled: false,
            activated_advantage_effect_types: 0,
            popularity: 0,
        }];
        r
    }
}

fn blocking(name: &str) -> DynamicConditionFactory {
    let mut registry = ConditionRegistry::new();
    register_blocking_conditions(&mut registry);
    get_dynamic_condition(&registry, name).expect("registered")
}

#[test]
fn blocked_front_reads_the_resolved_front_blocker() {
    let factory = blocking("blocked_front");
    let cond = factory.build(1, Comparison::Eq);

    let blocked = Block {
        position: 100.0,
        is_front_blocked: true,
        ..Default::default()
    };
    assert!(eval(&cond, &blocked.runner()));

    // 3 m ahead, dead in lane: outside the 2 m window. The field resolved no
    // blocker, so neither does the token.
    let outside_documented_window = Block {
        position: 100.0,
        is_front_blocked: false,
        snapshots: vec![rival(103.0, 0.0, 0.0)],
        ..Default::default()
    };
    assert!(!eval(&cond, &outside_documented_window.runner()));

    let clear = Block {
        position: 100.0,
        ..Default::default()
    };
    assert!(!eval(&cond, &clear.runner()));
}

#[test]
fn blocked_front_continuetime_reads_the_resolved_front_blocker() {
    let factory = blocking("blocked_front_continuetime");
    let cond = factory.build(2, Comparison::Gte);

    let blocked = Block {
        position: 100.0,
        accumulate_time: 9.0,
        is_front_blocked: true,
        ..Default::default()
    };
    assert!(eval(&cond, &blocked.runner()));

    let outside_documented_window = Block {
        position: 100.0,
        accumulate_time: 9.0,
        is_front_blocked: false,
        snapshots: vec![rival(103.0, 0.0, 0.0)],
        ..Default::default()
    };
    assert!(!eval(&cond, &outside_documented_window.runner()));
}

#[test]
fn blocked_all_continuetime_needs_front_and_one_side() {
    let factory = blocking("blocked_all_continuetime");
    let cond = factory.build(2, Comparison::Gte);

    let front_and_left = Block {
        position: 100.0,
        current_lane: 1.0,
        accumulate_time: 9.0,
        is_front_blocked: true,
        snapshots: vec![rival(101.0, 0.5, 0.0)],
        ..Default::default()
    };
    assert!(eval(&cond, &front_and_left.runner()));

    let front_and_right = Block {
        position: 100.0,
        current_lane: 1.0,
        accumulate_time: 9.0,
        is_front_blocked: true,
        snapshots: vec![rival(101.0, 1.5, 0.0)],
        ..Default::default()
    };
    assert!(eval(&cond, &front_and_right.runner()));

    let side_only = Block {
        position: 100.0,
        current_lane: 1.0,
        accumulate_time: 9.0,
        is_front_blocked: false,
        snapshots: vec![rival(101.0, 0.5, 0.0)],
        ..Default::default()
    };
    assert!(!eval(&cond, &side_only.runner()));

    let front_only = Block {
        position: 100.0,
        current_lane: 1.0,
        accumulate_time: 9.0,
        is_front_blocked: true,
        ..Default::default()
    };
    assert!(!eval(&cond, &front_only.runner()));
}

#[test]
fn blocked_side_reports_the_instantaneous_side_block_state() {
    let factory = blocking("blocked_side");
    let cond = factory.build(1, Comparison::Eq);

    // Rival one meter back and half a horse lane inside: blocked.
    let blocked_left = Block {
        position: 100.0,
        current_lane: 1.0,
        snapshots: vec![rival(99.0, 0.5, 0.0)],
        ..Default::default()
    };
    assert!(eval(&cond, &blocked_left.runner()));

    // Rival half a horse lane outside: also blocked (either side counts).
    let blocked_right = Block {
        position: 100.0,
        current_lane: 1.0,
        snapshots: vec![rival(101.0, 1.5, 0.0)],
        ..Default::default()
    };
    assert!(eval(&cond, &blocked_right.runner()));

    // Beyond the side-block reach longitudinally.
    let too_far = Block {
        position: 100.0,
        current_lane: 1.0,
        snapshots: vec![rival(104.0, 0.5, 0.0)],
        ..Default::default()
    };
    assert!(!eval(&cond, &too_far.runner()));

    // Beyond the side-block reach laterally.
    let off_lane = Block {
        position: 100.0,
        current_lane: 1.0,
        snapshots: vec![rival(101.0, 5.0, 0.0)],
        ..Default::default()
    };
    assert!(!eval(&cond, &off_lane.runner()));

    // Nobody else on the track.
    let clear = Block {
        position: 100.0,
        ..Default::default()
    }
    .runner();
    assert!(!eval(&cond, &clear));
    assert!(eval(&factory.build(0, Comparison::Eq), &clear));
}

#[test]
fn blocked_side_reads_the_documented_window() {
    let cond = blocking("blocked_side").build(1, Comparison::Eq);
    let rival_at = |along: f64, across: f64| {
        Block {
            position: 0.0,
            current_lane: 3.0,
            accumulate_time: 9.0,
            snapshots: vec![rival(along, 3.0 + across, 0.0)],
            ..Default::default()
        }
        .runner()
    };
    // 2 m along, half a lane across: inside 3 m, outside 1.05 m.
    assert!(!eval(&cond, &rival_at(2.0, 0.5)));
    assert!(!eval(&cond, &rival_at(-2.0, -0.5)));
    // Half a metre along, a lane and a half across: outside one lane,
    // inside two.
    assert!(eval(&cond, &rival_at(0.5, 1.5)));
    assert!(eval(&cond, &rival_at(-0.5, -1.5)));
    // On the same line.
    assert!(eval(&cond, &rival_at(0.5, 0.0)));
    // Both edges are open.
    assert!(!eval(&cond, &rival_at(1.05, 0.0)));
    assert!(!eval(&cond, &rival_at(-1.05, 0.5)));
    assert!(!eval(&cond, &rival_at(0.5, 2.0)));

    let continued = blocking("blocked_side_continuetime").build(2, Comparison::Gte);
    assert!(!eval(&continued, &rival_at(2.0, 0.5)));
    assert!(eval(&continued, &rival_at(0.5, 1.5)));
}

#[test]
fn blocked_side_continuetime_uses_elapsed_time_when_blocked() {
    let factory = blocking("blocked_side_continuetime");
    let cond = factory.build(2, Comparison::Gte);

    let blocked = Block {
        position: 100.0,
        current_lane: 1.0,
        accumulate_time: 9.0,
        snapshots: vec![rival(101.0, 0.5, 0.0)],
        ..Default::default()
    };
    assert!(eval(&cond, &blocked.runner()));

    let unblocked = Block {
        position: 100.0,
        accumulate_time: 9.0,
        snapshots: vec![],
        ..Default::default()
    };
    assert!(!eval(&cond, &unblocked.runner()));
}

#[test]
fn overtake_requires_faster_speed_and_proximity() {
    let factory = blocking("is_overtake");
    let cond = factory.build(1, Comparison::Eq);

    let overtaking = Block {
        position: 100.0,
        current_speed: 20.0,
        snapshots: vec![rival(103.0, 0.0, 18.0)],
        ..Default::default()
    };
    assert!(eval(&cond, &overtaking.runner()));

    let slower = Block {
        position: 100.0,
        current_speed: 15.0,
        snapshots: vec![rival(103.0, 0.0, 18.0)],
        ..Default::default()
    };
    assert!(!eval(&cond, &slower.runner()));
}

#[test]
fn is_move_lane_reads_the_direction_of_the_move() {
    let factory = blocking("is_move_lane");
    let inward = factory.build(1, Comparison::Eq);
    let outward = factory.build(2, Comparison::Eq);

    let moving_in = Block {
        lane_change_speed: 0.5,
        ..Default::default()
    }
    .runner();
    assert!(eval(&inward, &moving_in));
    assert!(!eval(&outward, &moving_in));

    let moving_out = Block {
        lane_change_speed: 0.5,
        lane_move_outward: true,
        ..Default::default()
    }
    .runner();
    assert!(eval(&outward, &moving_out));
    assert!(!eval(&inward, &moving_out));

    let still = Block {
        lane_move_outward: true,
        ..Default::default()
    }
    .runner();
    assert!(!eval(&inward, &still));
    assert!(!eval(&outward, &still));
}

#[test]
fn register_all_populates_blocking() {
    let registry = registry();
    assert!(get_dynamic_condition(&registry, "blocked_front").is_some());
    assert!(get_dynamic_condition(&registry, "overtake_target_time").is_some());
    assert!(get_dynamic_condition(&registry, "blocked_side").is_some());
}

#[test]
fn overtake_timers_stand_over_the_proxy() {
    let target = blocking("overtake_target_time").build(2, Comparison::Gte);
    let no_up = blocking("overtake_target_no_order_up_time").build(2, Comparison::Gte);
    let chasing = Block {
        position: 100.0,
        current_speed: 20.0,
        accumulate_time: 9.0,
        snapshots: vec![rival(103.0, 0.0, 18.0)],
        ..Default::default()
    };
    let mut r = chasing.runner();
    assert!(eval(&target, &r));
    assert!(eval(&no_up, &r));
    r.field.condition_timers = Some(ConditionTimers {
        overtaken: q(2.0),
        overtake_target_no_order_up: q(1.9),
        ..ConditionTimers::default()
    });
    assert!(eval(&target, &r));
    assert!(!eval(&no_up, &r));
}

// --- registry, conditions ---

#[test]
fn every_name_stands_for_its_own_token() {
    let registry = registry();
    let names = [
        "order",
        "order_rate",
        "order_rate_in20_continue",
        "order_rate_in40_continue",
        "order_rate_in50_continue",
        "order_rate_in80_continue",
        "order_rate_out20_continue",
        "order_rate_out40_continue",
        "order_rate_out50_continue",
        "order_rate_out70_continue",
        "change_order_onetime",
        "change_order_up_end_after",
        "change_order_up_finalcorner_after",
        "change_order_up_middle",
        "distance_diff_top",
        "distance_diff_top_float",
        "distance_diff_rate",
        "is_behind_in",
        "near_count",
        "near_infront_count",
        "is_surrounded",
        "bashin_diff_behind",
        "bashin_diff_infront",
        "behind_near_lane_time",
        "behind_near_lane_time_set1",
        "infront_near_lane_time",
        "visiblehorse",
        "blocked_front",
        "blocked_front_continuetime",
        "blocked_all_continuetime",
        "blocked_side",
        "blocked_side_continuetime",
        "is_overtake",
        "is_move_lane",
        "overtake_target_time",
        "overtake_target_no_order_up_time",
    ];
    let mut factories = vec![];
    for name in names {
        assert!(has_dynamic_condition(&registry, name), "{name}");
        let factory = get_dynamic_condition(&registry, name).expect(name);
        assert!(!factories.contains(&factory), "{name}");
        factories.push(factory);
    }
    assert!(!has_dynamic_condition(&registry, "phase"));
    assert!(get_dynamic_condition(&registry, "").is_none());
}

#[test]
fn registering_twice_changes_nothing() {
    let mut registry = registry();
    let before = get_dynamic_condition(&registry, "order");
    register_all_dynamic_conditions(&mut registry);
    assert_eq!(get_dynamic_condition(&registry, "order"), before);
    assert!(!has_dynamic_condition(&registry, "unknown"));
}

#[test]
fn registering_again_keeps_a_name_registered_since() {
    let own = DynamicConditionFactory::Own(Observable::Phase);
    let mut registry = ConditionRegistry::new();
    // The first call takes a family's name over, whatever stood there.
    register_dynamic_condition(&mut registry, "order", own);
    register_all_dynamic_conditions(&mut registry);
    let side = get_dynamic_condition(&registry, "blocked_side");
    assert!(side.is_some());
    assert_ne!(get_dynamic_condition(&registry, "order"), Some(own));
    // A further call leaves the registry as it stands.
    register_dynamic_condition(&mut registry, "order", own);
    register_dynamic_condition(&mut registry, "mine", own);
    register_all_dynamic_conditions(&mut registry);
    assert_eq!(get_dynamic_condition(&registry, "order"), Some(own));
    assert_eq!(get_dynamic_condition(&registry, "mine"), Some(own));
    assert_eq!(get_dynamic_condition(&registry, "blocked_side"), side);
    // A registry of its own starts over.
    let mut other = ConditionRegistry::new();
    register_all_dynamic_conditions(&mut other);
    assert_ne!(get_dynamic_condition(&other, "order"), Some(own));
}

#[test]
fn a_missing_condition_always_holds() {
    let r = TestRunner::default();
    let view = RunnerView {
        own: r.own,
        field: &r.field,
    };
    assert!(eval_dynamic(&None, &view));
    assert!(eval_dynamic(&Some(DynamicCondition::k_true()), &view));
    assert!(!eval_dynamic(&Some(DynamicCondition::Never), &view));
}

#[test]
fn conditions_combine() {
    let order = DynamicConditionFactory::Own(Observable::Phase);
    let high = || Box::new(order.build(2, Comparison::Gte));
    let low = || Box::new(order.build(0, Comparison::Eq));
    let mut r = TestRunner::default();
    r.own.phase = 2;
    assert!(!eval(&DynamicCondition::And(high(), low()), &r));
    assert!(eval(&DynamicCondition::Or(high(), low()), &r));
    assert!(eval(
        &DynamicCondition::And(high(), Box::new(DynamicCondition::Always)),
        &r
    ));
    let copy = DynamicCondition::Or(high(), low()).duplicate();
    assert!(eval(&copy, &r));
}

#[test]
fn own_readings_compare_in_whole_units() {
    let mut r = TestRunner::default();
    r.own.accumulate_time = q(9.99);
    let time = DynamicConditionFactory::Own(Observable::AccumulateTime);
    assert!(!eval(&time.build(10, Comparison::Gte), &r));
    r.own.accumulate_time = q(10.0);
    assert!(eval(&time.build(10, Comparison::Gte), &r));
    assert!(eval(&time.build(10, Comparison::Eq), &r));
    assert!(!eval(&time.build(10, Comparison::Neq), &r));
}

#[test]
fn bands_are_found_by_their_share() {
    assert_eq!(order_rate_band_index(20), Some(OrderRateBand::Top20));
    assert_eq!(order_rate_band_index(70), Some(OrderRateBand::Top70));
    assert_eq!(order_rate_band_index(30), None);
}
