//! What each condition means, in the runner's and the field's own numbers.
use crate::condition::dynamic::{
    activated_in_half, activated_in_phase, condition_holds, rate_place, token_holds, BlockingToken,
    DynamicCondition, DynamicConditionFactory, FieldView, HalfCounts, Observable, OrderRateBand,
    OrderToken, OwnState, PhaseCounts, ProximityToken, RunnerSnapshot,
};
use crate::condition::proximity::{
    any_other, count_others, is_near, is_near_infront, is_nearest_gap, is_visible, lies,
    nearest_gap, Direction,
};
use crate::language::Comparison;
use vstd::prelude::*;

verus! {

/// Whether a token compares as the fraction `value / per` with every argument:
/// each comparison holds exactly when the two numbers stand so.
pub open spec fn compares_as(
    token: DynamicConditionFactory,
    own: OwnState,
    field: FieldView,
    value: int,
    per: int,
) -> bool {
    forall|arg: int, comparison: Comparison| #[trigger]
        token_holds(token, arg, comparison, own, field) <==> match comparison {
            Comparison::Eq => value == arg * per,
            Comparison::Neq => value != arg * per,
            Comparison::Lt => value < arg * per,
            Comparison::Lte => value <= arg * per,
            Comparison::Gt => value > arg * per,
            Comparison::Gte => value >= arg * per,
        }
}

/// Whether a token compares as 1 where `fact` is so, and as 0 where it is not.
pub open spec fn compares_as_fact(
    token: DynamicConditionFactory,
    own: OwnState,
    field: FieldView,
    fact: bool,
) -> bool {
    if fact {
        compares_as(token, own, field, 1, 1)
    } else {
        compares_as(token, own, field, 0, 1)
    }
}

/// Whether no comparison of the token holds.
pub open spec fn never_holds(
    token: DynamicConditionFactory,
    own: OwnState,
    field: FieldView,
) -> bool {
    forall|arg: int, comparison: Comparison|
        !#[trigger] token_holds(token, arg, comparison, own, field)
}

/// Wherever a live field keeps a runner's timers, every duration, count and
/// latch is read from the one that stands for it, durations in whole seconds:
/// nothing else has a part in it.
pub proof fn a_live_field_answers_from_its_timers(own: OwnState, field: FieldView)
    requires
        field.condition_timers is Some,
    ensures
        ({
            let t = field.condition_timers->0;
            let second = 1_000_000_000int;
            let blocking = |b: BlockingToken| DynamicConditionFactory::Blocking(b);
            let proximity = |p: ProximityToken| DynamicConditionFactory::Proximity(p);
            let order = |o: OrderToken| DynamicConditionFactory::Order(o);
            &&& compares_as(
                blocking(BlockingToken::BlockedFrontContinuetime),
                own,
                field,
                t.blocked_front as int,
                second,
            )
            &&& compares_as(
                blocking(BlockingToken::BlockedSideContinuetime),
                own,
                field,
                t.blocked_side as int,
                second,
            )
            &&& compares_as(
                blocking(BlockingToken::BlockedAllContinuetime),
                own,
                field,
                t.blocked_all as int,
                second,
            )
            &&& compares_as(
                blocking(BlockingToken::OvertakeTargetTime),
                own,
                field,
                t.overtaken as int,
                second,
            )
            &&& compares_as(
                blocking(BlockingToken::OvertakeTargetNoOrderUpTime),
                own,
                field,
                t.overtake_target_no_order_up as int,
                second,
            )
            &&& compares_as_fact(
                blocking(BlockingToken::IsOvertake),
                own,
                field,
                t.has_overtake_target,
            )
            &&& compares_as(
                proximity(ProximityToken::BehindNearLaneTime),
                own,
                field,
                t.near_behind as int,
                second,
            )
            &&& compares_as(
                proximity(ProximityToken::BehindNearLaneTimeSet1),
                own,
                field,
                t.near_behind_set1 as int,
                second,
            )
            &&& compares_as(
                proximity(ProximityToken::InfrontNearLaneTime),
                own,
                field,
                t.near_infront as int,
                second,
            )
            &&& compares_as(
                order(OrderToken::ChangeOrderUpMiddle),
                own,
                field,
                t.order_up_middle as int,
                1,
            )
            &&& compares_as(
                order(OrderToken::ChangeOrderUpEndAfter),
                own,
                field,
                t.order_up_end_after as int,
                1,
            )
            &&& compares_as(
                order(OrderToken::ChangeOrderUpFinalcornerAfter),
                own,
                field,
                t.order_up_finalcorner_after as int,
                1,
            )
            &&& compares_as_fact(
                order(OrderToken::IsBehindIn),
                own,
                field,
                t.behind_is_inner,
            )
        }),
{
}

/// Whether one of the other runners stands under 1.05 m away along the course,
/// either way, and under two lanes across, either way.
pub open spec fn someone_beside(own: OwnState, others: Seq<RunnerSnapshot>) -> bool {
    exists|i: int|
        0 <= i < others.len() && {
            let o = #[trigger] others[i];
            &&& -1_050_000_000 < o.position - own.position < 1_050_000_000
            &&& -2 * own.horse_lane < o.current_lane - own.current_lane < 2 * own.horse_lane
        }
}

/// Whether the runner is faster than another no more than 5 m away along the
/// course and two lanes across.
pub open spec fn someone_caught_up_with(own: OwnState, others: Seq<RunnerSnapshot>) -> bool {
    exists|i: int|
        0 <= i < others.len() && {
            let o = #[trigger] others[i];
            &&& o.current_speed < own.current_speed
            &&& -5_000_000_000 <= o.position - own.position <= 5_000_000_000
            &&& -2 * own.horse_lane <= o.current_lane - own.current_lane <= 2 * own.horse_lane
        }
}

/// Whether another runner is behind (or ahead) by no more than 3 m, and no more
/// than one lane across.
pub open spec fn someone_near_lane(
    own: OwnState,
    others: Seq<RunnerSnapshot>,
    ahead: bool,
) -> bool {
    exists|i: int|
        0 <= i < others.len() && {
            let o = #[trigger] others[i];
            let gap = if ahead {
                o.position - own.position
            } else {
                own.position - o.position
            };
            &&& 0 < gap <= 3_000_000_000
            &&& -own.horse_lane <= o.current_lane - own.current_lane <= own.horse_lane
        }
}

proof fn lemma_side_blocked(own: OwnState, field: FieldView)
    ensures
        crate::condition::blocking::side_blocked(own, field) == someone_beside(
            own,
            field.other_snapshots@,
        ),
        crate::condition::blocking::overtaking(own, field) == someone_caught_up_with(
            own,
            field.other_snapshots@,
        ),
{
    let others = field.other_snapshots@;
    let beside = |o: RunnerSnapshot| crate::condition::blocking::blocks_side_of(own, o);
    let passing = |o: RunnerSnapshot| crate::condition::blocking::overtakes(own, o);
    if someone_beside(own, others) {
        let i = choose|i: int|
            0 <= i < others.len() && {
                let o = #[trigger] others[i];
                &&& -1_050_000_000 < o.position - own.position < 1_050_000_000
                &&& -2 * own.horse_lane < o.current_lane - own.current_lane < 2 * own.horse_lane
            };
        assert(beside(others[i]));
    }
    if someone_caught_up_with(own, others) {
        let i = choose|i: int|
            0 <= i < others.len() && {
                let o = #[trigger] others[i];
                &&& o.current_speed < own.current_speed
                &&& -5_000_000_000 <= o.position - own.position <= 5_000_000_000
                &&& -2 * own.horse_lane <= o.current_lane - own.current_lane <= 2
                    * own.horse_lane
            };
        assert(passing(others[i]));
    }
}

/// What is blocked is read off this tick: in front as the field says, at the
/// side where another runner stands beside, with a live field or without.
pub proof fn a_block_is_read_off_this_tick(own: OwnState, field: FieldView)
    ensures
        compares_as_fact(
            DynamicConditionFactory::Blocking(BlockingToken::BlockedFront),
            own,
            field,
            field.is_front_blocked,
        ),
        compares_as_fact(
            DynamicConditionFactory::Blocking(BlockingToken::BlockedSide),
            own,
            field,
            someone_beside(own, field.other_snapshots@),
        ),
{
    lemma_side_blocked(own, field);
}

/// Without a live field a duration is the whole race clock while its state holds
/// on this tick, and nothing otherwise.
pub proof fn without_a_live_field_the_clock_stands_in(own: OwnState, field: FieldView)
    requires
        field.condition_timers is None,
    ensures
        ({
            let others = field.other_snapshots@;
            let second = 1_000_000_000int;
            let clock = |active: bool|
                if active {
                    own.accumulate_time as int
                } else {
                    0
                };
            &&& compares_as(
                DynamicConditionFactory::Blocking(BlockingToken::BlockedFrontContinuetime),
                own,
                field,
                clock(field.is_front_blocked),
                second,
            )
            &&& compares_as(
                DynamicConditionFactory::Blocking(BlockingToken::BlockedSideContinuetime),
                own,
                field,
                clock(someone_beside(own, others)),
                second,
            )
            &&& compares_as(
                DynamicConditionFactory::Blocking(BlockingToken::BlockedAllContinuetime),
                own,
                field,
                clock(field.is_front_blocked && someone_beside(own, others)),
                second,
            )
            &&& compares_as_fact(
                DynamicConditionFactory::Blocking(BlockingToken::IsOvertake),
                own,
                field,
                someone_caught_up_with(own, others),
            )
            &&& compares_as(
                DynamicConditionFactory::Blocking(BlockingToken::OvertakeTargetTime),
                own,
                field,
                clock(someone_caught_up_with(own, others)),
                second,
            )
            &&& compares_as(
                DynamicConditionFactory::Blocking(BlockingToken::OvertakeTargetNoOrderUpTime),
                own,
                field,
                clock(someone_caught_up_with(own, others)),
                second,
            )
            &&& compares_as(
                DynamicConditionFactory::Proximity(ProximityToken::BehindNearLaneTime),
                own,
                field,
                clock(someone_near_lane(own, others, false)),
                second,
            )
            &&& compares_as(
                DynamicConditionFactory::Proximity(ProximityToken::BehindNearLaneTimeSet1),
                own,
                field,
                clock(someone_near_lane(own, others, false)),
                second,
            )
            &&& compares_as(
                DynamicConditionFactory::Proximity(ProximityToken::InfrontNearLaneTime),
                own,
                field,
                clock(someone_near_lane(own, others, true)),
                second,
            )
        }),
{
    lemma_side_blocked(own, field);
    lemma_near_lane(own, field.other_snapshots@, true);
    lemma_near_lane(own, field.other_snapshots@, false);
}

proof fn lemma_near_lane(own: OwnState, others: Seq<RunnerSnapshot>, ahead: bool)
    ensures
        ({
            let direction = if ahead {
                Direction::Infront
            } else {
                Direction::Behind
            };
            any_other(
                others,
                |o: RunnerSnapshot|
                    crate::condition::proximity::is_near_lane(own, o, direction),
            ) == someone_near_lane(own, others, ahead)
        }),
{
    let direction = if ahead {
        Direction::Infront
    } else {
        Direction::Behind
    };
    let near = |o: RunnerSnapshot| crate::condition::proximity::is_near_lane(own, o, direction);
    if someone_near_lane(own, others, ahead) {
        let i = choose|i: int|
            0 <= i < others.len() && {
                let o = #[trigger] others[i];
                let gap = if ahead {
                    o.position - own.position
                } else {
                    own.position - o.position
                };
                &&& 0 < gap <= 3_000_000_000
                &&& -own.horse_lane <= o.current_lane - own.current_lane <= own.horse_lane
            };
        assert(near(others[i]));
    }
}

/// A lane move is none while it is as good as still, 1 toward the inner fence
/// and 2 away from it.
pub proof fn a_lane_move_has_a_direction(own: OwnState, field: FieldView)
    ensures
        compares_as(
            DynamicConditionFactory::Blocking(BlockingToken::IsMoveLane),
            own,
            field,
            if -10_000 <= own.lane_change_speed <= 10_000 {
                0
            } else if own.lane_move_outward {
                2
            } else {
                1
            },
            1,
        ),
{
}

/// A place is compared as it stands, a share of the field by the place nearest
/// to it (halves up), and a change of place as this tick's place less the last
/// one's: nothing holds of a place that is not known.
pub proof fn places_compare_as_they_stand(own: OwnState, field: FieldView)
    ensures
        ({
            let order = DynamicConditionFactory::Order(OrderToken::Order);
            let rate = DynamicConditionFactory::Order(OrderToken::OrderRate);
            let change = DynamicConditionFactory::Order(OrderToken::ChangeOrderOnetime);
            &&& match field.self_order {
                Some(o) => {
                    &&& compares_as(order, own, field, o as int, 1)
                    &&& forall|arg: int, comparison: Comparison| #[trigger]
                        token_holds(rate, arg, comparison, own, field) <==> {
                            let place = rate_place(field.num_umas as int, arg);
                            match comparison {
                                Comparison::Eq => o == place,
                                Comparison::Neq => o != place,
                                Comparison::Lt => o < place,
                                Comparison::Lte => o <= place,
                                Comparison::Gt => o > place,
                                Comparison::Gte => o >= place,
                            }
                        }
                },
                None => never_holds(order, own, field) && never_holds(rate, own, field),
            }
            &&& match (field.self_previous_order, field.self_order) {
                (Some(before), Some(now)) => compares_as(change, own, field, now - before, 1),
                _ => never_holds(change, own, field),
            }
        }),
{
}

/// The place that ends a share of the field is the nearest one: no more than
/// half a place off, and up from a half.
pub proof fn a_share_ends_at_the_nearest_place(n: int, percent: int)
    requires
        n >= 0,
        percent >= 0,
    ensures
        n * percent - 50 < 100 * rate_place(n, percent) <= n * percent + 50,
{
    assert(n * percent >= 0) by (nonlinear_arith)
        requires
            n >= 0,
            percent >= 0,
    ;
}

/// A runner has kept to a band exactly when, past the first 5 s, her place is on
/// the band's side of the band's last place (which is on both) and a live field
/// has seen her nowhere else.
pub proof fn a_band_is_kept_past_the_start(own: OwnState, field: FieldView, band: OrderRateBand)
    ensures
        ({
            let percent = match band {
                OrderRateBand::Top20 => 20int,
                OrderRateBand::Top40 => 40,
                OrderRateBand::Top50 => 50,
                OrderRateBand::Top70 => 70,
                OrderRateBand::Top80 => 80,
            };
            let last = rate_place(field.num_umas as int, percent);
            let past_the_start = own.accumulate_time > 5_000_000_000;
            let inside = DynamicConditionFactory::Order(OrderToken::OrderRateInContinue(band));
            let outside = DynamicConditionFactory::Order(OrderToken::OrderRateOutContinue(band));
            let seen = |bands: crate::condition::dynamic::RateBands|
                match band {
                    OrderRateBand::Top20 => bands.top20,
                    OrderRateBand::Top40 => bands.top40,
                    OrderRateBand::Top50 => bands.top50,
                    OrderRateBand::Top70 => bands.top70,
                    OrderRateBand::Top80 => bands.top80,
                };
            match field.self_order {
                Some(o) => {
                    &&& compares_as_fact(
                        inside,
                        own,
                        field,
                        past_the_start && o <= last && (field.condition_timers is Some ==> seen(
                            field.condition_timers->0.in_band,
                        )),
                    )
                    &&& compares_as_fact(
                        outside,
                        own,
                        field,
                        past_the_start && o >= last && (field.condition_timers is Some ==> seen(
                            field.condition_timers->0.out_band,
                        )),
                    )
                },
                None => never_holds(inside, own, field) && never_holds(outside, own, field),
            }
        }),
{
}

/// Without a live field a pass counts as 1 on the tick the runner moves up, and
/// who is behind her is not known.
pub proof fn without_a_live_field_only_this_ticks_pass_counts(own: OwnState, field: FieldView)
    requires
        field.condition_timers is None,
    ensures
        ({
            let middle = DynamicConditionFactory::Order(OrderToken::ChangeOrderUpMiddle);
            let end = DynamicConditionFactory::Order(OrderToken::ChangeOrderUpEndAfter);
            let corner = DynamicConditionFactory::Order(
                OrderToken::ChangeOrderUpFinalcornerAfter,
            );
            &&& match (field.self_previous_order, field.self_order) {
                (Some(before), Some(now)) => {
                    &&& compares_as_fact(middle, own, field, now < before)
                    &&& compares_as_fact(end, own, field, now < before)
                    &&& compares_as_fact(corner, own, field, now < before)
                },
                _ => {
                    &&& never_holds(middle, own, field)
                    &&& never_holds(end, own, field)
                    &&& never_holds(corner, own, field)
                },
            }
            &&& never_holds(
                DynamicConditionFactory::Order(OrderToken::IsBehindIn),
                own,
                field,
            )
        }),
{
}

/// The gap to the leader is compared in whole metres (rounded down), in tenths
/// of a metre, and in percent of the way from the leader to the last runner; a
/// runner level with the leader or past her has none, and none is known without
/// a leader.
pub proof fn the_gap_to_the_leader_has_three_measures(own: OwnState, field: FieldView)
    ensures
        ({
            let metres = DynamicConditionFactory::Order(OrderToken::DistanceDiffTop);
            let tenths = DynamicConditionFactory::Order(OrderToken::DistanceDiffTopFloat);
            let percent = DynamicConditionFactory::Order(OrderToken::DistanceDiffRate);
            match field.leader_position {
                Some(leader) => {
                    let gap = if leader > own.position {
                        leader - own.position
                    } else {
                        0
                    };
                    &&& exists|m: int|
                        m * 1_000_000_000 <= gap < m * 1_000_000_000 + 1_000_000_000
                            && #[trigger] compares_as(metres, own, field, m, 1)
                    &&& compares_as(tenths, own, field, 10 * gap, 1_000_000_000)
                    &&& match field.last_position {
                        Some(last) => if leader > last {
                            compares_as(percent, own, field, 100 * gap, leader - last)
                        } else {
                            compares_as(percent, own, field, 0, 1)
                        },
                        None => never_holds(percent, own, field),
                    }
                },
                None => {
                    &&& never_holds(metres, own, field)
                    &&& never_holds(tenths, own, field)
                    &&& never_holds(percent, own, field)
                },
            }
        }),
{
    if let Some(leader) = field.leader_position {
        let gap = if leader > own.position {
            leader - own.position
        } else {
            0
        };
        let m = gap / 1_000_000_000;
        assert(m * 1_000_000_000 <= gap < m * 1_000_000_000 + 1_000_000_000);
        assert(compares_as(
            DynamicConditionFactory::Order(OrderToken::DistanceDiffTop),
            own,
            field,
            m,
            1,
        ));
    }
}

proof fn lemma_count_is_filter(others: Seq<RunnerSnapshot>, f: spec_fn(RunnerSnapshot) -> bool)
    ensures
        count_others(others, f) == others.filter(f).len(),
    decreases others.len(),
{
    reveal(Seq::filter);
    if others.len() > 0 {
        lemma_count_is_filter(others.drop_last(), f);
    }
}

/// Near are the runners no more than 3 m away along the course and three lanes
/// across, in front those of them further on, and in sight those level or up to
/// 20 m ahead and eleven and a half lanes across: each is counted once.
pub proof fn near_and_visible_runners_are_counted(own: OwnState, field: FieldView)
    ensures
        ({
            let others = field.other_snapshots@;
            let near = |o: RunnerSnapshot|
                {
                    &&& -3_000_000_000 <= o.position - own.position <= 3_000_000_000
                    &&& -3 * own.horse_lane <= o.current_lane - own.current_lane <= 3
                        * own.horse_lane
                };
            let near_infront = |o: RunnerSnapshot|
                {
                    &&& 0 < o.position - own.position <= 3_000_000_000
                    &&& -3 * own.horse_lane <= o.current_lane - own.current_lane <= 3
                        * own.horse_lane
                };
            let visible = |o: RunnerSnapshot|
                {
                    &&& 0 <= o.position - own.position <= 20_000_000_000
                    &&& -23 * own.horse_lane <= 2 * (o.current_lane - own.current_lane) <= 23
                        * own.horse_lane
                };
            &&& compares_as(
                DynamicConditionFactory::Proximity(ProximityToken::NearCount),
                own,
                field,
                others.filter(near).len() as int,
                1,
            )
            &&& compares_as(
                DynamicConditionFactory::Proximity(ProximityToken::NearInfrontCount),
                own,
                field,
                others.filter(near_infront).len() as int,
                1,
            )
            &&& compares_as(
                DynamicConditionFactory::Proximity(ProximityToken::Visiblehorse),
                own,
                field,
                others.filter(visible).len() as int,
                1,
            )
        }),
{
    let others = field.other_snapshots@;
    let near = |o: RunnerSnapshot|
        {
            &&& -3_000_000_000 <= o.position - own.position <= 3_000_000_000
            &&& -3 * own.horse_lane <= o.current_lane - own.current_lane <= 3 * own.horse_lane
        };
    let near_infront = |o: RunnerSnapshot|
        {
            &&& 0 < o.position - own.position <= 3_000_000_000
            &&& -3 * own.horse_lane <= o.current_lane - own.current_lane <= 3 * own.horse_lane
        };
    let visible = |o: RunnerSnapshot|
        {
            &&& 0 <= o.position - own.position <= 20_000_000_000
            &&& -23 * own.horse_lane <= 2 * (o.current_lane - own.current_lane) <= 23
                * own.horse_lane
        };
    assert((|o: RunnerSnapshot| is_near(own, o)) =~= near);
    assert((|o: RunnerSnapshot| is_near_infront(own, o)) =~= near_infront);
    assert((|o: RunnerSnapshot| is_visible(own, o)) =~= visible);
    lemma_count_is_filter(others, near);
    lemma_count_is_filter(others, near_infront);
    lemma_count_is_filter(others, visible);
}

/// Whether someone is less than 3 m in front (or behind) and under a lane and a
/// half across.
pub open spec fn someone_closes(own: OwnState, others: Seq<RunnerSnapshot>, ahead: bool) -> bool {
    exists|i: int|
        0 <= i < others.len() && {
            let o = #[trigger] others[i];
            let gap = if ahead {
                o.position - own.position
            } else {
                own.position - o.position
            };
            &&& 0 < gap < 3_000_000_000
            &&& -3 * own.horse_lane < 2 * (o.current_lane - own.current_lane) < 3
                * own.horse_lane
        }
}

/// Whether someone is less than 1.5 m away along the course and further out, by
/// less than three lanes.
pub open spec fn someone_outside(own: OwnState, others: Seq<RunnerSnapshot>) -> bool {
    exists|i: int|
        0 <= i < others.len() && {
            let o = #[trigger] others[i];
            &&& -1_500_000_000 < o.position - own.position < 1_500_000_000
            &&& 10_000 <= o.current_lane - own.current_lane < 3 * own.horse_lane
        }
}

/// A runner is surrounded exactly when someone is in front, someone behind and
/// someone outside.
pub proof fn surrounded_is_front_behind_and_outside(own: OwnState, field: FieldView)
    ensures
        compares_as_fact(
            DynamicConditionFactory::Proximity(ProximityToken::IsSurrounded),
            own,
            field,
            someone_closes(own, field.other_snapshots@, true) && someone_closes(
                own,
                field.other_snapshots@,
                false,
            ) && someone_outside(own, field.other_snapshots@),
        ),
{
    let others = field.other_snapshots@;
    let front = |o: RunnerSnapshot| crate::condition::proximity::closes_front(own, o);
    let behind = |o: RunnerSnapshot| crate::condition::proximity::closes_behind(own, o);
    let outside = |o: RunnerSnapshot| crate::condition::proximity::closes_outside(own, o);
    assert(any_other(others, front) == someone_closes(own, others, true)) by {
        assert forall|i: int| 0 <= i < others.len() implies front(#[trigger] others[i]) == ({
            let o = others[i];
            &&& 0 < o.position - own.position < 3_000_000_000
            &&& -3 * own.horse_lane < 2 * (o.current_lane - own.current_lane) < 3
                * own.horse_lane
        }) by {}
    }
    assert(any_other(others, behind) == someone_closes(own, others, false)) by {
        assert forall|i: int| 0 <= i < others.len() implies behind(#[trigger] others[i]) == ({
            let o = others[i];
            &&& 0 < own.position - o.position < 3_000_000_000
            &&& -3 * own.horse_lane < 2 * (o.current_lane - own.current_lane) < 3
                * own.horse_lane
        }) by {}
    }
    assert(any_other(others, outside) == someone_outside(own, others)) by {
        assert forall|i: int| 0 <= i < others.len() implies outside(#[trigger] others[i]) == ({
            let o = others[i];
            &&& -1_500_000_000 < o.position - own.position < 1_500_000_000
            &&& 10_000 <= o.current_lane - own.current_lane < 3 * own.horse_lane
        }) by {}
    }
}

proof fn lemma_some_gap_is_nearest(
    others: Seq<RunnerSnapshot>,
    position: int,
    direction: Direction,
)
    ensures
        (exists|i: int| 0 <= i < others.len() && lies(#[trigger] others[i], position, direction))
            ==> exists|gap: int| is_nearest_gap(others, position, direction, gap),
    decreases others.len(),
{
    if exists|i: int| 0 <= i < others.len() && lies(#[trigger] others[i], position, direction) {
        let init = others.drop_last();
        lemma_some_gap_is_nearest(init, position, direction);
        let last = others.last();
        let far = crate::units::magnitude(last.position - position);
        assert(others[others.len() - 1] == last);
        if exists|i: int| 0 <= i < init.len() && lies(#[trigger] init[i], position, direction) {
            let gap = choose|gap: int| is_nearest_gap(init, position, direction, gap);
            assert(is_nearest_gap(init, position, direction, gap));
            let k = choose|i: int|
                0 <= i < init.len() && lies(#[trigger] init[i], position, direction)
                    && crate::units::magnitude(init[i].position - position) == gap;
            assert(others[k] == init[k]);
            let best = if lies(last, position, direction) && far < gap {
                far
            } else {
                gap
            };
            assert forall|i: int|
                0 <= i < others.len() && lies(#[trigger] others[i], position, direction) implies crate::units::magnitude(
            others[i].position - position) >= best by {
                if i < init.len() {
                    assert(others[i] == init[i]);
                }
            }
            assert(is_nearest_gap(others, position, direction, best));
        } else {
            let i = choose|i: int|
                0 <= i < others.len() && lies(#[trigger] others[i], position, direction);
            if i < init.len() {
                assert(init[i] == others[i]);
            }
            assert forall|j: int|
                0 <= j < others.len() && lies(#[trigger] others[j], position, direction) implies crate::units::magnitude(
            others[j].position - position) >= far by {
                if j < init.len() {
                    assert(init[j] == others[j]);
                }
            }
            assert(is_nearest_gap(others, position, direction, far));
        }
    }
}

proof fn lemma_nearest_gap(
    others: Seq<RunnerSnapshot>,
    position: int,
    direction: Direction,
)
    ensures
        match nearest_gap(others, position, direction) {
            Some(gap) => is_nearest_gap(others, position, direction, gap),
            None => forall|i: int|
                0 <= i < others.len() ==> !lies(#[trigger] others[i], position, direction),
        },
{
    let there = |o: RunnerSnapshot| lies(o, position, direction);
    lemma_some_gap_is_nearest(others, position, direction);
    if exists|i: int| 0 <= i < others.len() && lies(#[trigger] others[i], position, direction) {
        let i = choose|i: int|
            0 <= i < others.len() && lies(#[trigger] others[i], position, direction);
        assert(there(others[i]));
    }
}

/// The gap behind is to the nearest runner behind, and the gap in front to the
/// nearest in front, in lengths of 2.5 m: someone is that far off and nobody
/// nearer. With nobody on that side nothing holds.
pub proof fn the_nearest_runner_decides_the_gap(own: OwnState, field: FieldView)
    ensures
        ({
            let others = field.other_snapshots@;
            let behind = DynamicConditionFactory::Proximity(ProximityToken::BashinDiffBehind);
            let infront = DynamicConditionFactory::Proximity(ProximityToken::BashinDiffInfront);
            let length = 2_500_000_000int;
            &&& forall|i: int|
                0 <= i < others.len() && (#[trigger] others[i]).position < own.position && (forall|
                    j: int,
                |
                    0 <= j < others.len() && (#[trigger] others[j]).position < own.position
                        ==> others[j].position <= others[i].position) ==> compares_as(
                    behind,
                    own,
                    field,
                    own.position - others[i].position,
                    length,
                )
            &&& forall|i: int|
                0 <= i < others.len() && own.position < (#[trigger] others[i]).position && (forall|
                    j: int,
                |
                    0 <= j < others.len() && own.position < (#[trigger] others[j]).position
                        ==> others[j].position >= others[i].position) ==> compares_as(
                    infront,
                    own,
                    field,
                    others[i].position - own.position,
                    length,
                )
            &&& (forall|i: int|
                0 <= i < others.len() ==> (#[trigger] others[i]).position >= own.position)
                ==> never_holds(behind, own, field)
            &&& (forall|i: int|
                0 <= i < others.len() ==> (#[trigger] others[i]).position <= own.position)
                ==> never_holds(infront, own, field)
        }),
{
    let others = field.other_snapshots@;
    let at = own.position as int;
    lemma_nearest_gap(others, at, Direction::Behind);
    lemma_nearest_gap(others, at, Direction::Infront);
    let behind = DynamicConditionFactory::Proximity(ProximityToken::BashinDiffBehind);
    let infront = DynamicConditionFactory::Proximity(ProximityToken::BashinDiffInfront);
    assert forall|i: int|
        0 <= i < others.len() && (#[trigger] others[i]).position < own.position && (forall|j: int|
            0 <= j < others.len() && (#[trigger] others[j]).position < own.position
                ==> others[j].position <= others[i].position) implies compares_as(
        behind,
        own,
        field,
        own.position - others[i].position,
        2_500_000_000,
    ) by {
        assert(lies(others[i], at, Direction::Behind));
        let gap = nearest_gap(others, at, Direction::Behind)->0;
        let k = choose|k: int|
            0 <= k < others.len() && lies(#[trigger] others[k], at, Direction::Behind)
                && crate::units::magnitude(others[k].position - at) == gap;
        assert(gap == own.position - others[i].position);
    }
    assert forall|i: int|
        0 <= i < others.len() && own.position < (#[trigger] others[i]).position && (forall|j: int|
            0 <= j < others.len() && own.position < (#[trigger] others[j]).position
                ==> others[j].position >= others[i].position) implies compares_as(
        infront,
        own,
        field,
        others[i].position - own.position,
        2_500_000_000,
    ) by {
        assert(lies(others[i], at, Direction::Infront));
        let gap = nearest_gap(others, at, Direction::Infront)->0;
        let k = choose|k: int|
            0 <= k < others.len() && lies(#[trigger] others[k], at, Direction::Infront)
                && crate::units::magnitude(others[k].position - at) == gap;
        assert(gap == others[i].position - own.position);
    }
    if forall|i: int| 0 <= i < others.len() ==> (#[trigger] others[i]).position >= own.position {
        if let Some(gap) = nearest_gap(others, at, Direction::Behind) {
            let k = choose|k: int|
                0 <= k < others.len() && lies(#[trigger] others[k], at, Direction::Behind)
                    && crate::units::magnitude(others[k].position - at) == gap;
            assert(others[k].position < own.position);
        }
    }
    if forall|i: int| 0 <= i < others.len() ==> (#[trigger] others[i]).position <= own.position {
        if let Some(gap) = nearest_gap(others, at, Direction::Infront) {
            let k = choose|k: int|
                0 <= k < others.len() && lies(#[trigger] others[k], at, Direction::Infront)
                    && crate::units::magnitude(others[k].position - at) == gap;
            assert(others[k].position > own.position);
        }
    }
}

/// The runner's own state compares as it stands: counts and places as numbers,
/// the race time in whole seconds, yes and no as 1 and 0.
pub proof fn the_own_state_compares_as_it_stands(own: OwnState, field: FieldView)
    ensures
        ({
            let of = |what: Observable| DynamicConditionFactory::Own(what);
            &&& compares_as(
                of(Observable::AccumulateTime),
                own,
                field,
                own.accumulate_time as int,
                1_000_000_000,
            )
            &&& compares_as(
                of(Observable::SkillsActivatedCount),
                own,
                field,
                own.skills_activated_count as int,
                1,
            )
            &&& compares_as(
                of(Observable::RecentSkillActivations),
                own,
                field,
                own.recent_skill_activations as int,
                1,
            )
            &&& compares_as(
                of(Observable::HealsActivatedCount),
                own,
                field,
                own.heals_activated_count as int,
                1,
            )
            &&& compares_as(of(Observable::Phase), own, field, own.phase as int, 1)
            &&& compares_as(of(Observable::Gate), own, field, own.gate as int, 1)
            &&& compares_as(of(Observable::RandomLot), own, field, own.random_lot as int, 1)
            &&& compares_as(
                of(Observable::TemptationCount),
                own,
                field,
                own.temptation_count as int,
                1,
            )
            &&& compares_as_fact(of(Observable::IsLastSpurt), own, field, own.is_last_spurt)
            &&& compares_as_fact(of(Observable::IsRushed), own, field, own.is_rushed)
            &&& compares_as_fact(of(Observable::IsDueling), own, field, own.is_dueling)
        }),
{
}

/// A token holds by its own comparison, both of two conditions when each does,
/// either when at least one does; the constant ones always and never, and no
/// condition at all always.
pub proof fn conditions_combine_as_and_and_or(
    a: DynamicCondition,
    b: DynamicCondition,
    token: DynamicConditionFactory,
    arg: i64,
    comparison: Comparison,
    own: OwnState,
    field: FieldView,
)
    ensures
        DynamicCondition::And(Box::new(a), Box::new(b)).holds(own, field) <==> a.holds(own, field)
            && b.holds(own, field),
        DynamicCondition::Or(Box::new(a), Box::new(b)).holds(own, field) <==> a.holds(own, field)
            || b.holds(own, field),
        DynamicCondition::Always.holds(own, field),
        !DynamicCondition::Never.holds(own, field),
        (DynamicCondition::Token { token, arg, comparison }).holds(own, field) <==> token_holds(
            token,
            arg as int,
            comparison,
            own,
            field,
        ),
        condition_holds(Some(a), own, field) <==> a.holds(own, field),
        condition_holds(None, own, field),
{
}

/// Activations are counted by phase in race order, and by half: none outside.
pub proof fn activations_are_looked_up_by_phase_and_half(
    phases: PhaseCounts,
    halves: HalfCounts,
    at: int,
)
    ensures
        activated_in_phase(phases, 0) == phases.early,
        activated_in_phase(phases, 1) == phases.mid,
        activated_in_phase(phases, 2) == phases.late,
        activated_in_phase(phases, 3) == phases.spurt,
        at < 0 || at > 3 ==> activated_in_phase(phases, at) == 0,
        activated_in_half(halves, 0) == halves.first,
        activated_in_half(halves, 1) == halves.second,
        at < 0 || at > 1 ==> activated_in_half(halves, at) == 0,
{
}

} // verus!
