//! What a frame shows of the field, and what a tick makes of each runner's
//! condition timers, in the runners' own numbers.
use crate::condition::dynamic::{rate_place, ConditionTimers, OrderRateBand};
use crate::effect::SkillTarget;
use crate::language::{RunnerId, Strategy};
use crate::pacing::{first_with_id, PacerBranch, PacerChoice};
use crate::race_support::reads::{
    active_of, blocks_at_side, blocks_in_front, debuff_targets, is_closest_block, is_passing,
    named_value, others_seen, overtake_target, position_of, reaches, seen, ProximitySnapshot,
};
use crate::race_support::snapshot::{
    active_entries, active_placed, by_position, field_order, finished_placed,
    finished_runners_hold_the_top_places, frame_choice, frozen, lookup, numbers_are_distinct,
    opening_after, pacer_position_of, pacer_strategy_of, position_at, scripted_place,
    scripts_applied, the_ranking_is_the_field_in_order, FieldOrderTracker, FieldSnapshot,
    OrderUpWindows, SnapEntry,
};
use crate::race_support::timers::{
    adjacent, band_field_size, carried_after, entries_are_distinct, entry_at_place,
    every_runner_advances_once, facts_of, passed_count, shown_after, tick_field, timers_after,
    timers_or_fresh, was_passed, TickField,
};
use crate::runner::{ForcedRank, NamedValue, Runner};
use crate::units::{magnitude, ONE, QUANTITY_MAX};
use vstd::prelude::*;

verus! {

/// Whether a duration has gone by its own state: `dt` longer where the state
/// holds this tick (and there is room), and back at 0 where it does not.
pub open spec fn goes_by(before: i64, after: i64, dt: i64, holds: bool) -> bool {
    if holds {
        before + dt <= QUANTITY_MAX ==> after == before + dt
    } else {
        after == 0
    }
}

/// The condition timers the runner at entry `k` goes into the tick with.
pub open spec fn timers_before(
    carried: Map<u32, ConditionTimers>,
    field: TickField,
    k: int,
) -> ConditionTimers {
    timers_or_fresh(carried, field.entries[k].id)
}

/// The condition timers the runner at entry `k` comes out of the tick with.
pub open spec fn timers_out(
    carried: Map<u32, ConditionTimers>,
    field: TickField,
    runners: Seq<Runner>,
    windows: Option<OrderUpWindows>,
    field_size: int,
    horse_lane: int,
    dt: i64,
    k: int,
) -> ConditionTimers {
    carried_after(
        carried,
        field,
        runners,
        windows,
        field_size,
        horse_lane,
        dt,
        field.entries.len(),
    )[field.entries[k].id.0]
}

proof fn lemma_timers_out(
    carried: Map<u32, ConditionTimers>,
    field: TickField,
    runners: Seq<Runner>,
    windows: Option<OrderUpWindows>,
    field_size: int,
    horse_lane: int,
    dt: i64,
    k: int,
)
    requires
        0 <= k < field.entries.len(),
        entries_are_distinct(field.entries),
    ensures
        timers_out(carried, field, runners, windows, field_size, horse_lane, dt, k)
            == timers_after(
            timers_before(carried, field, k),
            facts_of(field, runners, k, horse_lane),
            windows,
            field_size,
            dt,
        ),
{
    every_runner_advances_once(
        carried,
        carried,
        field,
        runners,
        windows,
        field_size,
        horse_lane,
        dt,
        field.entries.len(),
        0,
    );
    assert(field.entries[k] == field.entries[k]);
}

/// A runner who has no timers yet starts with nothing lasted, nothing counted
/// and every band still held, and one who has goes on from hers.
pub proof fn timers_start_from_nothing(carried: Map<u32, ConditionTimers>, id: RunnerId)
    ensures
        carried.dom().contains(id.0) ==> timers_or_fresh(carried, id) == carried[id.0],
        !carried.dom().contains(id.0) ==> {
            let t = timers_or_fresh(carried, id);
            &&& t.near_behind == 0 && t.near_behind_set1 == 0 && t.near_infront == 0
            &&& t.blocked_front == 0 && t.blocked_side == 0 && t.blocked_all == 0
            &&& t.overtake_target_no_order_up == 0 && t.overtaken == 0
            &&& !t.has_overtake_target && !t.behind_is_inner
            &&& t.in_band.top20 && t.in_band.top40 && t.in_band.top50 && t.in_band.top70
                && t.in_band.top80
            &&& t.out_band.top20 && t.out_band.top40 && t.out_band.top50 && t.out_band.top70
                && t.out_band.top80
            &&& t.order_up_middle == 0 && t.order_up_end_after == 0
                && t.order_up_finalcorner_after == 0
        },
{
}

/// Whether another runner of the field stands beside the one at entry `k`: under
/// 1.05 m away along the course and under two lanes across, either way.
pub open spec fn someone_beside(field: TickField, k: int, horse_lane: int) -> bool {
    let me = field.entries[k];
    exists|i: int|
        0 <= i < field.entries.len() && {
            let e = #[trigger] field.entries[i];
            &&& e.id != me.id
            &&& -1_050_000_000 < e.position - me.position < 1_050_000_000
            &&& -2 * horse_lane < e.current_lane - me.current_lane < 2 * horse_lane
        }
}

/// Being blocked is timed by itself: the time blocked in front by whether she
/// has a front blocker, whatever is beside her; the time blocked at the side by
/// whether someone stands beside her, whoever is in front; and the time blocked
/// on all sides by both at once.
pub proof fn each_block_is_timed_by_itself(
    carried: Map<u32, ConditionTimers>,
    field: TickField,
    runners: Seq<Runner>,
    windows: Option<OrderUpWindows>,
    field_size: int,
    horse_lane: int,
    dt: i64,
    k: int,
)
    requires
        0 <= k < field.entries.len(),
        entries_are_distinct(field.entries),
        dt >= 0,
        timers_before(carried, field, k).blocked_front >= 0,
        timers_before(carried, field, k).blocked_side >= 0,
        timers_before(carried, field, k).blocked_all >= 0,
    ensures
        ({
            let t = timers_before(carried, field, k);
            let next = timers_out(
                carried,
                field,
                runners,
                windows,
                field_size,
                horse_lane,
                dt,
                k,
            );
            let in_front = field.entries[k].front_blocker is Some;
            let beside = someone_beside(field, k, horse_lane);
            &&& goes_by(t.blocked_front, next.blocked_front, dt, in_front)
            &&& goes_by(t.blocked_side, next.blocked_side, dt, beside)
            &&& goes_by(t.blocked_all, next.blocked_all, dt, in_front && beside)
        }),
{
    reveal(timers_after);
    lemma_timers_out(carried, field, runners, windows, field_size, horse_lane, dt, k);
    let me = field.entries[k];
    let facts = facts_of(field, runners, k, horse_lane);
    if someone_beside(field, k, horse_lane) {
        let i = choose|i: int|
            0 <= i < field.entries.len() && {
                let e = #[trigger] field.entries[i];
                &&& e.id != me.id
                &&& -1_050_000_000 < e.position - me.position < 1_050_000_000
                &&& -2 * horse_lane < e.current_lane - me.current_lane < 2 * horse_lane
            };
        assert(crate::race_support::timers::blocks_side(field, me, i, horse_lane));
    }
    if facts.side_blocked {
        let i = choose|i: int|
            0 <= i < field.entries.len()
                && #[trigger] crate::race_support::timers::blocks_side(field, me, i, horse_lane);
        assert(field.entries[i].id != me.id);
    }
}

/// Whether the entry at `i` is the first listed one in place `place`.
pub open spec fn first_in_place(field: TickField, i: int, place: int) -> bool {
    &&& 0 <= i < field.entries.len()
    &&& lookup(field.order, field.entries[i].id) matches Some(p) && p == place
    &&& forall|j: int|
        0 <= j < i ==> !(lookup(field.order, (#[trigger] field.entries[j]).id) matches Some(p)
            && p == place)
}

proof fn lemma_entry_at_place(field: TickField, place: int, from: int)
    requires
        0 <= from <= field.entries.len(),
        forall|j: int|
            0 <= j < from ==> !(lookup(field.order, (#[trigger] field.entries[j]).id) matches Some(
                p,
            ) && p == place),
    ensures
        match entry_at_place(field, place, from) {
            Some(e) => exists|i: int|
                first_in_place(field, i, place) && e == #[trigger] field.entries[i],
            None => forall|i: int| !#[trigger] first_in_place(field, i, place),
        },
    decreases field.entries.len() - from,
{
    if from < field.entries.len() {
        if lookup(field.order, field.entries[from].id) is Some && lookup(
            field.order,
            field.entries[from].id,
        )->0 == place {
            assert(first_in_place(field, from, place));
            assert(field.entries[from] == entry_at_place(field, place, from)->0);
        } else {
            lemma_entry_at_place(field, place, from + 1);
        }
    }
}

proof fn lemma_adjacent(field: TickField, order: Option<i64>, offset: int, i: int)
    requires
        order is Some ==> first_in_place(field, i, order->0 + offset),
        order is Some,
    ensures
        adjacent(field, order, offset) == Some(field.entries[i]),
{
    let place = order->0 + offset;
    lemma_entry_at_place(field, place, 0);
    let e = entry_at_place(field, place, 0);
    if e is None {
        assert(first_in_place(field, i, place));
    } else {
        let j = choose|j: int|
            first_in_place(field, j, place) && e->0 == #[trigger] field.entries[j];
        if i < j {
            assert(field.entries[i] == field.entries[i]);
        } else if j < i {
            assert(field.entries[j] == field.entries[j]);
        }
    }
}

/// Whether the runner of the first entry one place behind (or ahead) is close by
/// the given window: `distance` along and `tenths` tenths of a lane across, up
/// to a nanometre.
pub open spec fn neighbour_is_near(
    field: TickField,
    k: int,
    ahead: bool,
    distance: int,
    tenths: int,
    horse_lane: int,
) -> bool {
    let me = field.entries[k];
    lookup(field.order, me.id) matches Some(place) && exists|i: int|
        {
            let e = #[trigger] field.entries[i];
            &&& first_in_place(
                field,
                i,
                if ahead {
                    place - 1
                } else {
                    place + 1
                },
            )
            &&& if ahead {
                0 < e.position - me.position <= distance
            } else {
                0 < me.position - e.position <= distance
            }
            &&& 10 * (e.current_lane - me.current_lane) <= tenths * horse_lane + 10
            &&& 10 * (me.current_lane - e.current_lane) <= tenths * horse_lane + 10
        }
}

proof fn lemma_neighbour(
    field: TickField,
    k: int,
    ahead: bool,
    distance: int,
    tenths: int,
    horse_lane: int,
)
    requires
        0 <= k < field.entries.len(),
    ensures
        neighbour_is_near(field, k, ahead, distance, tenths, horse_lane)
            == crate::race_support::timers::in_near_lane(
            field.entries[k],
            adjacent(
                field,
                lookup(field.order, field.entries[k].id),
                if ahead {
                    -1
                } else {
                    1
                },
            ),
            if ahead {
                1
            } else {
                -1
            },
            distance,
            tenths,
            horse_lane,
        ),
{
    let me = field.entries[k];
    let order = lookup(field.order, me.id);
    let offset: int = if ahead {
        -1
    } else {
        1
    };
    if order is Some {
        let place = order->0 + offset;
        lemma_entry_at_place(field, place, 0);
        let sign: int = if ahead {
            1
        } else {
            -1
        };
        if let Some(e) = entry_at_place(field, place, 0) {
            let i = choose|i: int|
                first_in_place(field, i, place) && e == #[trigger] field.entries[i];
            assert(field.entries[i] == e);
            assert(sign * (e.position - me.position) == if ahead {
                e.position - me.position
            } else {
                me.position - e.position
            });
            assert forall|j: int| first_in_place(field, j, place) implies #[trigger] field.entries[j]
                == e by {
                lemma_adjacent(field, order, offset, j);
            }
        }
    }
}

/// The near-lane times go by the runner one place behind and the one one place
/// ahead alone: near by 2.5 m and one lane, or 5 m and 2.7 lanes, while the
/// runner's own place is the same as a tick ago.
pub proof fn near_lanes_are_timed_by_the_neighbours(
    carried: Map<u32, ConditionTimers>,
    field: TickField,
    runners: Seq<Runner>,
    windows: Option<OrderUpWindows>,
    field_size: int,
    horse_lane: int,
    dt: i64,
    k: int,
)
    requires
        0 <= k < field.entries.len(),
        entries_are_distinct(field.entries),
        dt >= 0,
        timers_before(carried, field, k).near_behind >= 0,
        timers_before(carried, field, k).near_behind_set1 >= 0,
        timers_before(carried, field, k).near_infront >= 0,
    ensures
        ({
            let me = field.entries[k];
            let t = timers_before(carried, field, k);
            let next = timers_out(
                carried,
                field,
                runners,
                windows,
                field_size,
                horse_lane,
                dt,
                k,
            );
            let moved = field.order.dom().contains(me.id.0) && field.previous.dom().contains(
                me.id.0,
            ) && field.order[me.id.0] != field.previous[me.id.0];
            &&& goes_by(
                t.near_behind,
                next.near_behind,
                dt,
                !moved && neighbour_is_near(field, k, false, 2_500_000_000, 10, horse_lane),
            )
            &&& goes_by(
                t.near_behind_set1,
                next.near_behind_set1,
                dt,
                !moved && neighbour_is_near(field, k, false, 5_000_000_000, 27, horse_lane),
            )
            &&& goes_by(
                t.near_infront,
                next.near_infront,
                dt,
                !moved && neighbour_is_near(field, k, true, 2_500_000_000, 10, horse_lane),
            )
        }),
{
    reveal(timers_after);
    lemma_timers_out(carried, field, runners, windows, field_size, horse_lane, dt, k);
    lemma_neighbour(field, k, false, 2_500_000_000, 10, horse_lane);
    lemma_neighbour(field, k, false, 5_000_000_000, 27, horse_lane);
    lemma_neighbour(field, k, true, 2_500_000_000, 10, horse_lane);
}

/// Who is behind is read off this tick: whether the runner one place behind runs
/// nearer the inner fence.
pub proof fn the_runner_behind_is_inner_or_not(
    carried: Map<u32, ConditionTimers>,
    field: TickField,
    runners: Seq<Runner>,
    windows: Option<OrderUpWindows>,
    field_size: int,
    horse_lane: int,
    dt: i64,
    k: int,
)
    requires
        0 <= k < field.entries.len(),
        entries_are_distinct(field.entries),
    ensures
        timers_out(
            carried,
            field,
            runners,
            windows,
            field_size,
            horse_lane,
            dt,
            k,
        ).behind_is_inner <==> {
            let me = field.entries[k];
            lookup(field.order, me.id) matches Some(place) && exists|i: int|
                first_in_place(field, i, place + 1) && (#[trigger] field.entries[i]).current_lane
                    < me.current_lane
        },
{
    reveal(timers_after);
    lemma_timers_out(carried, field, runners, windows, field_size, horse_lane, dt, k);
    let me = field.entries[k];
    let order = lookup(field.order, me.id);
    if order is Some {
        let place = order->0 + 1;
        lemma_entry_at_place(field, place, 0);
        if exists|i: int|
            first_in_place(field, i, place) && (#[trigger] field.entries[i]).current_lane
                < me.current_lane {
            let i = choose|i: int|
                first_in_place(field, i, place) && (#[trigger] field.entries[i]).current_lane
                    < me.current_lane;
            lemma_adjacent(field, order, 1, i);
        }
    }
}

/// Whether `other` is an overtake target of `me`: the runner who blocks her in
/// front always; any other from 1 to 20 m ahead, caught within 15 s at the
/// speeds of the tick, with less target speed than hers (or blocked and slower
/// than it), and no further across than the cone that opens from one lane to
/// 6.75 at 20 m.
pub open spec fn can_be_overtaken(me: SnapEntry, other: SnapEntry, horse_lane: int) -> bool {
    let gap = other.position - me.position;
    let across = if other.current_lane >= me.current_lane {
        other.current_lane - me.current_lane
    } else {
        me.current_lane - other.current_lane
    };
    me.front_blocker == Some(other.id) || {
        &&& 1_000_000_000 <= gap <= 20_000_000_000
        &&& gap <= 15 * (me.current_speed - other.current_speed)
        &&& other.target_speed < me.target_speed || (other.front_blocker is Some
            && other.current_speed < me.target_speed)
        &&& 80_000_000_000 * across <= (80_000_000_000 + 23 * gap) * horse_lane
    }
}

/// See [`can_be_overtaken`].
pub proof fn overtake_targets_are_ahead_slower_and_in_the_cone(
    me: SnapEntry,
    other: SnapEntry,
    horse_lane: int,
)
    ensures
        overtake_target(seen(me), me.front_blocker, seen(other), horse_lane) == can_be_overtaken(
            me,
            other,
            horse_lane,
        ),
{
    let gap = other.position - me.position;
    let across = if other.current_lane >= me.current_lane {
        other.current_lane - me.current_lane
    } else {
        me.current_lane - other.current_lane
    };
    assert((across * 2_000_000_000_000 <= (2_000_000_000_000 + 575 * gap) * horse_lane) == (
    80_000_000_000 * across <= (80_000_000_000 + 23 * gap) * horse_lane)) by (nonlinear_arith)
        requires
            true,
    {
        assert((2_000_000_000_000 + 575 * gap) * horse_lane == 25 * ((80_000_000_000 + 23 * gap)
            * horse_lane)) by (nonlinear_arith);
    }
}

/// Overtaking is timed both ways: the time with an overtake target goes by
/// whether someone can be overtaken and ends when a place is gained, and the
/// time as a target by whether she can be overtaken by someone.
pub proof fn overtaking_is_timed_both_ways(
    carried: Map<u32, ConditionTimers>,
    field: TickField,
    runners: Seq<Runner>,
    windows: Option<OrderUpWindows>,
    field_size: int,
    horse_lane: int,
    dt: i64,
    k: int,
)
    requires
        0 <= k < field.entries.len(),
        entries_are_distinct(field.entries),
        dt >= 0,
        timers_before(carried, field, k).overtake_target_no_order_up >= 0,
        timers_before(carried, field, k).overtaken >= 0,
    ensures
        ({
            let me = field.entries[k];
            let t = timers_before(carried, field, k);
            let next = timers_out(
                carried,
                field,
                runners,
                windows,
                field_size,
                horse_lane,
                dt,
                k,
            );
            let has_target = exists|i: int|
                0 <= i < field.entries.len() && i != k && can_be_overtaken(
                    me,
                    #[trigger] field.entries[i],
                    horse_lane,
                );
            let is_target = exists|i: int|
                0 <= i < field.entries.len() && i != k && can_be_overtaken(
                    #[trigger] field.entries[i],
                    me,
                    horse_lane,
                );
            let gained = field.order.dom().contains(me.id.0) && field.previous.dom().contains(
                me.id.0,
            ) && field.order[me.id.0] < field.previous[me.id.0];
            &&& next.has_overtake_target == has_target
            &&& goes_by(
                t.overtake_target_no_order_up,
                next.overtake_target_no_order_up,
                dt,
                has_target && !gained,
            )
            &&& goes_by(t.overtaken, next.overtaken, dt, is_target)
        }),
{
    reveal(timers_after);
    lemma_timers_out(carried, field, runners, windows, field_size, horse_lane, dt, k);
    let me = field.entries[k];
    assert forall|i: int| 0 <= i < field.entries.len() implies {
        &&& #[trigger] crate::race_support::timers::is_target_of(field, me, i, horse_lane) == (i
            != k && can_be_overtaken(me, field.entries[i], horse_lane))
        &&& crate::race_support::timers::targets(field, me, i, horse_lane) == (i != k
            && can_be_overtaken(field.entries[i], me, horse_lane))
    } by {
        overtake_targets_are_ahead_slower_and_in_the_cone(me, field.entries[i], horse_lane);
        overtake_targets_are_ahead_slower_and_in_the_cone(field.entries[i], me, horse_lane);
        if i < k {
            assert(field.entries[i].id.0 != field.entries[k].id.0);
        } else if k < i {
            assert(field.entries[k].id.0 != field.entries[i].id.0);
        }
    }
    let facts = facts_of(field, runners, k, horse_lane);
    if exists|i: int|
        0 <= i < field.entries.len() && i != k && can_be_overtaken(
            me,
            #[trigger] field.entries[i],
            horse_lane,
        ) {
        let i = choose|i: int|
            0 <= i < field.entries.len() && i != k && can_be_overtaken(
                me,
                #[trigger] field.entries[i],
                horse_lane,
            );
        assert(crate::race_support::timers::is_target_of(field, me, i, horse_lane));
    }
    if exists|i: int|
        0 <= i < field.entries.len() && i != k && can_be_overtaken(
            #[trigger] field.entries[i],
            me,
            horse_lane,
        ) {
        let i = choose|i: int|
            0 <= i < field.entries.len() && i != k && can_be_overtaken(
                #[trigger] field.entries[i],
                me,
                horse_lane,
            );
        assert(crate::race_support::timers::is_target_of(field, me, i, horse_lane) == (i != k
            && can_be_overtaken(me, field.entries[i], horse_lane)));
        assert(crate::race_support::timers::targets(field, me, i, horse_lane));
    }
    if facts.has_target {
        let i = choose|i: int|
            0 <= i < field.entries.len()
                && #[trigger] crate::race_support::timers::is_target_of(field, me, i, horse_lane);
        assert(can_be_overtaken(me, field.entries[i], horse_lane));
    }
    if facts.is_target {
        let i = choose|i: int|
            0 <= i < field.entries.len()
                && #[trigger] crate::race_support::timers::targets(field, me, i, horse_lane);
        assert(crate::race_support::timers::is_target_of(field, me, i, horse_lane) == (i != k
            && can_be_overtaken(me, field.entries[i], horse_lane)));
        assert(can_be_overtaken(field.entries[i], me, horse_lane));
    }
}

/// Where the runner's race time is read from: the first runner with her id.
pub open spec fn race_time(runners: Seq<Runner>, id: RunnerId) -> int {
    match first_with_id(runners, id, 0) {
        Some(i) => runners[i].body.accumulate_time.in_seconds(),
        None => 0,
    }
}

/// A band is held from the start and left for good on the first tick past 5 s
/// that the runner's place is not on its side of the band's last place.
pub proof fn bands_are_left_for_good(
    carried: Map<u32, ConditionTimers>,
    field: TickField,
    runners: Seq<Runner>,
    windows: Option<OrderUpWindows>,
    field_size: int,
    horse_lane: int,
    dt: i64,
    k: int,
    band: OrderRateBand,
)
    requires
        0 <= k < field.entries.len(),
        entries_are_distinct(field.entries),
    ensures
        ({
            let me = field.entries[k];
            let t = timers_before(carried, field, k);
            let next = timers_out(
                carried,
                field,
                runners,
                windows,
                field_size,
                horse_lane,
                dt,
                k,
            );
            let percent = match band {
                OrderRateBand::Top20 => 20int,
                OrderRateBand::Top40 => 40,
                OrderRateBand::Top50 => 50,
                OrderRateBand::Top70 => 70,
                OrderRateBand::Top80 => 80,
            };
            let of = |bands: crate::condition::dynamic::RateBands|
                match band {
                    OrderRateBand::Top20 => bands.top20,
                    OrderRateBand::Top40 => bands.top40,
                    OrderRateBand::Top50 => bands.top50,
                    OrderRateBand::Top70 => bands.top70,
                    OrderRateBand::Top80 => bands.top80,
                };
            let last = rate_place(field_size, percent);
            if field.order.dom().contains(me.id.0) && race_time(runners, me.id)
                > 5_000_000_000 {
                &&& of(next.in_band) == (of(t.in_band) && field.order[me.id.0] <= last)
                &&& of(next.out_band) == (of(t.out_band) && field.order[me.id.0] >= last)
            } else {
                of(next.in_band) == of(t.in_band) && of(next.out_band) == of(t.out_band)
            }
        }),
{
    reveal(timers_after);
    lemma_timers_out(carried, field, runners, windows, field_size, horse_lane, dt, k);
}

proof fn lemma_passed_is_filter(field: TickField, o: int, p: int, n: nat)
    requires
        n <= field.entries.len(),
    ensures
        passed_count(field, o, p, n) == field.entries.take(n as int).filter(
            |e: SnapEntry| was_passed(field, e, o, p),
        ).len(),
    decreases n,
{
    reveal(Seq::filter);
    if n > 0 {
        lemma_passed_is_filter(field, o, p, (n - 1) as nat);
        assert(field.entries.take(n as int).drop_last() =~= field.entries.take(n - 1));
    }
}

/// How many runners the one at entry `k` has passed this tick: those who were
/// ahead of her a tick ago and are behind her now.
pub open spec fn runners_passed(field: TickField, k: int) -> int {
    let me = field.entries[k].id;
    if field.order.dom().contains(me.0) && field.previous.dom().contains(me.0) {
        field.entries.filter(
            |e: SnapEntry|
                field.order.dom().contains(e.id.0) && field.previous.dom().contains(e.id.0)
                    && field.previous[e.id.0] < field.previous[me.0] && field.order[e.id.0]
                    > field.order[me.0],
        ).len() as int
    } else {
        0
    }
}

/// Passes are counted where they happen: in the Mid-Race from its start to the
/// Late-Race, from the Late-Race on, and from the final corner on, each by as
/// many runners as were passed.
pub proof fn passes_are_counted_where_they_happen(
    carried: Map<u32, ConditionTimers>,
    field: TickField,
    runners: Seq<Runner>,
    windows: Option<OrderUpWindows>,
    field_size: int,
    horse_lane: int,
    dt: i64,
    k: int,
)
    requires
        0 <= k < field.entries.len() <= QUANTITY_MAX,
        entries_are_distinct(field.entries),
    ensures
        ({
            let at = field.entries[k].position;
            let t = timers_before(carried, field, k);
            let next = timers_out(
                carried,
                field,
                runners,
                windows,
                field_size,
                horse_lane,
                dt,
                k,
            );
            let passed = runners_passed(field, k);
            let counted = |before: i64, after: i64, here: bool|
                if here {
                    before + passed <= QUANTITY_MAX ==> after == before + passed
                } else {
                    after == before
                };
            match windows {
                Some(w) => {
                    &&& counted(
                        t.order_up_middle,
                        next.order_up_middle,
                        w.middle_start <= at < w.late_start,
                    )
                    &&& counted(
                        t.order_up_end_after,
                        next.order_up_end_after,
                        w.late_start <= at,
                    )
                    &&& counted(
                        t.order_up_finalcorner_after,
                        next.order_up_finalcorner_after,
                        w.final_corner_start is Some && w.final_corner_start->0 <= at,
                    )
                },
                None => {
                    &&& next.order_up_middle == t.order_up_middle
                    &&& next.order_up_end_after == t.order_up_end_after
                    &&& next.order_up_finalcorner_after == t.order_up_finalcorner_after
                },
            }
        }),
{
    reveal(timers_after);
    lemma_timers_out(carried, field, runners, windows, field_size, horse_lane, dt, k);
    let me = field.entries[k].id;
    if field.order.dom().contains(me.0) && field.previous.dom().contains(me.0) {
        let o = field.order[me.0] as int;
        let p = field.previous[me.0] as int;
        lemma_passed_is_filter(field, o, p, field.entries.len());
        assert(field.entries.take(field.entries.len() as int) =~= field.entries);
        assert((|e: SnapEntry| was_passed(field, e, o, p)) =~= (|e: SnapEntry|
            field.order.dom().contains(e.id.0) && field.previous.dom().contains(e.id.0)
                && field.previous[e.id.0] < field.previous[me.0] && field.order[e.id.0]
                > field.order[me.0]));
        field.entries.lemma_filter_len(
            |e: SnapEntry|
                field.order.dom().contains(e.id.0) && field.previous.dom().contains(e.id.0)
                    && field.previous[e.id.0] < field.previous[me.0] && field.order[e.id.0]
                    > field.order[me.0],
        );
    }
}

/// A tick's timers are carried on and shown alike for every runner still racing,
/// and nobody else's change.
pub proof fn timers_are_shown_as_they_are_carried(
    carried: Map<u32, ConditionTimers>,
    shown: Map<u32, ConditionTimers>,
    field: TickField,
    runners: Seq<Runner>,
    windows: Option<OrderUpWindows>,
    field_size: int,
    horse_lane: int,
    dt: i64,
    number: u32,
)
    requires
        entries_are_distinct(field.entries),
    ensures
        ({
            let n = field.entries.len();
            let after = carried_after(
                carried,
                field,
                runners,
                windows,
                field_size,
                horse_lane,
                dt,
                n,
            );
            let seen_after = shown_after(
                shown,
                carried,
                field,
                runners,
                windows,
                field_size,
                horse_lane,
                dt,
                n,
            );
            if exists|i: int| 0 <= i < n && (#[trigger] field.entries[i]).id.0 == number {
                &&& after.dom().contains(number)
                &&& seen_after.dom().contains(number)
                &&& after[number] == seen_after[number]
            } else {
                &&& after.dom().contains(number) == carried.dom().contains(number)
                &&& carried.dom().contains(number) ==> after[number] == carried[number]
            }
        }),
{
    every_runner_advances_once(
        carried,
        shown,
        field,
        runners,
        windows,
        field_size,
        horse_lane,
        dt,
        field.entries.len(),
        number,
    );
}

/// A field counts for the bands as large as it is, and never as less than one.
pub proof fn a_field_counts_as_at_least_one(num_total: i64)
    ensures
        band_field_size(num_total) >= 1,
        num_total >= 1 ==> band_field_size(num_total) == num_total,
        num_total < 1 ==> band_field_size(num_total) == 1,
{
}

proof fn lemma_active_is_filter(runners: Seq<Runner>, finished: Seq<RunnerId>)
    ensures
        active_entries(runners, finished) == runners.filter(
            |r: Runner| !finished.contains(r.body.id),
        ).map_values(|r: Runner| frozen(r)),
    decreases runners.len(),
{
    reveal(Seq::filter);
    let racing = |r: Runner| !finished.contains(r.body.id);
    let freeze = |r: Runner| frozen(r);
    if runners.len() > 0 {
        lemma_active_is_filter(runners.drop_last(), finished);
        assert(active_entries(runners, finished) =~= runners.filter(racing).map_values(freeze));
    } else {
        assert(active_entries(runners, finished) =~= runners.filter(racing).map_values(freeze));
    }
}

/// A frame holds every runner who has not finished, in the order of the field,
/// each as she is.
pub proof fn a_frame_holds_the_runners_still_racing(
    runners: Seq<Runner>,
    finished: Seq<RunnerId>,
    r: Runner,
)
    ensures
        active_entries(runners, finished) == runners.filter(
            |r: Runner| !finished.contains(r.body.id),
        ).map_values(|r: Runner| frozen(r)),
        frozen(r).id == r.body.id,
        frozen(r).position == r.body.position,
        frozen(r).current_lane == r.body.current_lane,
        frozen(r).current_speed == r.body.current_speed,
        frozen(r).target_speed == r.body.target_speed,
        frozen(r).front_blocker == r.body.front_blocker,
        frozen(r).strategy == r.body.strategy,
        frozen(r).gate == r.body.gate,
        frozen(r).is_rushed == r.body.is_rushed,
        frozen(r).is_dueling == r.body.is_dueling,
        frozen(r).has_dueled == r.body.has_dueled,
        frozen(r).activated_advantage_effect_types == r.tally.activated_advantage_effect_types,
        frozen(r).popularity == r.body.popularity,
{
    lemma_active_is_filter(runners, finished);
}

/// The leader is where nobody still racing is further, the last runner where
/// nobody is less far, and second place where only one is further: each is where
/// somebody is, and none is known where nobody is left.
pub proof fn the_leader_the_second_and_the_last(entries: Seq<SnapEntry>)
    ensures
        ({
            let sorted = by_position(entries);
            let leader = position_at(sorted, 0);
            let second = position_at(sorted, 1);
            let last = position_at(sorted, sorted.len() - 1);
            &&& entries.len() == 0 <==> leader is None
            &&& entries.len() == 0 <==> last is None
            &&& entries.len() < 2 <==> second is None
            &&& forall|i: int|
                0 <= i < entries.len() ==> last->0 <= (#[trigger] entries[i]).position
                    <= leader->0
            &&& leader is Some ==> exists|i: int|
                0 <= i < entries.len() && (#[trigger] entries[i]).position == leader->0
            &&& last is Some ==> exists|i: int|
                0 <= i < entries.len() && (#[trigger] entries[i]).position == last->0
            &&& second is Some ==> last->0 <= second->0 <= leader->0
            &&& second is Some ==> exists|i: int|
                0 <= i < entries.len() && (#[trigger] entries[i]).position == second->0
            &&& second is Some ==> forall|i: int, j: int|
                0 <= i < j < entries.len() && (#[trigger] entries[i]).position > second->0
                    && second->0 < (#[trigger] entries[j]).position ==> false
        }),
{
    broadcast use vstd::seq_lib::group_to_multiset_ensures;

    let sorted = by_position(entries);
    the_ranking_is_the_field_in_order(entries);
    assert forall|i: int| 0 <= i < entries.len() implies sorted.contains(
        #[trigger] entries[i],
    ) by {
        assert(entries.contains(entries[i]));
        assert(entries.to_multiset().count(entries[i]) > 0);
        assert(sorted.to_multiset().count(entries[i]) > 0);
    }
    assert forall|i: int| 0 <= i < sorted.len() implies entries.contains(#[trigger] sorted[i]) by {
        assert(sorted.contains(sorted[i]));
        assert(sorted.to_multiset().count(sorted[i]) > 0);
    }
    assert forall|i: int| 0 <= i < entries.len() implies sorted[sorted.len() - 1].position <= (
    #[trigger] entries[i]).position <= sorted[0].position by {
        let k = sorted.index_of(entries[i]);
        assert(sorted[k] == entries[i]);
    }
    if entries.len() > 0 {
        let f = entries.index_of(sorted[0]);
        let l = entries.index_of(sorted[sorted.len() - 1]);
        assert(entries[f] == sorted[0] && entries[l] == sorted[sorted.len() - 1]);
    }
    if entries.len() > 1 {
        let s = entries.index_of(sorted[1]);
        assert(entries[s] == sorted[1]);
        assert forall|i: int, j: int|
            0 <= i < j < entries.len() && (#[trigger] entries[i]).position > sorted[1].position
                && sorted[1].position < (#[trigger] entries[j]).position implies false by {
            let a = sorted.index_of(entries[i]);
            let b = sorted.index_of(entries[j]);
            assert(sorted[a] == entries[i] && sorted[b] == entries[j]);
            assert(a == 0 && b == 0);
            assert(entries[i] == entries[j]);
            lemma_twice_listed(entries, i, j);
            assert(sorted.to_multiset().count(entries[i]) >= 2);
            lemma_listed_once(sorted, 0);
        }
    }
}

proof fn lemma_twice_listed(list: Seq<SnapEntry>, i: int, j: int)
    requires
        0 <= i < j < list.len(),
        list[i] == list[j],
    ensures
        list.to_multiset().count(list[i]) >= 2,
{
    broadcast use vstd::seq_lib::group_to_multiset_ensures;

    let without = list.remove(j);
    assert(without[i] == list[i]);
    assert(without.contains(list[i]));
    assert(without.to_multiset().count(list[i]) > 0);
    assert(without.insert(j, list[j]) =~= list);
}

proof fn lemma_listed_once(list: Seq<SnapEntry>, at: int)
    requires
        0 <= at < list.len(),
        forall|k: int| 0 <= k < list.len() && k != at ==> (#[trigger] list[k]).position
            < list[at].position,
    ensures
        list.to_multiset().count(list[at]) == 1,
{
    broadcast use vstd::seq_lib::group_to_multiset_ensures;

    let without = list.remove(at);
    assert(without.insert(at, list[at]) =~= list);
    if without.contains(list[at]) {
        let k = without.index_of(list[at]);
        let m = if k < at {
            k
        } else {
            k + 1
        };
        assert(list[m] == list[at]);
    }
    assert(without.to_multiset().count(list[at]) == 0);
}

/// The place scripted for a position is that of the first stretch it lies in.
pub proof fn the_first_stretch_scripts_the_place(forced: Seq<ForcedRank>, position: int, i: int)
    requires
        0 <= i < forced.len(),
        forced[i].start <= position < forced[i].end,
        forall|j: int|
            0 <= j < i ==> !((#[trigger] forced[j]).start <= position < forced[j].end),
    ensures
        scripted_place(forced, position) == Some(forced[i].rank),
    decreases i,
{
    if i > 0 {
        assert(!(forced[0].start <= position < forced[0].end));
        let rest = forced.skip(1);
        assert(rest[i - 1] == forced[i]);
        assert forall|j: int| 0 <= j < i - 1 implies !((#[trigger] rest[j]).start <= position
            < rest[j].end) by {
            assert(rest[j] == forced[j + 1]);
        }
        the_first_stretch_scripts_the_place(rest, position, i - 1);
    }
}

/// Nothing is scripted for a position that lies in no stretch, and a runner for
/// whom nothing is scripted keeps the place she has by the ranking.
pub proof fn an_unscripted_runner_keeps_her_rank(
    places: Map<u32, i64>,
    runners: Seq<Runner>,
    n: nat,
    number: u32,
)
    requires
        n <= runners.len(),
        forall|i: int|
            0 <= i < n && (#[trigger] runners[i]).body.id.0 == number ==> forall|k: int|
                0 <= k < runners[i].script.forced_rank@.len() ==> !((
                #[trigger] runners[i].script.forced_rank@[k]).start <= runners[i].body.position
                    < runners[i].script.forced_rank@[k].end),
    ensures
        scripts_applied(places, runners, n).dom().contains(number) == places.dom().contains(
            number,
        ),
        places.dom().contains(number) ==> scripts_applied(places, runners, n)[number]
            == places[number],
    decreases n,
{
    if n > 0 {
        an_unscripted_runner_keeps_her_rank(places, runners, (n - 1) as nat, number);
        let r = runners[n - 1];
        if r.body.id.0 == number {
            lemma_nothing_scripted(r.script.forced_rank@, r.body.position as int);
        }
    }
}

proof fn lemma_nothing_scripted(forced: Seq<ForcedRank>, position: int)
    requires
        forall|k: int|
            0 <= k < forced.len() ==> !((#[trigger] forced[k]).start <= position < forced[k].end),
    ensures
        scripted_place(forced, position) is None,
    decreases forced.len(),
{
    if forced.len() > 0 {
        assert(!(forced[0].start <= position < forced[0].end));
        let rest = forced.skip(1);
        assert forall|k: int| 0 <= k < rest.len() implies !((#[trigger] rest[k]).start <= position
            < rest[k].end) by {
            assert(rest[k] == forced[k + 1]);
        }
        lemma_nothing_scripted(rest, position);
    }
}

/// The pacer is reported as she is: where she is and as which style she keeps
/// position, and neither for one who is not in the field. The first runner a
/// front-less election returns is remembered, and no later one.
pub proof fn the_pacer_is_reported_as_she_is(
    runners: Seq<Runner>,
    choice: Option<PacerChoice>,
    opening: Option<RunnerId>,
    i: int,
)
    requires
        choice is Some ==> 0 <= i < runners.len() && runners[i].body.id == choice->0.runner_id && (
        forall|k: int| 0 <= k < i ==> (#[trigger] runners[k]).body.id != choice->0.runner_id),
    ensures
        choice is Some ==> pacer_position_of(runners, choice) == Some(runners[i].body.position),
        choice is Some ==> pacer_strategy_of(runners, choice) == Some(
            runners[i].tally.position_keep_strategy,
        ),
        choice is None ==> pacer_position_of(runners, choice) is None && pacer_strategy_of(
            runners,
            choice,
        ) is None,
        opening is Some ==> opening_after(opening, choice) == opening,
        opening is None ==> opening_after(opening, choice) == if choice is Some
            && choice->0.branch == PacerBranch::FrontLessElection {
            Some(choice->0.runner_id)
        } else {
            None
        },
{
    if choice is Some {
        lemma_first_found(runners, choice->0.runner_id, 0, i);
    }
}

proof fn lemma_first_found(runners: Seq<Runner>, id: RunnerId, from: int, i: int)
    requires
        0 <= from <= i < runners.len(),
        runners[i].body.id == id,
        forall|k: int| from <= k < i ==> (#[trigger] runners[k]).body.id != id,
    ensures
        first_with_id(runners, id, from) == Some(i),
    decreases i - from,
{
    if from < i {
        assert(runners[from].body.id != id);
        lemma_first_found(runners, id, from + 1, i);
    }
}

/// A runner is blocked in front by another less than 2 m ahead who is no further
/// across than three quarters of a lane where they touch, narrowing evenly to
/// 0.3 of one at 2 m; of several the nearest blocks her.
pub proof fn the_nearest_runner_in_the_way_blocks(
    runner: Runner,
    snapshots: Seq<ProximitySnapshot>,
    horse_lane: int,
    i: int,
    j: int,
)
    requires
        0 <= i < snapshots.len(),
        0 <= j < snapshots.len(),
    ensures
        blocks_in_front(runner, snapshots[j], horse_lane) <==> {
            let other = snapshots[j];
            let gap = other.position - runner.body.position;
            let across = if other.current_lane >= runner.body.current_lane {
                other.current_lane - runner.body.current_lane
            } else {
                runner.body.current_lane - other.current_lane
            };
            &&& other.id != runner.body.id
            &&& 0 < gap < 2_000_000_000
            &&& 40_000_000_000 * across + 9 * (gap * horse_lane) <= 30_000_000_000 * horse_lane
        },
        is_closest_block(runner, snapshots, horse_lane, i) ==> blocks_in_front(
            runner,
            snapshots[i],
            horse_lane,
        ) && (blocks_in_front(runner, snapshots[j], horse_lane) ==> snapshots[i].position
            <= snapshots[j].position),
{
    let other = snapshots[j];
    let gap = other.position - runner.body.position;
    let across = magnitude(other.current_lane - runner.body.current_lane);
    assert(across * (40 * ONE) == 40_000_000_000 * across) by (nonlinear_arith)
        requires
            ONE == 1_000_000_000,
    ;
    assert((10 * ONE - 3 * gap) * 3 * horse_lane == 30_000_000_000 * horse_lane - 9 * (gap
        * horse_lane)) by (nonlinear_arith)
        requires
            ONE == 1_000_000_000,
    ;
}

/// A runner is side-blocked by another under 1.05 m away along the course and
/// under two lanes across, and overtakes a slower one no more than 5 m away and
/// two lanes across; never herself.
pub proof fn beside_and_passing_are_windows_around_the_runner(
    runner: Runner,
    other: ProximitySnapshot,
    horse_lane: int,
)
    ensures
        ({
            let along = other.position - runner.body.position;
            let across = other.current_lane - runner.body.current_lane;
            &&& blocks_at_side(runner, other, horse_lane) <==> other.id != runner.body.id
                && -1_050_000_000 < along < 1_050_000_000 && -2 * horse_lane < across < 2
                * horse_lane
            &&& is_passing(runner, other, horse_lane) <==> other.id != runner.body.id
                && other.current_speed < runner.body.current_speed && -5_000_000_000 <= along
                <= 5_000_000_000 && -2 * horse_lane <= across <= 2 * horse_lane
        }),
{
}

/// What the proximity reads see of a runner is what the frame holds of her.
pub proof fn a_runner_is_seen_as_she_is(e: SnapEntry, self_id: RunnerId)
    ensures
        seen(e).id == e.id,
        seen(e).position == e.position,
        seen(e).current_lane == e.current_lane,
        seen(e).current_speed == e.current_speed,
        seen(e).target_speed == e.target_speed,
        seen(e).is_front_blocked <==> e.front_blocker is Some,
        active_of(e, self_id).is_self <==> e.id == self_id,
        active_of(e, self_id).position == e.position,
        active_of(e, self_id).strategy == e.strategy,
        active_of(e, self_id).gate == e.gate,
        active_of(e, self_id).popularity == e.popularity,
        active_of(e, self_id).is_rushed == e.is_rushed,
        active_of(e, self_id).is_dueling == e.is_dueling,
        active_of(e, self_id).has_dueled == e.has_dueled,
        active_of(e, self_id).activated_advantage_effect_types
            == e.activated_advantage_effect_types,
{
}

/// A runner's conditions see every other runner still racing, in order, and not
/// herself.
pub proof fn conditions_see_everyone_else(entries: Seq<SnapEntry>, self_id: RunnerId)
    ensures
        ({
            let others = entries.filter(|e: SnapEntry| e.id != self_id);
            &&& others_seen(entries, self_id).len() == others.len()
            &&& forall|i: int|
                0 <= i < others.len() ==> {
                    let o = #[trigger] others_seen(entries, self_id)[i];
                    &&& o.position == others[i].position
                    &&& o.current_lane == others[i].current_lane
                    &&& o.current_speed == others[i].current_speed
                }
        }),
    decreases entries.len(),
{
    reveal(Seq::filter);
    if entries.len() > 0 {
        conditions_see_everyone_else(entries.drop_last(), self_id);
        let before = others_seen(entries.drop_last(), self_id);
        let all = others_seen(entries, self_id);
        let kept = entries.filter(|e: SnapEntry| e.id != self_id);
        let kept_before = entries.drop_last().filter(|e: SnapEntry| e.id != self_id);
        assert forall|i: int| 0 <= i < kept.len() implies {
            let o = #[trigger] all[i];
            &&& o.position == kept[i].position
            &&& o.current_lane == kept[i].current_lane
            &&& o.current_speed == kept[i].current_speed
        } by {
            if i < kept_before.len() {
                assert(all[i] == before[i] && kept[i] == kept_before[i]);
            }
        }
    }
}

/// Whom a debuff reaches: everyone, those of the style it names (a Runaway is a
/// Front Runner), those ahead of the caster or those behind her, and never the
/// caster; a selector that is none of these reaches nobody.
pub proof fn a_debuff_reaches_whom_it_selects(
    e: SnapEntry,
    source: RunnerId,
    at: Option<i64>,
    style: Option<Strategy>,
    target: SkillTarget,
)
    ensures
        ({
            let hit = reaches(e, source, at, target, style);
            let same_style = style is Some && (style->0 == e.strategy || (style->0
                == Strategy::FrontRunner && e.strategy == Strategy::Runaway) || (style->0
                == Strategy::Runaway && e.strategy == Strategy::FrontRunner));
            &&& e.id == source ==> !hit
            &&& e.id != source && target == SkillTarget::All ==> hit
            &&& e.id != source && target == SkillTarget::EnemyStrategy ==> hit == same_style
            &&& e.id != source && target == SkillTarget::KakariStrategy ==> hit == same_style
            &&& e.id != source && target == SkillTarget::AheadOfSelf ==> hit == (at is Some
                && at->0 < e.position)
            &&& e.id != source && target == SkillTarget::BehindSelf ==> hit == (at is Some
                && e.position < at->0)
            &&& target != SkillTarget::All && target != SkillTarget::EnemyStrategy && target
                != SkillTarget::KakariStrategy && target != SkillTarget::AheadOfSelf && target
                != SkillTarget::BehindSelf ==> !hit
        }),
{
}

/// A debuff's targets stand in the order of the field, as many times as they
/// stand in it.
pub proof fn targets_stand_in_field_order(
    entries: Seq<SnapEntry>,
    source: RunnerId,
    at: Option<i64>,
    target: SkillTarget,
    style: Option<Strategy>,
)
    ensures
        debuff_targets(entries, source, at, target, style) == entries.filter(
            |e: SnapEntry| reaches(e, source, at, target, style),
        ).map_values(|e: SnapEntry| e.id),
    decreases entries.len(),
{
    reveal(Seq::filter);
    let hit = |e: SnapEntry| reaches(e, source, at, target, style);
    let id = |e: SnapEntry| e.id;
    if entries.len() > 0 {
        targets_stand_in_field_order(entries.drop_last(), source, at, target, style);
    }
    assert(debuff_targets(entries, source, at, target, style) =~= entries.filter(hit).map_values(
        id,
    ));
}

/// The caster is found where her first entry stands, and nowhere without one.
pub proof fn the_caster_is_where_her_entry_is(entries: Seq<SnapEntry>, id: RunnerId, i: int)
    ensures
        0 <= i < entries.len() && entries[i].id == id && (forall|j: int|
            0 <= j < i ==> (#[trigger] entries[j]).id != id) ==> position_of(entries, id) == Some(
            entries[i].position,
        ),
        (forall|j: int| 0 <= j < entries.len() ==> (#[trigger] entries[j]).id != id)
            ==> position_of(entries, id) is None,
    decreases entries.len(),
{
    if entries.len() > 0 {
        let rest = entries.skip(1);
        assert forall|j: int| 0 <= j < rest.len() implies (#[trigger] rest[j]) == entries[j
            + 1] by {}
        the_caster_is_where_her_entry_is(rest, id, i - 1);
        if entries[0].id != id {
            if 0 <= i < entries.len() && entries[i].id == id && (forall|j: int|
                0 <= j < i ==> (#[trigger] entries[j]).id != id) {
                assert(rest[i - 1] == entries[i]);
                assert forall|j: int| 0 <= j < i - 1 implies (#[trigger] rest[j]).id != id by {
                    assert(rest[j] == entries[j + 1]);
                }
            }
            if forall|j: int| 0 <= j < entries.len() ==> (#[trigger] entries[j]).id != id {
                assert forall|j: int| 0 <= j < rest.len() implies (#[trigger] rest[j]).id != id by {
                    assert(rest[j] == entries[j + 1]);
                }
            }
        }
    }
}

/// A name finds the first value listed under it, and none that is not listed.
pub proof fn a_name_finds_its_first_value(list: Seq<NamedValue>, name: Seq<char>, i: int)
    ensures
        0 <= i < list.len() && list[i].name@ == name && (forall|j: int|
            0 <= j < i ==> (#[trigger] list[j]).name@ != name) ==> named_value(list, name) == Some(
            list[i].value,
        ),
        (forall|j: int| 0 <= j < list.len() ==> (#[trigger] list[j]).name@ != name)
            ==> named_value(list, name) is None,
    decreases list.len(),
{
    if list.len() > 0 {
        let rest = list.skip(1);
        a_name_finds_its_first_value(rest, name, i - 1);
        if list[0].name@ != name {
            if 0 <= i < list.len() && list[i].name@ == name && (forall|j: int|
                0 <= j < i ==> (#[trigger] list[j]).name@ != name) {
                assert(rest[i - 1] == list[i]);
                assert forall|j: int| 0 <= j < i - 1 implies (#[trigger] rest[j]).name@ != name by {
                    assert(rest[j] == list[j + 1]);
                }
            }
            if forall|j: int| 0 <= j < list.len() ==> (#[trigger] list[j]).name@ != name {
                assert forall|j: int| 0 <= j < rest.len() implies (#[trigger] rest[j]).name@
                    != name by {
                    assert(rest[j] == list[j + 1]);
                }
            }
        }
    }
}

/// A runner further forward has the better place, whoever is scripted elsewhere:
/// of two still racing, neither scripted, the one ahead is placed ahead, and both
/// behind everyone who has finished.
pub proof fn further_forward_is_a_better_place(
    runners: Seq<Runner>,
    finished: Seq<RunnerId>,
    i: int,
    j: int,
)
    requires
        ({
            let entries = active_entries(runners, finished);
            &&& finished.len() + entries.len() <= i64::MAX
            &&& numbers_are_distinct(finished, by_position(entries))
            &&& 0 <= i < entries.len()
            &&& 0 <= j < entries.len()
            &&& is_unscripted(runners, entries[i].id.0)
            &&& is_unscripted(runners, entries[j].id.0)
        }),
    ensures
        ({
            let entries = active_entries(runners, finished);
            let a = lookup(field_order(runners, finished), entries[i].id);
            let b = lookup(field_order(runners, finished), entries[j].id);
            &&& a is Some && b is Some
            &&& finished.len() < a->0 <= finished.len() + entries.len()
            &&& entries[i].position > entries[j].position ==> a->0 < b->0
        }),
{
    broadcast use vstd::seq_lib::group_to_multiset_ensures;

    let entries = active_entries(runners, finished);
    let sorted = by_position(entries);
    the_ranking_is_the_field_in_order(entries);
    assert(entries.contains(entries[i]) && entries.contains(entries[j]));
    assert(sorted.to_multiset().count(entries[i]) > 0);
    assert(sorted.to_multiset().count(entries[j]) > 0);
    let x = sorted.index_of(entries[i]);
    let y = sorted.index_of(entries[j]);
    assert(sorted[x] == entries[i] && sorted[y] == entries[j]);
    finished_runners_hold_the_top_places(finished, entries, -1, x);
    finished_runners_hold_the_top_places(finished, entries, -1, y);
    let places = active_placed(
        finished_placed(finished, finished.len()),
        sorted,
        finished.len() as int,
        sorted.len(),
    );
    an_unscripted_runner_keeps_her_rank(places, runners, runners.len(), entries[i].id.0);
    an_unscripted_runner_keeps_her_rank(places, runners, runners.len(), entries[j].id.0);
}

/// Whether no runner of this number stands in a stretch that scripts her place.
pub open spec fn is_unscripted(runners: Seq<Runner>, number: u32) -> bool {
    forall|i: int|
        0 <= i < runners.len() && (#[trigger] runners[i]).body.id.0 == number ==> forall|k: int|
            0 <= k < runners[i].script.forced_rank@.len() ==> !((
            #[trigger] runners[i].script.forced_rank@[k]).start <= runners[i].body.position
                < runners[i].script.forced_rank@[k].end)
}

/// A tick reads the frame's own runners and places, and the places of the frame
/// before; a frame's pacer is picked with the tracker's pacer to fall back on and
/// its opening pacemaker.
pub proof fn a_tick_reads_its_own_frame(
    snapshot: FieldSnapshot,
    runners: Seq<Runner>,
    tracker: FieldOrderTracker,
)
    ensures
        tick_field(snapshot).entries == snapshot.entries@,
        tick_field(snapshot).order == snapshot.order@,
        tick_field(snapshot).previous == snapshot.previous_order@,
        runners.len() == 0 ==> frame_choice(runners, tracker) == match tracker.pacer {
            Some(id) => Some(PacerChoice { runner_id: id, branch: PacerBranch::Override }),
            None => None,
        },
        frame_choice(runners, tracker) == crate::pacing::pacer_of(
            runners,
            tracker.pacer,
            tracker.opening_pacemaker,
        ),
{
    if runners.len() == 0 {
        crate::pacing::the_pace_is_set_from_the_front(
            runners,
            tracker.pacer,
            tracker.opening_pacemaker,
        );
    }
}

} // verus!
