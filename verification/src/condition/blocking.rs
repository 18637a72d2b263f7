//! Blocking and overtake conditions.
//!
//! Front blocking is not recomputed here: the conditions read the field's own
//! answer for the tick, the one the speed cap reads too, so a skill gated on
//! being blocked in front cannot disagree with the blocking the race applied.
use crate::condition::dynamic::{
    read_truth, read_units, read_whole, readable, reading_view, register_dynamic_condition, truth,
    units_of, whole, BlockingToken, ConditionRegistry, DynamicConditionFactory, FieldView,
    OwnState, Reading, RunnerSnapshot, RunnerView,
};
use crate::condition::proximity::any_other;
use crate::units::{absolute, magnitude};
use vstd::prelude::*;

verus! {

/// Side blocking reach along the course, either way: 1.05 m.
pub const SIDE_BLOCK_DISTANCE: i64 = 1_050_000_000;

/// Reach of the overtaking proxy along the course: 5 m.
pub const OVERTAKE_DISTANCE: i64 = 5_000_000_000;

/// Lane moves slower than this are none.
pub const MOVING_LANE: i64 = 10_000;

/// Whether a runner `distance_gap` along the course and `lane_gap` across from
/// another blocks her side: under 1.05 m and under two horse lanes, either
/// way.
pub open spec fn side_blocks(distance_gap: int, lane_gap: int, horse_lane: int) -> bool {
    magnitude(distance_gap) < SIDE_BLOCK_DISTANCE && magnitude(lane_gap) < 2 * horse_lane
}

/// See [`side_blocks`]. The one window for the physics step's side block and
/// every `blocked_side*` / `blocked_all*` condition, so the two cannot
/// disagree.
pub fn is_side_blocking(distance_gap: i128, lane_gap: i128, horse_lane: i64) -> (blocks: bool)
    requires
        i128::MIN < distance_gap,
        i128::MIN < lane_gap,
    ensures
        blocks == side_blocks(distance_gap as int, lane_gap as int, horse_lane as int),
{
    absolute(distance_gap) < SIDE_BLOCK_DISTANCE as i128 && absolute(lane_gap) < 2
        * horse_lane as i128
}

/// Whether `other` blocks the runner's side.
pub open spec fn blocks_side_of(own: OwnState, other: RunnerSnapshot) -> bool {
    side_blocks(
        other.position - own.position,
        other.current_lane - own.current_lane,
        own.horse_lane as int,
    )
}

/// Whether the runner is overtaking `other`: faster, within 5 m along and two
/// lanes across.
pub open spec fn overtakes(own: OwnState, other: RunnerSnapshot) -> bool {
    &&& own.current_speed > other.current_speed
    &&& magnitude(other.position - own.position) <= OVERTAKE_DISTANCE
    &&& magnitude(other.current_lane - own.current_lane) <= 2 * own.horse_lane
}

/// Whether some runner of the field blocks the runner's side.
pub open spec fn side_blocked(own: OwnState, field: FieldView) -> bool {
    any_other(field.other_snapshots@, |o: RunnerSnapshot| blocks_side_of(own, o))
}

/// Whether the runner is overtaking some runner of the field.
pub open spec fn overtaking(own: OwnState, field: FieldView) -> bool {
    any_other(field.other_snapshots@, |o: RunnerSnapshot| overtakes(own, o))
}

/// The duration proxy without a live field: the whole race clock while the
/// state holds.
pub open spec fn clock_while(own: OwnState, active: bool) -> int {
    if active {
        own.accumulate_time as int
    } else {
        0
    }
}

/// The runner's lane move: 0 none, 1 toward the inner fence, 2 away from it.
pub open spec fn lane_move(own: OwnState) -> int {
    if magnitude(own.lane_change_speed as int) <= MOVING_LANE {
        0
    } else if own.lane_move_outward {
        2
    } else {
        1
    }
}

/// The value of a blocking token.
pub open spec fn blocking_reading(token: BlockingToken, own: OwnState, field: FieldView) -> Option<
    (int, int),
> {
    match token {
        BlockingToken::BlockedFront => truth(field.is_front_blocked),
        BlockingToken::BlockedFrontContinuetime => units_of(
            match field.condition_timers {
                Some(t) => t.blocked_front as int,
                None => clock_while(own, field.is_front_blocked),
            },
        ),
        BlockingToken::BlockedAllContinuetime => units_of(
            match field.condition_timers {
                Some(t) => t.blocked_all as int,
                None => clock_while(own, field.is_front_blocked && side_blocked(own, field)),
            },
        ),
        BlockingToken::BlockedSide => truth(side_blocked(own, field)),
        BlockingToken::BlockedSideContinuetime => units_of(
            match field.condition_timers {
                Some(t) => t.blocked_side as int,
                None => clock_while(own, side_blocked(own, field)),
            },
        ),
        BlockingToken::IsOvertake => truth(
            match field.condition_timers {
                Some(t) => t.has_overtake_target,
                None => overtaking(own, field),
            },
        ),
        BlockingToken::IsMoveLane => whole(lane_move(own)),
        BlockingToken::OvertakeTargetTime => units_of(
            match field.condition_timers {
                Some(t) => t.overtaken as int,
                None => clock_while(own, overtaking(own, field)),
            },
        ),
        BlockingToken::OvertakeTargetNoOrderUpTime => units_of(
            match field.condition_timers {
                Some(t) => t.overtake_target_no_order_up as int,
                None => clock_while(own, overtaking(own, field)),
            },
        ),
    }
}

#[verifier::loop_isolation(false)]
fn has_side_blocking_snapshot(view: &RunnerView<'_>) -> (yes: bool)
    ensures
        yes == side_blocked(view.own, *view.field),
{
    let others = &view.field.other_snapshots;
    let ghost blocks = |o: RunnerSnapshot| blocks_side_of(view.own, o);
    let mut i: usize = 0;
    while i < others.len()
        invariant
            i <= others.len(),
            forall|k: int| 0 <= k < i ==> !blocks_side_of(view.own, #[trigger] others@[k]),
        decreases others.len() - i,
    {
        let other = others[i];
        if is_side_blocking(
            other.position as i128 - view.own.position as i128,
            other.current_lane as i128 - view.own.current_lane as i128,
            view.own.horse_lane,
        ) {
            assert(blocks(others@[i as int]));
            return true;
        }
        i = i + 1;
    }
    false
}

#[verifier::loop_isolation(false)]
fn is_overtaking_snapshot(view: &RunnerView<'_>) -> (yes: bool)
    ensures
        yes == overtaking(view.own, *view.field),
{
    let others = &view.field.other_snapshots;
    let ghost passing = |o: RunnerSnapshot| overtakes(view.own, o);
    let mut i: usize = 0;
    while i < others.len()
        invariant
            i <= others.len(),
            forall|k: int| 0 <= k < i ==> !overtakes(view.own, #[trigger] others@[k]),
        decreases others.len() - i,
    {
        let other = others[i];
        let distance_gap: i128 = absolute(other.position as i128 - view.own.position as i128);
        let lane_delta: i128 = absolute(other.current_lane as i128 - view.own.current_lane as i128);
        if view.own.current_speed > other.current_speed && distance_gap
            <= OVERTAKE_DISTANCE as i128 && lane_delta <= 2 * view.own.horse_lane as i128 {
            assert(passing(others@[i as int]));
            return true;
        }
        i = i + 1;
    }
    false
}

fn continuous_time(view: &RunnerView<'_>, active: bool) -> (seconds: i64)
    ensures
        seconds == clock_while(view.own, active),
{
    if active {
        view.own.accumulate_time
    } else {
        0
    }
}

fn lane_direction(own: &OwnState) -> (direction: i64)
    ensures
        direction == lane_move(*own),
{
    if absolute(own.lane_change_speed as i128) <= MOVING_LANE as i128 {
        0
    } else if own.lane_move_outward {
        2
    } else {
        1
    }
}

/// Read a blocking token's value.
pub fn read_blocking(token: BlockingToken, view: &RunnerView<'_>) -> (r: Option<Reading>)
    ensures
        readable(r),
        reading_view(r) == blocking_reading(token, view.own, *view.field),
{
    let timers = view.field.condition_timers;
    let front = view.field.is_front_blocked;
    match token {
        BlockingToken::BlockedFront => read_truth(front),
        BlockingToken::BlockedFrontContinuetime => read_units(
            match timers {
                Some(t) => t.blocked_front,
                None => continuous_time(view, front),
            },
        ),
        BlockingToken::BlockedAllContinuetime => read_units(
            match timers {
                Some(t) => t.blocked_all,
                None => continuous_time(view, front && has_side_blocking_snapshot(view)),
            },
        ),
        BlockingToken::BlockedSide => read_truth(has_side_blocking_snapshot(view)),
        BlockingToken::BlockedSideContinuetime => read_units(
            match timers {
                Some(t) => t.blocked_side,
                None => continuous_time(view, has_side_blocking_snapshot(view)),
            },
        ),
        BlockingToken::IsOvertake => read_truth(
            match timers {
                Some(t) => t.has_overtake_target,
                None => is_overtaking_snapshot(view),
            },
        ),
        BlockingToken::IsMoveLane => read_whole(lane_direction(&view.own)),
        BlockingToken::OvertakeTargetTime => read_units(
            match timers {
                Some(t) => t.overtaken,
                None => continuous_time(view, is_overtaking_snapshot(view)),
            },
        ),
        BlockingToken::OvertakeTargetNoOrderUpTime => read_units(
            match timers {
                Some(t) => t.overtake_target_no_order_up,
                None => continuous_time(view, is_overtaking_snapshot(view)),
            },
        ),
    }
}

/// `registry` with the blocking family registered.
pub open spec fn with_blocking_conditions(
    registry: Map<Seq<char>, DynamicConditionFactory>,
) -> Map<Seq<char>, DynamicConditionFactory> {
    registry.insert(
        "blocked_front"@,
        DynamicConditionFactory::Blocking(BlockingToken::BlockedFront),
    ).insert(
        "blocked_front_continuetime"@,
        DynamicConditionFactory::Blocking(BlockingToken::BlockedFrontContinuetime),
    ).insert(
        "blocked_all_continuetime"@,
        DynamicConditionFactory::Blocking(BlockingToken::BlockedAllContinuetime),
    ).insert(
        "blocked_side"@,
        DynamicConditionFactory::Blocking(BlockingToken::BlockedSide),
    ).insert(
        "blocked_side_continuetime"@,
        DynamicConditionFactory::Blocking(BlockingToken::BlockedSideContinuetime),
    ).insert(
        "is_overtake"@,
        DynamicConditionFactory::Blocking(BlockingToken::IsOvertake),
    ).insert("is_move_lane"@, DynamicConditionFactory::Blocking(BlockingToken::IsMoveLane)).insert(
        "overtake_target_time"@,
        DynamicConditionFactory::Blocking(BlockingToken::OvertakeTargetTime),
    ).insert(
        "overtake_target_no_order_up_time"@,
        DynamicConditionFactory::Blocking(BlockingToken::OvertakeTargetNoOrderUpTime),
    )
}

fn register_blocking(registry: &mut ConditionRegistry, name: &'static str, token: BlockingToken)
    ensures
        final(registry)@ == old(registry)@.insert(name@, DynamicConditionFactory::Blocking(token)),
        final(registry).all_registered() == old(registry).all_registered(),
{
    register_dynamic_condition(registry, name, DynamicConditionFactory::Blocking(token));
}

/// Register every blocking / overtake condition.
pub fn register_blocking_conditions(registry: &mut ConditionRegistry)
    ensures
        final(registry)@ == with_blocking_conditions(old(registry)@),
        final(registry).all_registered() == old(registry).all_registered(),
{
    register_blocking(registry, "blocked_front", BlockingToken::BlockedFront);
    register_blocking(
        registry,
        "blocked_front_continuetime",
        BlockingToken::BlockedFrontContinuetime,
    );
    register_blocking(registry, "blocked_all_continuetime", BlockingToken::BlockedAllContinuetime);
    register_blocking(registry, "blocked_side", BlockingToken::BlockedSide);
    register_blocking(
        registry,
        "blocked_side_continuetime",
        BlockingToken::BlockedSideContinuetime,
    );
    register_blocking(registry, "is_overtake", BlockingToken::IsOvertake);
    register_blocking(registry, "is_move_lane", BlockingToken::IsMoveLane);
    register_blocking(registry, "overtake_target_time", BlockingToken::OvertakeTargetTime);
    register_blocking(
        registry,
        "overtake_target_no_order_up_time",
        BlockingToken::OvertakeTargetNoOrderUpTime,
    );
}

} // verus!
