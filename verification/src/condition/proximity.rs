//! Proximity conditions: counting and finding nearby runners, ahead, behind
//! and across.
use crate::condition::dynamic::{
    read_truth, read_units, readable, reading_view, register_dynamic_condition, truth, units_of,
    whole, ConditionRegistry, DynamicConditionFactory, FieldView, OwnState, ProximityToken,
    Reading, RunnerSnapshot, RunnerView,
};
use crate::units::{absolute, magnitude};
use vstd::prelude::*;

verus! {

/// `near_count`: 3 m along and 3 lanes across.
pub const NEAR_DISTANCE: i64 = 3_000_000_000;

/// A bashin, 2.5 m: the unit of the `bashin_diff_*` conditions.
pub const BASHIN: i64 = 2_500_000_000;

/// `is_surrounded`: a runner in front and one behind, each under 3 m away and
/// under 1.5 lanes across, and one outside, under 1.5 m away and under 3 lanes
/// out.
pub const SURROUNDED_DISTANCE: i64 = 3_000_000_000;

/// See [`SURROUNDED_DISTANCE`].
pub const SURROUNDED_OUT_DISTANCE: i64 = 1_500_000_000;

/// Lanes closer than this are the same lane.
pub const SAME_LANE: i64 = 10_000;

/// `visiblehorse`: up to 20 m ahead and 11.5 lanes across.
pub const VISIBLE_DISTANCE: i64 = 20_000_000_000;

/// Which side of the observing runner a predicate considers.
#[derive(Debug, Clone, Copy, PartialEq, Eq, Structural)]
pub enum Direction {
    Behind,
    Infront,
}

/// Whether `other` is no more than `distance` away along the course.
pub open spec fn within_distance(own: OwnState, other: RunnerSnapshot, distance: int) -> bool {
    magnitude(other.position - own.position) <= distance
}

/// Whether `other` is no more than `half_lanes` half lanes across.
pub open spec fn within_half_lanes(own: OwnState, other: RunnerSnapshot, half_lanes: int) -> bool {
    2 * magnitude(other.current_lane - own.current_lane) <= half_lanes * own.horse_lane
}

/// A runner close by: 3 m along and 3 lanes across.
pub open spec fn is_near(own: OwnState, other: RunnerSnapshot) -> bool {
    within_distance(own, other, NEAR_DISTANCE as int) && within_half_lanes(own, other, 6)
}

/// A runner close by and ahead.
pub open spec fn is_near_infront(own: OwnState, other: RunnerSnapshot) -> bool {
    other.position > own.position && is_near(own, other)
}

/// A runner in sight: level or up to 20 m ahead, and 11.5 lanes across.
pub open spec fn is_visible(own: OwnState, other: RunnerSnapshot) -> bool {
    0 <= other.position - own.position <= VISIBLE_DISTANCE && within_half_lanes(own, other, 23)
}

/// A runner in front, behind or outside for `is_surrounded`.
pub open spec fn closes_front(own: OwnState, other: RunnerSnapshot) -> bool {
    &&& 2 * magnitude(other.current_lane - own.current_lane) < 3 * own.horse_lane
    &&& 0 < other.position - own.position < SURROUNDED_DISTANCE
}

/// See [`closes_front`].
pub open spec fn closes_behind(own: OwnState, other: RunnerSnapshot) -> bool {
    &&& 2 * magnitude(other.current_lane - own.current_lane) < 3 * own.horse_lane
    &&& -SURROUNDED_DISTANCE < other.position - own.position < 0
}

/// See [`closes_front`].
pub open spec fn closes_outside(own: OwnState, other: RunnerSnapshot) -> bool {
    &&& magnitude(other.position - own.position) < SURROUNDED_OUT_DISTANCE
    &&& SAME_LANE <= other.current_lane - own.current_lane < 3 * own.horse_lane
}

/// Whether a runner on `direction`'s side is near enough to be at her heels
/// (or she at theirs): 3 m along and one lane across.
pub open spec fn is_near_lane(own: OwnState, other: RunnerSnapshot, direction: Direction) -> bool {
    &&& match direction {
        Direction::Behind => other.position < own.position,
        Direction::Infront => other.position > own.position,
    }
    &&& within_distance(own, other, NEAR_DISTANCE as int)
    &&& within_half_lanes(own, other, 2)
}

/// How many of `others` satisfy `counts`.
pub open spec fn count_others(
    others: Seq<RunnerSnapshot>,
    counts: spec_fn(RunnerSnapshot) -> bool,
) -> int
    decreases others.len(),
{
    if others.len() == 0 {
        0
    } else {
        count_others(others.drop_last(), counts) + if counts(others.last()) {
            1int
        } else {
            0int
        }
    }
}

/// Whether one of `others` satisfies `holds`.
pub open spec fn any_other(
    others: Seq<RunnerSnapshot>,
    holds: spec_fn(RunnerSnapshot) -> bool,
) -> bool {
    exists|i: int| 0 <= i < others.len() && holds(#[trigger] others[i])
}

/// Whether `other` lies on `direction`'s side of `position`.
pub open spec fn lies(other: RunnerSnapshot, position: int, direction: Direction) -> bool {
    match direction {
        Direction::Behind => other.position < position,
        Direction::Infront => other.position > position,
    }
}

/// Whether `gap` is the distance to the nearest of `others` on that side.
pub open spec fn is_nearest_gap(
    others: Seq<RunnerSnapshot>,
    position: int,
    direction: Direction,
    gap: int,
) -> bool {
    &&& exists|i: int|
        0 <= i < others.len() && lies(#[trigger] others[i], position, direction) && magnitude(
            others[i].position - position,
        ) == gap
    &&& forall|i: int|
        0 <= i < others.len() && lies(#[trigger] others[i], position, direction) ==> magnitude(
            others[i].position - position,
        ) >= gap
}

/// The distance to the nearest of `others` on that side, if there is one.
pub open spec fn nearest_gap(
    others: Seq<RunnerSnapshot>,
    position: int,
    direction: Direction,
) -> Option<int> {
    if any_other(others, |o: RunnerSnapshot| lies(o, position, direction)) {
        Some(choose|gap: int| is_nearest_gap(others, position, direction, gap))
    } else {
        None
    }
}

/// The value of a proximity token.
pub open spec fn proximity_reading(
    token: ProximityToken,
    own: OwnState,
    field: FieldView,
) -> Option<(int, int)> {
    let others = field.other_snapshots@;
    match token {
        ProximityToken::NearCount => whole(
            count_others(others, |o: RunnerSnapshot| is_near(own, o)),
        ),
        ProximityToken::NearInfrontCount => whole(
            count_others(others, |o: RunnerSnapshot| is_near_infront(own, o)),
        ),
        ProximityToken::IsSurrounded => truth(
            any_other(others, |o: RunnerSnapshot| closes_front(own, o)) && any_other(
                others,
                |o: RunnerSnapshot| closes_behind(own, o),
            ) && any_other(others, |o: RunnerSnapshot| closes_outside(own, o)),
        ),
        ProximityToken::BashinDiffBehind => bashin_reading(others, own, Direction::Behind),
        ProximityToken::BashinDiffInfront => bashin_reading(others, own, Direction::Infront),
        ProximityToken::BehindNearLaneTime => units_of(
            near_lane_seconds(own, field, Direction::Behind),
        ),
        ProximityToken::BehindNearLaneTimeSet1 => units_of(
            match field.condition_timers {
                Some(t) => t.near_behind_set1 as int,
                None => near_lane_seconds(own, field, Direction::Behind),
            },
        ),
        ProximityToken::InfrontNearLaneTime => units_of(
            near_lane_seconds(own, field, Direction::Infront),
        ),
        ProximityToken::Visiblehorse => whole(
            count_others(others, |o: RunnerSnapshot| is_visible(own, o)),
        ),
    }
}

/// The gap to the nearest runner on that side, in bashins.
pub open spec fn bashin_reading(
    others: Seq<RunnerSnapshot>,
    own: OwnState,
    direction: Direction,
) -> Option<(int, int)> {
    match nearest_gap(others, own.position as int, direction) {
        Some(gap) => Some((gap, BASHIN as int)),
        None => None,
    }
}

/// Seconds with an uma right behind / ahead: the live field's timer, or without
/// one the whole race clock while any uma is near.
pub open spec fn near_lane_seconds(own: OwnState, field: FieldView, direction: Direction) -> int {
    match field.condition_timers {
        Some(t) => match direction {
            Direction::Behind => t.near_behind as int,
            Direction::Infront => t.near_infront as int,
        },
        None => if any_other(
            field.other_snapshots@,
            |o: RunnerSnapshot| is_near_lane(own, o, direction),
        ) {
            own.accumulate_time as int
        } else {
            0
        },
    }
}

/// Whether `other` is no more than `distance` away along the course.
fn along_within(own: &OwnState, other: &RunnerSnapshot, distance: i64) -> (within: bool)
    ensures
        within == within_distance(*own, *other, distance as int),
{
    absolute(other.position as i128 - own.position as i128) <= distance as i128
}

/// Whether `other` is no more than `half_lanes` half lanes across.
fn across_within(own: &OwnState, other: &RunnerSnapshot, half_lanes: i64) -> (within: bool)
    requires
        0 <= half_lanes <= 100,
    ensures
        within == within_half_lanes(*own, *other, half_lanes as int),
{
    let across: i128 = absolute(other.current_lane as i128 - own.current_lane as i128);
    2 * across <= crate::units::wide_product(half_lanes, own.horse_lane)
}

fn count_near(view: &RunnerView<'_>, infront_only: bool) -> (r: Option<Reading>)
    ensures
        readable(r),
        reading_view(r) == if infront_only {
            proximity_reading(ProximityToken::NearInfrontCount, view.own, *view.field)
        } else {
            proximity_reading(ProximityToken::NearCount, view.own, *view.field)
        },
{
    let others = &view.field.other_snapshots;
    let ghost own = view.own;
    let ghost near = |o: RunnerSnapshot| is_near(own, o);
    let ghost near_infront = |o: RunnerSnapshot| is_near_infront(own, o);
    let mut count: usize = 0;
    let mut i: usize = 0;
    while i < others.len()
        invariant
            i <= others.len(),
            count <= i,
            own == view.own,
            near == (|o: RunnerSnapshot| is_near(own, o)),
            near_infront == (|o: RunnerSnapshot| is_near_infront(own, o)),
            count == if infront_only {
                count_others(others@.take(i as int), near_infront)
            } else {
                count_others(others@.take(i as int), near)
            },
        decreases others.len() - i,
    {
        let other = others[i];
        proof {
            assert(others@.take(i + 1).drop_last() =~= others@.take(i as int));
        }
        let near_by = along_within(&view.own, &other, NEAR_DISTANCE) && across_within(
            &view.own,
            &other,
            6,
        );
        if near_by && (!infront_only || other.position > view.own.position) {
            count = count + 1;
        }
        i = i + 1;
    }
    proof {
        assert(others@.take(i as int) =~= others@);
    }
    Some(Reading { value: count as i128, per: 1 })
}

fn count_visible(view: &RunnerView<'_>) -> (r: Option<Reading>)
    ensures
        readable(r),
        reading_view(r) == proximity_reading(ProximityToken::Visiblehorse, view.own, *view.field),
{
    let others = &view.field.other_snapshots;
    let ghost own = view.own;
    let ghost visible = |o: RunnerSnapshot| is_visible(own, o);
    let mut count: usize = 0;
    let mut i: usize = 0;
    while i < others.len()
        invariant
            i <= others.len(),
            count <= i,
            own == view.own,
            visible == (|o: RunnerSnapshot| is_visible(own, o)),
            count == count_others(others@.take(i as int), visible),
        decreases others.len() - i,
    {
        let other = others[i];
        proof {
            assert(others@.take(i + 1).drop_last() =~= others@.take(i as int));
        }
        let along: i128 = other.position as i128 - view.own.position as i128;
        if 0 <= along && along <= VISIBLE_DISTANCE as i128 && across_within(&view.own, &other, 23) {
            count = count + 1;
        }
        i = i + 1;
    }
    proof {
        assert(others@.take(i as int) =~= others@);
    }
    Some(Reading { value: count as i128, per: 1 })
}

fn surrounded(view: &RunnerView<'_>) -> (yes: bool)
    ensures
        reading_view(Some(Reading { value: if yes { 1 } else { 0 }, per: 1 })) == proximity_reading(
            ProximityToken::IsSurrounded,
            view.own,
            *view.field,
        ),
{
    let others = &view.field.other_snapshots;
    let ghost own = view.own;
    let mut front = false;
    let mut behind = false;
    let mut out = false;
    let mut i: usize = 0;
    while i < others.len()
        invariant
            i <= others.len(),
            own == view.own,
            front == exists|k: int| 0 <= k < i && closes_front(own, #[trigger] others@[k]),
            behind == exists|k: int| 0 <= k < i && closes_behind(own, #[trigger] others@[k]),
            out == exists|k: int| 0 <= k < i && closes_outside(own, #[trigger] others@[k]),
        decreases others.len() - i,
    {
        let other = others[i];
        let distance_gap: i128 = other.position as i128 - view.own.position as i128;
        let lane_gap: i128 = other.current_lane as i128 - view.own.current_lane as i128;
        let lanes: i128 = 3 * view.own.horse_lane as i128;
        if 2 * absolute(lane_gap) < lanes {
            if distance_gap > 0 && distance_gap < SURROUNDED_DISTANCE as i128 {
                assert(closes_front(own, others@[i as int]));
                front = true;
            }
            if distance_gap < 0 && distance_gap > -(SURROUNDED_DISTANCE as i128) {
                assert(closes_behind(own, others@[i as int]));
                behind = true;
            }
        }
        if absolute(distance_gap) < SURROUNDED_OUT_DISTANCE as i128 && lane_gap
            >= SAME_LANE as i128 && lane_gap < lanes {
            assert(closes_outside(own, others@[i as int]));
            out = true;
        }
        i = i + 1;
    }
    proof {
        let in_front = |o: RunnerSnapshot| closes_front(own, o);
        let at_back = |o: RunnerSnapshot| closes_behind(own, o);
        let outside = |o: RunnerSnapshot| closes_outside(own, o);
        if front {
            let k = choose|k: int| 0 <= k < i && closes_front(own, #[trigger] others@[k]);
            assert(in_front(others@[k]));
        }
        if behind {
            let k = choose|k: int| 0 <= k < i && closes_behind(own, #[trigger] others@[k]);
            assert(at_back(others@[k]));
        }
        if out {
            let k = choose|k: int| 0 <= k < i && closes_outside(own, #[trigger] others@[k]);
            assert(outside(others@[k]));
        }
    }
    front && behind && out
}

/// Whether the nearest gap is the only one that can be.
proof fn lemma_nearest_gap_is_unique(
    others: Seq<RunnerSnapshot>,
    position: int,
    direction: Direction,
    gap: int,
)
    requires
        is_nearest_gap(others, position, direction, gap),
    ensures
        nearest_gap(others, position, direction) == Some(gap),
{
    let on_side = |o: RunnerSnapshot| lies(o, position, direction);
    let i = choose|i: int|
        0 <= i < others.len() && lies(#[trigger] others[i], position, direction) && magnitude(
            others[i].position - position,
        ) == gap;
    assert(on_side(others[i]));
    let chosen = choose|g: int| is_nearest_gap(others, position, direction, g);
    assert(is_nearest_gap(others, position, direction, chosen));
}

fn nearest_runner(view: &RunnerView<'_>, direction: Direction) -> (gap: Option<i128>)
    ensures
        match gap {
            Some(g) => nearest_gap(view.field.other_snapshots@, view.own.position as int, direction)
                == Some(g as int),
            None => nearest_gap(
                view.field.other_snapshots@,
                view.own.position as int,
                direction,
            ) is None,
        },
{
    let others = &view.field.other_snapshots;
    let ghost position = view.own.position as int;
    let mut nearest: Option<i128> = None;
    let mut i: usize = 0;
    while i < others.len()
        invariant
            i <= others.len(),
            position == view.own.position,
            match nearest {
                Some(g) => {
                    &&& exists|k: int|
                        0 <= k < i && lies(#[trigger] others@[k], position, direction) && magnitude(
                            others@[k].position - position,
                        ) == g
                    &&& forall|k: int|
                        0 <= k < i && lies(#[trigger] others@[k], position, direction)
                            ==> magnitude(others@[k].position - position) >= g
                },
                None => forall|k: int|
                    0 <= k < i ==> !lies(#[trigger] others@[k], position, direction),
            },
        decreases others.len() - i,
    {
        let other = others[i];
        let on_side = match direction {
            Direction::Behind => other.position < view.own.position,
            Direction::Infront => other.position > view.own.position,
        };
        if on_side {
            let distance: i128 = absolute(other.position as i128 - view.own.position as i128);
            assert(lies(others@[i as int], position, direction));
            let closer = match nearest {
                Some(g) => distance < g,
                None => true,
            };
            if closer {
                nearest = Some(distance);
            }
        }
        i = i + 1;
    }
    proof {
        match nearest {
            Some(g) => {
                lemma_nearest_gap_is_unique(others@, position, direction, g as int);
            },
            None => {},
        }
    }
    nearest
}

/// The gap to the nearest runner behind, if there is one.
pub fn nearest_runner_behind(view: &RunnerView<'_>) -> (gap: Option<i128>)
    ensures
        match gap {
            Some(g) => nearest_gap(
                view.field.other_snapshots@,
                view.own.position as int,
                Direction::Behind,
            ) == Some(g as int),
            None => nearest_gap(
                view.field.other_snapshots@,
                view.own.position as int,
                Direction::Behind,
            ) is None,
        },
{
    nearest_runner(view, Direction::Behind)
}

/// The gap to the nearest runner ahead, if there is one.
pub fn nearest_runner_infront(view: &RunnerView<'_>) -> (gap: Option<i128>)
    ensures
        match gap {
            Some(g) => nearest_gap(
                view.field.other_snapshots@,
                view.own.position as int,
                Direction::Infront,
            ) == Some(g as int),
            None => nearest_gap(
                view.field.other_snapshots@,
                view.own.position as int,
                Direction::Infront,
            ) is None,
        },
{
    nearest_runner(view, Direction::Infront)
}

#[verifier::loop_isolation(false)]
fn has_near_lane_runner(view: &RunnerView<'_>, direction: Direction) -> (yes: bool)
    ensures
        yes == any_other(
            view.field.other_snapshots@,
            |o: RunnerSnapshot| is_near_lane(view.own, o, direction),
        ),
{
    let others = &view.field.other_snapshots;
    let ghost near = |o: RunnerSnapshot| is_near_lane(view.own, o, direction);
    let mut i: usize = 0;
    while i < others.len()
        invariant
            i <= others.len(),
            forall|k: int|
                0 <= k < i ==> !is_near_lane(view.own, #[trigger] others@[k], direction),
        decreases others.len() - i,
    {
        let other = others[i];
        let in_direction = match direction {
            Direction::Behind => other.position < view.own.position,
            Direction::Infront => other.position > view.own.position,
        };
        if in_direction && along_within(&view.own, &other, NEAR_DISTANCE) && across_within(
            &view.own,
            &other,
            2,
        ) {
            assert(near(others@[i as int]));
            return true;
        }
        i = i + 1;
    }
    false
}

fn near_lane_time(view: &RunnerView<'_>, direction: Direction) -> (seconds: i64)
    ensures
        seconds == near_lane_seconds(view.own, *view.field, direction),
{
    if let Some(t) = view.field.condition_timers {
        return match direction {
            Direction::Behind => t.near_behind,
            Direction::Infront => t.near_infront,
        };
    }
    if has_near_lane_runner(view, direction) {
        view.own.accumulate_time
    } else {
        0
    }
}

fn read_bashin(gap: Option<i128>) -> (r: Option<Reading>)
    ensures
        readable(r),
        reading_view(r) == match gap {
            Some(g) => Some((g as int, BASHIN as int)),
            None => None,
        },
{
    match gap {
        Some(g) => Some(Reading { value: g, per: BASHIN as i128 }),
        None => None,
    }
}

/// Read a proximity token's value.
pub fn read_proximity(token: ProximityToken, view: &RunnerView<'_>) -> (r: Option<Reading>)
    ensures
        readable(r),
        reading_view(r) == proximity_reading(token, view.own, *view.field),
{
    match token {
        ProximityToken::NearCount => count_near(view, false),
        ProximityToken::NearInfrontCount => count_near(view, true),
        ProximityToken::IsSurrounded => read_truth(surrounded(view)),
        ProximityToken::BashinDiffBehind => read_bashin(nearest_runner_behind(view)),
        ProximityToken::BashinDiffInfront => read_bashin(nearest_runner_infront(view)),
        ProximityToken::BehindNearLaneTime => read_units(near_lane_time(view, Direction::Behind)),
        ProximityToken::BehindNearLaneTimeSet1 => read_units(
            match view.field.condition_timers {
                Some(t) => t.near_behind_set1,
                None => near_lane_time(view, Direction::Behind),
            },
        ),
        ProximityToken::InfrontNearLaneTime => read_units(near_lane_time(view, Direction::Infront)),
        ProximityToken::Visiblehorse => count_visible(view),
    }
}

/// `registry` with the proximity family registered.
pub open spec fn with_proximity_conditions(
    registry: Map<Seq<char>, DynamicConditionFactory>,
) -> Map<Seq<char>, DynamicConditionFactory> {
    registry.insert(
        "near_count"@,
        DynamicConditionFactory::Proximity(ProximityToken::NearCount),
    ).insert(
        "near_infront_count"@,
        DynamicConditionFactory::Proximity(ProximityToken::NearInfrontCount),
    ).insert(
        "is_surrounded"@,
        DynamicConditionFactory::Proximity(ProximityToken::IsSurrounded),
    ).insert(
        "bashin_diff_behind"@,
        DynamicConditionFactory::Proximity(ProximityToken::BashinDiffBehind),
    ).insert(
        "bashin_diff_infront"@,
        DynamicConditionFactory::Proximity(ProximityToken::BashinDiffInfront),
    ).insert(
        "behind_near_lane_time"@,
        DynamicConditionFactory::Proximity(ProximityToken::BehindNearLaneTime),
    ).insert(
        "behind_near_lane_time_set1"@,
        DynamicConditionFactory::Proximity(ProximityToken::BehindNearLaneTimeSet1),
    ).insert(
        "infront_near_lane_time"@,
        DynamicConditionFactory::Proximity(ProximityToken::InfrontNearLaneTime),
    ).insert("visiblehorse"@, DynamicConditionFactory::Proximity(ProximityToken::Visiblehorse))
}

fn register_proximity(registry: &mut ConditionRegistry, name: &'static str, token: ProximityToken)
    ensures
        final(registry)@ == old(registry)@.insert(name@, DynamicConditionFactory::Proximity(token)),
        final(registry).all_registered() == old(registry).all_registered(),
{
    register_dynamic_condition(registry, name, DynamicConditionFactory::Proximity(token));
}

/// Register every proximity condition.
pub fn register_proximity_conditions(registry: &mut ConditionRegistry)
    ensures
        final(registry)@ == with_proximity_conditions(old(registry)@),
        final(registry).all_registered() == old(registry).all_registered(),
{
    register_proximity(registry, "near_count", ProximityToken::NearCount);
    register_proximity(registry, "near_infront_count", ProximityToken::NearInfrontCount);
    register_proximity(registry, "is_surrounded", ProximityToken::IsSurrounded);
    register_proximity(registry, "bashin_diff_behind", ProximityToken::BashinDiffBehind);
    register_proximity(registry, "bashin_diff_infront", ProximityToken::BashinDiffInfront);
    register_proximity(registry, "behind_near_lane_time", ProximityToken::BehindNearLaneTime);
    register_proximity(
        registry,
        "behind_near_lane_time_set1",
        ProximityToken::BehindNearLaneTimeSet1,
    );
    register_proximity(registry, "infront_near_lane_time", ProximityToken::InfrontNearLaneTime);
    register_proximity(registry, "visiblehorse", ProximityToken::Visiblehorse);
}

} // verus!
