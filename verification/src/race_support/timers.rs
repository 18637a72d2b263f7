//! The condition timers and latches a live field keeps for each runner.
use crate::condition::blocking::{is_side_blocking, side_blocks};
use crate::condition::dynamic::{
    fresh_timers, on_band_side, order_rate_band_holds, place_of_rate, rate_place, ConditionTimers,
    OrderRateBand, RateBands, ORDER_CONTINUE_GRACE_SECONDS,
};
use crate::language::RunnerId;
use crate::pacing::{find_runner, first_with_id};
use crate::race_support::reads::{is_overtake_target, overtake_target, seen};
use crate::race_support::snapshot::{
    lookup, FieldOrderTracker, FieldSnapshot, OrderUpWindows, SnapEntry,
};
use crate::runner::Runner;
use crate::units::{absolute, magnitude, plus, sat};
use vstd::prelude::*;

verus! {

broadcast use vstd::std_specs::hash::group_hash_axioms;

/// `*_near_lane_time`: 2.5 m and one lane.
pub const NEAR_LANE_DISTANCE: i64 = 2_500_000_000;

/// `behind_near_lane_time_set1`: 5 m and 2.7 lanes.
pub const NEAR_LANE_SET1_DISTANCE: i64 = 5_000_000_000;

/// Slack on the near-lane windows' lane edges, so that a pair one lane apart up
/// to rounding counts as one lane apart: a nanometre.
pub const NEAR_LANE_EDGE_TOLERANCE: i64 = 1;

/// What one tick shows of a runner, as far as her timers read it.
#[derive(Debug, Clone, Copy, PartialEq, Eq, Structural)]
pub struct TickFacts {
    /// Her place this tick.
    pub order: Option<i64>,
    /// Her place on the previous tick.
    pub previous: Option<i64>,
    /// Her race time.
    pub elapsed: i64,
    /// Her position.
    pub position: i64,
    /// Runners she passed this tick.
    pub passed: i64,
    /// Whether the uma one place behind is right behind.
    pub near_behind: bool,
    /// The same with 5 m and 2.7 lanes.
    pub near_behind_set1: bool,
    /// Whether the uma one place ahead is right ahead.
    pub near_infront: bool,
    /// Whether the uma one place behind runs closer to the inner fence.
    pub behind_is_inner: bool,
    /// Whether she is blocked in front.
    pub front_blocked: bool,
    /// Whether she is blocked on a side.
    pub side_blocked: bool,
    /// Whether she has an overtake target.
    pub has_target: bool,
    /// Whether she is someone's overtake target.
    pub is_target: bool,
}

/// The field a tick is read from: who is racing, and the places on this tick
/// and the previous one.
#[verifier::ext_equal]
pub struct TickField {
    pub entries: Seq<SnapEntry>,
    pub order: Map<u32, i64>,
    pub previous: Map<u32, i64>,
}

/// What a snapshot shows of a tick.
pub open spec fn tick_field(snapshot: FieldSnapshot) -> TickField {
    TickField {
        entries: snapshot.entries@,
        order: snapshot.order@,
        previous: snapshot.previous_order@,
    }
}

/// Whether `e` was ahead of a runner on the previous tick and is behind her on
/// this one, her places being `p` and `o`.
pub open spec fn was_passed(field: TickField, e: SnapEntry, o: int, p: int) -> bool {
    match (lookup(field.order, e.id), lookup(field.previous, e.id)) {
        (Some(now), Some(before)) => before < p && now > o,
        _ => false,
    }
}

/// How many of the first `n` entries a runner has passed this tick.
pub open spec fn passed_count(field: TickField, o: int, p: int, n: nat) -> nat
    decreases n,
{
    if n == 0 {
        0
    } else {
        passed_count(field, o, p, (n - 1) as nat) + if was_passed(field, field.entries[n - 1], o, p) {
            1nat
        } else {
            0nat
        }
    }
}

/// The first entry from `i` on in place `place`.
pub open spec fn entry_at_place(field: TickField, place: int, i: int) -> Option<SnapEntry>
    decreases field.entries.len() - i,
{
    if i < 0 || i >= field.entries.len() {
        None
    } else if lookup(field.order, field.entries[i].id) is Some && lookup(
        field.order,
        field.entries[i].id,
    )->0 == place {
        Some(field.entries[i])
    } else {
        entry_at_place(field, place, i + 1)
    }
}

/// The uma `offset` places from a runner in place `order`.
pub open spec fn adjacent(field: TickField, order: Option<i64>, offset: int) -> Option<SnapEntry> {
    match order {
        Some(o) => entry_at_place(field, o + offset, 0),
        None => None,
    }
}

/// Whether `other` is on the runner's heels (`sign` -1) or she on `other`'s
/// (`sign` 1): no more than `distance` along and `tenths` tenths of a lane
/// across, up to rounding.
pub open spec fn in_near_lane(
    me: SnapEntry,
    other: Option<SnapEntry>,
    sign: int,
    distance: int,
    tenths: int,
    horse_lane: int,
) -> bool {
    match other {
        Some(o) => {
            let gap = sign * (o.position - me.position);
            &&& 0 < gap <= distance
            &&& 10 * magnitude(o.current_lane - me.current_lane) <= tenths * horse_lane + 10
                * NEAR_LANE_EDGE_TOLERANCE
        },
        None => false,
    }
}

/// Whether the entry at `i` is another runner who blocks the side of `me`.
pub open spec fn blocks_side(field: TickField, me: SnapEntry, i: int, horse_lane: int) -> bool {
    let e = field.entries[i];
    e.id != me.id && side_blocks(
        e.position - me.position,
        magnitude(e.current_lane - me.current_lane),
        horse_lane,
    )
}

/// Whether the entry at `i` is another runner and an overtake target of `me`.
pub open spec fn is_target_of(field: TickField, me: SnapEntry, i: int, horse_lane: int) -> bool {
    let e = field.entries[i];
    e.id != me.id && overtake_target(seen(me), me.front_blocker, seen(e), horse_lane)
}

/// Whether the entry at `i` is another runner and `me` an overtake target of
/// hers.
pub open spec fn targets(field: TickField, me: SnapEntry, i: int, horse_lane: int) -> bool {
    let e = field.entries[i];
    e.id != me.id && overtake_target(seen(e), e.front_blocker, seen(me), horse_lane)
}

/// The race time of the runner with this id; 0 where she is not listed.
pub open spec fn elapsed_of(runners: Seq<Runner>, id: RunnerId) -> i64 {
    match first_with_id(runners, id, 0) {
        Some(i) => runners[i].body.accumulate_time.in_seconds() as i64,
        None => 0,
    }
}

/// What this tick shows of the runner at entry `k`.
pub open spec fn facts_of(
    field: TickField,
    runners: Seq<Runner>,
    k: int,
    horse_lane: int,
) -> TickFacts {
    let me = field.entries[k];
    let order = lookup(field.order, me.id);
    let previous = lookup(field.previous, me.id);
    let behind = adjacent(field, order, 1);
    let ahead = adjacent(field, order, -1);
    TickFacts {
        order,
        previous,
        elapsed: elapsed_of(runners, me.id),
        position: me.position,
        passed: match (order, previous) {
            (Some(o), Some(p)) => sat(
                passed_count(field, o as int, p as int, field.entries.len()) as int,
            ) as i64,
            _ => 0,
        },
        near_behind: in_near_lane(me, behind, -1, NEAR_LANE_DISTANCE as int, 10, horse_lane),
        near_behind_set1: in_near_lane(
            me,
            behind,
            -1,
            NEAR_LANE_SET1_DISTANCE as int,
            27,
            horse_lane,
        ),
        near_infront: in_near_lane(me, ahead, 1, NEAR_LANE_DISTANCE as int, 10, horse_lane),
        behind_is_inner: behind is Some && behind->0.current_lane < me.current_lane,
        front_blocked: me.front_blocker is Some,
        side_blocked: exists|i: int|
            0 <= i < field.entries.len() && #[trigger] blocks_side(field, me, i, horse_lane),
        has_target: exists|i: int|
            0 <= i < field.entries.len() && #[trigger] is_target_of(field, me, i, horse_lane),
        is_target: exists|i: int|
            0 <= i < field.entries.len() && #[trigger] targets(field, me, i, horse_lane),
    }
}

/// Whether she changed places this tick.
pub open spec fn placement_changed(facts: TickFacts) -> bool {
    facts.order is Some && facts.previous is Some && facts.order != facts.previous
}

/// Whether she moved up this tick.
pub open spec fn moved_up(facts: TickFacts) -> bool {
    facts.order is Some && facts.previous is Some && facts.order->0 < facts.previous->0
}

/// A duration one step on: longer while the state holds, 0 otherwise.
pub open spec fn stepped(held: bool, value: i64, dt: i64) -> i64 {
    if held {
        sat(value + dt) as i64
    } else {
        0
    }
}

/// The bands still held after this tick.
pub open spec fn bands_after(
    bands: RateBands,
    order: int,
    field_size: int,
    is_in: bool,
) -> RateBands {
    RateBands {
        top20: bands.top20 && on_band_side(
            order,
            rate_place(field_size, OrderRateBand::Top20.share()),
            is_in,
        ),
        top40: bands.top40 && on_band_side(
            order,
            rate_place(field_size, OrderRateBand::Top40.share()),
            is_in,
        ),
        top50: bands.top50 && on_band_side(
            order,
            rate_place(field_size, OrderRateBand::Top50.share()),
            is_in,
        ),
        top70: bands.top70 && on_band_side(
            order,
            rate_place(field_size, OrderRateBand::Top70.share()),
            is_in,
        ),
        top80: bands.top80 && on_band_side(
            order,
            rate_place(field_size, OrderRateBand::Top80.share()),
            is_in,
        ),
    }
}

/// A pass counter after this tick.
pub open spec fn count_after(count: i64, passed: i64, counts: bool) -> i64 {
    if counts && passed > 0 {
        sat(count + passed) as i64
    } else {
        count
    }
}

/// Whether the bands are latched yet: only past the grace period, and only with
/// a place to hold against them.
pub open spec fn latches(facts: TickFacts) -> bool {
    facts.order is Some && facts.elapsed > ORDER_CONTINUE_GRACE_SECONDS
}

/// A runner's timers one tick on.
#[verifier::opaque]
pub open spec fn timers_after(
    t: ConditionTimers,
    facts: TickFacts,
    windows: Option<OrderUpWindows>,
    field_size: int,
    dt: i64,
) -> ConditionTimers {
    let changed = placement_changed(facts);
    ConditionTimers {
        near_behind: stepped(!changed && facts.near_behind, t.near_behind, dt),
        near_behind_set1: stepped(!changed && facts.near_behind_set1, t.near_behind_set1, dt),
        near_infront: stepped(!changed && facts.near_infront, t.near_infront, dt),
        blocked_front: stepped(facts.front_blocked, t.blocked_front, dt),
        blocked_side: stepped(facts.side_blocked, t.blocked_side, dt),
        blocked_all: stepped(facts.front_blocked && facts.side_blocked, t.blocked_all, dt),
        overtake_target_no_order_up: stepped(
            !moved_up(facts) && facts.has_target,
            t.overtake_target_no_order_up,
            dt,
        ),
        overtaken: stepped(facts.is_target, t.overtaken, dt),
        has_overtake_target: facts.has_target,
        behind_is_inner: facts.behind_is_inner,
        in_band: if latches(facts) {
            bands_after(t.in_band, facts.order->0 as int, field_size, true)
        } else {
            t.in_band
        },
        out_band: if latches(facts) {
            bands_after(t.out_band, facts.order->0 as int, field_size, false)
        } else {
            t.out_band
        },
        order_up_middle: count_after(
            t.order_up_middle,
            facts.passed,
            windows is Some && windows->0.middle_start <= facts.position < windows->0.late_start,
        ),
        order_up_end_after: count_after(
            t.order_up_end_after,
            facts.passed,
            windows is Some && facts.position >= windows->0.late_start,
        ),
        order_up_finalcorner_after: count_after(
            t.order_up_finalcorner_after,
            facts.passed,
            windows is Some && windows->0.final_corner_start is Some && facts.position
                >= windows->0.final_corner_start->0,
        ),
    }
}

/// A runner's timers in a map; fresh ones where she has none yet.
pub open spec fn timers_or_fresh(map: Map<u32, ConditionTimers>, id: RunnerId) -> ConditionTimers {
    match lookup(map, id) {
        Some(t) => t,
        None => fresh_timers(),
    }
}

/// The size of the field the bands are held against: at least 1.
pub open spec fn band_field_size(num_total: i64) -> int {
    if num_total > 1 {
        num_total as int
    } else {
        1
    }
}

/// The carried timers once the first `n` entries have been advanced.
pub open spec fn carried_after(
    carried: Map<u32, ConditionTimers>,
    field: TickField,
    runners: Seq<Runner>,
    windows: Option<OrderUpWindows>,
    field_size: int,
    horse_lane: int,
    dt: i64,
    n: nat,
) -> Map<u32, ConditionTimers>
    decreases n,
{
    if n == 0 {
        carried
    } else {
        let before = carried_after(
            carried,
            field,
            runners,
            windows,
            field_size,
            horse_lane,
            dt,
            (n - 1) as nat,
        );
        let me = field.entries[n - 1];
        before.insert(
            me.id.0,
            timers_after(
                timers_or_fresh(before, me.id),
                facts_of(field, runners, n - 1, horse_lane),
                windows,
                field_size,
                dt,
            ),
        )
    }
}

/// The snapshot's timers once the first `n` entries' have been copied in from
/// `carried`, the carried timers at each step.
pub open spec fn shown_after(
    shown: Map<u32, ConditionTimers>,
    carried: Map<u32, ConditionTimers>,
    field: TickField,
    runners: Seq<Runner>,
    windows: Option<OrderUpWindows>,
    field_size: int,
    horse_lane: int,
    dt: i64,
    n: nat,
) -> Map<u32, ConditionTimers>
    decreases n,
{
    if n == 0 {
        shown
    } else {
        let me = field.entries[n - 1];
        shown_after(
            shown,
            carried,
            field,
            runners,
            windows,
            field_size,
            horse_lane,
            dt,
            (n - 1) as nat,
        ).insert(
            me.id.0,
            carried_after(carried, field, runners, windows, field_size, horse_lane, dt, n)[me.id.0],
        )
    }
}

fn count_passed(snapshot: &FieldSnapshot, o: i64, p: i64) -> (n: i64)
    ensures
        n == sat(
            passed_count(
                tick_field(*snapshot),
                o as int,
                p as int,
                snapshot.entries@.len(),
            ) as int,
        ),
{
    let mut count: usize = 0;
    let mut i: usize = 0;
    while i < snapshot.entries.len()
        invariant
            i <= snapshot.entries@.len(),
            count <= i,
            count == passed_count(tick_field(*snapshot), o as int, p as int, i as nat),
        decreases snapshot.entries@.len() - i,
    {
        let id = snapshot.entries[i].id;
        if let (Some(now), Some(before)) = (snapshot.place_of(id), snapshot.previous_place_of(id)) {
            if before < p && now > o {
                count = count + 1;
            }
        }
        i = i + 1;
    }
    crate::units::count_of(count)
}

fn find_at_place(snapshot: &FieldSnapshot, place: i128) -> (found: Option<SnapEntry>)
    ensures
        found == entry_at_place(tick_field(*snapshot), place as int, 0),
{
    let mut i: usize = 0;
    while i < snapshot.entries.len()
        invariant
            i <= snapshot.entries@.len(),
            entry_at_place(tick_field(*snapshot), place as int, 0) == entry_at_place(
                tick_field(*snapshot),
                place as int,
                i as int,
            ),
        decreases snapshot.entries@.len() - i,
    {
        if let Some(at) = snapshot.place_of(snapshot.entries[i].id) {
            if at as i128 == place {
                return Some(snapshot.entries[i]);
            }
        }
        i = i + 1;
    }
    None
}

fn find_adjacent(snapshot: &FieldSnapshot, order: Option<i64>, offset: i64) -> (found: Option<
    SnapEntry,
>)
    ensures
        found == adjacent(tick_field(*snapshot), order, offset as int),
{
    match order {
        Some(o) => find_at_place(snapshot, o as i128 + offset as i128),
        None => None,
    }
}

fn near_lane(
    me: &SnapEntry,
    other: &Option<SnapEntry>,
    behind: bool,
    distance: i64,
    tenths: i64,
    horse_lane: i64,
) -> (near: bool)
    requires
        0 <= tenths <= 100,
    ensures
        near == in_near_lane(
            *me,
            *other,
            if behind {
                -1
            } else {
                1
            },
            distance as int,
            tenths as int,
            horse_lane as int,
        ),
{
    match other {
        Some(o) => {
            let along: i128 = o.position as i128 - me.position as i128;
            let gap: i128 = if behind {
                -along
            } else {
                along
            };
            let across: i128 = absolute(o.current_lane as i128 - me.current_lane as i128);
            0 < gap && gap <= distance as i128 && 10 * across <= crate::units::wide_product(
                tenths,
                horse_lane,
            ) + 10 * NEAR_LANE_EDGE_TOLERANCE as i128
        },
        None => false,
    }
}

/// What this tick shows of the runner at entry `k` (see [`facts_of`]).
fn read_facts(
    snapshot: &FieldSnapshot,
    runners: &[Runner],
    k: usize,
    horse_lane: i64,
) -> (facts: TickFacts)
    requires
        k < snapshot.entries@.len(),
    ensures
        facts == facts_of(tick_field(*snapshot), runners@, k as int, horse_lane as int),
{
    let me = snapshot.entries[k];
    let order = snapshot.place_of(me.id);
    let previous = snapshot.previous_place_of(me.id);
    let elapsed: i64 = match find_runner(runners, me.id) {
        Some(i) => runners[i].body.accumulate_time.seconds(),
        None => 0,
    };
    let passed: i64 = match (order, previous) {
        (Some(o), Some(p)) => count_passed(snapshot, o, p),
        _ => 0,
    };
    let behind = find_adjacent(snapshot, order, 1);
    let ahead = find_adjacent(snapshot, order, -1);
    let behind_is_inner = match behind {
        Some(b) => b.current_lane < me.current_lane,
        None => false,
    };
    let ghost field = tick_field(*snapshot);
    let mut side_blocked = false;
    let mut has_target = false;
    let mut is_target = false;
    let me_seen = me.proximity_snapshot();
    let mut i: usize = 0;
    while i < snapshot.entries.len()
        invariant
            i <= snapshot.entries@.len(),
            field == tick_field(*snapshot),
            me_seen == seen(me),
            side_blocked == exists|j: int|
                0 <= j < i && #[trigger] blocks_side(field, me, j, horse_lane as int),
            has_target == exists|j: int|
                0 <= j < i && #[trigger] is_target_of(field, me, j, horse_lane as int),
            is_target == exists|j: int|
                0 <= j < i && #[trigger] targets(field, me, j, horse_lane as int),
        decreases snapshot.entries@.len() - i,
    {
        let other = snapshot.entries[i];
        let ghost (was_blocked, had, was) = (side_blocked, has_target, is_target);
        if other.id != me.id {
            let along: i128 = other.position as i128 - me.position as i128;
            let across: i128 = absolute(other.current_lane as i128 - me.current_lane as i128);
            let other_seen = other.proximity_snapshot();
            if is_side_blocking(along, across, horse_lane) {
                side_blocked = true;
            }
            if is_overtake_target(&me_seen, me.front_blocker, &other_seen, horse_lane) {
                has_target = true;
            }
            if is_overtake_target(&other_seen, other.front_blocker, &me_seen, horse_lane) {
                is_target = true;
            }
        }
        proof {
            let hl = horse_lane as int;
            assert(side_blocked == (was_blocked || blocks_side(field, me, i as int, hl)));
            assert(has_target == (had || is_target_of(field, me, i as int, hl)));
            assert(is_target == (was || targets(field, me, i as int, hl)));
        }
        i = i + 1;
    }
    TickFacts {
        order,
        previous,
        elapsed,
        position: me.position,
        passed,
        near_behind: near_lane(&me, &behind, true, NEAR_LANE_DISTANCE, 10, horse_lane),
        near_behind_set1: near_lane(&me, &behind, true, NEAR_LANE_SET1_DISTANCE, 27, horse_lane),
        near_infront: near_lane(&me, &ahead, false, NEAR_LANE_DISTANCE, 10, horse_lane),
        behind_is_inner,
        front_blocked: me.front_blocker.is_some(),
        side_blocked,
        has_target,
        is_target,
    }
}

fn step(held: bool, value: i64, dt: i64) -> (r: i64)
    ensures
        r == stepped(held, value, dt),
{
    if held {
        plus(value, dt)
    } else {
        0
    }
}

fn hold_bands(bands: RateBands, order: i64, field_size: i64, is_in: bool) -> (r: RateBands)
    ensures
        r == bands_after(bands, order as int, field_size as int, is_in),
{
    RateBands {
        top20: bands.top20 && order_rate_band_holds(order, place_of_rate(field_size, 20), is_in),
        top40: bands.top40 && order_rate_band_holds(order, place_of_rate(field_size, 40), is_in),
        top50: bands.top50 && order_rate_band_holds(order, place_of_rate(field_size, 50), is_in),
        top70: bands.top70 && order_rate_band_holds(order, place_of_rate(field_size, 70), is_in),
        top80: bands.top80 && order_rate_band_holds(order, place_of_rate(field_size, 80), is_in),
    }
}

fn count_on(count: i64, passed: i64, counts: bool) -> (r: i64)
    ensures
        r == count_after(count, passed, counts),
{
    if counts && passed > 0 {
        plus(count, passed)
    } else {
        count
    }
}

/// A runner's timers one tick on (see [`timers_after`]).
pub fn advance_timers(
    t: &ConditionTimers,
    facts: &TickFacts,
    windows: Option<OrderUpWindows>,
    field_size: i64,
    dt: i64,
) -> (next: ConditionTimers)
    ensures
        next == timers_after(*t, *facts, windows, field_size as int, dt),
{
    proof {
        reveal(timers_after);
    }
    let (changed, up) = match (facts.order, facts.previous) {
        (Some(o), Some(p)) => (o != p, o < p),
        _ => (false, false),
    };
    let mut in_band = t.in_band;
    let mut out_band = t.out_band;
    if let Some(o) = facts.order {
        if facts.elapsed > ORDER_CONTINUE_GRACE_SECONDS {
            in_band = hold_bands(t.in_band, o, field_size, true);
            out_band = hold_bands(t.out_band, o, field_size, false);
        }
    }
    let (middle, late, corner) = match windows {
        Some(w) => (
            w.middle_start <= facts.position && facts.position < w.late_start,
            facts.position >= w.late_start,
            match w.final_corner_start {
                Some(start) => facts.position >= start,
                None => false,
            },
        ),
        None => (false, false, false),
    };
    ConditionTimers {
        near_behind: step(!changed && facts.near_behind, t.near_behind, dt),
        near_behind_set1: step(!changed && facts.near_behind_set1, t.near_behind_set1, dt),
        near_infront: step(!changed && facts.near_infront, t.near_infront, dt),
        blocked_front: step(facts.front_blocked, t.blocked_front, dt),
        blocked_side: step(facts.side_blocked, t.blocked_side, dt),
        blocked_all: step(facts.front_blocked && facts.side_blocked, t.blocked_all, dt),
        overtake_target_no_order_up: step(
            !up && facts.has_target,
            t.overtake_target_no_order_up,
            dt,
        ),
        overtaken: step(facts.is_target, t.overtaken, dt),
        has_overtake_target: facts.has_target,
        behind_is_inner: facts.behind_is_inner,
        in_band,
        out_band,
        order_up_middle: count_on(t.order_up_middle, facts.passed, middle),
        order_up_end_after: count_on(t.order_up_end_after, facts.passed, late),
        order_up_finalcorner_after: count_on(t.order_up_finalcorner_after, facts.passed, corner),
    }
}

/// Advance every active runner's condition timers by one `dt` step and copy
/// them into the snapshot, so the conditions read durations and histories
/// instead of the race clock. Each runner's race time comes from `runners`.
pub fn update_condition_timers(
    snapshot: &mut FieldSnapshot,
    tracker: &mut FieldOrderTracker,
    runners: &[Runner],
    dt: i64,
    horse_lane: i64,
)
    ensures
        ({
            let field = tick_field(*old(snapshot));
            let size = band_field_size(old(snapshot).num_total);
            let windows = old(tracker).order_up_windows;
            let n = field.entries.len();
            &&& final(tracker).condition_timers@ == carried_after(
                old(tracker).condition_timers@,
                field,
                runners@,
                windows,
                size,
                horse_lane as int,
                dt,
                n,
            )
            &&& final(snapshot).condition_timers@ == shown_after(
                old(snapshot).condition_timers@,
                old(tracker).condition_timers@,
                field,
                runners@,
                windows,
                size,
                horse_lane as int,
                dt,
                n,
            )
        }),
        *final(snapshot) == (FieldSnapshot {
            condition_timers: final(snapshot).condition_timers,
            ..*old(snapshot)
        }),
        *final(tracker) == (FieldOrderTracker {
            condition_timers: final(tracker).condition_timers,
            ..*old(tracker)
        }),
{
    let field_size: i64 = if snapshot.num_total > 1 {
        snapshot.num_total
    } else {
        1
    };
    let windows = tracker.order_up_windows;
    let ghost field = tick_field(*snapshot);
    let ghost start = *snapshot;
    let ghost carried = *tracker;
    let total: usize = snapshot.entries.len();
    let mut k: usize = 0;
    while k < total
        invariant
            k <= total,
            total == snapshot.entries@.len(),
            field == tick_field(*snapshot),
            field_size == band_field_size(start.num_total),
            windows == carried.order_up_windows,
            *snapshot == (FieldSnapshot { condition_timers: snapshot.condition_timers, ..start }),
            *tracker == (FieldOrderTracker {
                condition_timers: tracker.condition_timers,
                ..carried
            }),
            tracker.condition_timers@ == carried_after(
                carried.condition_timers@,
                field,
                runners@,
                windows,
                field_size as int,
                horse_lane as int,
                dt,
                k as nat,
            ),
            snapshot.condition_timers@ == shown_after(
                start.condition_timers@,
                carried.condition_timers@,
                field,
                runners@,
                windows,
                field_size as int,
                horse_lane as int,
                dt,
                k as nat,
            ),
        decreases total - k,
    {
        let facts = read_facts(snapshot, runners, k, horse_lane);
        let id = snapshot.entries[k].id;
        let before = match tracker.condition_timers.get(&id.0) {
            Some(t) => *t,
            None => ConditionTimers::default(),
        };
        let next = advance_timers(&before, &facts, windows, field_size, dt);
        tracker.condition_timers.insert(id.0, next);
        snapshot.condition_timers.insert(id.0, next);
        k = k + 1;
    }
}

/// A band once left stays left: a tick never gives one back.
pub proof fn a_band_once_left_stays_left(
    t: ConditionTimers,
    facts: TickFacts,
    windows: Option<OrderUpWindows>,
    field_size: int,
    dt: i64,
    band: OrderRateBand,
)
    ensures
        ({
            let next = timers_after(t, facts, windows, field_size, dt);
            &&& next.in_band.flag(band) ==> t.in_band.flag(band)
            &&& next.out_band.flag(band) ==> t.out_band.flag(band)
        }),
{
    reveal(timers_after);
}

/// During the grace period no band is left, and past it a band is kept exactly
/// while the runner is on its side of the threshold place.
pub proof fn bands_count_from_the_grace_period(
    t: ConditionTimers,
    facts: TickFacts,
    windows: Option<OrderUpWindows>,
    field_size: int,
    dt: i64,
    band: OrderRateBand,
)
    ensures
        ({
            let next = timers_after(t, facts, windows, field_size, dt);
            let place = rate_place(field_size, band.share());
            if facts.elapsed <= ORDER_CONTINUE_GRACE_SECONDS || facts.order is None {
                next.in_band == t.in_band && next.out_band == t.out_band
            } else {
                &&& next.in_band.flag(band) == (t.in_band.flag(band) && facts.order->0 <= place)
                &&& next.out_band.flag(band) == (t.out_band.flag(band) && facts.order->0 >= place)
            }
        }),
{
    reveal(timers_after);
}

/// A change of the runner's own place resets her near-lane timers, and moving
/// up a place resets the time she has had an overtake target.
pub proof fn placement_changes_reset_the_timers(
    t: ConditionTimers,
    facts: TickFacts,
    windows: Option<OrderUpWindows>,
    field_size: int,
    dt: i64,
)
    ensures
        ({
            let next = timers_after(t, facts, windows, field_size, dt);
            &&& placement_changed(facts) ==> next.near_behind == 0 && next.near_behind_set1 == 0
                && next.near_infront == 0
            &&& moved_up(facts) ==> next.overtake_target_no_order_up == 0
        }),
{
    reveal(timers_after);
}

/// A runner's pass counters never run backwards, and count nothing without the
/// course windows.
pub proof fn pass_counters_never_run_backwards(
    t: ConditionTimers,
    facts: TickFacts,
    windows: Option<OrderUpWindows>,
    field_size: int,
    dt: i64,
)
    ensures
        ({
            let next = timers_after(t, facts, windows, field_size, dt);
            &&& next.order_up_middle >= t.order_up_middle
            &&& next.order_up_end_after >= t.order_up_end_after
            &&& next.order_up_finalcorner_after >= t.order_up_finalcorner_after
            &&& windows is None ==> next.order_up_middle == t.order_up_middle
                && next.order_up_end_after == t.order_up_end_after
                && next.order_up_finalcorner_after == t.order_up_finalcorner_after
        }),
{
    reveal(timers_after);
}

/// Whether being blocked on all sides has lasted no longer than being blocked
/// in front or on a side.
pub open spec fn blocked_times_agree(t: ConditionTimers) -> bool {
    0 <= t.blocked_all && t.blocked_all <= t.blocked_front && t.blocked_all <= t.blocked_side
}

/// Being blocked on all sides never outlasts being blocked in front or on a
/// side, from the start on.
pub proof fn blocked_on_all_sides_is_blocked_in_front_and_at_the_side(
    t: ConditionTimers,
    facts: TickFacts,
    windows: Option<OrderUpWindows>,
    field_size: int,
    dt: i64,
)
    requires
        dt >= 0,
        blocked_times_agree(t),
    ensures
        blocked_times_agree(fresh_timers()),
        blocked_times_agree(timers_after(t, facts, windows, field_size, dt)),
{
    reveal(timers_after);
}

/// Whether the narrow near-lane spell has lasted no longer than the wide one.
pub open spec fn near_times_agree(t: ConditionTimers) -> bool {
    0 <= t.near_behind && t.near_behind <= t.near_behind_set1
}

/// A runner on another's heels by the narrow window, 2.5 m and one lane, is so
/// by the wide one, 5 m and 2.7 lanes: the narrow spell never outlasts the wide
/// one, from the start on.
pub proof fn the_narrow_spell_never_outlasts_the_wide_one(
    t: ConditionTimers,
    field: TickField,
    runners: Seq<Runner>,
    k: int,
    horse_lane: int,
    windows: Option<OrderUpWindows>,
    field_size: int,
    dt: i64,
)
    requires
        dt >= 0,
        horse_lane >= 0,
        near_times_agree(t),
    ensures
        near_times_agree(fresh_timers()),
        near_times_agree(
            timers_after(t, facts_of(field, runners, k, horse_lane), windows, field_size, dt),
        ),
{
    reveal(timers_after);
}

/// The time since which a state has lasted is the sum of the ticks it held:
/// `n` ticks of `dt` from nothing, or nothing at all.
pub open spec fn after_ticks_held(n: nat, dt: i64) -> i64
    decreases n,
{
    if n == 0 {
        0
    } else {
        stepped(true, after_ticks_held((n - 1) as nat, dt), dt)
    }
}

/// A state that has held for `n` ticks reads `n` ticks, not the race clock.
pub proof fn a_duration_is_the_ticks_it_held(n: nat, dt: i64)
    requires
        dt >= 0,
        n * dt <= i64::MAX,
    ensures
        after_ticks_held(n, dt) == n * dt,
    decreases n,
{
    if n > 0 {
        assert(n * dt == (n - 1) * dt + dt) by (nonlinear_arith)
            requires
                n > 0,
        ;
        a_duration_is_the_ticks_it_held((n - 1) as nat, dt);
    } else {
        assert(n * dt == 0) by (nonlinear_arith)
            requires
                n == 0,
        ;
    }
}

/// The side-block timers and the physics step read one window: the runner at
/// entry `k` is side-blocked for her timers exactly when she is for the step.
pub proof fn timers_and_physics_agree_on_side_blocks(
    field: TickField,
    runners: Seq<Runner>,
    k: int,
    horse_lane: int,
    runner: Runner,
)
    requires
        0 <= k < field.entries.len(),
        runner.body.id == field.entries[k].id,
        runner.body.position == field.entries[k].position,
        runner.body.current_lane == field.entries[k].current_lane,
    ensures
        facts_of(field, runners, k, horse_lane).side_blocked <==> exists|i: int|
            0 <= i < field.entries.len() && crate::race_support::reads::blocks_at_side(
                runner,
                seen(#[trigger] field.entries[i]),
                horse_lane,
            ),
{
    let me = field.entries[k];
    if exists|i: int|
        0 <= i < field.entries.len() && crate::race_support::reads::blocks_at_side(
            runner,
            seen(#[trigger] field.entries[i]),
            horse_lane,
        ) {
        let i = choose|i: int|
            0 <= i < field.entries.len() && crate::race_support::reads::blocks_at_side(
                runner,
                seen(#[trigger] field.entries[i]),
                horse_lane,
            );
        assert(blocks_side(field, me, i, horse_lane));
    }
    if exists|i: int|
        0 <= i < field.entries.len() && #[trigger] blocks_side(field, me, i, horse_lane) {
        let i = choose|i: int|
            0 <= i < field.entries.len() && #[trigger] blocks_side(field, me, i, horse_lane);
        assert(crate::race_support::reads::blocks_at_side(
            runner,
            seen(field.entries[i]),
            horse_lane,
        ));
    }
}

/// Whether no two entries share a number.
pub open spec fn entries_are_distinct(entries: Seq<SnapEntry>) -> bool {
    forall|i: int, j: int|
        0 <= i < j < entries.len() ==> (#[trigger] entries[i]).id.0 != (#[trigger] entries[j]).id.0
}

/// In a field without duplicates every active runner's timers advance exactly
/// once per tick, from her own, and the snapshot shows what is carried on; a
/// runner who is not racing keeps hers.
pub proof fn every_runner_advances_once(
    carried: Map<u32, ConditionTimers>,
    shown: Map<u32, ConditionTimers>,
    field: TickField,
    runners: Seq<Runner>,
    windows: Option<OrderUpWindows>,
    field_size: int,
    horse_lane: int,
    dt: i64,
    n: nat,
    number: u32,
)
    requires
        n <= field.entries.len(),
        entries_are_distinct(field.entries),
    ensures
        ({
            let after = carried_after(
                carried,
                field,
                runners,
                windows,
                field_size,
                horse_lane,
                dt,
                n,
            );
            let seen_after = shown_after(
                shown,
                carried,
                field,
                runners,
                windows,
                field_size,
                horse_lane,
                dt,
                n,
            );
            &&& forall|i: int|
                0 <= i < n ==> {
                    let id = (#[trigger] field.entries[i]).id;
                    &&& after.dom().contains(id.0)
                    &&& after[id.0] == timers_after(
                        timers_or_fresh(carried, id),
                        facts_of(field, runners, i, horse_lane),
                        windows,
                        field_size,
                        dt,
                    )
                    &&& seen_after.dom().contains(id.0)
                    &&& seen_after[id.0] == after[id.0]
                }
            &&& (forall|i: int| 0 <= i < n ==> (#[trigger] field.entries[i]).id.0 != number) ==> {
                &&& after.dom().contains(number) == carried.dom().contains(number)
                &&& carried.dom().contains(number) ==> after[number] == carried[number]
            }
        }),
    decreases n,
{
    if n > 0 {
        let m = (n - 1) as nat;
        let last = field.entries[n - 1].id;
        every_runner_advances_once(
            carried,
            shown,
            field,
            runners,
            windows,
            field_size,
            horse_lane,
            dt,
            m,
            number,
        );
        every_runner_advances_once(
            carried,
            shown,
            field,
            runners,
            windows,
            field_size,
            horse_lane,
            dt,
            m,
            last.0,
        );
        assert forall|i: int| 0 <= i < m implies (#[trigger] field.entries[i]).id.0 != last.0 by {
            assert(field.entries[i].id.0 != field.entries[n - 1].id.0);
        }
    }
}

} // verus!
