//! The field snapshot, frozen at the start of a frame, and the pacer and order
//! state threaded from frame to frame.
use crate::condition::dynamic::ConditionTimers;
use crate::language::{RunnerId, Strategy};
use crate::pacing::{
    find_runner, first_with_id, pacer_of, select_pacer, PacerBranch, PacerChoice,
};
use crate::runner::{ForcedRank, Runner};
use crate::units::{clamp_wide, count_of, divide_rounded, plus, rounded_quotient, sat};
use std::collections::HashMap;
use vstd::prelude::*;

verus! {

broadcast use vstd::std_specs::hash::group_hash_axioms;

/// What a map keyed by runner number holds for a runner.
pub open spec fn lookup<V>(map: Map<u32, V>, id: RunnerId) -> Option<V> {
    if map.dom().contains(id.0) {
        Some(map[id.0])
    } else {
        None
    }
}

/// One active runner's frozen per-frame state.
#[derive(Debug, Clone, Copy, PartialEq, Eq, Structural)]
pub struct SnapEntry {
    /// Runner id.
    pub id: RunnerId,
    /// Position along the course.
    pub position: i64,
    /// Lateral lane offset.
    pub current_lane: i64,
    /// Current speed.
    pub current_speed: i64,
    /// Target speed.
    pub target_speed: i64,
    /// The runner that blocked this one in front last tick, if any.
    pub front_blocker: Option<RunnerId>,
    /// Running style.
    pub strategy: Strategy,
    /// Starting gate.
    pub gate: i64,
    /// Whether the runner is rushed.
    pub is_rushed: bool,
    /// Whether the runner is in a duel.
    pub is_dueling: bool,
    /// Whether the runner's duel is already over.
    pub has_dueled: bool,
    /// Bitmask of positive self-applied effect types activated so far.
    pub activated_advantage_effect_types: u64,
    /// Popularity rank (1 = most popular; 0 = unknown).
    pub popularity: i64,
}

/// A read-only snapshot of the whole field. The maps are keyed by runner
/// number.
pub struct FieldSnapshot {
    /// Active (unfinished) runners.
    pub entries: Vec<SnapEntry>,
    /// Current place (from 1), with scripted places applied.
    pub order: HashMap<u32, i64>,
    /// Place on the previous frame.
    pub previous_order: HashMap<u32, i64>,
    /// The selected pacer, if any.
    pub pacer: Option<RunnerId>,
    /// The pacer's position.
    pub pacer_position: Option<i64>,
    /// The pacer's own position-keep strategy.
    pub pacer_strategy: Option<Strategy>,
    /// Position of the second-furthest-forward runner.
    pub second_place_position: Option<i64>,
    /// Position of the furthest-forward runner.
    pub leader_position: Option<i64>,
    /// Position of the furthest-back active runner.
    pub last_position: Option<i64>,
    /// Number of active runners.
    pub num_active: i64,
    /// Size of the whole field, finished and active.
    pub num_total: i64,
    /// Condition timers as of this frame (empty until they are advanced).
    pub condition_timers: HashMap<u32, ConditionTimers>,
}

impl FieldSnapshot {
    /// A runner's place this frame.
    pub fn place_of(&self, id: RunnerId) -> (place: Option<i64>)
        ensures
            place == lookup(self.order@, id),
    {
        match self.order.get(&id.0) {
            Some(place) => Some(*place),
            None => None,
        }
    }

    /// A runner's place on the previous frame.
    pub fn previous_place_of(&self, id: RunnerId) -> (place: Option<i64>)
        ensures
            place == lookup(self.previous_order@, id),
    {
        match self.previous_order.get(&id.0) {
            Some(place) => Some(*place),
            None => None,
        }
    }

    /// A runner's condition timers this frame.
    pub fn timers_of(&self, id: RunnerId) -> (timers: Option<ConditionTimers>)
        ensures
            timers == lookup(self.condition_timers@, id),
    {
        match self.condition_timers.get(&id.0) {
            Some(timers) => Some(*timers),
            None => None,
        }
    }
}

/// Where on the course the `change_order_up_*` counters count passes.
#[derive(Debug, Clone, Copy, PartialEq, Eq, Structural)]
pub struct OrderUpWindows {
    /// Start of the Mid-Race.
    pub middle_start: i64,
    /// Start of the Late-Race (the Mid-Race ends here).
    pub late_start: i64,
    /// Start of the final corner; `None` on a course without corners.
    pub final_corner_start: Option<i64>,
}

impl OrderUpWindows {
    /// The windows of a course: the Mid-Race is `[D/6, 2D/3)`, the Late-Race
    /// runs from 2D/3, and the final corner from its start.
    pub fn for_course(distance: i64, final_corner_start: Option<i64>) -> (windows: OrderUpWindows)
        ensures
            windows.middle_start == rounded_quotient(distance as int, 6),
            windows.late_start == rounded_quotient(2 * distance, 3),
            windows.final_corner_start == final_corner_start,
    {
        OrderUpWindows {
            middle_start: divide_rounded(distance as i128, 6) as i64,
            late_start: divide_rounded(2 * distance as i128, 3) as i64,
            final_corner_start,
        }
    }
}

/// The pacer and order state threaded across frames.
pub struct FieldOrderTracker {
    /// Current pacer.
    pub pacer: Option<RunnerId>,
    /// Current pacer's position.
    pub pacer_position: Option<i64>,
    /// The runner a front-less field elected first.
    pub opening_pacemaker: Option<RunnerId>,
    /// Current places.
    pub runner_order: HashMap<u32, i64>,
    /// Places on the previous tick.
    pub previous_runner_order: HashMap<u32, i64>,
    /// Condition timers, carried across frames.
    pub condition_timers: HashMap<u32, ConditionTimers>,
    /// The course windows the `change_order_up_*` counters count in; `None`
    /// counts nothing.
    pub order_up_windows: Option<OrderUpWindows>,
}

impl FieldOrderTracker {
    /// Whether no round has run yet.
    pub open spec fn is_fresh(self) -> bool {
        &&& self.pacer is None
        &&& self.pacer_position is None
        &&& self.opening_pacemaker is None
        &&& self.runner_order@ == Map::<u32, i64>::empty()
        &&& self.previous_runner_order@ == Map::<u32, i64>::empty()
        &&& self.condition_timers@ == Map::<u32, ConditionTimers>::empty()
    }

    /// A fresh tracker: no pacer, no places, no windows.
    pub fn new() -> (tracker: FieldOrderTracker)
        ensures
            tracker.is_fresh(),
            tracker.order_up_windows is None,
    {
        FieldOrderTracker {
            pacer: None,
            pacer_position: None,
            opening_pacemaker: None,
            runner_order: HashMap::new(),
            previous_runner_order: HashMap::new(),
            condition_timers: HashMap::new(),
            order_up_windows: None,
        }
    }

    /// Reset to the pre-round state; the course windows stay.
    pub fn reset(&mut self)
        ensures
            final(self).is_fresh(),
            final(self).order_up_windows == old(self).order_up_windows,
    {
        self.pacer = None;
        self.pacer_position = None;
        self.opening_pacemaker = None;
        self.runner_order.clear();
        self.previous_runner_order.clear();
        self.condition_timers.clear();
    }
}

/// A runner's frozen state.
pub open spec fn frozen(r: Runner) -> SnapEntry {
    SnapEntry {
        id: r.body.id,
        position: r.body.position,
        current_lane: r.body.current_lane,
        current_speed: r.body.current_speed,
        target_speed: r.body.target_speed,
        front_blocker: r.body.front_blocker,
        strategy: r.body.strategy,
        gate: r.body.gate,
        is_rushed: r.body.is_rushed,
        is_dueling: r.body.is_dueling,
        has_dueled: r.body.has_dueled,
        activated_advantage_effect_types: r.tally.activated_advantage_effect_types,
        popularity: r.body.popularity,
    }
}

/// The runners still racing, frozen, in order.
pub open spec fn active_entries(runners: Seq<Runner>, finished: Seq<RunnerId>) -> Seq<SnapEntry>
    decreases runners.len(),
{
    if runners.len() == 0 {
        Seq::empty()
    } else {
        let before = active_entries(runners.drop_last(), finished);
        if finished.contains(runners.last().body.id) {
            before
        } else {
            before.push(frozen(runners.last()))
        }
    }
}

/// `sorted` with `e` put in behind every entry at least as far forward.
pub open spec fn put_in_place(sorted: Seq<SnapEntry>, e: SnapEntry) -> Seq<SnapEntry>
    decreases sorted.len(),
{
    if sorted.len() == 0 || sorted.last().position >= e.position {
        sorted.push(e)
    } else {
        put_in_place(sorted.drop_last(), e).push(sorted.last())
    }
}

/// The entries from the furthest forward to the furthest back; level ones in
/// the order they are listed.
pub open spec fn by_position(entries: Seq<SnapEntry>) -> Seq<SnapEntry>
    decreases entries.len(),
{
    if entries.len() == 0 {
        Seq::empty()
    } else {
        put_in_place(by_position(entries.drop_last()), entries.last())
    }
}

/// The places of the first `n` finished runners, in finish order.
pub open spec fn finished_placed(finished: Seq<RunnerId>, n: nat) -> Map<u32, i64>
    decreases n,
{
    if n == 0 {
        Map::empty()
    } else {
        finished_placed(finished, (n - 1) as nat).insert(finished[n - 1].0, sat(n as int) as i64)
    }
}

/// `places` with the first `n` of the sorted active runners placed behind
/// `ahead` finished ones.
pub open spec fn active_placed(
    places: Map<u32, i64>,
    sorted: Seq<SnapEntry>,
    ahead: int,
    n: nat,
) -> Map<u32, i64>
    decreases n,
{
    if n == 0 {
        places
    } else {
        active_placed(places, sorted, ahead, (n - 1) as nat).insert(
            sorted[n - 1].id.0,
            sat(ahead + n) as i64,
        )
    }
}

/// The place scripted for a position: that of the first stretch it lies in.
pub open spec fn scripted_place(forced: Seq<ForcedRank>, position: int) -> Option<i64>
    decreases forced.len(),
{
    if forced.len() == 0 {
        None
    } else if forced[0].start <= position < forced[0].end {
        Some(forced[0].rank)
    } else {
        scripted_place(forced.skip(1), position)
    }
}

/// `places` with the scripted places of the first `n` runners applied.
pub open spec fn scripts_applied(places: Map<u32, i64>, runners: Seq<Runner>, n: nat) -> Map<
    u32,
    i64,
>
    decreases n,
{
    if n == 0 {
        places
    } else {
        let before = scripts_applied(places, runners, (n - 1) as nat);
        let r = runners[n - 1];
        match scripted_place(r.script.forced_rank@, r.body.position as int) {
            Some(rank) => before.insert(r.body.id.0, rank),
            None => before,
        }
    }
}

/// The places of the field: finished runners hold the top ones in finish order,
/// runners still racing rank behind them by position, and scripted places stand
/// over both.
pub open spec fn field_order(runners: Seq<Runner>, finished: Seq<RunnerId>) -> Map<u32, i64> {
    let sorted = by_position(active_entries(runners, finished));
    scripts_applied(
        active_placed(
            finished_placed(finished, finished.len()),
            sorted,
            finished.len() as int,
            sorted.len(),
        ),
        runners,
        runners.len(),
    )
}

/// The position at place `i` of the sorted active runners, if there is one.
pub open spec fn position_at(sorted: Seq<SnapEntry>, i: int) -> Option<i64> {
    if 0 <= i < sorted.len() {
        Some(sorted[i].position)
    } else {
        None
    }
}

/// The runner the choice names, in the field.
pub open spec fn chosen_runner(runners: Seq<Runner>, choice: Option<PacerChoice>) -> Option<int> {
    match choice {
        Some(c) => first_with_id(runners, c.runner_id, 0),
        None => None,
    }
}

/// The opening pacemaker once `choice` has been made: the first one the
/// front-less election returned, and kept from then on.
pub open spec fn opening_after(
    opening: Option<RunnerId>,
    choice: Option<PacerChoice>,
) -> Option<RunnerId> {
    match (opening, choice) {
        (None, Some(c)) => if c.branch == PacerBranch::FrontLessElection {
            Some(c.runner_id)
        } else {
            None
        },
        _ => opening,
    }
}

/// The pacer of the frame, given the tracker's.
pub open spec fn frame_choice(runners: Seq<Runner>, tracker: FieldOrderTracker) -> Option<
    PacerChoice,
> {
    pacer_of(runners, tracker.pacer, tracker.opening_pacemaker)
}

/// The pacer's position, where she is in the field.
pub open spec fn pacer_position_of(runners: Seq<Runner>, choice: Option<PacerChoice>) -> Option<
    i64,
> {
    match chosen_runner(runners, choice) {
        Some(i) => Some(runners[i].body.position),
        None => None,
    }
}

/// The pacer's own position-keep strategy, where she is in the field.
pub open spec fn pacer_strategy_of(runners: Seq<Runner>, choice: Option<PacerChoice>) -> Option<
    Strategy,
> {
    match chosen_runner(runners, choice) {
        Some(i) => Some(runners[i].tally.position_keep_strategy),
        None => None,
    }
}

fn contains_id(ids: &[RunnerId], id: RunnerId) -> (found: bool)
    ensures
        found == ids@.contains(id),
{
    let mut i: usize = 0;
    while i < ids.len()
        invariant
            i <= ids@.len(),
            forall|k: int| 0 <= k < i ==> ids@[k] != id,
        decreases ids@.len() - i,
    {
        if ids[i] == id {
            return true;
        }
        i = i + 1;
    }
    false
}

fn freeze(r: &Runner) -> (e: SnapEntry)
    ensures
        e == frozen(*r),
{
    SnapEntry {
        id: r.body.id,
        position: r.body.position,
        current_lane: r.body.current_lane,
        current_speed: r.body.current_speed,
        target_speed: r.body.target_speed,
        front_blocker: r.body.front_blocker,
        strategy: r.body.strategy,
        gate: r.body.gate,
        is_rushed: r.body.is_rushed,
        is_dueling: r.body.is_dueling,
        has_dueled: r.body.has_dueled,
        activated_advantage_effect_types: r.tally.activated_advantage_effect_types,
        popularity: r.body.popularity,
    }
}

fn freeze_active(runners: &[Runner], finished: &[RunnerId]) -> (entries: Vec<SnapEntry>)
    ensures
        entries@ == active_entries(runners@, finished@),
{
    let mut entries: Vec<SnapEntry> = Vec::new();
    let mut i: usize = 0;
    while i < runners.len()
        invariant
            i <= runners@.len(),
            entries@ == active_entries(runners@.take(i as int), finished@),
        decreases runners@.len() - i,
    {
        proof {
            assert(runners@.take(i + 1).drop_last() =~= runners@.take(i as int));
        }
        if !contains_id(finished, runners[i].body.id) {
            entries.push(freeze(&runners[i]));
        }
        i = i + 1;
    }
    proof {
        assert(runners@.take(i as int) =~= runners@);
    }
    entries
}

fn insert_in_place(sorted: &mut Vec<SnapEntry>, e: SnapEntry)
    ensures
        final(sorted)@ == put_in_place(old(sorted)@, e),
{
    let ghost before = sorted@;
    let mut at: usize = sorted.len();
    proof {
        assert(before.take(at as int) =~= before);
        assert(put_in_place(before, e) =~= put_in_place(before, e) + before.skip(at as int));
    }
    while at > 0 && sorted[at - 1].position < e.position
        invariant
            sorted@ == before,
            at <= before.len(),
            put_in_place(before, e) == put_in_place(before.take(at as int), e) + before.skip(
                at as int,
            ),
        decreases at,
    {
        proof {
            let part = before.take(at as int);
            assert(part.drop_last() =~= before.take(at - 1));
            assert(put_in_place(part, e) + before.skip(at as int) =~= put_in_place(
                before.take(at - 1),
                e,
            ) + before.skip(at - 1));
        }
        at = at - 1;
    }
    proof {
        let part = before.take(at as int);
        assert(at > 0 ==> part.last() == before[at - 1]);
        assert(put_in_place(part, e) == part.push(e));
        assert(part.push(e) + before.skip(at as int) =~= before.insert(at as int, e));
    }
    sorted.insert(at, e);
}

fn sort_by_position(entries: &Vec<SnapEntry>) -> (sorted: Vec<SnapEntry>)
    ensures
        sorted@ == by_position(entries@),
{
    let mut sorted: Vec<SnapEntry> = Vec::new();
    let mut i: usize = 0;
    while i < entries.len()
        invariant
            i <= entries@.len(),
            sorted@ == by_position(entries@.take(i as int)),
        decreases entries@.len() - i,
    {
        proof {
            assert(entries@.take(i + 1).drop_last() =~= entries@.take(i as int));
        }
        insert_in_place(&mut sorted, entries[i]);
        i = i + 1;
    }
    proof {
        assert(entries@.take(i as int) =~= entries@);
    }
    sorted
}

fn find_scripted_place(forced: &Vec<ForcedRank>, position: i64) -> (rank: Option<i64>)
    ensures
        rank == scripted_place(forced@, position as int),
{
    let mut i: usize = 0;
    proof {
        assert(forced@.skip(0) =~= forced@);
    }
    while i < forced.len()
        invariant
            i <= forced@.len(),
            scripted_place(forced@, position as int) == scripted_place(
                forced@.skip(i as int),
                position as int,
            ),
        decreases forced@.len() - i,
    {
        if position >= forced[i].start && position < forced[i].end {
            return Some(forced[i].rank);
        }
        proof {
            assert(forced@.skip(i as int).skip(1) =~= forced@.skip(i + 1));
        }
        i = i + 1;
    }
    None
}

fn place_field(
    runners: &[Runner],
    finished: &[RunnerId],
    sorted: &Vec<SnapEntry>,
) -> (order: HashMap<u32, i64>)
    requires
        sorted@ == by_position(active_entries(runners@, finished@)),
    ensures
        order@ == field_order(runners@, finished@),
{
    let mut order: HashMap<u32, i64> = HashMap::new();
    let ahead: usize = finished.len();
    let mut i: usize = 0;
    while i < ahead
        invariant
            ahead == finished@.len(),
            i <= ahead,
            order@ == finished_placed(finished@, i as nat),
        decreases ahead - i,
    {
        order.insert(finished[i].0, clamp_wide(i as i128 + 1));
        i = i + 1;
    }
    let mut i: usize = 0;
    while i < sorted.len()
        invariant
            ahead == finished@.len(),
            i <= sorted@.len(),
            order@ == active_placed(
                finished_placed(finished@, ahead as nat),
                sorted@,
                ahead as int,
                i as nat,
            ),
        decreases sorted@.len() - i,
    {
        order.insert(sorted[i].id.0, clamp_wide(ahead as i128 + i as i128 + 1));
        i = i + 1;
    }
    let ghost placed = order@;
    let mut i: usize = 0;
    while i < runners.len()
        invariant
            i <= runners@.len(),
            order@ == scripts_applied(placed, runners@, i as nat),
        decreases runners@.len() - i,
    {
        let rank = find_scripted_place(&runners[i].script.forced_rank, runners[i].body.position);
        if let Some(rank) = rank {
            order.insert(runners[i].body.id.0, rank);
        }
        i = i + 1;
    }
    order
}

/// Build the field snapshot for this frame: resolve the pacer, then freeze
/// every active runner's state and refresh the places in `tracker`.
///
/// The field is read, never written. The one piece of pacer history kept is who
/// a front-less field elected first.
pub fn build_field_snapshot(
    runners: &[Runner],
    finished_runners: &[RunnerId],
    tracker: &mut FieldOrderTracker,
) -> (snapshot: FieldSnapshot)
    ensures
        ({
            let choice = frame_choice(runners@, *old(tracker));
            let sorted = by_position(active_entries(runners@, finished_runners@));
            &&& snapshot.entries@ == active_entries(runners@, finished_runners@)
            &&& snapshot.order@ == field_order(runners@, finished_runners@)
            &&& snapshot.previous_order@ == old(tracker).runner_order@
            &&& snapshot.pacer == final(tracker).pacer
            &&& snapshot.pacer_position == final(tracker).pacer_position
            &&& snapshot.pacer_strategy == pacer_strategy_of(runners@, choice)
            &&& snapshot.leader_position == position_at(sorted, 0)
            &&& snapshot.second_place_position == position_at(sorted, 1)
            &&& snapshot.last_position == position_at(sorted, sorted.len() - 1)
            &&& snapshot.num_active == sat(snapshot.entries@.len() as int)
            &&& snapshot.num_total == sat(
                sat(finished_runners@.len() as int) + sat(snapshot.entries@.len() as int),
            )
            &&& snapshot.condition_timers@ == Map::<u32, ConditionTimers>::empty()
            &&& final(tracker).pacer == match choice {
                Some(c) => Some(c.runner_id),
                None => None,
            }
            &&& final(tracker).pacer_position == pacer_position_of(runners@, choice)
            &&& final(tracker).opening_pacemaker == opening_after(
                old(tracker).opening_pacemaker,
                choice,
            )
            &&& final(tracker).runner_order@ == snapshot.order@
            &&& final(tracker).previous_runner_order@ == old(tracker).runner_order@
            &&& final(tracker).condition_timers == old(tracker).condition_timers
            &&& final(tracker).order_up_windows == old(tracker).order_up_windows
        }),
{
    let choice = select_pacer(runners, tracker.pacer, tracker.opening_pacemaker);
    let mut pacer_strategy: Option<Strategy> = None;
    tracker.pacer = None;
    tracker.pacer_position = None;
    if let Some(c) = choice {
        tracker.pacer = Some(c.runner_id);
        if c.branch == PacerBranch::FrontLessElection && tracker.opening_pacemaker.is_none() {
            tracker.opening_pacemaker = Some(c.runner_id);
        }
        if let Some(i) = find_runner(runners, c.runner_id) {
            tracker.pacer_position = Some(runners[i].body.position);
            pacer_strategy = Some(runners[i].tally.position_keep_strategy);
        }
    }
    let entries = freeze_active(runners, finished_runners);
    let sorted = sort_by_position(&entries);
    let order = place_field(runners, finished_runners, &sorted);
    let previous_order = tracker.runner_order.clone();
    tracker.runner_order = order.clone();
    tracker.previous_runner_order = previous_order.clone();
    let n: usize = sorted.len();
    let leader_position = if n > 0 {
        Some(sorted[0].position)
    } else {
        None
    };
    let second_place_position = if n > 1 {
        Some(sorted[1].position)
    } else {
        None
    };
    let last_position = if n > 0 {
        Some(sorted[n - 1].position)
    } else {
        None
    };
    let num_active: i64 = count_of(entries.len());
    FieldSnapshot {
        num_active,
        num_total: plus(count_of(finished_runners.len()), num_active),
        entries,
        order,
        previous_order,
        pacer: tracker.pacer,
        pacer_position: tracker.pacer_position,
        pacer_strategy,
        second_place_position,
        leader_position,
        last_position,
        condition_timers: HashMap::new(),
    }
}

/// Whether the list runs from the furthest forward to the furthest back.
pub open spec fn runs_back(sorted: Seq<SnapEntry>) -> bool {
    forall|i: int, j: int| 0 <= i < j < sorted.len() ==> sorted[i].position >= sorted[j].position
}

proof fn lemma_put_in_place(sorted: Seq<SnapEntry>, e: SnapEntry)
    requires
        runs_back(sorted),
    ensures
        runs_back(put_in_place(sorted, e)),
        put_in_place(sorted, e).to_multiset() == sorted.to_multiset().insert(e),
        put_in_place(sorted, e).len() == sorted.len() + 1,
        forall|i: int|
            0 <= i < put_in_place(sorted, e).len() ==> (#[trigger] put_in_place(sorted, e)[i]) == e
                || sorted.contains(put_in_place(sorted, e)[i]),
    decreases sorted.len(),
{
    broadcast use vstd::seq_lib::group_to_multiset_ensures;
    broadcast use vstd::multiset::group_multiset_axioms;

    let result = put_in_place(sorted, e);
    if sorted.len() > 0 && sorted.last().position < e.position {
        let init = sorted.drop_last();
        lemma_put_in_place(init, e);
        let placed = put_in_place(init, e);
        assert(sorted =~= init.push(sorted.last()));
        assert(result.to_multiset() =~= sorted.to_multiset().insert(e));
        assert forall|i: int| 0 <= i < result.len() implies (#[trigger] result[i]) == e
            || sorted.contains(result[i]) by {
            if i < placed.len() {
                assert(result[i] == placed[i]);
                if placed[i] != e {
                    let k = init.index_of(placed[i]);
                    assert(sorted[k] == placed[i]);
                }
            } else {
                assert(sorted[sorted.len() - 1] == result[i]);
            }
        }
        assert forall|i: int, j: int| 0 <= i < j < result.len() implies result[i].position
            >= result[j].position by {
            if j == placed.len() {
                assert(placed[i] == e || init.contains(placed[i]));
                if placed[i] != e {
                    let k = init.index_of(placed[i]);
                    assert(sorted[k] == placed[i]);
                }
            }
        }
    } else {
        assert forall|i: int| 0 <= i < result.len() implies (#[trigger] result[i]) == e
            || sorted.contains(result[i]) by {
            if i < sorted.len() {
                assert(sorted[i] == result[i]);
            }
        }
        assert forall|i: int, j: int| 0 <= i < j < result.len() implies result[i].position
            >= result[j].position by {
            if j == sorted.len() && i < sorted.len() - 1 {
                assert(sorted[i].position >= sorted[sorted.len() - 1].position);
            }
        }
    }
}

/// The ranking holds the active runners, each once, and runs from the furthest
/// forward to the furthest back.
pub proof fn the_ranking_is_the_field_in_order(entries: Seq<SnapEntry>)
    ensures
        by_position(entries).to_multiset() == entries.to_multiset(),
        by_position(entries).len() == entries.len(),
        runs_back(by_position(entries)),
    decreases entries.len(),
{
    broadcast use vstd::seq_lib::group_to_multiset_ensures;

    if entries.len() > 0 {
        the_ranking_is_the_field_in_order(entries.drop_last());
        lemma_put_in_place(by_position(entries.drop_last()), entries.last());
        assert(entries =~= entries.drop_last().push(entries.last()));
    }
}

/// The entries at one position, in list order.
pub open spec fn level_with(list: Seq<SnapEntry>, position: i64) -> Seq<SnapEntry>
    decreases list.len(),
{
    if list.len() == 0 {
        Seq::empty()
    } else {
        let before = level_with(list.drop_last(), position);
        if list.last().position == position {
            before.push(list.last())
        } else {
            before
        }
    }
}

proof fn lemma_level_after_put(sorted: Seq<SnapEntry>, e: SnapEntry, position: i64)
    requires
        runs_back(sorted),
    ensures
        level_with(put_in_place(sorted, e), position) == if e.position == position {
            level_with(sorted, position).push(e)
        } else {
            level_with(sorted, position)
        },
    decreases sorted.len(),
{
    if sorted.len() > 0 && sorted.last().position < e.position {
        let init = sorted.drop_last();
        lemma_level_after_put(init, e, position);
        let placed = put_in_place(init, e);
        assert(put_in_place(sorted, e) == placed.push(sorted.last()));
        assert(placed.push(sorted.last()).drop_last() =~= placed);
    } else {
        assert(sorted.push(e).drop_last() =~= sorted);
    }
}

/// Runners level with each other keep the order they are listed in.
pub proof fn level_runners_keep_their_order(entries: Seq<SnapEntry>, position: i64)
    ensures
        level_with(by_position(entries), position) == level_with(entries, position),
    decreases entries.len(),
{
    if entries.len() > 0 {
        level_runners_keep_their_order(entries.drop_last(), position);
        the_ranking_is_the_field_in_order(entries.drop_last());
        lemma_level_after_put(by_position(entries.drop_last()), entries.last(), position);
    }
}

/// Whether no two finished or active runners share a number.
pub open spec fn numbers_are_distinct(finished: Seq<RunnerId>, sorted: Seq<SnapEntry>) -> bool {
    &&& forall|i: int, j: int|
        0 <= i < j < finished.len() ==> (#[trigger] finished[i]).0 != (#[trigger] finished[j]).0
    &&& forall|i: int, j: int|
        0 <= i < j < sorted.len() ==> (#[trigger] sorted[i]).id.0 != (#[trigger] sorted[j]).id.0
    &&& forall|i: int, j: int|
        0 <= i < finished.len() && 0 <= j < sorted.len() ==> (#[trigger] finished[i]).0 != (
        #[trigger] sorted[j]).id.0
}

proof fn lemma_finished_places(finished: Seq<RunnerId>, n: nat, i: int)
    requires
        n <= finished.len() <= i64::MAX,
        forall|a: int, b: int|
            0 <= a < b < finished.len() ==> (#[trigger] finished[a]).0 != (#[trigger] finished[b]).0,
        0 <= i < n,
    ensures
        lookup(finished_placed(finished, n), finished[i]) == Some((i + 1) as i64),
    decreases n,
{
    if i < n - 1 {
        lemma_finished_places(finished, (n - 1) as nat, i);
        assert(finished[i].0 != finished[n - 1].0);
    }
}

proof fn lemma_active_places(
    places: Map<u32, i64>,
    sorted: Seq<SnapEntry>,
    ahead: int,
    n: nat,
    number: u32,
)
    requires
        n <= sorted.len(),
        ahead + sorted.len() <= i64::MAX,
        ahead >= 0,
        forall|a: int, b: int|
            0 <= a < b < sorted.len() ==> (#[trigger] sorted[a]).id.0 != (#[trigger] sorted[b]).id.0,
    ensures
        forall|i: int|
            0 <= i < n ==> active_placed(places, sorted, ahead, n).dom().contains(
                (#[trigger] sorted[i]).id.0,
            ) && active_placed(places, sorted, ahead, n)[sorted[i].id.0] == ahead + i + 1,
        (forall|i: int| 0 <= i < n ==> (#[trigger] sorted[i]).id.0 != number) ==> {
            &&& active_placed(places, sorted, ahead, n).dom().contains(number)
                == places.dom().contains(number)
            &&& places.dom().contains(number) ==> active_placed(places, sorted, ahead, n)[number]
                == places[number]
        },
    decreases n,
{
    if n > 0 {
        lemma_active_places(places, sorted, ahead, (n - 1) as nat, number);
        assert forall|i: int| 0 <= i < n implies active_placed(
            places,
            sorted,
            ahead,
            n,
        ).dom().contains((#[trigger] sorted[i]).id.0) && active_placed(
            places,
            sorted,
            ahead,
            n,
        )[sorted[i].id.0] == ahead + i + 1 by {
            if i < n - 1 {
                assert(sorted[i].id.0 != sorted[n - 1].id.0);
            }
        }
    }
}

/// Before any scripted place, finished runners hold the top places in finish
/// order, and a runner still racing ranks behind all of them and behind exactly
/// the active runners ahead of her in the ranking: a trailing runner does not
/// become first when the leaders cross the line.
pub proof fn finished_runners_hold_the_top_places(
    finished: Seq<RunnerId>,
    entries: Seq<SnapEntry>,
    f: int,
    a: int,
)
    requires
        finished.len() + entries.len() <= i64::MAX,
        numbers_are_distinct(finished, by_position(entries)),
    ensures
        ({
            let sorted = by_position(entries);
            let places = active_placed(
                finished_placed(finished, finished.len()),
                sorted,
                finished.len() as int,
                sorted.len(),
            );
            &&& 0 <= f < finished.len() ==> lookup(places, finished[f]) == Some((f + 1) as i64)
            &&& 0 <= a < sorted.len() ==> lookup(places, sorted[a].id) == Some(
                (finished.len() + a + 1) as i64,
            )
        }),
{
    let sorted = by_position(entries);
    the_ranking_is_the_field_in_order(entries);
    let first = finished_placed(finished, finished.len());
    if 0 <= f < finished.len() {
        lemma_finished_places(finished, finished.len(), f);
        lemma_active_places(first, sorted, finished.len() as int, sorted.len(), finished[f].0);
        assert forall|i: int| 0 <= i < sorted.len() implies (#[trigger] sorted[i]).id.0
            != finished[f].0 by {
            assert(finished[f].0 != sorted[i].id.0);
        }
    }
    lemma_active_places(first, sorted, finished.len() as int, sorted.len(), 0);
}

/// A scripted place stands, whatever the ranking says.
pub proof fn scripted_places_stand(
    places: Map<u32, i64>,
    runners: Seq<Runner>,
    n: nat,
    i: int,
)
    requires
        n <= runners.len(),
        0 <= i < n,
        scripted_place(runners[i].script.forced_rank@, runners[i].body.position as int) is Some,
        forall|j: int| i < j < n ==> (#[trigger] runners[j]).body.id != runners[i].body.id,
    ensures
        lookup(scripts_applied(places, runners, n), runners[i].body.id) == scripted_place(
            runners[i].script.forced_rank@,
            runners[i].body.position as int,
        ),
    decreases n,
{
    if i < n - 1 {
        scripted_places_stand(places, runners, (n - 1) as nat, i);
        assert(runners[n - 1].body.id != runners[i].body.id);
    }
}

} // verus!
