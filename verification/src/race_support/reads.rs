//! What runners see of each other: blocking, overtaking, and whom a debuff
//! reaches.
use crate::condition::blocking::{is_side_blocking, side_blocks, OVERTAKE_DISTANCE};
use crate::condition::dynamic::{ActiveRunner, FieldView, RunnerSnapshot};
use crate::effect::SkillTarget;
use crate::language::{same_text, strategy_matches, styles_match, RunnerId, Strategy};
use crate::race_support::snapshot::{lookup, FieldSnapshot, SnapEntry};
use crate::runner::{NamedValue, Runner};
use crate::units::{absolute, magnitude, wide_product, ONE};
use vstd::prelude::*;

verus! {

broadcast use vstd::std_specs::hash::group_hash_axioms;

/// A runner as the proximity reads (lane movement, blocking, overtake targets)
/// see her.
#[derive(Debug, Clone, Copy, PartialEq, Eq, Structural)]
pub struct ProximitySnapshot {
    /// Runner id.
    pub id: RunnerId,
    /// Position along the course.
    pub position: i64,
    /// Lateral lane offset.
    pub current_lane: i64,
    /// Current speed.
    pub current_speed: i64,
    /// Target speed.
    pub target_speed: i64,
    /// Whether a runner blocks her in front.
    pub is_front_blocked: bool,
}

/// The runner behind a snapshot entry, as the proximity reads see her.
pub open spec fn seen(e: SnapEntry) -> ProximitySnapshot {
    ProximitySnapshot {
        id: e.id,
        position: e.position,
        current_lane: e.current_lane,
        current_speed: e.current_speed,
        target_speed: e.target_speed,
        is_front_blocked: e.front_blocker is Some,
    }
}

impl SnapEntry {
    /// The runner as the proximity reads see her.
    pub fn proximity_snapshot(&self) -> (p: ProximitySnapshot)
        ensures
            p == seen(*self),
    {
        ProximitySnapshot {
            id: self.id,
            position: self.position,
            current_lane: self.current_lane,
            current_speed: self.current_speed,
            target_speed: self.target_speed,
            is_front_blocked: self.front_blocker.is_some(),
        }
    }
}

/// Every entry of the snapshot as the proximity reads see it.
pub fn proximity_snapshots(snapshot: &FieldSnapshot) -> (list: Vec<ProximitySnapshot>)
    ensures
        list@ == Seq::new(snapshot.entries@.len(), |i: int| seen(snapshot.entries@[i])),
{
    let mut list: Vec<ProximitySnapshot> = Vec::new();
    let mut i: usize = 0;
    while i < snapshot.entries.len()
        invariant
            i <= snapshot.entries@.len(),
            list@ == Seq::new(i as nat, |k: int| seen(snapshot.entries@[k])),
        decreases snapshot.entries@.len() - i,
    {
        list.push(snapshot.entries[i].proximity_snapshot());
        i = i + 1;
        proof {
            assert(list@ =~= Seq::new(i as nat, |k: int| seen(snapshot.entries@[k])));
        }
    }
    list
}

/// How far ahead an overtake target may be.
pub const TARGET_NEAREST: i64 = 1_000_000_000;

/// See [`TARGET_NEAREST`].
pub const TARGET_FURTHEST: i64 = 20_000_000_000;

/// Whether a runner `gap` ahead and `across` to the side is in the vision cone:
/// one horse lane either side at the runner, widening to 6.75 at 20 m.
pub open spec fn in_vision_cone(gap: int, across: int, horse_lane: int) -> bool {
    magnitude(across) * (2000 * ONE) <= (2000 * ONE + 575 * gap) * horse_lane
}

/// Whether `other` is an overtake target of `runner`. The runner blocking her
/// in front always is. Any other is one from 1 to 20 m ahead, caught within
/// 15 s at the current speeds, slower by target speed (or blocked in front and
/// slower than the chaser's target), and in the vision cone.
pub open spec fn overtake_target(
    runner: ProximitySnapshot,
    front_blocker: Option<RunnerId>,
    other: ProximitySnapshot,
    horse_lane: int,
) -> bool {
    let gap = other.position - runner.position;
    front_blocker == Some(other.id) || {
        &&& TARGET_NEAREST <= gap <= TARGET_FURTHEST
        &&& gap <= 15 * (runner.current_speed - other.current_speed)
        &&& other.target_speed < runner.target_speed || (other.is_front_blocked
            && other.current_speed < runner.target_speed)
        &&& in_vision_cone(gap, other.current_lane - runner.current_lane, horse_lane)
    }
}

/// See [`overtake_target`].
pub fn is_overtake_target(
    runner: &ProximitySnapshot,
    front_blocker: Option<RunnerId>,
    other: &ProximitySnapshot,
    horse_lane: i64,
) -> (yes: bool)
    ensures
        yes == overtake_target(*runner, front_blocker, *other, horse_lane as int),
{
    if let Some(id) = front_blocker {
        if id == other.id {
            return true;
        }
    }
    let gap: i128 = other.position as i128 - runner.position as i128;
    if gap < TARGET_NEAREST as i128 || gap > TARGET_FURTHEST as i128 {
        return false;
    }
    let closing: i128 = runner.current_speed as i128 - other.current_speed as i128;
    if gap > 15 * closing {
        return false;
    }
    let slower = other.target_speed < runner.target_speed || (other.is_front_blocked
        && other.current_speed < runner.target_speed);
    if !slower {
        return false;
    }
    let across: i128 = absolute(other.current_lane as i128 - runner.current_lane as i128);
    let reach: i64 = (2_000_000_000_000 + 575 * gap) as i64;
    across * 2_000_000_000_000 <= wide_product(reach, horse_lane)
}

/// The runner that blocks another in front.
#[derive(Debug, Clone, Copy, PartialEq, Eq, Structural)]
pub struct FrontBlock {
    /// The blocking runner.
    pub id: RunnerId,
    /// How far ahead she is.
    pub distance_gap: i64,
    /// Her speed.
    pub speed: i64,
}

/// Front blocking reach: 2 m.
pub const FRONT_BLOCK_DISTANCE: i64 = 2_000_000_000;

/// Whether `other` blocks `runner` in front: under 2 m ahead, within 0.75 horse
/// lane when touching narrowing to 0.3 at the limit.
pub open spec fn blocks_in_front(runner: Runner, other: ProximitySnapshot, horse_lane: int) -> bool {
    let gap = other.position - runner.body.position;
    &&& other.id != runner.body.id
    &&& 0 < gap < FRONT_BLOCK_DISTANCE
    &&& magnitude(other.current_lane - runner.body.current_lane) * (40 * ONE) <= (10 * ONE - 3
        * gap) * 3 * horse_lane
}

/// Whether the runner at `i` is the closest that blocks `runner` in front; of
/// equally close ones the first listed.
pub open spec fn is_closest_block(
    runner: Runner,
    snapshots: Seq<ProximitySnapshot>,
    horse_lane: int,
    i: int,
) -> bool {
    &&& 0 <= i < snapshots.len()
    &&& blocks_in_front(runner, snapshots[i], horse_lane)
    &&& forall|j: int|
        0 <= j < snapshots.len() && blocks_in_front(runner, #[trigger] snapshots[j], horse_lane)
            ==> snapshots[i].position < snapshots[j].position || (snapshots[i].position
            == snapshots[j].position && i <= j)
}

fn front_blocks(runner: &Runner, other: &ProximitySnapshot, horse_lane: i64) -> (yes: bool)
    ensures
        yes == blocks_in_front(*runner, *other, horse_lane as int),
{
    let gap: i128 = other.position as i128 - runner.body.position as i128;
    if other.id == runner.body.id || gap <= 0 || gap >= FRONT_BLOCK_DISTANCE as i128 {
        return false;
    }
    let lane_gap: i128 = absolute(other.current_lane as i128 - runner.body.current_lane as i128);
    let reach: i64 = (10_000_000_000 - 3 * gap) as i64 * 3;
    lane_gap * 40_000_000_000 <= wide_product(reach, horse_lane)
}

/// The runner blocking `runner` in front; the closest one wins.
pub fn front_blocking_runner(
    runner: &Runner,
    snapshots: &[ProximitySnapshot],
    horse_lane: i64,
) -> (block: Option<FrontBlock>)
    ensures
        match block {
            Some(b) => exists|i: int|
                is_closest_block(*runner, snapshots@, horse_lane as int, i) && b.id
                    == #[trigger] snapshots@[i].id && b.distance_gap == snapshots@[i].position
                    - runner.body.position && b.speed == snapshots@[i].current_speed,
            None => forall|j: int|
                0 <= j < snapshots@.len() ==> !blocks_in_front(
                    *runner,
                    #[trigger] snapshots@[j],
                    horse_lane as int,
                ),
        },
{
    let mut best: Option<usize> = None;
    let mut j: usize = 0;
    while j < snapshots.len()
        invariant
            j <= snapshots@.len(),
            match best {
                Some(b) => {
                    &&& b < j
                    &&& blocks_in_front(*runner, snapshots@[b as int], horse_lane as int)
                    &&& forall|k: int|
                        0 <= k < j && blocks_in_front(
                            *runner,
                            #[trigger] snapshots@[k],
                            horse_lane as int,
                        ) ==> snapshots@[b as int].position < snapshots@[k].position || (
                        snapshots@[b as int].position == snapshots@[k].position && b <= k)
                },
                None => forall|k: int|
                    0 <= k < j ==> !blocks_in_front(
                        *runner,
                        #[trigger] snapshots@[k],
                        horse_lane as int,
                    ),
            },
        decreases snapshots@.len() - j,
    {
        if front_blocks(runner, &snapshots[j], horse_lane) {
            let closer = match best {
                Some(b) => snapshots[j].position < snapshots[b].position,
                None => true,
            };
            if closer {
                best = Some(j);
            }
        }
        j = j + 1;
    }
    match best {
        Some(b) => {
            let other = snapshots[b];
            proof {
                assert(is_closest_block(*runner, snapshots@, horse_lane as int, b as int));
            }
            let gap: i128 = other.position as i128 - runner.body.position as i128;
            Some(
                FrontBlock {
                    id: other.id,
                    distance_gap: gap as i64,
                    speed: other.current_speed,
                },
            )
        },
        None => None,
    }
}

/// Whether `other` blocks the side of `runner`.
pub open spec fn blocks_at_side(runner: Runner, other: ProximitySnapshot, horse_lane: int) -> bool {
    other.id != runner.body.id && side_blocks(
        other.position - runner.body.position,
        other.current_lane - runner.body.current_lane,
        horse_lane,
    )
}

/// Whether another runner sits beside `runner`: under 1.05 m ahead or behind
/// and under two horse lanes across.
pub fn has_side_blocking_runner(
    runner: &Runner,
    snapshots: &[ProximitySnapshot],
    horse_lane: i64,
) -> (blocked: bool)
    ensures
        blocked == exists|i: int|
            0 <= i < snapshots@.len() && blocks_at_side(
                *runner,
                #[trigger] snapshots@[i],
                horse_lane as int,
            ),
{
    let mut i: usize = 0;
    while i < snapshots.len()
        invariant
            i <= snapshots@.len(),
            forall|k: int|
                0 <= k < i ==> !blocks_at_side(*runner, #[trigger] snapshots@[k], horse_lane as int),
        decreases snapshots@.len() - i,
    {
        let other = snapshots[i];
        if other.id != runner.body.id && is_side_blocking(
            other.position as i128 - runner.body.position as i128,
            other.current_lane as i128 - runner.body.current_lane as i128,
            horse_lane,
        ) {
            assert(blocks_at_side(*runner, snapshots@[i as int], horse_lane as int));
            return true;
        }
        i = i + 1;
    }
    false
}

/// Whether `runner` is overtaking `other`: faster, within 5 m along and two
/// lanes across.
pub open spec fn is_passing(runner: Runner, other: ProximitySnapshot, horse_lane: int) -> bool {
    &&& other.id != runner.body.id
    &&& runner.body.current_speed > other.current_speed
    &&& magnitude(other.position - runner.body.position) <= OVERTAKE_DISTANCE
    &&& magnitude(other.current_lane - runner.body.current_lane) <= 2 * horse_lane
}

/// Whether `runner` is overtaking another runner.
pub fn is_overtaking_runner(
    runner: &Runner,
    snapshots: &[ProximitySnapshot],
    horse_lane: i64,
) -> (overtaking: bool)
    ensures
        overtaking == exists|i: int|
            0 <= i < snapshots@.len() && is_passing(
                *runner,
                #[trigger] snapshots@[i],
                horse_lane as int,
            ),
{
    let mut i: usize = 0;
    while i < snapshots.len()
        invariant
            i <= snapshots@.len(),
            forall|k: int|
                0 <= k < i ==> !is_passing(*runner, #[trigger] snapshots@[k], horse_lane as int),
        decreases snapshots@.len() - i,
    {
        let other = snapshots[i];
        let distance_gap: i128 = absolute(other.position as i128 - runner.body.position as i128);
        let lane_delta: i128 = absolute(
            other.current_lane as i128 - runner.body.current_lane as i128,
        );
        if other.id != runner.body.id && runner.body.current_speed > other.current_speed
            && distance_gap <= OVERTAKE_DISTANCE as i128 && lane_delta <= 2 * horse_lane as i128 {
            assert(is_passing(*runner, snapshots@[i as int], horse_lane as int));
            return true;
        }
        i = i + 1;
    }
    false
}

/// The value under `name`, if there is one (the first one listed).
pub open spec fn named_value(list: Seq<NamedValue>, name: Seq<char>) -> Option<i32>
    decreases list.len(),
{
    if list.len() == 0 {
        None
    } else if list[0].name@ == name {
        Some(list[0].value)
    } else {
        named_value(list.skip(1), name)
    }
}

fn find_named(list: &Vec<NamedValue>, name: &str) -> (value: Option<i32>)
    ensures
        value == named_value(list@, name@),
{
    let mut i: usize = 0;
    proof {
        assert(list@.skip(0) =~= list@);
    }
    while i < list.len()
        invariant
            i <= list@.len(),
            named_value(list@, name@) == named_value(list@.skip(i as int), name@),
        decreases list@.len() - i,
    {
        if same_text(list[i].name.as_str(), name) {
            return Some(list[i].value);
        }
        proof {
            assert(list@.skip(i as int).skip(1) =~= list@.skip(i + 1));
        }
        i = i + 1;
    }
    None
}

/// An approximate condition's value: the ticked one, else its value at the
/// start, else 0.
pub fn condition_value(runner: &Runner, name: &str) -> (value: i32)
    ensures
        value == match named_value(runner.script.condition_values@, name@) {
            Some(v) => v,
            None => match named_value(runner.script.conditions@, name@) {
                Some(v) => v,
                None => 0,
            },
        },
{
    if let Some(v) = find_named(&runner.script.condition_values, name) {
        return v;
    }
    match find_named(&runner.script.conditions, name) {
        Some(v) => v,
        None => 0,
    }
}

/// The other entries, as a runner's conditions see them.
pub open spec fn others_seen(entries: Seq<SnapEntry>, self_id: RunnerId) -> Seq<RunnerSnapshot>
    decreases entries.len(),
{
    if entries.len() == 0 {
        Seq::empty()
    } else {
        let before = others_seen(entries.drop_last(), self_id);
        let e = entries.last();
        if e.id != self_id {
            before.push(
                RunnerSnapshot {
                    position: e.position,
                    current_lane: e.current_lane,
                    current_speed: e.current_speed,
                },
            )
        } else {
            before
        }
    }
}

/// An entry as a runner's conditions see it.
pub open spec fn active_of(e: SnapEntry, self_id: RunnerId) -> ActiveRunner {
    ActiveRunner {
        is_self: e.id == self_id,
        position: e.position,
        strategy: e.strategy,
        gate: e.gate,
        popularity: e.popularity,
        is_rushed: e.is_rushed,
        is_dueling: e.is_dueling,
        has_dueled: e.has_dueled,
        activated_advantage_effect_types: e.activated_advantage_effect_types,
    }
}

/// The field as runner `self_id` sees it this tick.
pub fn build_field_view(
    self_id: RunnerId,
    snapshot: &FieldSnapshot,
    is_front_blocked: bool,
) -> (view: FieldView)
    ensures
        view.self_order == lookup(snapshot.order@, self_id),
        view.self_previous_order == lookup(snapshot.previous_order@, self_id),
        view.num_umas == snapshot.num_total,
        view.leader_position == snapshot.leader_position,
        view.last_position == snapshot.last_position,
        view.condition_timers == lookup(snapshot.condition_timers@, self_id),
        view.is_front_blocked == is_front_blocked,
        view.other_snapshots@ == others_seen(snapshot.entries@, self_id),
        view.active_runners@ == Seq::new(
            snapshot.entries@.len(),
            |i: int| active_of(snapshot.entries@[i], self_id),
        ),
{
    let mut other_snapshots: Vec<RunnerSnapshot> = Vec::new();
    let mut active_runners: Vec<ActiveRunner> = Vec::new();
    let mut i: usize = 0;
    while i < snapshot.entries.len()
        invariant
            i <= snapshot.entries@.len(),
            other_snapshots@ == others_seen(snapshot.entries@.take(i as int), self_id),
            active_runners@ == Seq::new(i as nat, |k: int| active_of(snapshot.entries@[k], self_id)),
        decreases snapshot.entries@.len() - i,
    {
        proof {
            assert(snapshot.entries@.take(i + 1).drop_last() =~= snapshot.entries@.take(i as int));
        }
        let e = snapshot.entries[i];
        if e.id != self_id {
            other_snapshots.push(
                RunnerSnapshot {
                    position: e.position,
                    current_lane: e.current_lane,
                    current_speed: e.current_speed,
                },
            );
        }
        active_runners.push(
            ActiveRunner {
                is_self: e.id == self_id,
                position: e.position,
                strategy: e.strategy,
                gate: e.gate,
                popularity: e.popularity,
                is_rushed: e.is_rushed,
                is_dueling: e.is_dueling,
                has_dueled: e.has_dueled,
                activated_advantage_effect_types: e.activated_advantage_effect_types,
            },
        );
        i = i + 1;
        proof {
            assert(active_runners@ =~= Seq::new(
                i as nat,
                |k: int| active_of(snapshot.entries@[k], self_id),
            ));
        }
    }
    proof {
        assert(snapshot.entries@.take(i as int) =~= snapshot.entries@);
    }
    FieldView {
        self_order: snapshot.place_of(self_id),
        self_previous_order: snapshot.previous_place_of(self_id),
        num_umas: snapshot.num_total,
        leader_position: snapshot.leader_position,
        last_position: snapshot.last_position,
        condition_timers: snapshot.timers_of(self_id),
        is_front_blocked,
        other_snapshots,
        active_runners,
    }
}

/// The position of the first entry with this id.
pub open spec fn position_of(entries: Seq<SnapEntry>, id: RunnerId) -> Option<i64>
    decreases entries.len(),
{
    if entries.len() == 0 {
        None
    } else if entries[0].id == id {
        Some(entries[0].position)
    } else {
        position_of(entries.skip(1), id)
    }
}

fn find_position(entries: &Vec<SnapEntry>, id: RunnerId) -> (position: Option<i64>)
    ensures
        position == position_of(entries@, id),
{
    let mut i: usize = 0;
    proof {
        assert(entries@.skip(0) =~= entries@);
    }
    while i < entries.len()
        invariant
            i <= entries@.len(),
            position_of(entries@, id) == position_of(entries@.skip(i as int), id),
        decreases entries@.len() - i,
    {
        if entries[i].id == id {
            return Some(entries[i].position);
        }
        proof {
            assert(entries@.skip(i as int).skip(1) =~= entries@.skip(i + 1));
        }
        i = i + 1;
    }
    None
}

/// Whether a debuff cast by `source` reaches the runner of entry `e`. The
/// selectors that name a style, everyone, or a side of the caster are routed;
/// no other reaches anybody from a cast.
pub open spec fn reaches(
    e: SnapEntry,
    source: RunnerId,
    source_position: Option<i64>,
    target: SkillTarget,
    target_strategy: Option<Strategy>,
) -> bool {
    e.id != source && match target {
        SkillTarget::EnemyStrategy | SkillTarget::KakariStrategy => target_strategy is Some
            && styles_match(e.strategy, target_strategy->0),
        SkillTarget::All => true,
        SkillTarget::AheadOfSelf => source_position is Some && e.position > source_position->0,
        SkillTarget::BehindSelf => source_position is Some && e.position < source_position->0,
        _ => false,
    }
}

/// The runners a debuff reaches, in entry order.
pub open spec fn debuff_targets(
    entries: Seq<SnapEntry>,
    source: RunnerId,
    source_position: Option<i64>,
    target: SkillTarget,
    target_strategy: Option<Strategy>,
) -> Seq<RunnerId>
    decreases entries.len(),
{
    if entries.len() == 0 {
        Seq::empty()
    } else {
        let before = debuff_targets(
            entries.drop_last(),
            source,
            source_position,
            target,
            target_strategy,
        );
        if reaches(entries.last(), source, source_position, target, target_strategy) {
            before.push(entries.last().id)
        } else {
            before
        }
    }
}

/// The runners a debuff emitted by `source_id` reaches. The caster is never a
/// target, and finished runners, who have no entry, are never hit.
pub fn resolve_debuff_targets(
    snapshot: &FieldSnapshot,
    source_id: RunnerId,
    target: SkillTarget,
    target_strategy: Option<Strategy>,
) -> (targets: Vec<RunnerId>)
    ensures
        targets@ == debuff_targets(
            snapshot.entries@,
            source_id,
            position_of(snapshot.entries@, source_id),
            target,
            target_strategy,
        ),
{
    let source_position = find_position(&snapshot.entries, source_id);
    let mut targets: Vec<RunnerId> = Vec::new();
    let mut i: usize = 0;
    while i < snapshot.entries.len()
        invariant
            i <= snapshot.entries@.len(),
            targets@ == debuff_targets(
                snapshot.entries@.take(i as int),
                source_id,
                source_position,
                target,
                target_strategy,
            ),
        decreases snapshot.entries@.len() - i,
    {
        proof {
            assert(snapshot.entries@.take(i + 1).drop_last() =~= snapshot.entries@.take(i as int));
        }
        let e = snapshot.entries[i];
        let hit = e.id != source_id && match target {
            SkillTarget::EnemyStrategy | SkillTarget::KakariStrategy => match target_strategy {
                Some(s) => strategy_matches(e.strategy, s),
                None => false,
            },
            SkillTarget::All => true,
            SkillTarget::AheadOfSelf => match source_position {
                Some(p) => e.position > p,
                None => false,
            },
            SkillTarget::BehindSelf => match source_position {
                Some(p) => e.position < p,
                None => false,
            },
            _ => false,
        };
        if hit {
            targets.push(e.id);
        }
        i = i + 1;
    }
    proof {
        assert(snapshot.entries@.take(i as int) =~= snapshot.entries@);
    }
    targets
}

/// Whether a debuff reaches a runner still racing under this id.
pub open spec fn is_reached(
    entries: Seq<SnapEntry>,
    source: RunnerId,
    source_position: Option<i64>,
    target: SkillTarget,
    target_strategy: Option<Strategy>,
    id: RunnerId,
) -> bool {
    exists|i: int|
        0 <= i < entries.len() && (#[trigger] entries[i]).id == id && reaches(
            entries[i],
            source,
            source_position,
            target,
            target_strategy,
        )
}

/// A debuff's targets are exactly the runners still racing that it reaches, and
/// the caster is never among them.
pub proof fn debuffs_reach_only_other_active_runners(
    entries: Seq<SnapEntry>,
    source: RunnerId,
    source_position: Option<i64>,
    target: SkillTarget,
    target_strategy: Option<Strategy>,
    id: RunnerId,
)
    ensures
        debuff_targets(entries, source, source_position, target, target_strategy).contains(id)
            <==> is_reached(entries, source, source_position, target, target_strategy, id),
        !debuff_targets(entries, source, source_position, target, target_strategy).contains(source),
    decreases entries.len(),
{
    if entries.len() > 0 {
        let init = entries.drop_last();
        debuffs_reach_only_other_active_runners(
            init,
            source,
            source_position,
            target,
            target_strategy,
            id,
        );
        let before = debuff_targets(init, source, source_position, target, target_strategy);
        let all = debuff_targets(entries, source, source_position, target, target_strategy);
        let last_hit = reaches(entries.last(), source, source_position, target, target_strategy);
        if all.contains(id) {
            let k = all.index_of(id);
            if k < before.len() {
                assert(before[k] == id);
                let i = choose|i: int|
                    0 <= i < init.len() && (#[trigger] init[i]).id == id && reaches(
                        init[i],
                        source,
                        source_position,
                        target,
                        target_strategy,
                    );
                assert(entries[i].id == id);
            } else {
                assert(entries[entries.len() - 1].id == id);
            }
        }
        if is_reached(entries, source, source_position, target, target_strategy, id) {
            let i = choose|i: int|
                0 <= i < entries.len() && (#[trigger] entries[i]).id == id && reaches(
                    entries[i],
                    source,
                    source_position,
                    target,
                    target_strategy,
                );
            if i < init.len() {
                assert(init[i].id == id);
                let k = before.index_of(id);
                assert(all[k] == id);
            } else {
                assert(all[all.len() - 1] == id);
            }
        }
        if all.contains(source) {
            let k = all.index_of(source);
            if k < before.len() {
                assert(before[k] == source);
            }
        }
    }
}

} // verus!
