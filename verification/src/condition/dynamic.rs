//! Runtime (dynamic) condition predicates and the live-race view they read.
use crate::condition::blocking::{
    blocking_reading, read_blocking, register_blocking_conditions, with_blocking_conditions,
};
use crate::condition::order::{
    order_reading, read_order, register_order_conditions, with_order_conditions,
};
use crate::condition::proximity::{
    proximity_reading, read_proximity, register_proximity_conditions, with_proximity_conditions,
};
use crate::language::{same_text, Comparison, Strategy};
use crate::units::{divide_rounded, rounded_quotient, ONE};
use vstd::prelude::*;

verus! {

/// Another runner, as observed during a tick.
#[derive(Debug, Clone, Copy, PartialEq, Eq, Structural)]
pub struct RunnerSnapshot {
    /// Position along the course.
    pub position: i64,
    /// Lateral lane offset.
    pub current_lane: i64,
    /// Current speed.
    pub current_speed: i64,
}

/// One flag per order-rate band: the top 20, 40, 50, 70 and 80 % of the field.
#[derive(Debug, Clone, Copy, PartialEq, Eq, Structural)]
pub struct RateBands {
    pub top20: bool,
    pub top40: bool,
    pub top50: bool,
    pub top70: bool,
    pub top80: bool,
}

/// The order-rate bands the `order_rate_{in,out}NN_continue` conditions use,
/// in percent of the field.
#[derive(Debug, Clone, Copy, PartialEq, Eq, Structural)]
pub enum OrderRateBand {
    Top20,
    Top40,
    Top50,
    Top70,
    Top80,
}

impl OrderRateBand {
    /// The band's share of the field, in percent.
    pub open spec fn share(self) -> int {
        match self {
            OrderRateBand::Top20 => 20,
            OrderRateBand::Top40 => 40,
            OrderRateBand::Top50 => 50,
            OrderRateBand::Top70 => 70,
            OrderRateBand::Top80 => 80,
        }
    }

    /// The band's share of the field, in percent.
    pub fn percent(self) -> (p: i64)
        ensures
            p == self.share(),
            0 < p <= 100,
    {
        match self {
            OrderRateBand::Top20 => 20,
            OrderRateBand::Top40 => 40,
            OrderRateBand::Top50 => 50,
            OrderRateBand::Top70 => 70,
            OrderRateBand::Top80 => 80,
        }
    }
}

/// The band of `percent` of the field, if there is one.
pub fn order_rate_band_index(percent: i64) -> (band: Option<OrderRateBand>)
    ensures
        match band {
            Some(b) => b.share() == percent,
            None => forall|b: OrderRateBand| #[trigger] b.share() != percent,
        },
{
    match percent {
        20 => Some(OrderRateBand::Top20),
        40 => Some(OrderRateBand::Top40),
        50 => Some(OrderRateBand::Top50),
        70 => Some(OrderRateBand::Top70),
        80 => Some(OrderRateBand::Top80),
        _ => None,
    }
}

impl RateBands {
    /// The band's flag.
    pub open spec fn flag(self, band: OrderRateBand) -> bool {
        match band {
            OrderRateBand::Top20 => self.top20,
            OrderRateBand::Top40 => self.top40,
            OrderRateBand::Top50 => self.top50,
            OrderRateBand::Top70 => self.top70,
            OrderRateBand::Top80 => self.top80,
        }
    }

    /// The band's flag.
    pub fn get(&self, band: OrderRateBand) -> (flag: bool)
        ensures
            flag == self.flag(band),
    {
        match band {
            OrderRateBand::Top20 => self.top20,
            OrderRateBand::Top40 => self.top40,
            OrderRateBand::Top50 => self.top50,
            OrderRateBand::Top70 => self.top70,
            OrderRateBand::Top80 => self.top80,
        }
    }
}

/// The place that ends `percent` of a field of `n`: halves round up.
pub open spec fn rate_place(n: int, percent: int) -> int {
    rounded_quotient(n * percent, 100)
}

/// See [`rate_place`].
pub fn place_of_rate(n: i64, percent: i64) -> (place: i128)
    ensures
        place == rate_place(n as int, percent as int),
{
    divide_rounded(crate::units::wide_product(n, percent), 100)
}

/// Whether placement `order` is on the band's side of its threshold place: at
/// it or ahead of it for an in band, at it or behind it for an out band. The
/// threshold place itself belongs to both.
pub open spec fn on_band_side(order: int, threshold: int, is_in: bool) -> bool {
    if is_in {
        order <= threshold
    } else {
        order >= threshold
    }
}

/// See [`on_band_side`].
pub fn order_rate_band_holds(order: i64, threshold: i128, is_in: bool) -> (holds: bool)
    ensures
        holds == on_band_side(order as int, threshold as int, is_in),
{
    if is_in {
        order as i128 <= threshold
    } else {
        order as i128 >= threshold
    }
}

/// How far into the race the `*_continue` conditions start to count: 5 s.
pub const ORDER_CONTINUE_GRACE_SECONDS: i64 = 5_000_000_000;

/// Per-runner condition state the live field keeps frame by frame, for the
/// conditions whose value depends on history rather than on this tick alone.
#[derive(Debug, Clone, Copy, PartialEq, Eq, Structural)]
pub struct ConditionTimers {
    /// Seconds with the uma one place behind no more than 2.5 m back and one
    /// lane across; reset when the runner's own placement changes.
    pub near_behind: i64,
    /// The same with 5 m and 2.7 lanes.
    pub near_behind_set1: i64,
    /// Seconds with the uma one place ahead no more than 2.5 m on and one lane
    /// across; reset when the runner's own placement changes.
    pub near_infront: i64,
    /// Seconds blocked in front, continuously.
    pub blocked_front: i64,
    /// Seconds blocked on at least one side, continuously.
    pub blocked_side: i64,
    /// Seconds blocked in front and on a side at once, continuously.
    pub blocked_all: i64,
    /// Seconds with an overtake target, reset on moving up a place.
    pub overtake_target_no_order_up: i64,
    /// Seconds as someone's overtake target, continuously.
    pub overtaken: i64,
    /// Whether the runner has an overtake target this tick.
    pub has_overtake_target: bool,
    /// Whether the uma directly behind in placement runs closer to the inner
    /// fence.
    pub behind_is_inner: bool,
    /// Still within the top 20/40/50/70/80 % since 5 s.
    pub in_band: RateBands,
    /// Still at or behind the top 20/40/50/70/80 % since 5 s.
    pub out_band: RateBands,
    /// Runners passed during the Mid-Race.
    pub order_up_middle: i64,
    /// Runners passed since entering the Late-Race.
    pub order_up_end_after: i64,
    /// Runners passed since entering the final corner.
    pub order_up_finalcorner_after: i64,
}

/// Every band still held.
pub open spec fn all_bands() -> RateBands {
    RateBands { top20: true, top40: true, top50: true, top70: true, top80: true }
}

/// The timers at the start: nothing has lasted, every band is still held.
pub open spec fn fresh_timers() -> ConditionTimers {
    ConditionTimers {
        near_behind: 0,
        near_behind_set1: 0,
        near_infront: 0,
        blocked_front: 0,
        blocked_side: 0,
        blocked_all: 0,
        overtake_target_no_order_up: 0,
        overtaken: 0,
        has_overtake_target: false,
        behind_is_inner: false,
        in_band: all_bands(),
        out_band: all_bands(),
        order_up_middle: 0,
        order_up_end_after: 0,
        order_up_finalcorner_after: 0,
    }
}

impl Default for ConditionTimers {
    fn default() -> (timers: ConditionTimers)
        ensures
            timers == fresh_timers(),
    {
        let bands = RateBands { top20: true, top40: true, top50: true, top70: true, top80: true };
        ConditionTimers {
            near_behind: 0,
            near_behind_set1: 0,
            near_infront: 0,
            blocked_front: 0,
            blocked_side: 0,
            blocked_all: 0,
            overtake_target_no_order_up: 0,
            overtaken: 0,
            has_overtake_target: false,
            behind_is_inner: false,
            in_band: bands,
            out_band: bands,
            order_up_middle: 0,
            order_up_end_after: 0,
            order_up_finalcorner_after: 0,
        }
    }
}

/// Live state of an active (unfinished) runner, the observing one among them.
#[derive(Debug, Clone, Copy, PartialEq, Eq, Structural)]
pub struct ActiveRunner {
    /// Whether this entry is the observing runner.
    pub is_self: bool,
    /// Position along the course.
    pub position: i64,
    /// Running style.
    pub strategy: Strategy,
    /// Gate number, from 0.
    pub gate: i64,
    /// Popularity rank (1 = most popular; 0 = unknown).
    pub popularity: i64,
    /// Whether the runner is rushed.
    pub is_rushed: bool,
    /// Whether the runner is in a duel.
    pub is_dueling: bool,
    /// Whether the runner's duel is already over.
    pub has_dueled: bool,
    /// Bitmask of positive self-applied effect types the runner has activated.
    pub activated_advantage_effect_types: u64,
}

/// Skills activated in each phase.
#[derive(Debug, Clone, Copy, PartialEq, Eq, Structural)]
pub struct PhaseCounts {
    pub early: i64,
    pub mid: i64,
    pub late: i64,
    pub spurt: i64,
}

/// Skills activated in each half of the race.
#[derive(Debug, Clone, Copy, PartialEq, Eq, Structural)]
pub struct HalfCounts {
    pub first: i64,
    pub second: i64,
}

/// A runner's own live state, as her skills' conditions read it.
#[derive(Debug, Clone, Copy, PartialEq, Eq, Structural)]
pub struct OwnState {
    /// Race time in seconds.
    pub accumulate_time: i64,
    /// Skills activated so far.
    pub skills_activated_count: i64,
    /// Skills activated on this tick so far and on the previous tick.
    pub recent_skill_activations: i64,
    /// Skills activated in each phase.
    pub skills_activated_in_phase: PhaseCounts,
    /// Skills activated in each half of the race.
    pub skills_activated_half_race: HalfCounts,
    /// Recovery skills activated.
    pub heals_activated_count: i64,
    /// Fraction of HP remaining.
    pub health_ratio_remaining: i64,
    /// Whether the runner still has HP left.
    pub has_remaining_health: bool,
    /// Start delay in seconds.
    pub start_delay: i64,
    /// Whether the runner is in last spurt.
    pub is_last_spurt: bool,
    /// Where the last spurt starts; -1 until it does.
    pub last_spurt_transition: i64,
    /// Gate number.
    pub gate: i64,
    /// The runner's random lot.
    pub random_lot: i64,
    /// Position along the course.
    pub position: i64,
    /// Lateral lane offset.
    pub current_lane: i64,
    /// Current speed.
    pub current_speed: i64,
    /// Rate of lateral lane change.
    pub lane_change_speed: i64,
    /// Whether that lane move is away from the inner fence.
    pub lane_move_outward: bool,
    /// Width of a horse's lane.
    pub horse_lane: i64,
    /// Length of a course section.
    pub section_length: i64,
    /// Length of the course.
    pub course_distance: i64,
    /// Race phase, from 0.
    pub phase: i64,
    /// Running style, if known.
    pub strategy: Option<Strategy>,
    /// Whether the runner is rushed.
    pub is_rushed: bool,
    /// How many times she has been rushed.
    pub temptation_count: i64,
    /// Whether the runner is in a duel.
    pub is_dueling: bool,
}

/// The last-spurt transition of a runner whose last spurt has not been placed.
pub const NO_SPURT_TRANSITION: i64 = -1_000_000_000;

/// A runner of whom nothing is known yet: neutral values.
pub open spec fn neutral_state() -> OwnState {
    OwnState {
        accumulate_time: 0,
        skills_activated_count: 0,
        recent_skill_activations: 0,
        skills_activated_in_phase: PhaseCounts { early: 0, mid: 0, late: 0, spurt: 0 },
        skills_activated_half_race: HalfCounts { first: 0, second: 0 },
        heals_activated_count: 0,
        health_ratio_remaining: ONE,
        has_remaining_health: true,
        start_delay: 0,
        is_last_spurt: false,
        last_spurt_transition: NO_SPURT_TRANSITION,
        gate: 0,
        random_lot: 0,
        position: 0,
        current_lane: 0,
        current_speed: 0,
        lane_change_speed: 0,
        lane_move_outward: false,
        horse_lane: 0,
        section_length: 0,
        course_distance: 0,
        phase: 0,
        strategy: None,
        is_rushed: false,
        temptation_count: 0,
        is_dueling: false,
    }
}

impl Default for OwnState {
    fn default() -> (state: OwnState)
        ensures
            state == neutral_state(),
    {
        OwnState {
            accumulate_time: 0,
            skills_activated_count: 0,
            recent_skill_activations: 0,
            skills_activated_in_phase: PhaseCounts { early: 0, mid: 0, late: 0, spurt: 0 },
            skills_activated_half_race: HalfCounts { first: 0, second: 0 },
            heals_activated_count: 0,
            health_ratio_remaining: ONE,
            has_remaining_health: true,
            start_delay: 0,
            is_last_spurt: false,
            last_spurt_transition: NO_SPURT_TRANSITION,
            gate: 0,
            random_lot: 0,
            position: 0,
            current_lane: 0,
            current_speed: 0,
            lane_change_speed: 0,
            lane_move_outward: false,
            horse_lane: 0,
            section_length: 0,
            course_distance: 0,
            phase: 0,
            strategy: None,
            is_rushed: false,
            temptation_count: 0,
            is_dueling: false,
        }
    }
}

/// The field around a runner, frozen for the tick.
pub struct FieldView {
    /// Her current place (from 1), if assigned.
    pub self_order: Option<i64>,
    /// Her place on the previous tick, if assigned.
    pub self_previous_order: Option<i64>,
    /// The size of the field.
    pub num_umas: i64,
    /// The leader's position, if known.
    pub leader_position: Option<i64>,
    /// The rearmost active runner's position, if known.
    pub last_position: Option<i64>,
    /// Her condition timers and latches, where a live field keeps them.
    pub condition_timers: Option<ConditionTimers>,
    /// Whether a runner blocks her in front this tick.
    pub is_front_blocked: bool,
    /// Every other active runner.
    pub other_snapshots: Vec<RunnerSnapshot>,
    /// Every active runner, herself among them.
    pub active_runners: Vec<ActiveRunner>,
}

impl FieldView {
    /// Whether the view shows no field at all.
    pub open spec fn is_empty_field(self) -> bool {
        &&& self.self_order is None
        &&& self.self_previous_order is None
        &&& self.num_umas == 0
        &&& self.leader_position is None
        &&& self.last_position is None
        &&& self.condition_timers is None
        &&& !self.is_front_blocked
        &&& self.other_snapshots@.len() == 0
        &&& self.active_runners@.len() == 0
    }

    /// The field at the start: none resolved yet.
    pub fn at_gate() -> (field: FieldView)
        ensures
            field.is_empty_field(),
    {
        FieldView {
            self_order: None,
            self_previous_order: None,
            num_umas: 0,
            leader_position: None,
            last_position: None,
            condition_timers: None,
            is_front_blocked: false,
            other_snapshots: Vec::new(),
            active_runners: Vec::new(),
        }
    }
}

/// What a runner's dynamic conditions read: her own live state and the field
/// around her.
pub struct RunnerView<'a> {
    /// Her own live state.
    pub own: OwnState,
    /// The field around her.
    pub field: &'a FieldView,
}

/// How many skills were activated in the phase at `phase`; none past the last.
pub open spec fn activated_in_phase(counts: PhaseCounts, phase: int) -> i64 {
    let by_phase = seq![counts.early, counts.mid, counts.late, counts.spurt];
    if 0 <= phase < by_phase.len() {
        by_phase[phase]
    } else {
        0
    }
}

/// How many skills were activated in the half at `half`; none past the second.
pub open spec fn activated_in_half(counts: HalfCounts, half: int) -> i64 {
    let by_half = seq![counts.first, counts.second];
    if 0 <= half < by_half.len() {
        by_half[half]
    } else {
        0
    }
}

impl RunnerView<'_> {
    /// How many skills were activated in a phase, by its place.
    pub fn skills_activated_in_phase(&self, phase: usize) -> (n: i64)
        ensures
            n == activated_in_phase(self.own.skills_activated_in_phase, phase as int),
    {
        let counts = self.own.skills_activated_in_phase;
        match phase {
            0 => counts.early,
            1 => counts.mid,
            2 => counts.late,
            3 => counts.spurt,
            _ => 0,
        }
    }

    /// How many skills were activated in a half of the race: 0 the first, 1 the
    /// second.
    pub fn skills_activated_half_race(&self, half: usize) -> (n: i64)
        ensures
            n == activated_in_half(self.own.skills_activated_half_race, half as int),
    {
        let counts = self.own.skills_activated_half_race;
        match half {
            0 => counts.first,
            1 => counts.second,
            _ => 0,
        }
    }
}

/// A condition's value: `value / per`, held against the condition's argument.
#[derive(Debug, Clone, Copy, PartialEq, Eq, Structural)]
pub struct Reading {
    pub value: i128,
    pub per: i128,
}

impl Reading {
    /// Whether the reading is small enough to be scaled by any argument.
    pub open spec fn in_range(self) -> bool {
        0 < self.per <= 0xffff_ffff_ffff_ffff
    }
}

/// A count, compared as it stands.
pub open spec fn whole(n: int) -> Option<(int, int)> {
    Some((n, 1))
}

/// A yes or no, compared as 1 or 0.
pub open spec fn truth(flag: bool) -> Option<(int, int)> {
    Some((if flag {
        1
    } else {
        0
    }, 1))
}

/// A quantity in billionths, compared in whole units.
pub open spec fn units_of(q: int) -> Option<(int, int)> {
    Some((q, ONE as int))
}

/// What an optional reading stands for.
pub open spec fn reading_view(r: Option<Reading>) -> Option<(int, int)> {
    match r {
        Some(r) => Some((r.value as int, r.per as int)),
        None => None,
    }
}

/// Whether an optional reading is in range.
pub open spec fn readable(r: Option<Reading>) -> bool {
    r is Some ==> r->0.in_range()
}

/// A count as a reading.
pub fn read_whole(n: i64) -> (r: Option<Reading>)
    ensures
        reading_view(r) == whole(n as int),
        readable(r),
{
    Some(Reading { value: n as i128, per: 1 })
}

/// A yes or no as a reading.
pub fn read_truth(flag: bool) -> (r: Option<Reading>)
    ensures
        reading_view(r) == truth(flag),
        readable(r),
{
    Some(Reading { value: bool_num(flag), per: 1 })
}

/// A quantity as a reading.
pub fn read_units(q: i64) -> (r: Option<Reading>)
    ensures
        reading_view(r) == units_of(q as int),
        readable(r),
{
    Some(Reading { value: q as i128, per: ONE as i128 })
}

/// Whether `value` stands to `arg` as the comparison asks.
pub open spec fn compares(value: int, arg: int, comparison: Comparison) -> bool {
    match comparison {
        Comparison::Eq => value == arg,
        Comparison::Neq => value != arg,
        Comparison::Lt => value < arg,
        Comparison::Lte => value <= arg,
        Comparison::Gt => value > arg,
        Comparison::Gte => value >= arg,
    }
}

/// Whether `value` stands to `arg` as the comparison asks.
pub fn compare(value: i128, arg: i128, comparison: Comparison) -> (holds: bool)
    ensures
        holds == compares(value as int, arg as int, comparison),
{
    match comparison {
        Comparison::Eq => value == arg,
        Comparison::Neq => value != arg,
        Comparison::Lt => value < arg,
        Comparison::Lte => value <= arg,
        Comparison::Gt => value > arg,
        Comparison::Gte => value >= arg,
    }
}

/// A yes or no as the 0 / 1 a condition compares.
pub fn bool_num(value: bool) -> (n: i128)
    ensures
        n == if value {
            1int
        } else {
            0int
        },
{
    if value {
        1
    } else {
        0
    }
}

/// One value of a runner's own state.
#[derive(Debug, Clone, Copy, PartialEq, Eq, Structural)]
pub enum Observable {
    AccumulateTime,
    SkillsActivatedCount,
    RecentSkillActivations,
    HealsActivatedCount,
    IsLastSpurt,
    Phase,
    Gate,
    RandomLot,
    IsRushed,
    TemptationCount,
    IsDueling,
}

/// The order family's tokens.
#[derive(Debug, Clone, Copy, PartialEq, Eq, Structural)]
pub enum OrderToken {
    Order,
    OrderRate,
    OrderRateInContinue(OrderRateBand),
    OrderRateOutContinue(OrderRateBand),
    ChangeOrderOnetime,
    ChangeOrderUpEndAfter,
    ChangeOrderUpFinalcornerAfter,
    ChangeOrderUpMiddle,
    DistanceDiffTop,
    DistanceDiffTopFloat,
    DistanceDiffRate,
    IsBehindIn,
}

/// The proximity family's tokens.
#[derive(Debug, Clone, Copy, PartialEq, Eq, Structural)]
pub enum ProximityToken {
    NearCount,
    NearInfrontCount,
    IsSurrounded,
    BashinDiffBehind,
    BashinDiffInfront,
    BehindNearLaneTime,
    BehindNearLaneTimeSet1,
    InfrontNearLaneTime,
    Visiblehorse,
}

/// The blocking family's tokens.
#[derive(Debug, Clone, Copy, PartialEq, Eq, Structural)]
pub enum BlockingToken {
    BlockedFront,
    BlockedFrontContinuetime,
    BlockedAllContinuetime,
    BlockedSide,
    BlockedSideContinuetime,
    IsOvertake,
    IsMoveLane,
    OvertakeTargetTime,
    OvertakeTargetNoOrderUpTime,
}

/// Builds a [`DynamicCondition`] for a comparison argument and operator: the
/// token whose value the condition compares.
#[derive(Debug, Clone, Copy, PartialEq, Eq, Structural)]
pub enum DynamicConditionFactory {
    Order(OrderToken),
    Proximity(ProximityToken),
    Blocking(BlockingToken),
    Own(Observable),
}

/// The value of one of the runner's own observables.
pub open spec fn own_reading(what: Observable, own: OwnState) -> Option<(int, int)> {
    match what {
        Observable::AccumulateTime => units_of(own.accumulate_time as int),
        Observable::SkillsActivatedCount => whole(own.skills_activated_count as int),
        Observable::RecentSkillActivations => whole(own.recent_skill_activations as int),
        Observable::HealsActivatedCount => whole(own.heals_activated_count as int),
        Observable::IsLastSpurt => truth(own.is_last_spurt),
        Observable::Phase => whole(own.phase as int),
        Observable::Gate => whole(own.gate as int),
        Observable::RandomLot => whole(own.random_lot as int),
        Observable::IsRushed => truth(own.is_rushed),
        Observable::TemptationCount => whole(own.temptation_count as int),
        Observable::IsDueling => truth(own.is_dueling),
    }
}

fn read_own(what: Observable, own: &OwnState) -> (r: Option<Reading>)
    ensures
        reading_view(r) == own_reading(what, *own),
        readable(r),
{
    match what {
        Observable::AccumulateTime => read_units(own.accumulate_time),
        Observable::SkillsActivatedCount => read_whole(own.skills_activated_count),
        Observable::RecentSkillActivations => read_whole(own.recent_skill_activations),
        Observable::HealsActivatedCount => read_whole(own.heals_activated_count),
        Observable::IsLastSpurt => read_truth(own.is_last_spurt),
        Observable::Phase => read_whole(own.phase),
        Observable::Gate => read_whole(own.gate),
        Observable::RandomLot => read_whole(own.random_lot),
        Observable::IsRushed => read_truth(own.is_rushed),
        Observable::TemptationCount => read_whole(own.temptation_count),
        Observable::IsDueling => read_truth(own.is_dueling),
    }
}

/// The value a token has for a runner in a field; none where the field does
/// not show it, and then no comparison holds.
pub open spec fn token_reading(
    token: DynamicConditionFactory,
    own: OwnState,
    field: FieldView,
) -> Option<(int, int)> {
    match token {
        DynamicConditionFactory::Order(t) => order_reading(t, own, field),
        DynamicConditionFactory::Proximity(t) => proximity_reading(t, own, field),
        DynamicConditionFactory::Blocking(t) => blocking_reading(t, own, field),
        DynamicConditionFactory::Own(t) => own_reading(t, own),
    }
}

/// The number a token's value is held against: the argument itself, except
/// that `order_rate` names a share of the field.
pub open spec fn token_argument(token: DynamicConditionFactory, field: FieldView, arg: int) -> int {
    if token == DynamicConditionFactory::Order(OrderToken::OrderRate) {
        rate_place(field.num_umas as int, arg)
    } else {
        arg
    }
}

/// Whether a token's value stands to the argument as the comparison asks.
pub open spec fn token_holds(
    token: DynamicConditionFactory,
    arg: int,
    comparison: Comparison,
    own: OwnState,
    field: FieldView,
) -> bool {
    match token_reading(token, own, field) {
        Some((value, per)) => compares(
            value,
            token_argument(token, field, arg) * per,
            comparison,
        ),
        None => false,
    }
}

impl DynamicConditionFactory {
    /// The condition that holds the token against `arg`.
    pub fn build(self, arg: i64, comparison: Comparison) -> (condition: DynamicCondition)
        ensures
            condition == (DynamicCondition::Token { token: self, arg, comparison }),
    {
        DynamicCondition::Token { token: self, arg, comparison }
    }

    fn read(self, view: &RunnerView<'_>) -> (r: Option<Reading>)
        ensures
            reading_view(r) == token_reading(self, view.own, *view.field),
            readable(r),
            self == DynamicConditionFactory::Order(OrderToken::OrderRate) && r is Some
                ==> r->0.per == 1,
    {
        match self {
            DynamicConditionFactory::Order(t) => read_order(t, view),
            DynamicConditionFactory::Proximity(t) => read_proximity(t, view),
            DynamicConditionFactory::Blocking(t) => read_blocking(t, view),
            DynamicConditionFactory::Own(t) => read_own(t, &view.own),
        }
    }
}

/// A runtime predicate gating a skill's activation, evaluated each tick.
///
/// "No condition" is `Option::<DynamicCondition>::None`.
#[derive(Debug)]
pub enum DynamicCondition {
    /// Holds always.
    Always,
    /// Holds never.
    Never,
    /// A token held against an argument.
    Token { token: DynamicConditionFactory, arg: i64, comparison: Comparison },
    /// Both hold.
    And(Box<DynamicCondition>, Box<DynamicCondition>),
    /// At least one holds.
    Or(Box<DynamicCondition>, Box<DynamicCondition>),
}

impl DynamicCondition {
    /// Whether the condition holds for a runner in a field.
    pub open spec fn holds(self, own: OwnState, field: FieldView) -> bool
        decreases self,
    {
        match self {
            DynamicCondition::Always => true,
            DynamicCondition::Never => false,
            DynamicCondition::Token { token, arg, comparison } => token_holds(
                token,
                arg as int,
                comparison,
                own,
                field,
            ),
            DynamicCondition::And(a, b) => a.holds(own, field) && b.holds(own, field),
            DynamicCondition::Or(a, b) => a.holds(own, field) || b.holds(own, field),
        }
    }

    /// The condition that holds `token` against `arg`.
    pub fn new(token: DynamicConditionFactory, arg: i64, comparison: Comparison) -> (condition:
        DynamicCondition)
        ensures
            condition == (DynamicCondition::Token { token, arg, comparison }),
    {
        token.build(arg, comparison)
    }

    /// The always-true condition.
    pub fn k_true() -> (condition: DynamicCondition)
        ensures
            condition == DynamicCondition::Always,
            forall|own: OwnState, field: FieldView| #[trigger] condition.holds(own, field),
    {
        DynamicCondition::Always
    }

    /// Whether the condition holds for the runner `view` shows.
    pub fn eval(&self, view: &RunnerView<'_>) -> (holds: bool)
        ensures
            holds == self.holds(view.own, *view.field),
        decreases self,
    {
        match self {
            DynamicCondition::Always => true,
            DynamicCondition::Never => false,
            DynamicCondition::Token { token, arg, comparison } => match token.read(view) {
                Some(reading) => {
                    let against: i128 = if *token == DynamicConditionFactory::Order(
                        OrderToken::OrderRate,
                    ) {
                        place_of_rate(view.field.num_umas, *arg)
                    } else {
                        scaled_argument(*arg, reading.per)
                    };
                    proof {
                        let named = token_argument(*token, *view.field, *arg as int);
                        let per = reading.per as int;
                        assert(per == 1 ==> named * per == named) by (nonlinear_arith);
                    }
                    compare(reading.value, against, *comparison)
                },
                None => false,
            },
            DynamicCondition::And(a, b) => a.eval(view) && b.eval(view),
            DynamicCondition::Or(a, b) => a.eval(view) || b.eval(view),
        }
    }

    /// The same condition again.
    pub fn duplicate(&self) -> (copy: DynamicCondition)
        ensures
            copy == *self,
        decreases self,
    {
        match self {
            DynamicCondition::Always => DynamicCondition::Always,
            DynamicCondition::Never => DynamicCondition::Never,
            DynamicCondition::Token { token, arg, comparison } => DynamicCondition::Token {
                token: *token,
                arg: *arg,
                comparison: *comparison,
            },
            DynamicCondition::And(a, b) => DynamicCondition::And(
                Box::new(a.duplicate()),
                Box::new(b.duplicate()),
            ),
            DynamicCondition::Or(a, b) => DynamicCondition::Or(
                Box::new(a.duplicate()),
                Box::new(b.duplicate()),
            ),
        }
    }
}

fn scaled_argument(arg: i64, per: i128) -> (r: i128)
    requires
        0 < per <= 0xffff_ffff_ffff_ffff,
    ensures
        r == arg * per,
{
    proof {
        assert(i128::MIN <= arg * per <= i128::MAX) by (nonlinear_arith)
            requires
                -0x8000_0000_0000_0000 <= arg <= 0x7fff_ffff_ffff_ffff,
                0 < per <= 0xffff_ffff_ffff_ffff,
        ;
    }
    arg as i128 * per
}

/// Whether an optional condition holds; none is always true.
pub open spec fn condition_holds(
    condition: Option<DynamicCondition>,
    own: OwnState,
    field: FieldView,
) -> bool {
    match condition {
        Some(c) => c.holds(own, field),
        None => true,
    }
}

/// Evaluate an optional dynamic condition; `None` means always-true.
pub fn eval_dynamic(condition: &Option<DynamicCondition>, view: &RunnerView<'_>) -> (holds: bool)
    ensures
        holds == condition_holds(*condition, view.own, *view.field),
{
    match condition {
        Some(c) => c.eval(view),
        None => true,
    }
}

/// The same optional condition again.
pub fn duplicate_condition(condition: &Option<DynamicCondition>) -> (copy: Option<DynamicCondition>)
    ensures
        copy == *condition,
{
    match condition {
        Some(c) => Some(c.duplicate()),
        None => None,
    }
}

/// A named factory.
#[derive(Debug, Clone, Copy)]
pub struct RegisteredCondition {
    pub name: &'static str,
    pub factory: DynamicConditionFactory,
}

/// The dynamic-condition registry: which factory each condition name stands
/// for, and whether every family of conditions has been registered in it.
pub struct ConditionRegistry {
    entries: Vec<RegisteredCondition>,
    complete: bool,
}

spec fn registered(entries: Seq<RegisteredCondition>) -> Map<Seq<char>, DynamicConditionFactory>
    decreases entries.len(),
{
    if entries.len() == 0 {
        Map::empty()
    } else {
        registered(entries.drop_last()).insert(entries.last().name@, entries.last().factory)
    }
}

proof fn lemma_registered(entries: Seq<RegisteredCondition>, name: Seq<char>)
    ensures
        registered(entries).dom().contains(name) <==> exists|i: int|
            0 <= i < entries.len() && (#[trigger] entries[i]).name@ == name,
    decreases entries.len(),
{
    if entries.len() > 0 {
        let init = entries.drop_last();
        lemma_registered(init, name);
        if exists|i: int| 0 <= i < init.len() && (#[trigger] init[i]).name@ == name {
            let i = choose|i: int| 0 <= i < init.len() && (#[trigger] init[i]).name@ == name;
            assert(entries[i].name@ == name);
        }
        if exists|i: int| 0 <= i < entries.len() && (#[trigger] entries[i]).name@ == name {
            let i = choose|i: int| 0 <= i < entries.len() && (#[trigger] entries[i]).name@ == name;
            if i < init.len() {
                assert(init[i].name@ == name);
            }
        }
        assert(entries[entries.len() - 1] == entries.last());
    }
}

proof fn lemma_last_registration_stands(entries: Seq<RegisteredCondition>, at: int)
    requires
        0 <= at < entries.len(),
        forall|k: int|
            at < k < entries.len() ==> (#[trigger] entries[k]).name@ != entries[at].name@,
    ensures
        registered(entries).dom().contains(entries[at].name@),
        registered(entries)[entries[at].name@] == entries[at].factory,
    decreases entries.len(),
{
    if at < entries.len() - 1 {
        let init = entries.drop_last();
        assert forall|k: int| at < k < init.len() implies (#[trigger] init[k]).name@
            != init[at].name@ by {
            assert(entries[k].name@ != entries[at].name@);
        }
        lemma_last_registration_stands(init, at);
        assert(entries[entries.len() - 1].name@ != entries[at].name@);
    }
}

impl View for ConditionRegistry {
    type V = Map<Seq<char>, DynamicConditionFactory>;

    closed spec fn view(&self) -> Map<Seq<char>, DynamicConditionFactory> {
        registered(self.entries@)
    }
}

impl ConditionRegistry {
    /// Whether [`register_all_dynamic_conditions`] has run on the registry.
    pub closed spec fn all_registered(&self) -> bool {
        self.complete
    }

    /// A registry with no names.
    pub fn new() -> (registry: ConditionRegistry)
        ensures
            registry@ == Map::<Seq<char>, DynamicConditionFactory>::empty(),
            !registry.all_registered(),
    {
        ConditionRegistry { entries: Vec::new(), complete: false }
    }
}

/// Register a factory under `name`, in place of any it had.
pub fn register_dynamic_condition(
    registry: &mut ConditionRegistry,
    name: &'static str,
    factory: DynamicConditionFactory,
)
    ensures
        final(registry)@ == old(registry)@.insert(name@, factory),
        final(registry).all_registered() == old(registry).all_registered(),
{
    let ghost before = registry.entries@;
    registry.entries.push(RegisteredCondition { name, factory });
    proof {
        assert(registry.entries@.drop_last() =~= before);
    }
}

/// The factory registered under `name`.
pub fn get_dynamic_condition(registry: &ConditionRegistry, name: &str) -> (factory: Option<
    DynamicConditionFactory,
>)
    ensures
        factory == if registry@.dom().contains(name@) {
            Some(registry@[name@])
        } else {
            None
        },
{
    let mut i: usize = registry.entries.len();
    while i > 0
        invariant
            i <= registry.entries.len(),
            forall|k: int|
                i <= k < registry.entries.len() ==> (#[trigger] registry.entries@[k]).name@ != name@,
        decreases i,
    {
        i = i - 1;
        if same_text(registry.entries[i].name, name) {
            proof {
                lemma_last_registration_stands(registry.entries@, i as int);
            }
            return Some(registry.entries[i].factory);
        }
    }
    proof {
        lemma_registered(registry.entries@, name@);
    }
    None
}

/// Whether a dynamic condition is registered under `name`.
pub fn has_dynamic_condition(registry: &ConditionRegistry, name: &str) -> (known: bool)
    ensures
        known == registry@.dom().contains(name@),
{
    get_dynamic_condition(registry, name).is_some()
}

/// `registry` with every family of conditions registered.
pub open spec fn with_all_conditions(
    registry: Map<Seq<char>, DynamicConditionFactory>,
) -> Map<Seq<char>, DynamicConditionFactory> {
    with_blocking_conditions(with_proximity_conditions(with_order_conditions(registry)))
}

/// What a registry holds after every family has been registered in it: a
/// registry that has them already is left as it stands.
pub open spec fn with_all_conditions_once(
    registry: Map<Seq<char>, DynamicConditionFactory>,
    all_registered: bool,
) -> Map<Seq<char>, DynamicConditionFactory> {
    if all_registered {
        registry
    } else {
        with_all_conditions(registry)
    }
}

/// Register every family of conditions. Only the first call on a registry does
/// so: a further one leaves it as it stands, with every name that has been
/// registered anew since.
pub fn register_all_dynamic_conditions(registry: &mut ConditionRegistry)
    ensures
        final(registry)@ == with_all_conditions_once(
            old(registry)@,
            old(registry).all_registered(),
        ),
        final(registry).all_registered(),
{
    if !registry.complete {
        register_order_conditions(registry);
        register_proximity_conditions(registry);
        register_blocking_conditions(registry);
        registry.complete = true;
    }
}

/// Once the families have been registered, registering them again changes
/// nothing, whatever has been registered since.
pub proof fn registering_again_changes_nothing(
    registry: Map<Seq<char>, DynamicConditionFactory>,
    before: bool,
    name: Seq<char>,
    factory: DynamicConditionFactory,
)
    ensures
        ({
            let once = with_all_conditions_once(registry, before);
            let anew = once.insert(name, factory);
            &&& with_all_conditions_once(once, true) == once
            &&& with_all_conditions_once(anew, true) == anew
            &&& with_all_conditions_once(anew, true)[name] == factory
        }),
{
}

/// The first registering of the families leaves every name that is none of
/// theirs as it was, and gives each of theirs its own factory.
pub proof fn registering_keeps_other_names(
    registry: Map<Seq<char>, DynamicConditionFactory>,
    name: Seq<char>,
)
    ensures
        ({
            let families = with_all_conditions(Map::empty());
            let all = with_all_conditions_once(registry, false);
            if families.dom().contains(name) {
                all.dom().contains(name) && all[name] == families[name]
            } else {
                all.dom().contains(name) == registry.dom().contains(name) && (
                registry.dom().contains(name) ==> all[name] == registry[name])
            }
        }),
{
}

/// The threshold place of a band is on both of its sides, and every other
/// place is on exactly one.
pub proof fn threshold_place_is_on_both_sides(order: int, threshold: int)
    ensures
        on_band_side(order, threshold, true) && on_band_side(order, threshold, false) <==> order
            == threshold,
        on_band_side(order, threshold, true) || on_band_side(order, threshold, false),
{
}

/// A runner without a place meets no placement condition, however it compares.
pub proof fn without_a_place_no_placement_condition_holds(
    band: OrderRateBand,
    arg: int,
    comparison: Comparison,
    own: OwnState,
    field: FieldView,
)
    requires
        field.self_order is None,
    ensures
        !token_holds(
            DynamicConditionFactory::Order(OrderToken::Order),
            arg,
            comparison,
            own,
            field,
        ),
        !token_holds(
            DynamicConditionFactory::Order(OrderToken::OrderRate),
            arg,
            comparison,
            own,
            field,
        ),
        !token_holds(
            DynamicConditionFactory::Order(OrderToken::OrderRateInContinue(band)),
            arg,
            comparison,
            own,
            field,
        ),
        !token_holds(
            DynamicConditionFactory::Order(OrderToken::OrderRateOutContinue(band)),
            arg,
            comparison,
            own,
            field,
        ),
{
}

/// Without a live field, being blocked at the side and the time spent blocked
/// there never disagree: past the start the time runs exactly while the state
/// holds.
pub proof fn side_block_and_its_duration_agree(own: OwnState, field: FieldView)
    requires
        field.condition_timers is None,
        own.accumulate_time > 0,
    ensures
        token_holds(
            DynamicConditionFactory::Blocking(BlockingToken::BlockedSide),
            1,
            Comparison::Eq,
            own,
            field,
        ) <==> token_holds(
            DynamicConditionFactory::Blocking(BlockingToken::BlockedSideContinuetime),
            0,
            Comparison::Gt,
            own,
            field,
        ),
{
}

/// A comparison and its opposite never hold together, and one of them holds
/// wherever the token has a value.
pub proof fn opposite_comparisons_exclude_each_other(
    token: DynamicConditionFactory,
    arg: int,
    own: OwnState,
    field: FieldView,
)
    ensures
        token_reading(token, own, field) is Some ==> {
            &&& token_holds(token, arg, Comparison::Eq, own, field) != token_holds(
                token,
                arg,
                Comparison::Neq,
                own,
                field,
            )
            &&& token_holds(token, arg, Comparison::Lt, own, field) != token_holds(
                token,
                arg,
                Comparison::Gte,
                own,
                field,
            )
            &&& token_holds(token, arg, Comparison::Gt, own, field) != token_holds(
                token,
                arg,
                Comparison::Lte,
                own,
                field,
            )
        },
        token_reading(token, own, field) is None ==> forall|comparison: Comparison|
            !#[trigger] token_holds(token, arg, comparison, own, field),
{
}

impl FieldView {
    /// Whether two views show the same field.
    pub open spec fn shows_the_same(self, other: FieldView) -> bool {
        &&& self.self_order == other.self_order
        &&& self.self_previous_order == other.self_previous_order
        &&& self.num_umas == other.num_umas
        &&& self.leader_position == other.leader_position
        &&& self.last_position == other.last_position
        &&& self.condition_timers == other.condition_timers
        &&& self.is_front_blocked == other.is_front_blocked
        &&& self.other_snapshots@ == other.other_snapshots@
        &&& self.active_runners@ == other.active_runners@
    }
}

/// A condition reads only what the field shows: it holds in one view of a field
/// exactly when it holds in any other view of it.
pub proof fn a_condition_reads_only_what_the_field_shows(
    condition: DynamicCondition,
    own: OwnState,
    a: FieldView,
    b: FieldView,
)
    requires
        a.shows_the_same(b),
    ensures
        condition.holds(own, a) == condition.holds(own, b),
    decreases condition,
{
    match condition {
        DynamicCondition::Token { token, .. } => {
            assert(token_reading(token, own, a) == token_reading(token, own, b));
        },
        DynamicCondition::And(x, y) => {
            a_condition_reads_only_what_the_field_shows(*x, own, a, b);
            a_condition_reads_only_what_the_field_shows(*y, own, a, b);
        },
        DynamicCondition::Or(x, y) => {
            a_condition_reads_only_what_the_field_shows(*x, own, a, b);
            a_condition_reads_only_what_the_field_shows(*y, own, a, b);
        },
        _ => {},
    }
}

} // verus!
