//! Errors of simulated samples against recorded ones, and when they have
//! become worse.
use crate::accuracy::recording::{shows_rushed, ObservedFrame};
use crate::accuracy::spells::RungCounts;
use crate::units::{
    clamp_wide, divide_rounded, magnitude, minus, plus, product, rounded_quotient, sat, times,
    wide_product, ONE, QUANTITY_MIN,
};
use vstd::prelude::*;

verus! {

/// The recorded lane units to the course's width.
pub const LANE_UNITS_PER_COURSE_WIDTH: i64 = 10_000;

/// One runner in one frame.
#[derive(Debug, Clone, Copy, PartialEq, Eq, Structural)]
pub struct FrameSample {
    /// Metres.
    pub distance: i64,
    /// Metres per second.
    pub speed: i64,
    /// Hit points.
    pub hp: i64,
    /// One when rushed; the rushed rate once averaged over rounds.
    pub rushed: i64,
    /// One when blocked in front; the blocked rate once averaged.
    pub blocked: i64,
    /// Metres from the inner rail, where the recording has a lane.
    pub lane: Option<i64>,
}

impl Default for FrameSample {
    /// Nothing at all.
    fn default() -> (sample: FrameSample)
        ensures
            sample == (FrameSample {
                distance: 0,
                speed: 0,
                hp: 0,
                rushed: 0,
                blocked: 0,
                lane: None,
            }),
    {
        FrameSample { distance: 0, speed: 0, hp: 0, rushed: 0, blocked: 0, lane: None }
    }
}

/// Whether a frame shows a gate's runner blocked in front.
pub open spec fn shows_blocked(frame: ObservedFrame, gate: int) -> bool {
    0 <= gate < frame.blocker@.len() && frame.blocker@[gate] >= 0
}

/// One where the answer is yes.
pub open spec fn one_if(yes: bool) -> i64 {
    if yes {
        ONE
    } else {
        0
    }
}

/// A gate's runner in a recorded frame, in the engine's units.
pub open spec fn sample_of(frame: ObservedFrame, gate: int, course_width: i64) -> FrameSample {
    FrameSample {
        distance: frame.distance@[gate],
        speed: sat(rounded_quotient(frame.speed@[gate] as int, 100)) as i64,
        hp: frame.hp@[gate],
        rushed: one_if(shows_rushed(frame, gate)),
        blocked: one_if(shows_blocked(frame, gate)),
        lane: if gate < frame.lane@.len() {
            Some(
                product(
                    sat(
                        rounded_quotient(
                            frame.lane@[gate] as int,
                            LANE_UNITS_PER_COURSE_WIDTH as int,
                        ),
                    ),
                    course_width as int,
                ) as i64,
            )
        } else {
            None
        },
    }
}

/// See [`sample_of`].
pub fn observed_sample(frame: &ObservedFrame, gate: usize, course_width: i64) -> (sample:
    FrameSample)
    requires
        gate < frame.distance@.len(),
        gate < frame.speed@.len(),
        gate < frame.hp@.len(),
    ensures
        sample == sample_of(*frame, gate as int, course_width),
{
    let rushed: bool = gate < frame.rushed.len() && frame.rushed[gate] != 0;
    let blocked: bool = gate < frame.blocker.len() && frame.blocker[gate] >= 0;
    FrameSample {
        distance: frame.distance[gate],
        speed: clamp_wide(divide_rounded(frame.speed[gate] as i128, 100)),
        hp: frame.hp[gate],
        rushed: if rushed {
            ONE
        } else {
            0
        },
        blocked: if blocked {
            ONE
        } else {
            0
        },
        lane: if gate < frame.lane.len() {
            Some(
                times(
                    clamp_wide(
                        divide_rounded(
                            frame.lane[gate] as i128,
                            LANE_UNITS_PER_COURSE_WIDTH as i128,
                        ),
                    ),
                    course_width,
                ),
            )
        } else {
            None
        },
    }
}

/// Running comparison of simulated samples against recorded ones.
#[derive(Debug, Clone, Copy, PartialEq, Eq, Structural)]
pub struct FrameErrors {
    pub distance_abs: i64,
    pub speed_abs: i64,
    pub speed_signed: i64,
    pub hp_abs: i64,
    pub hp_signed: i64,
    pub rushed_agreement: i64,
    pub blocked_sim: i64,
    pub blocked_observed: i64,
    pub lane_abs: i64,
    /// Samples with a lane on both sides.
    pub lane_count: i64,
    pub count: i64,
}

/// How far apart two quantities are.
pub open spec fn apart(a: i64, b: i64) -> int {
    sat(magnitude(a - b))
}

pub(crate) fn distance_apart(a: i64, b: i64) -> (d: i64)
    ensures
        d == apart(a, b),
{
    let d: i128 = a as i128 - b as i128;
    if d < 0 {
        clamp_wide(-d)
    } else {
        clamp_wide(d)
    }
}

/// The errors with one pair of samples added.
pub open spec fn sample_added(
    e: FrameErrors,
    sim: FrameSample,
    observed: FrameSample,
) -> FrameErrors {
    let with_lane = sim.lane is Some && observed.lane is Some;
    FrameErrors {
        distance_abs: sat(e.distance_abs + apart(sim.distance, observed.distance)) as i64,
        speed_abs: sat(e.speed_abs + apart(sim.speed, observed.speed)) as i64,
        speed_signed: sat(e.speed_signed + sat(sim.speed - observed.speed)) as i64,
        hp_abs: sat(e.hp_abs + apart(sim.hp, observed.hp)) as i64,
        hp_signed: sat(e.hp_signed + sat(sim.hp - observed.hp)) as i64,
        rushed_agreement: sat(
            e.rushed_agreement + sat(ONE - apart(sim.rushed, observed.rushed)),
        ) as i64,
        blocked_sim: sat(e.blocked_sim + sim.blocked) as i64,
        blocked_observed: sat(e.blocked_observed + observed.blocked) as i64,
        lane_abs: if with_lane {
            sat(e.lane_abs + apart(sim.lane->0, observed.lane->0)) as i64
        } else {
            e.lane_abs
        },
        lane_count: if with_lane {
            sat(e.lane_count + 1) as i64
        } else {
            e.lane_count
        },
        count: sat(e.count + 1) as i64,
    }
}

/// A sum over `count` samples per sample; over one where there is none.
pub open spec fn per_sample(sum: int, count: int) -> int {
    sat(
        rounded_quotient(
            sum,
            if count >= 1 {
                count
            } else {
                1
            },
        ),
    )
}

impl FrameErrors {
    /// No sample yet.
    pub fn new() -> (errors: FrameErrors)
        ensures
            errors == (FrameErrors {
                distance_abs: 0,
                speed_abs: 0,
                speed_signed: 0,
                hp_abs: 0,
                hp_signed: 0,
                rushed_agreement: 0,
                blocked_sim: 0,
                blocked_observed: 0,
                lane_abs: 0,
                lane_count: 0,
                count: 0,
            }),
    {
        FrameErrors {
            distance_abs: 0,
            speed_abs: 0,
            speed_signed: 0,
            hp_abs: 0,
            hp_signed: 0,
            rushed_agreement: 0,
            blocked_sim: 0,
            blocked_observed: 0,
            lane_abs: 0,
            lane_count: 0,
            count: 0,
        }
    }

    /// Add one pair of samples.
    pub fn add_sample(&mut self, sim: FrameSample, observed: FrameSample)
        ensures
            *final(self) == sample_added(*old(self), sim, observed),
    {
        self.distance_abs = plus(self.distance_abs, distance_apart(sim.distance, observed.distance));
        self.speed_abs = plus(self.speed_abs, distance_apart(sim.speed, observed.speed));
        self.speed_signed = plus(self.speed_signed, minus(sim.speed, observed.speed));
        self.hp_abs = plus(self.hp_abs, distance_apart(sim.hp, observed.hp));
        self.hp_signed = plus(self.hp_signed, minus(sim.hp, observed.hp));
        self.rushed_agreement = plus(
            self.rushed_agreement,
            minus(ONE, distance_apart(sim.rushed, observed.rushed)),
        );
        self.blocked_sim = plus(self.blocked_sim, sim.blocked);
        self.blocked_observed = plus(self.blocked_observed, observed.blocked);
        if let (Some(sim_lane), Some(observed_lane)) = (sim.lane, observed.lane) {
            self.lane_abs = plus(self.lane_abs, distance_apart(sim_lane, observed_lane));
            self.lane_count = plus(self.lane_count, 1);
        }
        self.count = plus(self.count, 1);
    }

    /// One of the sums per sample.
    pub fn mean(&self, sum: i64) -> (mean: i64)
        ensures
            mean == per_sample(sum as int, self.count as int),
    {
        let count: i64 = if self.count >= 1 {
            self.count
        } else {
            1
        };
        clamp_wide(divide_rounded(sum as i128, count as i128))
    }

    /// The pooled share of samples blocked in front, simulated less recorded.
    pub fn blocked_share_diff(&self) -> (diff: i64)
        ensures
            diff == per_sample(
                sat(self.blocked_sim - self.blocked_observed),
                self.count as int,
            ),
    {
        self.mean(minus(self.blocked_sim, self.blocked_observed))
    }

    /// Mean lane error over the samples with a lane on both sides; none where
    /// there are none, so that a missing lane cannot pass for a perfect one.
    pub fn lane_mae(&self) -> (mae: Option<i64>)
        ensures
            match mae {
                Some(m) => self.lane_count > 0 && m == sat(
                    rounded_quotient(self.lane_abs as int, self.lane_count as int),
                ),
                None => self.lane_count <= 0,
            },
    {
        if self.lane_count <= 0 {
            None
        } else {
            Some(clamp_wide(divide_rounded(self.lane_abs as i128, self.lane_count as i128)))
        }
    }
}

/// The errors of a simulation that gives the recording back are all 0, with
/// full agreement.
pub proof fn a_perfect_sample_adds_no_error(e: FrameErrors, sample: FrameSample)
    requires
        e.rushed_agreement < 0x7fff_ffff_0000_0000,
    ensures
        ({
            let after = sample_added(e, sample, sample);
            &&& after.distance_abs == e.distance_abs
            &&& after.speed_abs == e.speed_abs
            &&& after.speed_signed == e.speed_signed
            &&& after.hp_abs == e.hp_abs
            &&& after.hp_signed == e.hp_signed
            &&& after.lane_abs == e.lane_abs
            &&& after.rushed_agreement == e.rushed_agreement + ONE
        }),
{
}

/// A part of the race, by how much of the course is covered.
#[derive(Debug, Clone, Copy, PartialEq, Eq, Structural)]
pub enum RacePart {
    Early,
    Mid,
    Late,
}

/// Whether `distance` is less than `num / den` of a course, as their quotients
/// compare. On a course without length a distance is less than any share only
/// when it is behind the start.
pub open spec fn covers_less(distance: int, course_distance: int, num: int, den: int) -> bool {
    if course_distance > 0 {
        den * distance < num * course_distance
    } else if course_distance < 0 {
        den * distance > num * course_distance
    } else {
        distance < 0
    }
}

/// The part of the race at a distance: early up to a sixth of the course, late
/// from two thirds on.
pub open spec fn part_at(distance: int, course_distance: int) -> RacePart {
    if covers_less(distance, course_distance, 1, 6) {
        RacePart::Early
    } else if covers_less(distance, course_distance, 2, 3) {
        RacePart::Mid
    } else {
        RacePart::Late
    }
}

fn is_under(distance: i64, course_distance: i64, num: i64, den: i64) -> (under: bool)
    ensures
        under == covers_less(
            distance as int,
            course_distance as int,
            num as int,
            den as int,
        ),
{
    let part: i128 = wide_product(den, distance);
    let share: i128 = wide_product(num, course_distance);
    if course_distance > 0 {
        part < share
    } else if course_distance < 0 {
        part > share
    } else {
        distance < 0
    }
}

impl RacePart {
    /// The part of the race at `distance`: see [`part_at`].
    pub fn of(distance: i64, course_distance: i64) -> (part: RacePart)
        ensures
            part == part_at(distance as int, course_distance as int),
    {
        if is_under(distance, course_distance, 1, 6) {
            RacePart::Early
        } else if is_under(distance, course_distance, 2, 3) {
            RacePart::Mid
        } else {
            RacePart::Late
        }
    }
}

/// The sum of the squared differences of the first `n` entries.
pub open spec fn squared_differences(a: Seq<i32>, b: Seq<i32>, n: nat) -> int
    decreases n,
{
    if n == 0 {
        0
    } else {
        squared_differences(a, b, (n - 1) as nat) + (a[n - 1] - b[n - 1]) * (a[n - 1] - b[n - 1])
    }
}

/// The shorter of two lengths.
pub open spec fn shorter(a: nat, b: nat) -> nat {
    if a <= b {
        a
    } else {
        b
    }
}

/// The rank correlation of two finishing orders: 1 for the same order, -1 for
/// the reverse. For fewer than two runners there is none, but for a lone one who
/// is not where she was: that is without bound, and the lowest quantity.
pub open spec fn rank_correlation(sim: Seq<i32>, observed: Seq<i32>) -> Option<int> {
    let n = sim.len() as int;
    let d2 = squared_differences(sim, observed, shorter(sim.len(), observed.len()));
    if n < 2 {
        if d2 > 0 {
            Some(QUANTITY_MIN as int)
        } else {
            None
        }
    } else {
        Some(sat(ONE - sat(rounded_quotient(6 * ONE * d2, n * (n * n - 1)))))
    }
}

/// The largest field whose rank correlation is computed: past it the sum of the
/// squared differences could leave the widest integer.
pub const RANKED_RUNNERS: usize = 1_500_000_000;

/// See [`rank_correlation`].
pub fn spearman(sim_order: &Vec<i32>, observed_order: &Vec<i32>) -> (rho: Option<i64>)
    requires
        sim_order@.len() <= RANKED_RUNNERS,
    ensures
        match rho {
            Some(r) => rank_correlation(sim_order@, observed_order@) == Some(r as int),
            None => rank_correlation(sim_order@, observed_order@) is None,
        },
{
    let n: usize = sim_order.len();
    let shared: usize = if n <= observed_order.len() {
        n
    } else {
        observed_order.len()
    };
    let mut d2: i128 = 0;
    let mut i: usize = 0;
    while i < shared
        invariant
            i <= shared <= RANKED_RUNNERS,
            shared <= sim_order@.len(),
            shared <= observed_order@.len(),
            d2 == squared_differences(sim_order@, observed_order@, i as nat),
            0 <= d2 <= i * 0xffff_fffe_0000_0001,
        decreases shared - i,
    {
        let d: i128 = sim_order[i] as i128 - observed_order[i] as i128;
        proof {
            assert(0 <= d * d <= 0xffff_fffe_0000_0001) by (nonlinear_arith)
                requires
                    -0xffff_ffff <= d <= 0xffff_ffff,
            ;
        }
        d2 = d2 + d * d;
        i = i + 1;
    }
    if n < 2 {
        return if d2 > 0 {
            Some(QUANTITY_MIN)
        } else {
            None
        };
    }
    let m: i128 = n as i128;
    proof {
        assert(3 <= m * m - 1 && m * m <= 0x4000_0000_0000_0000) by (nonlinear_arith)
            requires
                2 <= m <= 1_500_000_000,
        ;
        assert(6 <= m * (m * m - 1) <= 0x8000_0000 * 0x4000_0000_0000_0000) by (nonlinear_arith)
            requires
                2 <= m <= 0x8000_0000,
                3 <= m * m - 1,
                m * m <= 0x4000_0000_0000_0000,
        ;
    }
    let total: i128 = 6_000_000_000 * d2;
    Some(minus(ONE, clamp_wide(divide_rounded(total, m * (m * m - 1)))))
}

proof fn lemma_no_differences(a: Seq<i32>, n: nat)
    requires
        n <= a.len(),
    ensures
        squared_differences(a, a, n) == 0,
    decreases n,
{
    if n > 0 {
        lemma_no_differences(a, (n - 1) as nat);
    }
}

/// An order correlates fully with itself.
pub proof fn an_order_matches_itself(order: Seq<i32>)
    requires
        order.len() >= 2,
    ensures
        rank_correlation(order, order) == Some(ONE as int),
{
    lemma_no_differences(order, order.len());
    let n = order.len() as int;
    assert(n * (n * n - 1) >= 6) by (nonlinear_arith)
        requires
            n >= 2,
    ;
    let d = n * (n * n - 1);
    assert(0int / d == 0 && 0int % d == 0) by (nonlinear_arith)
        requires
            d >= 6,
    ;
}

/// A race's simulated rounds scored against its recording.
#[derive(Debug, Clone, Copy, PartialEq, Eq, Structural)]
pub struct Scores {
    /// Mean over runners of how far the mean finish time is off; none without a
    /// round or a runner.
    pub finish_time_mae: Option<i64>,
    /// The same with its sign: negative where the simulation is too fast.
    pub finish_time_bias: Option<i64>,
    /// Share of rounds with the recorded winner; none without a round.
    pub winner_hit_rate: Option<i64>,
    /// Mean rank correlation with the recorded order; none without a round or
    /// where a round has none.
    pub order_spearman: Option<i64>,
    /// Mean over runners of how far the mean spurt start is off; none where a
    /// spurt is recorded and there is no round.
    pub spurt_start_mae: Option<i64>,
    /// Mean over runners' skills of how far the activation rate is off; none
    /// where a skill is held and there is no round.
    pub skill_activation_error: Option<i64>,
    /// Mean over samples of how far the mean distance is off.
    pub trajectory_mae: i64,
    /// Mean over samples of how far the mean speed is off.
    pub speed_mae: i64,
    /// The same with its sign.
    pub speed_bias: i64,
    /// Mean over samples of how far the mean hit points are off.
    pub hp_mae: i64,
    /// The same with its sign: negative where the simulation drains more.
    pub hp_bias: i64,
    /// Mean agreement of the rushed rate with the recorded flag.
    pub rushed_agreement: i64,
    /// Mean over samples of how far the mean lane is off; none without a
    /// recorded lane.
    pub lane_mae: Option<i64>,
    /// The pooled blocked share, simulated less recorded; none in scores from
    /// before the measure.
    pub blocked_share_diff: Option<i64>,
    /// The recorded rushed spells per rung.
    pub rushed_spell_ladder_observed: RungCounts,
    /// The simulated rushed spells per rung and round.
    pub rushed_spell_ladder_sim: RungCounts,
    /// How much longer the simulated spells run; none without a spell on either
    /// side.
    pub rushed_spell_duration_diff: Option<i64>,
}

/// What may have become worse.
#[derive(Debug, Clone, Copy, PartialEq, Eq, Structural)]
pub enum Regression {
    /// There is nothing to compare with.
    NoBaseline,
    FinishTime,
    Trajectory,
    Speed,
    Lane,
    BlockedShare,
    Hp,
}

/// Slack on the mean finish time error: 0.02 s.
pub const FINISH_TIME_TOLERANCE: i64 = 20_000_000;

/// Slack on the mean distance error: 0.25 m.
pub const TRAJECTORY_TOLERANCE: i64 = 250_000_000;

/// Slack on the mean speed error: 0.02 m/s.
pub const SPEED_TOLERANCE: i64 = 20_000_000;

/// Slack on the mean lane error: 0.05 m.
pub const LANE_TOLERANCE: i64 = 50_000_000;

/// Slack on the mean hit point error: 2.
pub const HP_TOLERANCE: i64 = 2_000_000_000;

/// Drift allowed on the blocked share: one percentage point.
pub const BLOCKED_SHARE_TOLERANCE: i64 = 10_000_000;

/// Whether an error has grown past its slack.
pub open spec fn has_grown(before: int, now: int, slack: int) -> bool {
    now > before + slack
}

/// One entry where the answer is yes.
pub open spec fn entry_if(yes: bool, entry: Regression) -> Seq<Regression> {
    if yes {
        seq![entry]
    } else {
        Seq::empty()
    }
}

/// What has become worse since `previous`, in a fixed order. What either side
/// lacks is not compared. The blocked share is held to its magnitude: it may not
/// wander further from the recording.
pub open spec fn regressions(previous: Option<Scores>, now: Scores) -> Seq<Regression> {
    match previous {
        None => seq![Regression::NoBaseline],
        Some(before) => {
            entry_if(
                before.finish_time_mae is Some && now.finish_time_mae is Some && has_grown(
                    before.finish_time_mae->0 as int,
                    now.finish_time_mae->0 as int,
                    FINISH_TIME_TOLERANCE as int,
                ),
                Regression::FinishTime,
            ) + entry_if(
                has_grown(
                    before.trajectory_mae as int,
                    now.trajectory_mae as int,
                    TRAJECTORY_TOLERANCE as int,
                ),
                Regression::Trajectory,
            ) + entry_if(
                has_grown(before.speed_mae as int, now.speed_mae as int, SPEED_TOLERANCE as int),
                Regression::Speed,
            ) + entry_if(
                before.lane_mae is Some && now.lane_mae is Some && has_grown(
                    before.lane_mae->0 as int,
                    now.lane_mae->0 as int,
                    LANE_TOLERANCE as int,
                ),
                Regression::Lane,
            ) + entry_if(
                before.blocked_share_diff is Some && now.blocked_share_diff is Some && has_grown(
                    magnitude(before.blocked_share_diff->0 as int),
                    magnitude(now.blocked_share_diff->0 as int),
                    BLOCKED_SHARE_TOLERANCE as int,
                ),
                Regression::BlockedShare,
            ) + entry_if(
                has_grown(before.hp_mae as int, now.hp_mae as int, HP_TOLERANCE as int),
                Regression::Hp,
            )
        },
    }
}

fn grown(before: i64, now: i64, slack: i64) -> (yes: bool)
    ensures
        yes == has_grown(before as int, now as int, slack as int),
{
    now as i128 > before as i128 + slack as i128
}

fn grown_magnitude(before: i64, now: i64, slack: i64) -> (yes: bool)
    ensures
        yes == has_grown(magnitude(before as int), magnitude(now as int), slack as int),
{
    let b: i128 = if before < 0 {
        -(before as i128)
    } else {
        before as i128
    };
    let n: i128 = if now < 0 {
        -(now as i128)
    } else {
        now as i128
    };
    n > b + slack as i128
}

fn note(list: &mut Vec<Regression>, yes: bool, entry: Regression)
    ensures
        final(list)@ == old(list)@ + entry_if(yes, entry),
{
    if yes {
        list.push(entry);
    }
    proof {
        assert(list@ =~= old(list)@ + entry_if(yes, entry));
    }
}

/// See [`regressions`].
pub fn check_against_baseline(previous: &Option<Scores>, scores: &Scores) -> (failures: Vec<
    Regression,
>)
    ensures
        failures@ == regressions(*previous, *scores),
{
    let mut failures: Vec<Regression> = Vec::new();
    match previous {
        None => {
            failures.push(Regression::NoBaseline);
        },
        Some(before) => {
            let finish: bool = match (before.finish_time_mae, scores.finish_time_mae) {
                (Some(b), Some(n)) => grown(b, n, FINISH_TIME_TOLERANCE),
                _ => false,
            };
            note(&mut failures, finish, Regression::FinishTime);
            note(
                &mut failures,
                grown(before.trajectory_mae, scores.trajectory_mae, TRAJECTORY_TOLERANCE),
                Regression::Trajectory,
            );
            note(
                &mut failures,
                grown(before.speed_mae, scores.speed_mae, SPEED_TOLERANCE),
                Regression::Speed,
            );
            let lane: bool = match (before.lane_mae, scores.lane_mae) {
                (Some(b), Some(n)) => grown(b, n, LANE_TOLERANCE),
                _ => false,
            };
            note(&mut failures, lane, Regression::Lane);
            let blocked: bool = match (before.blocked_share_diff, scores.blocked_share_diff) {
                (Some(b), Some(n)) => grown_magnitude(b, n, BLOCKED_SHARE_TOLERANCE),
                _ => false,
            };
            note(&mut failures, blocked, Regression::BlockedShare);
            note(
                &mut failures,
                grown(before.hp_mae, scores.hp_mae, HP_TOLERANCE),
                Regression::Hp,
            );
        },
    }
    proof {
        assert(failures@ =~= regressions(*previous, *scores));
    }
    failures
}

/// Scores have not become worse than themselves.
pub proof fn scores_hold_against_themselves(scores: Scores)
    ensures
        regressions(Some(scores), scores).len() == 0,
{
}

} // verus!
