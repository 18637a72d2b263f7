//! Simulated rounds scored against the recorded race.
use crate::accuracy::errors::{
    apart, distance_apart, observed_sample, part_at, per_sample, rank_correlation, sample_added, sample_of,
    spearman, FrameErrors, FrameSample, RacePart, Scores, RANKED_RUNNERS,
};
use crate::accuracy::recording::{
    activated, find_frame_at, first_frame_at, gate_activations, is_activation, lemma_first_frame_at,
    lists_skill, observed_activations, Activation, Observed, ObservedFrame, ObservedResult,
    EVENT_SKILL,
};
use crate::accuracy::spells::{mean_over, RungCounts, SpellComparison};
use crate::units::{
    clamp_wide, divide_rounded, minus, plus, rounded_quotient, sat, wide_product, ONE,
    QUANTITY_MAX, QUANTITY_MIN,
};
use vstd::prelude::*;

verus! {

/// How often the distance of a simulated frame from the time it stands for must
/// fit in a second: it may be a 15th of a second away, and no more.
pub const FRAMES_PER_SECOND: i64 = 15;

impl Observed {
    /// Whether every frame has a distance, a speed and hit points for each of
    /// `gates` gates.
    pub open spec fn samples_gates(&self, gates: nat) -> bool {
        forall|i: int| 0 <= i < self.frames@.len() ==> has_gates(#[trigger] self.frames@[i], gates)
    }
}

/// Whether a frame has a distance, a speed and hit points for each of `gates`
/// gates.
pub open spec fn has_gates(frame: ObservedFrame, gates: nat) -> bool {
    frame.distance@.len() >= gates && frame.speed@.len() >= gates && frame.hp@.len() >= gates
}

/// The frame nearest `time`, the earlier one of two as near; none where none is
/// within reach.
pub open spec fn nearest_frame(frames: Seq<ObservedFrame>, time: i64) -> Option<int> {
    let after = first_frame_at(frames, time, 0);
    let nearest = if after > 0 && (after >= frames.len() || apart(frames[after - 1].time, time)
        <= apart(frames[after].time, time)) {
        after - 1
    } else {
        after
    };
    if nearest < frames.len() && FRAMES_PER_SECOND * apart(
        frames[nearest].time,
        time,
    ) <= ONE {
        Some(nearest)
    } else {
        None
    }
}

/// A runner of a round at `time`; none once the round has ended.
pub open spec fn round_sample(
    round: Observed,
    gate: int,
    time: i64,
    course_width: i64,
) -> Option<FrameSample> {
    match nearest_frame(round.frames@, time) {
        Some(i) => Some(sample_of(round.frames@[i], gate, course_width)),
        None => None,
    }
}

/// See [`round_sample`].
pub fn sim_sample_at(round: &Observed, gate: usize, time: i64, course_width: i64) -> (sample:
    Option<FrameSample>)
    requires
        round.samples_gates(gate as nat + 1),
    ensures
        sample == round_sample(*round, gate as int, time, course_width),
{
    let frames = &round.frames;
    let after: usize = find_frame_at(frames, time);
    proof {
        lemma_first_frame_at(frames@, time, 0);
    }
    let nearest: usize = if after > 0 && (after >= frames.len() || distance_apart(
        frames[after - 1].time,
        time,
    ) <= distance_apart(frames[after].time, time)) {
        after - 1
    } else {
        after
    };
    if nearest < frames.len() && wide_product(
        FRAMES_PER_SECOND,
        distance_apart(frames[nearest].time, time),
    ) <= ONE as i128 {
        let frame = &frames[nearest];
        proof {
            assert(has_gates(round.frames@[nearest as int], gate as nat + 1));
        }
        Some(observed_sample(frame, gate, course_width))
    } else {
        None
    }
}

/// Two lanes summed: a missing one adds nothing.
pub open spec fn lanes_summed(a: Option<i64>, b: Option<i64>) -> Option<i64> {
    match (a, b) {
        (Some(x), Some(y)) => Some(sat(x + y) as i64),
        (None, Some(y)) => Some(y),
        (x, None) => x,
    }
}

/// Two samples summed.
pub open spec fn samples_summed(a: FrameSample, b: FrameSample) -> FrameSample {
    FrameSample {
        distance: sat(a.distance + b.distance) as i64,
        speed: sat(a.speed + b.speed) as i64,
        hp: sat(a.hp + b.hp) as i64,
        rushed: sat(a.rushed + b.rushed) as i64,
        blocked: sat(a.blocked + b.blocked) as i64,
        lane: lanes_summed(a.lane, b.lane),
    }
}

/// The samples of the first `n` rounds at `time` summed, and how many there
/// are.
pub open spec fn rounds_summed(
    rounds: Seq<Observed>,
    gate: int,
    time: i64,
    course_width: i64,
    n: nat,
) -> (FrameSample, int)
    decreases n,
{
    if n == 0 {
        (
            FrameSample { distance: 0, speed: 0, hp: 0, rushed: 0, blocked: 0, lane: None },
            0,
        )
    } else {
        let (sum, count) = rounds_summed(rounds, gate, time, course_width, (n - 1) as nat);
        match round_sample(rounds[n - 1], gate, time, course_width) {
            Some(sample) => (samples_summed(sum, sample), count + 1),
            None => (sum, count),
        }
    }
}

/// A sum over `n` samples per sample.
pub open spec fn share_of(sum: i64, n: int) -> i64 {
    sat(rounded_quotient(sum as int, n)) as i64
}

/// The mean sample of a runner at `time`, over the rounds still running; none
/// once all have ended.
pub open spec fn mean_sample(
    rounds: Seq<Observed>,
    gate: int,
    time: i64,
    course_width: i64,
) -> Option<FrameSample> {
    let (sum, n) = rounds_summed(rounds, gate, time, course_width, rounds.len());
    if n == 0 {
        None
    } else {
        Some(
            FrameSample {
                distance: share_of(sum.distance, n),
                speed: share_of(sum.speed, n),
                hp: share_of(sum.hp, n),
                rushed: share_of(sum.rushed, n),
                blocked: share_of(sum.blocked, n),
                lane: match sum.lane {
                    Some(lane) => Some(share_of(lane, n)),
                    None => None,
                },
            },
        )
    }
}

fn sum_lanes(a: Option<i64>, b: Option<i64>) -> (sum: Option<i64>)
    ensures
        sum == lanes_summed(a, b),
{
    match (a, b) {
        (Some(x), Some(y)) => Some(plus(x, y)),
        (None, Some(y)) => Some(y),
        (x, None) => x,
    }
}

fn divide_share(sum: i64, n: i64) -> (share: i64)
    requires
        n > 0,
    ensures
        share == share_of(sum, n as int),
{
    clamp_wide(divide_rounded(sum as i128, n as i128))
}

/// Whether every round samples each of `gates` gates.
pub open spec fn rounds_sample(rounds: Seq<Observed>, gates: nat) -> bool {
    forall|i: int| 0 <= i < rounds.len() ==> (#[trigger] rounds[i]).samples_gates(gates)
}

/// See [`mean_sample`].
pub fn mean_sim_sample(
    rounds: &Vec<Observed>,
    gate: usize,
    time: i64,
    course_width: i64,
) -> (mean: Option<FrameSample>)
    requires
        rounds_sample(rounds@, gate as nat + 1),
        rounds@.len() <= QUANTITY_MAX,
    ensures
        mean == mean_sample(rounds@, gate as int, time, course_width),
{
    let mut sum: FrameSample = FrameSample::default();
    let mut count: i64 = 0;
    let mut i: usize = 0;
    while i < rounds.len()
        invariant
            i <= rounds@.len(),
            rounds_sample(rounds@, gate as nat + 1),
            rounds@.len() <= QUANTITY_MAX,
            0 <= count <= i,
            (sum, count as int) == rounds_summed(
                rounds@,
                gate as int,
                time,
                course_width,
                i as nat,
            ),
        decreases rounds@.len() - i,
    {
        if let Some(sample) = sim_sample_at(&rounds[i], gate, time, course_width) {
            sum = FrameSample {
                distance: plus(sum.distance, sample.distance),
                speed: plus(sum.speed, sample.speed),
                hp: plus(sum.hp, sample.hp),
                rushed: plus(sum.rushed, sample.rushed),
                blocked: plus(sum.blocked, sample.blocked),
                lane: sum_lanes(sum.lane, sample.lane),
            };
            count = count + 1;
        }
        i = i + 1;
    }
    if count == 0 {
        return None;
    }
    let lane: Option<i64> = match sum.lane {
        Some(lane) => Some(divide_share(lane, count)),
        None => None,
    };
    Some(
        FrameSample {
            distance: divide_share(sum.distance, count),
            speed: divide_share(sum.speed, count),
            hp: divide_share(sum.hp, count),
            rushed: divide_share(sum.rushed, count),
            blocked: divide_share(sum.blocked, count),
            lane,
        },
    )
}

/// The course a race is run on, as far as the scores read it.
#[derive(Debug, Clone, Copy, PartialEq, Eq, Structural)]
pub struct ScoredCourse {
    pub distance: i64,
    pub width: i64,
}

/// Which samples count: one gate's or all, one part of the race or all.
#[derive(Debug, Clone, Copy, PartialEq, Eq, Structural)]
pub struct SampleFilter {
    pub gate: Option<usize>,
    pub part: Option<RacePart>,
}

/// Whether a sample of `gate` at a recorded distance counts.
pub open spec fn passes(
    filter: SampleFilter,
    gate: int,
    distance: int,
    course_distance: int,
) -> bool {
    &&& filter.gate matches Some(g) ==> g == gate
    &&& filter.part matches Some(p) ==> p == part_at(distance, course_distance)
}

/// The errors with one frame's first `n` gates added.
pub open spec fn frame_added(
    e: FrameErrors,
    frame: ObservedFrame,
    rounds: Seq<Observed>,
    course: ScoredCourse,
    filter: SampleFilter,
    n: nat,
) -> FrameErrors
    decreases n,
{
    if n == 0 {
        e
    } else {
        let before = frame_added(e, frame, rounds, course, filter, (n - 1) as nat);
        let observed = sample_of(frame, n - 1, course.width);
        match mean_sample(rounds, n - 1, frame.time, course.width) {
            Some(sim) => if passes(
                filter,
                n - 1,
                observed.distance as int,
                course.distance as int,
            ) {
                sample_added(before, sim, observed)
            } else {
                before
            },
            None => before,
        }
    }
}

/// The errors of a race's first `n` frames.
pub open spec fn frames_added(
    e: FrameErrors,
    observed: Observed,
    rounds: Seq<Observed>,
    course: ScoredCourse,
    filter: SampleFilter,
    n: nat,
) -> FrameErrors
    decreases n,
{
    if n == 0 {
        e
    } else {
        frame_added(
            frames_added(e, observed, rounds, course, filter, (n - 1) as nat),
            observed.frames@[n - 1],
            rounds,
            course,
            filter,
            observed.results@.len(),
        )
    }
}

/// No error yet.
pub open spec fn no_errors() -> FrameErrors {
    FrameErrors {
        distance_abs: 0,
        speed_abs: 0,
        speed_signed: 0,
        hp_abs: 0,
        hp_signed: 0,
        rushed_agreement: 0,
        blocked_sim: 0,
        blocked_observed: 0,
        lane_abs: 0,
        lane_count: 0,
        count: 0,
    }
}

/// The errors over the recorded frames that count.
pub open spec fn race_errors(
    observed: Observed,
    rounds: Seq<Observed>,
    course: ScoredCourse,
    filter: SampleFilter,
) -> FrameErrors {
    frames_added(no_errors(), observed, rounds, course, filter, observed.frames@.len())
}

fn filter_passes(
    filter: &SampleFilter,
    gate: usize,
    distance: i64,
    course_distance: i64,
) -> (yes: bool)
    ensures
        yes == passes(*filter, gate as int, distance as int, course_distance as int),
{
    let gate_passes: bool = match filter.gate {
        Some(g) => g == gate,
        None => true,
    };
    let part_passes: bool = match filter.part {
        Some(p) => p == RacePart::of(distance, course_distance),
        None => true,
    };
    gate_passes && part_passes
}

/// See [`race_errors`].
pub fn frame_errors(
    observed: &Observed,
    rounds: &Vec<Observed>,
    course: &ScoredCourse,
    filter: &SampleFilter,
) -> (errors: FrameErrors)
    requires
        observed.samples_gates(observed.results@.len()),
        rounds_sample(rounds@, observed.results@.len()),
        rounds@.len() <= QUANTITY_MAX,
    ensures
        errors == race_errors(*observed, rounds@, *course, *filter),
{
    let mut errors = FrameErrors::new();
    let mut i: usize = 0;
    let runners: usize = observed.results.len();
    while i < observed.frames.len()
        invariant
            i <= observed.frames@.len(),
            runners == observed.results@.len(),
            observed.samples_gates(observed.results@.len()),
            rounds_sample(rounds@, observed.results@.len()),
            rounds@.len() <= QUANTITY_MAX,
            errors == frames_added(
                no_errors(),
                *observed,
                rounds@,
                *course,
                *filter,
                i as nat,
            ),
        decreases observed.frames@.len() - i,
    {
        let ghost before = errors;
        let frame = &observed.frames[i];
        proof {
            assert(has_gates(observed.frames@[i as int], observed.results@.len()));
        }
        let mut gate: usize = 0;
        while gate < runners
            invariant
                gate <= runners,
                runners == observed.results@.len(),
                has_gates(*frame, runners as nat),
                rounds_sample(rounds@, runners as nat),
                rounds@.len() <= QUANTITY_MAX,
                errors == frame_added(before, *frame, rounds@, *course, *filter, gate as nat),
            decreases runners - gate,
        {
            let sample = observed_sample(frame, gate, course.width);
            proof {
                lemma_fewer_gates(rounds@, runners as nat, gate as nat + 1);
            }
            if let Some(sim) = mean_sim_sample(rounds, gate, frame.time, course.width) {
                if filter_passes(filter, gate, sample.distance, course.distance) {
                    errors.add_sample(sim, sample);
                }
            }
            gate = gate + 1;
        }
        i = i + 1;
    }
    errors
}

proof fn lemma_fewer_gates(rounds: Seq<Observed>, more: nat, fewer: nat)
    requires
        rounds_sample(rounds, more),
        fewer <= more,
    ensures
        rounds_sample(rounds, fewer),
{
    assert forall|i: int| 0 <= i < rounds.len() implies (#[trigger] rounds[i]).samples_gates(
        fewer,
    ) by {
        assert(rounds[i].samples_gates(more));
        assert forall|k: int| 0 <= k < rounds[i].frames@.len() implies has_gates(
            #[trigger] rounds[i].frames@[k],
            fewer,
        ) by {
            assert(has_gates(rounds[i].frames@[k], more));
        }
    }
}

/// The place of the winner; none where nobody won.
pub open spec fn winner(results: Seq<ObservedResult>, i: int) -> Option<int>
    decreases results.len() - i,
{
    if i < 0 || i >= results.len() {
        None
    } else if results[i].finish_order == 0 {
        Some(i)
    } else {
        winner(results, i + 1)
    }
}

fn find_winner(results: &Vec<ObservedResult>) -> (at: Option<usize>)
    ensures
        match at {
            Some(i) => winner(results@, 0) == Some(i as int),
            None => winner(results@, 0) is None,
        },
{
    let mut i: usize = 0;
    while i < results.len()
        invariant
            i <= results@.len(),
            winner(results@, 0) == winner(results@, i as int),
        decreases results@.len() - i,
    {
        if results[i].finish_order == 0 {
            return Some(i);
        }
        i = i + 1;
    }
    None
}

/// The finishing order, by gate.
pub open spec fn finish_orders(results: Seq<ObservedResult>) -> Seq<i32> {
    Seq::new(results.len(), |i: int| results[i].finish_order)
}

fn read_finish_orders(results: &Vec<ObservedResult>) -> (orders: Vec<i32>)
    ensures
        orders@ == finish_orders(results@),
{
    let mut orders: Vec<i32> = Vec::new();
    let mut i: usize = 0;
    while i < results.len()
        invariant
            i <= results@.len(),
            orders@.len() == i,
            forall|k: int| 0 <= k < i ==> orders@[k] == (#[trigger] results@[k]).finish_order,
        decreases results@.len() - i,
    {
        orders.push(results[i].finish_order);
        i = i + 1;
    }
    assert(orders@ =~= finish_orders(results@));
    orders
}

/// How many of the first `n` rounds have the recorded winner.
pub open spec fn winner_hits(observed: Observed, rounds: Seq<Observed>, n: nat) -> int
    decreases n,
{
    if n == 0 {
        0
    } else {
        winner_hits(observed, rounds, (n - 1) as nat) + if winner(rounds[n - 1].results@, 0)
            == winner(observed.results@, 0) {
            1int
        } else {
            0
        }
    }
}

/// Two correlations summed: one without bound stays so.
pub open spec fn correlations_summed(sum: int, rho: int) -> int {
    if sum == QUANTITY_MIN || rho == QUANTITY_MIN {
        QUANTITY_MIN as int
    } else {
        sat(sum + rho)
    }
}

/// The mean of correlations summed over `n` rounds: one without bound stays so.
pub open spec fn mean_correlation(sum: i64, n: int) -> i64 {
    if sum == QUANTITY_MIN {
        QUANTITY_MIN
    } else {
        share_of(sum, n)
    }
}

/// The summed rank correlation of the first `n` rounds; none where one has
/// none.
pub open spec fn correlation_sum(observed: Observed, rounds: Seq<Observed>, n: nat) -> Option<int>
    decreases n,
{
    if n == 0 {
        Some(0)
    } else {
        match (
            correlation_sum(observed, rounds, (n - 1) as nat),
            rank_correlation(
                finish_orders(rounds[n - 1].results@),
                finish_orders(observed.results@),
            ),
        ) {
            (Some(sum), Some(rho)) => Some(correlations_summed(sum, rho)),
            _ => None,
        }
    }
}

/// A runner's summed finish time over the first `n` rounds.
pub open spec fn finish_sum(rounds: Seq<Observed>, gate: int, n: nat) -> int
    decreases n,
{
    if n == 0 {
        0
    } else {
        let before = finish_sum(rounds, gate, (n - 1) as nat);
        if gate < rounds[n - 1].results@.len() {
            sat(before + rounds[n - 1].results@[gate].finish_time_raw)
        } else {
            before
        }
    }
}

/// A runner's summed spurt start over the first `n` rounds.
pub open spec fn spurt_sum(rounds: Seq<Observed>, gate: int, n: nat) -> int
    decreases n,
{
    if n == 0 {
        0
    } else {
        let before = spurt_sum(rounds, gate, (n - 1) as nat);
        if gate < rounds[n - 1].results@.len() {
            sat(before + rounds[n - 1].results@[gate].last_spurt_start_distance)
        } else {
            before
        }
    }
}

/// Whether a round fires a runner's skill.
pub open spec fn fires_in(round: Observed, gate: int, skill: i64) -> bool {
    exists|i: int|
        0 <= i < round.events@.len() && is_activation(#[trigger] round.events@[i])
            && round.events@[i].params@[0] == gate && round.events@[i].params@[1] == skill
}

/// How many of the first `n` rounds fire a runner's skill.
pub open spec fn rounds_fired(rounds: Seq<Observed>, gate: int, skill: i64, n: nat) -> int
    decreases n,
{
    if n == 0 {
        0
    } else {
        rounds_fired(rounds, gate, skill, (n - 1) as nat) + if fires_in(
            rounds[n - 1],
            gate,
            skill,
        ) {
            1int
        } else {
            0
        }
    }
}

/// How far the activation rate of a runner's skill is from what was recorded.
pub open spec fn skill_error(
    observed: Observed,
    rounds: Seq<Observed>,
    gate: int,
    skill: i64,
) -> int {
    let rate = sat(
        rounded_quotient(
            rounds_fired(rounds, gate, skill, rounds.len()) * ONE,
            rounds.len() as int,
        ),
    ) as i64;
    let fired = activated(gate_activations(observed, gate, observed.events@.len()), skill);
    apart(
        rate,
        if fired {
            ONE
        } else {
            0
        },
    )
}

/// A runner's first `n` skills' errors summed onto `sum`.
pub open spec fn skills_summed(
    sum: int,
    observed: Observed,
    rounds: Seq<Observed>,
    gate: int,
    skills: Seq<i64>,
    n: nat,
) -> int
    decreases n,
{
    if n == 0 {
        sum
    } else {
        sat(
            skills_summed(sum, observed, rounds, gate, skills, (n - 1) as nat) + skill_error(
                observed,
                rounds,
                gate,
                skills[n - 1],
            ),
        )
    }
}

/// The sums over runners that the scores are taken from.
#[derive(Debug, Clone, Copy, PartialEq, Eq, Structural)]
pub struct RunnerSums {
    pub finish_abs: i64,
    pub finish_signed: i64,
    pub spurt_abs: i64,
    pub spurt_count: i64,
    pub skill_abs: i64,
    pub skill_count: i64,
}

/// The sums over the first `n` runners. A runner without a recorded spurt does
/// not count toward the spurt error.
pub open spec fn runners_summed(
    observed: Observed,
    rounds: Seq<Observed>,
    skills: Seq<Vec<i64>>,
    n: nat,
) -> RunnerSums
    decreases n,
{
    if n == 0 {
        RunnerSums {
            finish_abs: 0,
            finish_signed: 0,
            spurt_abs: 0,
            spurt_count: 0,
            skill_abs: 0,
            skill_count: 0,
        }
    } else {
        let before = runners_summed(observed, rounds, skills, (n - 1) as nat);
        let gate = n - 1;
        let result = observed.results@[gate];
        let finish = share_of(
            finish_sum(rounds, gate, rounds.len()) as i64,
            rounds.len() as int,
        );
        let spurt = share_of(spurt_sum(rounds, gate, rounds.len()) as i64, rounds.len() as int);
        let with_spurt = result.last_spurt_start_distance > 0;
        RunnerSums {
            finish_abs: sat(before.finish_abs + apart(finish, result.finish_time_raw)) as i64,
            finish_signed: sat(
                before.finish_signed + sat(finish - result.finish_time_raw),
            ) as i64,
            spurt_abs: if with_spurt {
                sat(before.spurt_abs + apart(spurt, result.last_spurt_start_distance)) as i64
            } else {
                before.spurt_abs
            },
            spurt_count: if with_spurt {
                sat(before.spurt_count + 1) as i64
            } else {
                before.spurt_count
            },
            skill_abs: skills_summed(
                before.skill_abs as int,
                observed,
                rounds,
                gate,
                skills[gate]@,
                skills[gate]@.len(),
            ) as i64,
            skill_count: sat(before.skill_count + skills[gate]@.len()) as i64,
        }
    }
}

fn fires(round: &Observed, gate: usize, skill: i64) -> (yes: bool)
    ensures
        yes == fires_in(*round, gate as int, skill),
{
    let mut i: usize = 0;
    while i < round.events.len()
        invariant
            i <= round.events@.len(),
            forall|k: int|
                0 <= k < i ==> !(is_activation(#[trigger] round.events@[k])
                    && round.events@[k].params@[0] == gate && round.events@[k].params@[1]
                    == skill),
        decreases round.events@.len() - i,
    {
        let event = &round.events[i];
        if event.kind == EVENT_SKILL && event.params.len() >= 2 && event.params[0] >= 0
            && event.params[0] as u64 == gate as u64 && event.params[1] == skill {
            assert(is_activation(round.events@[i as int]));
            return true;
        }
        i = i + 1;
    }
    false
}

fn read_skill_error(
    fired: &Vec<Activation>,
    observed: &Observed,
    rounds: &Vec<Observed>,
    gate: usize,
    skill: i64,
) -> (error: i64)
    requires
        0 < rounds@.len() <= QUANTITY_MAX,
        fired@ == gate_activations(*observed, gate as int, observed.events@.len()),
    ensures
        error == skill_error(*observed, rounds@, gate as int, skill),
{
    let mut n: i64 = 0;
    let mut i: usize = 0;
    while i < rounds.len()
        invariant
            i <= rounds@.len() <= QUANTITY_MAX,
            0 <= n <= i,
            n == rounds_fired(rounds@, gate as int, skill, i as nat),
        decreases rounds@.len() - i,
    {
        if fires(&rounds[i], gate, skill) {
            n = n + 1;
        }
        i = i + 1;
    }
    let rate: i64 = clamp_wide(divide_rounded(n as i128 * ONE as i128, rounds.len() as i128));
    let recorded: i64 = if lists_skill(fired, skill) {
        ONE
    } else {
        0
    };
    distance_apart(rate, recorded)
}

fn sum_over_rounds(rounds: &Vec<Observed>, gate: usize, spurt: bool) -> (sum: i64)
    ensures
        spurt ==> sum == spurt_sum(rounds@, gate as int, rounds@.len()),
        !spurt ==> sum == finish_sum(rounds@, gate as int, rounds@.len()),
{
    let mut sum: i64 = 0;
    let mut i: usize = 0;
    while i < rounds.len()
        invariant
            i <= rounds@.len(),
            spurt ==> sum == spurt_sum(rounds@, gate as int, i as nat),
            !spurt ==> sum == finish_sum(rounds@, gate as int, i as nat),
        decreases rounds@.len() - i,
    {
        let results = &rounds[i].results;
        if gate < results.len() {
            let amount: i64 = if spurt {
                results[gate].last_spurt_start_distance
            } else {
                results[gate].finish_time_raw
            };
            sum = plus(sum, amount);
        }
        i = i + 1;
    }
    sum
}

fn sum_skills(
    start: i64,
    fired: &Vec<Activation>,
    observed: &Observed,
    rounds: &Vec<Observed>,
    gate: usize,
    skills: &Vec<i64>,
) -> (sum: i64)
    requires
        0 < rounds@.len() <= QUANTITY_MAX,
        fired@ == gate_activations(*observed, gate as int, observed.events@.len()),
    ensures
        sum == skills_summed(
            start as int,
            *observed,
            rounds@,
            gate as int,
            skills@,
            skills@.len(),
        ),
{
    let mut sum: i64 = start;
    let mut i: usize = 0;
    while i < skills.len()
        invariant
            i <= skills@.len(),
            0 < rounds@.len() <= QUANTITY_MAX,
            fired@ == gate_activations(*observed, gate as int, observed.events@.len()),
            sum == skills_summed(
                start as int,
                *observed,
                rounds@,
                gate as int,
                skills@,
                i as nat,
            ),
        decreases skills@.len() - i,
    {
        sum = plus(sum, read_skill_error(fired, observed, rounds, gate, skills[i]));
        i = i + 1;
    }
    sum
}

fn sum_runners(
    observed: &Observed,
    rounds: &Vec<Observed>,
    skills: &Vec<Vec<i64>>,
) -> (sums: RunnerSums)
    requires
        observed.covers_gates(),
        observed.names_gates(),
        0 < rounds@.len() <= QUANTITY_MAX,
        skills@.len() >= observed.results@.len(),
    ensures
        sums == runners_summed(*observed, rounds@, skills@, observed.results@.len()),
{
    let fired = observed_activations(observed);
    let mut sums = RunnerSums {
        finish_abs: 0,
        finish_signed: 0,
        spurt_abs: 0,
        spurt_count: 0,
        skill_abs: 0,
        skill_count: 0,
    };
    let mut gate: usize = 0;
    while gate < observed.results.len()
        invariant
            gate <= observed.results@.len(),
            0 < rounds@.len() <= QUANTITY_MAX,
            skills@.len() >= observed.results@.len(),
            fired@.len() == observed.results@.len(),
            forall|g: int|
                0 <= g < fired@.len() ==> (#[trigger] fired@[g])@ == gate_activations(
                    *observed,
                    g,
                    observed.events@.len(),
                ),
            sums == runners_summed(*observed, rounds@, skills@, gate as nat),
        decreases observed.results@.len() - gate,
    {
        let result = observed.results[gate];
        let n: i64 = rounds.len() as i64;
        let finish: i64 = divide_share(sum_over_rounds(rounds, gate, false), n);
        let spurt: i64 = divide_share(sum_over_rounds(rounds, gate, true), n);
        let with_spurt: bool = result.last_spurt_start_distance > 0;
        let skill_abs: i64 = sum_skills(
            sums.skill_abs,
            &fired[gate],
            observed,
            rounds,
            gate,
            &skills[gate],
        );
        sums = RunnerSums {
            finish_abs: plus(sums.finish_abs, distance_apart(finish, result.finish_time_raw)),
            finish_signed: plus(sums.finish_signed, minus(finish, result.finish_time_raw)),
            spurt_abs: if with_spurt {
                plus(
                    sums.spurt_abs,
                    distance_apart(spurt, result.last_spurt_start_distance),
                )
            } else {
                sums.spurt_abs
            },
            spurt_count: if with_spurt {
                plus(sums.spurt_count, 1)
            } else {
                sums.spurt_count
            },
            skill_abs,
            skill_count: clamp_wide(sums.skill_count as i128 + skills[gate].len() as i128),
        };
        gate = gate + 1;
    }
    sums
}

fn count_winner_hits(observed: &Observed, rounds: &Vec<Observed>) -> (hits: i64)
    requires
        rounds@.len() <= QUANTITY_MAX,
    ensures
        hits == winner_hits(*observed, rounds@, rounds@.len()),
        0 <= hits <= rounds@.len(),
{
    let recorded = find_winner(&observed.results);
    let mut hits: i64 = 0;
    let mut i: usize = 0;
    while i < rounds.len()
        invariant
            i <= rounds@.len() <= QUANTITY_MAX,
            0 <= hits <= i,
            match recorded {
                Some(w) => winner(observed.results@, 0) == Some(w as int),
                None => winner(observed.results@, 0) is None,
            },
            hits == winner_hits(*observed, rounds@, i as nat),
        decreases rounds@.len() - i,
    {
        let here = find_winner(&rounds[i].results);
        let same: bool = match (here, recorded) {
            (Some(a), Some(b)) => a == b,
            (None, None) => true,
            _ => false,
        };
        if same {
            hits = hits + 1;
        }
        i = i + 1;
    }
    hits
}

/// Whether no round has more runners than a rank correlation can hold.
pub open spec fn rankable(rounds: Seq<Observed>) -> bool {
    forall|i: int| 0 <= i < rounds.len() ==> (#[trigger] rounds[i]).results@.len()
        <= RANKED_RUNNERS
}

fn sum_correlations(observed: &Observed, rounds: &Vec<Observed>) -> (sum: Option<i64>)
    requires
        rankable(rounds@),
    ensures
        match sum {
            Some(s) => correlation_sum(*observed, rounds@, rounds@.len()) == Some(s as int),
            None => correlation_sum(*observed, rounds@, rounds@.len()) is None,
        },
{
    let recorded = read_finish_orders(&observed.results);
    let mut sum: i64 = 0;
    let mut i: usize = 0;
    while i < rounds.len()
        invariant
            i <= rounds@.len(),
            rankable(rounds@),
            recorded@ == finish_orders(observed.results@),
            correlation_sum(*observed, rounds@, i as nat) == Some(sum as int),
        decreases rounds@.len() - i,
    {
        let orders = read_finish_orders(&rounds[i].results);
        match spearman(&orders, &recorded) {
            Some(rho) => {
                sum = if sum == QUANTITY_MIN || rho == QUANTITY_MIN {
                    QUANTITY_MIN
                } else {
                    plus(sum, rho)
                };
            },
            None => {
                proof {
                    lemma_no_correlation_stays_none(
                        *observed,
                        rounds@,
                        i as nat + 1,
                        rounds@.len(),
                    );
                }
                return None;
            },
        }
        i = i + 1;
    }
    Some(sum)
}

proof fn lemma_no_correlation_stays_none(
    observed: Observed,
    rounds: Seq<Observed>,
    n: nat,
    m: nat,
)
    requires
        n <= m,
        correlation_sum(observed, rounds, n) is None,
    ensures
        correlation_sum(observed, rounds, m) is None,
    decreases m - n,
{
    if n < m {
        lemma_no_correlation_stays_none(observed, rounds, n, (m - 1) as nat);
    }
}

/// A filter that lets every sample through.
pub open spec fn every_sample() -> SampleFilter {
    SampleFilter { gate: None, part: None }
}

/// Whether some runner's last spurt is recorded.
pub open spec fn has_spurt(results: Seq<ObservedResult>) -> bool {
    exists|i: int|
        0 <= i < results.len() && (#[trigger] results[i]).last_spurt_start_distance > 0
}

/// Whether one of the first `runners` runners holds a skill.
pub open spec fn has_skill(skills: Seq<Vec<i64>>, runners: nat) -> bool {
    exists|i: int| 0 <= i < runners && (#[trigger] skills[i])@.len() > 0
}

fn any_spurt(results: &Vec<ObservedResult>) -> (yes: bool)
    ensures
        yes == has_spurt(results@),
{
    let mut i: usize = 0;
    while i < results.len()
        invariant
            i <= results@.len(),
            forall|k: int|
                0 <= k < i ==> (#[trigger] results@[k]).last_spurt_start_distance <= 0,
        decreases results@.len() - i,
    {
        if results[i].last_spurt_start_distance > 0 {
            return true;
        }
        i = i + 1;
    }
    false
}

fn any_skill(skills: &Vec<Vec<i64>>, runners: usize) -> (yes: bool)
    requires
        runners <= skills@.len(),
    ensures
        yes == has_skill(skills@, runners as nat),
{
    let mut i: usize = 0;
    while i < runners
        invariant
            i <= runners <= skills@.len(),
            forall|k: int| 0 <= k < i ==> (#[trigger] skills@[k])@.len() == 0,
        decreases runners - i,
    {
        if skills[i].len() > 0 {
            assert(skills@[i as int]@.len() > 0);
            return true;
        }
        i = i + 1;
    }
    false
}

/// The scores of simulated rounds against the recording, the spells aside. A
/// mean over rounds is none without a round, and so is whatever such a mean goes
/// into; a sum that nothing went into is 0.
pub open spec fn scores_of(
    observed: Observed,
    rounds: Seq<Observed>,
    skills: Seq<Vec<i64>>,
    course: ScoredCourse,
) -> Scores {
    let runners = observed.results@.len();
    let n = rounds.len() as int;
    let sums = runners_summed(observed, rounds, skills, runners);
    let e = race_errors(observed, rounds, course, every_sample());
    let none = RungCounts { three: 0, six: 0, nine: 0, twelve: 0 };
    Scores {
        finish_time_mae: if n == 0 || runners == 0 {
            None
        } else {
            Some(share_of(sums.finish_abs, runners as int))
        },
        finish_time_bias: if n == 0 || runners == 0 {
            None
        } else {
            Some(share_of(sums.finish_signed, runners as int))
        },
        winner_hit_rate: if n == 0 {
            None
        } else {
            Some(
                sat(
                    rounded_quotient(winner_hits(observed, rounds, rounds.len()) * ONE, n),
                ) as i64,
            )
        },
        order_spearman: match correlation_sum(observed, rounds, rounds.len()) {
            Some(sum) => if n == 0 {
                None
            } else {
                Some(mean_correlation(sum as i64, n))
            },
            None => None,
        },
        spurt_start_mae: if n > 0 {
            Some(per_sample(sums.spurt_abs as int, sums.spurt_count as int) as i64)
        } else if has_spurt(observed.results@) {
            None
        } else {
            Some(0)
        },
        skill_activation_error: if n > 0 {
            Some(per_sample(sums.skill_abs as int, sums.skill_count as int) as i64)
        } else if has_skill(skills, runners) {
            None
        } else {
            Some(0)
        },
        trajectory_mae: per_sample(e.distance_abs as int, e.count as int) as i64,
        speed_mae: per_sample(e.speed_abs as int, e.count as int) as i64,
        speed_bias: per_sample(e.speed_signed as int, e.count as int) as i64,
        hp_mae: per_sample(e.hp_abs as int, e.count as int) as i64,
        hp_bias: per_sample(e.hp_signed as int, e.count as int) as i64,
        rushed_agreement: per_sample(e.rushed_agreement as int, e.count as int) as i64,
        lane_mae: if e.lane_count > 0 {
            Some(share_of(e.lane_abs, e.lane_count as int))
        } else {
            None
        },
        blocked_share_diff: Some(
            per_sample(sat(e.blocked_sim - e.blocked_observed), e.count as int) as i64,
        ),
        rushed_spell_ladder_observed: none,
        rushed_spell_ladder_sim: none,
        rushed_spell_duration_diff: None,
    }
}

fn per_count(sum: i64, count: i64) -> (mean: i64)
    ensures
        mean == per_sample(sum as int, count as int),
{
    let n: i64 = if count >= 1 {
        count
    } else {
        1
    };
    clamp_wide(divide_rounded(sum as i128, n as i128))
}

/// The scores that are means over the rounds.
struct RoundScores {
    finish_time_mae: Option<i64>,
    finish_time_bias: Option<i64>,
    winner_hit_rate: Option<i64>,
    order_spearman: Option<i64>,
    spurt_start_mae: Option<i64>,
    skill_activation_error: Option<i64>,
}

fn score_rounds(observed: &Observed, rounds: &Vec<Observed>, skills: &Vec<Vec<i64>>) -> (scores:
    RoundScores)
    requires
        observed.covers_gates(),
        observed.names_gates(),
        rankable(rounds@),
        rounds@.len() <= QUANTITY_MAX,
        observed.results@.len() <= QUANTITY_MAX,
        skills@.len() >= observed.results@.len(),
    ensures
        forall|course: ScoredCourse|
            {
                let all = #[trigger] scores_of(*observed, rounds@, skills@, course);
                &&& scores.finish_time_mae == all.finish_time_mae
                &&& scores.finish_time_bias == all.finish_time_bias
                &&& scores.winner_hit_rate == all.winner_hit_rate
                &&& scores.order_spearman == all.order_spearman
                &&& scores.spurt_start_mae == all.spurt_start_mae
                &&& scores.skill_activation_error == all.skill_activation_error
            },
{
    if rounds.len() == 0 {
        return RoundScores {
            finish_time_mae: None,
            finish_time_bias: None,
            winner_hit_rate: None,
            order_spearman: None,
            spurt_start_mae: if any_spurt(&observed.results) {
                None
            } else {
                Some(0)
            },
            skill_activation_error: if any_skill(skills, observed.results.len()) {
                None
            } else {
                Some(0)
            },
        };
    }
    let runners: i64 = observed.results.len() as i64;
    let n: i64 = rounds.len() as i64;
    let sums = sum_runners(observed, rounds, skills);
    let hits: i64 = count_winner_hits(observed, rounds);
    let finish: (Option<i64>, Option<i64>) = if runners == 0 {
        (None, None)
    } else {
        (
            Some(divide_share(sums.finish_abs, runners)),
            Some(divide_share(sums.finish_signed, runners)),
        )
    };
    RoundScores {
        finish_time_mae: finish.0,
        finish_time_bias: finish.1,
        winner_hit_rate: Some(
            clamp_wide(divide_rounded(hits as i128 * ONE as i128, n as i128)),
        ),
        order_spearman: match sum_correlations(observed, rounds) {
            Some(sum) => Some(
                if sum == QUANTITY_MIN {
                    QUANTITY_MIN
                } else {
                    divide_share(sum, n)
                },
            ),
            None => None,
        },
        spurt_start_mae: Some(per_count(sums.spurt_abs, sums.spurt_count)),
        skill_activation_error: Some(per_count(sums.skill_abs, sums.skill_count)),
    }
}

/// Score simulated rounds against the recording: see [`scores_of`]. `skills`
/// lists what each runner holds.
pub fn score(
    observed: &Observed,
    rounds: &Vec<Observed>,
    skills: &Vec<Vec<i64>>,
    course: &ScoredCourse,
) -> (scores: Scores)
    requires
        observed.samples_gates(observed.results@.len()),
        observed.names_gates(),
        rounds_sample(rounds@, observed.results@.len()),
        rankable(rounds@),
        rounds@.len() <= QUANTITY_MAX,
        observed.results@.len() <= QUANTITY_MAX,
        skills@.len() >= observed.results@.len(),
    ensures
        scores == scores_of(*observed, rounds@, skills@, *course),
{
    proof {
        assert forall|i: int| 0 <= i < observed.frames@.len() implies (
        #[trigger] observed.frames@[i]).distance@.len() >= observed.results@.len() by {
            assert(has_gates(observed.frames@[i], observed.results@.len()));
        }
    }
    let means = score_rounds(observed, rounds, skills);
    let filter = SampleFilter { gate: None, part: None };
    let e = frame_errors(observed, rounds, course, &filter);
    let lane: Option<i64> = e.lane_mae();
    Scores {
        finish_time_mae: means.finish_time_mae,
        finish_time_bias: means.finish_time_bias,
        winner_hit_rate: means.winner_hit_rate,
        order_spearman: means.order_spearman,
        spurt_start_mae: means.spurt_start_mae,
        skill_activation_error: means.skill_activation_error,
        trajectory_mae: e.mean(e.distance_abs),
        speed_mae: e.mean(e.speed_abs),
        speed_bias: e.mean(e.speed_signed),
        hp_mae: e.mean(e.hp_abs),
        hp_bias: e.mean(e.hp_signed),
        rushed_agreement: e.mean(e.rushed_agreement),
        lane_mae: lane,
        blocked_share_diff: Some(e.blocked_share_diff()),
        rushed_spell_ladder_observed: RungCounts { three: 0, six: 0, nine: 0, twelve: 0 },
        rushed_spell_ladder_sim: RungCounts { three: 0, six: 0, nine: 0, twelve: 0 },
        rushed_spell_duration_diff: None,
    }
}

/// Spells on a rung per round, as a quantity.
pub open spec fn spells_per_round(n: i64, rounds: i64) -> i64 {
    per_sample(n * ONE, rounds as int) as i64
}

fn divide_spells(n: i64, rounds: i64) -> (share: i64)
    ensures
        share == spells_per_round(n, rounds),
{
    let total: i64 = if rounds >= 1 {
        rounds
    } else {
        1
    };
    clamp_wide(divide_rounded(wide_product(n, ONE), total as i128))
}

/// Every rung's spells per round.
pub open spec fn rungs_per_round(counts: RungCounts, rounds: i64) -> RungCounts {
    RungCounts {
        three: spells_per_round(counts.three, rounds),
        six: spells_per_round(counts.six, rounds),
        nine: spells_per_round(counts.nine, rounds),
        twelve: spells_per_round(counts.twelve, rounds),
    }
}

fn divide_rungs(counts: &RungCounts, rounds: i64) -> (shares: RungCounts)
    ensures
        shares == rungs_per_round(*counts, rounds),
{
    RungCounts {
        three: divide_spells(counts.three, rounds),
        six: divide_spells(counts.six, rounds),
        nine: divide_spells(counts.nine, rounds),
        twelve: divide_spells(counts.twelve, rounds),
    }
}

/// Copy a comparison's spells into the scores, the simulated ones per round so
/// that the number of rounds does not show.
pub fn apply_spell_scores(scores: &mut Scores, comparison: &SpellComparison)
    ensures
        *final(scores) == (Scores {
            rushed_spell_ladder_observed: rungs_per_round(comparison.observed.ladder, 1),
            rushed_spell_ladder_sim: rungs_per_round(comparison.sim.ladder, comparison.rounds),
            rushed_spell_duration_diff: if comparison.observed.count > 0 && comparison.sim.count
                > 0 {
                Some(
                    sat(
                        mean_over(comparison.sim@.ladder_sum, comparison.sim@.count)->0
                            - mean_over(
                            comparison.observed@.ladder_sum,
                            comparison.observed@.count,
                        )->0,
                    ) as i64,
                )
            } else {
                None
            },
            ..*old(scores)
        }),
{
    scores.rushed_spell_ladder_observed = divide_rungs(&comparison.observed.ladder, 1);
    scores.rushed_spell_ladder_sim = divide_rungs(&comparison.sim.ladder, comparison.rounds);
    scores.rushed_spell_duration_diff = comparison.duration_diff();
}

} // verus!
