//! What is read off a recording: rushed spells and their lengths, distances
//! between frames, first activations and the drain of a descent.
use crate::accuracy::errors::sample_of;
use crate::accuracy::pins::{
    descends_at, descents, drain_at, expected_drain, gate_descents, on_downhill, readable_drain,
    shows_downhill, skills_fired, DrainCourse, Slope,
};
use crate::accuracy::recording::{
    activated, distance_at, first_frame_at, frame_times, gate_activations, gate_regions,
    gates_tallied, is_activation, lemma_first_frame_at, rounds_tallied, rushed_flags, shows_rushed,
    spell_region, times_in_row, times_shown, times_shown_in, Activation, Observed, ObservedFrame,
};
use crate::accuracy::score::rungs_per_round;
use crate::accuracy::spells::{
    mean_over, merged, run_added, rung_of, rung_seconds, runs_added, series_added, spells,
    RungCounts, TallyState,
};
use crate::language::Region;
use crate::units::{
    is_nearest, magnitude, quantities_multiply_as_numbers, rounded_quotient,
    rounding_is_to_the_nearest, QUANTITY_MAX, QUANTITY_MIN,
};
use vstd::prelude::*;

verus! {

/// A spell sits on the shortest rung that its span does not pass by more than a
/// millisecond: 3, 6, 9 or 12 s, and on the last past all of them.
pub proof fn a_span_sits_on_its_rung(lower: int)
    ensures
        lower <= 3_001_000_000 <==> rung_of(lower) == 0,
        3_001_000_000 < lower <= 6_001_000_000 <==> rung_of(lower) == 1,
        6_001_000_000 < lower <= 9_001_000_000 <==> rung_of(lower) == 2,
        lower > 9_001_000_000 <==> rung_of(lower) == 3,
        rung_seconds(rung_of(lower)) == 3_000_000_000 * (rung_of(lower) + 1),
{
}

/// A spell counts once: its span is the time from its first sample to its last,
/// its upper bound that and the gaps to the samples on either side, and its rung
/// gets one more.
pub proof fn a_spell_counts_its_span(t: TallyState, times: Seq<i64>, first: int, last: int)
    requires
        0 <= first <= last < times.len(),
        forall|i: int, j: int| 0 <= i <= j < times.len() ==> times[i] <= times[j],
        forall|i: int| 0 <= i < times.len() ==> 0 <= #[trigger] times[i],
        t.ladder.len() == 4,
        0 <= t.count < QUANTITY_MAX,
        forall|r: int| 0 <= r < 4 ==> 0 <= #[trigger] t.ladder[r] < QUANTITY_MAX,
    ensures
        ({
            let after = run_added(t, times, first, last);
            let from = if first > 0 {
                times[first - 1]
            } else {
                times[first]
            };
            let to = if last + 1 < times.len() {
                times[last + 1]
            } else {
                times[last]
            };
            let span = times[last] - times[first];
            let rung = rung_of(span);
            let fits = |x: int| QUANTITY_MIN <= x <= QUANTITY_MAX;
            &&& after.count == t.count + 1
            &&& fits(t.lower_sum + span) ==> after.lower_sum == t.lower_sum + span
            &&& fits(t.upper_sum + (to - from)) ==> after.upper_sum == t.upper_sum + (to - from)
            &&& fits(t.ladder_sum + 3_000_000_000 * (rung + 1)) ==> after.ladder_sum
                == t.ladder_sum + 3_000_000_000 * (rung + 1)
            &&& after.ladder.len() == 4
            &&& forall|r: int|
                0 <= r < 4 ==> #[trigger] after.ladder[r] == t.ladder[r] + if r == rung {
                    1int
                } else {
                    0
                }
        }),
{
    assert(times[first] <= times[last]);
    if first > 0 {
        assert(times[first - 1] <= times[first]);
    }
    if last + 1 < times.len() {
        assert(times[last] <= times[last + 1]);
    }
}

/// Every spell of a series is counted.
pub proof fn every_spell_is_counted(t: TallyState, times: Seq<i64>, rushed: Seq<bool>)
    requires
        times.len() >= rushed.len(),
        t.count >= 0,
        t.count + spells(rushed, rushed.len() as int).len() <= QUANTITY_MAX,
    ensures
        series_added(t, times, rushed).count == t.count + spells(
            rushed,
            rushed.len() as int,
        ).len(),
{
    let runs = spells(rushed, rushed.len() as int);
    lemma_runs_counted(t, times, rushed, runs.len());
}

proof fn lemma_runs_counted(t: TallyState, times: Seq<i64>, rushed: Seq<bool>, n: nat)
    requires
        times.len() >= rushed.len(),
        n <= spells(rushed, rushed.len() as int).len(),
        t.count >= 0,
        t.count + n <= QUANTITY_MAX,
    ensures
        runs_added(t, times, spells(rushed, rushed.len() as int), n).count == t.count + n,
    decreases n,
{
    if n > 0 {
        lemma_runs_counted(t, times, rushed, (n - 1) as nat);
        crate::accuracy::spells::spells_are_the_longest_rushed_stretches(
            rushed,
            rushed.len() as int,
            n - 1,
        );
    }
}

/// A mean over spells is to the nearest unit, and there is none without a spell;
/// two tallies together have the sums of both.
pub proof fn tallies_add_up(a: TallyState, b: TallyState, sum: int, count: int)
    ensures
        count <= 0 ==> mean_over(sum, count) is None,
        count > 0 && QUANTITY_MIN <= sum <= QUANTITY_MAX ==> mean_over(sum, count) is Some
            && is_nearest(mean_over(sum, count)->0, sum, count),
        ({
            let both = merged(a, b);
            let fits = |x: int| QUANTITY_MIN <= x <= QUANTITY_MAX;
            &&& fits(a.count + b.count) ==> both.count == a.count + b.count
            &&& fits(a.lower_sum + b.lower_sum) ==> both.lower_sum == a.lower_sum + b.lower_sum
            &&& fits(a.upper_sum + b.upper_sum) ==> both.upper_sum == a.upper_sum + b.upper_sum
            &&& fits(a.ladder_sum + b.ladder_sum) ==> both.ladder_sum == a.ladder_sum
                + b.ladder_sum
            &&& forall|r: int|
                0 <= r < 4 && QUANTITY_MIN <= a.ladder[r] + b.ladder[r] <= QUANTITY_MAX
                    ==> #[trigger] both.ladder[r] == a.ladder[r] + b.ladder[r]
        }),
{
    if count > 0 {
        let q = rounded_quotient(sum, count);
        rounding_is_to_the_nearest(sum, count, q);
        lemma_no_larger(sum, count);
    }
}

proof fn lemma_no_larger(n: int, d: int)
    requires
        d > 0,
    ensures
        magnitude(rounded_quotient(n, d)) <= magnitude(n),
{
    let q = rounded_quotient(n, d);
    rounding_is_to_the_nearest(n, d, q);
    let m = magnitude(n);
    if q > m {
        assert(q * d >= m + d) by (nonlinear_arith)
            requires
                q >= m + 1,
                m >= 0,
                d >= 1,
        ;
    } else if -q > m {
        assert(q * d <= -(m + d)) by (nonlinear_arith)
            requires
                q <= -(m + 1),
                m >= 0,
                d >= 1,
        ;
    }
}

/// Spells per round are to the nearest billionth of one, on every rung.
pub proof fn spells_are_shared_over_the_rounds(counts: RungCounts, rounds: i64)
    requires
        rounds > 0,
        magnitude(counts.three * 1_000_000_000) <= QUANTITY_MAX,
        magnitude(counts.six * 1_000_000_000) <= QUANTITY_MAX,
        magnitude(counts.nine * 1_000_000_000) <= QUANTITY_MAX,
        magnitude(counts.twelve * 1_000_000_000) <= QUANTITY_MAX,
    ensures
        ({
            let shares = rungs_per_round(counts, rounds);
            let per = rounds as int;
            &&& is_nearest(shares.three as int, counts.three * 1_000_000_000, per)
            &&& is_nearest(shares.six as int, counts.six * 1_000_000_000, per)
            &&& is_nearest(shares.nine as int, counts.nine * 1_000_000_000, per)
            &&& is_nearest(shares.twelve as int, counts.twelve * 1_000_000_000, per)
        }),
{
    let per = rounds as int;
    rounding_is_to_the_nearest(counts.three * 1_000_000_000, per, 0);
    rounding_is_to_the_nearest(counts.six * 1_000_000_000, per, 0);
    rounding_is_to_the_nearest(counts.nine * 1_000_000_000, per, 0);
    rounding_is_to_the_nearest(counts.twelve * 1_000_000_000, per, 0);
    lemma_no_larger(counts.three * 1_000_000_000, per);
    lemma_no_larger(counts.six * 1_000_000_000, per);
    lemma_no_larger(counts.nine * 1_000_000_000, per);
    lemma_no_larger(counts.twelve * 1_000_000_000, per);
}

/// A spell stretches from where it is first seen to where it is first seen over;
/// one still going in the last frame to there, and at least a metre on.
pub proof fn a_spell_stretches_to_where_it_is_over(
    observed: Observed,
    gate: int,
    first: int,
    last: int,
)
    requires
        0 <= first <= last < observed.frames@.len(),
    ensures
        ({
            let frames = observed.frames@;
            let r = spell_region(observed, gate, (first, last));
            let start = frames[first].distance@[gate];
            &&& r.start == start
            &&& last + 1 < frames.len() ==> r.end == frames[last + 1].distance@[gate]
            &&& last + 1 == frames.len() && start + 1_000_000_000 <= QUANTITY_MAX ==> {
                &&& r.end >= frames[last].distance@[gate]
                &&& r.end >= start + 1_000_000_000
                &&& r.end == frames[last].distance@[gate] || r.end == start + 1_000_000_000
            }
        }),
{
}

proof fn lemma_row(row: Seq<i64>, mode: i64, n: nat)
    requires
        n <= row.len(),
    ensures
        times_in_row(row, mode, n) == row.take(n as int).filter(|m: i64| m == mode).len(),
    decreases n,
{
    reveal(Seq::filter);
    if n > 0 {
        lemma_row(row, mode, (n - 1) as nat);
        assert(row.take(n as int).drop_last() =~= row.take(n - 1));
    }
}

/// A frame shows a mode as often as its row holds it, and frames add up.
pub proof fn modes_are_counted_frame_by_frame(frames: Seq<ObservedFrame>, mode: i64, n: nat)
    requires
        n < frames.len(),
    ensures
        times_shown(frames, mode, n + 1) == times_shown(frames, mode, n)
            + frames[n as int].rushed@.filter(|m: i64| m == mode).len(),
        times_shown(frames, mode, 0) == 0,
{
    let row = frames[n as int].rushed@;
    lemma_row(row, mode, row.len());
    assert(row.take(row.len() as int) =~= row);
}

/// Between two frames a runner's distance is on the line from one to the other,
/// to the nearest unit; before the first and after the last it is theirs.
pub proof fn a_distance_is_on_the_line_between_frames(
    observed: Observed,
    gate: int,
    time: i64,
    k: int,
    share: int,
)
    requires
        0 <= k < observed.frames@.len(),
        forall|i: int, j: int|
            0 <= i < j < observed.frames@.len() ==> (#[trigger] observed.frames@[i]).time < (
            #[trigger] observed.frames@[j]).time,
        forall|i: int|
            0 <= i < observed.frames@.len() ==> 0 <= (#[trigger] observed.frames@[i]).time && 0
                <= observed.frames@[i].distance@[gate],
    ensures
        ({
            let frames = observed.frames@;
            let a = frames[k - 1];
            let b = frames[k];
            &&& time <= frames[0].time ==> distance_at(observed, gate, time)
                == frames[0].distance@[gate]
            &&& time > frames.last().time ==> distance_at(observed, gate, time)
                == frames.last().distance@[gate]
            &&& k > 0 && a.time < time <= b.time && is_nearest(
                share,
                (time - a.time) * (b.distance@[gate] - a.distance@[gate]),
                b.time - a.time,
            ) && QUANTITY_MIN <= share <= QUANTITY_MAX && QUANTITY_MIN <= a.distance@[gate] + share
                <= QUANTITY_MAX ==> distance_at(observed, gate, time) == a.distance@[gate] + share
        }),
{
    let frames = observed.frames@;
    lemma_first_frame_at(frames, time, 0);
    let after = first_frame_at(frames, time, 0);
    if time <= frames[0].time && after > 0 {
        assert(frames[0].time < time);
    }
    if time > frames.last().time && after < frames.len() {
        if after < frames.len() - 1 {
            assert(frames[after].time < frames[frames.len() - 1].time);
        }
    }
    if k > 0 && frames[k - 1].time < time <= frames[k].time {
        if after < k {
            if after < k - 1 {
                assert(frames[after].time < frames[k - 1].time);
            }
        } else if after > k {
            assert(frames[k].time < time);
        }
        assert(after == k);
        let a = frames[k - 1];
        let b = frames[k];
        assert(a.time < b.time);
        let n = (time - a.time) * (b.distance@[gate] - a.distance@[gate]);
        if is_nearest(share, n, b.time - a.time) {
            rounding_is_to_the_nearest(n, b.time - a.time, share);
        }
    }
}

/// Whether event `e` is the first of its skill at a gate.
pub open spec fn is_first_firing(observed: Observed, gate: int, skill: i64, e: int) -> bool {
    &&& 0 <= e < observed.events@.len()
    &&& observed.events@[e].kind == 3
    &&& observed.events@[e].params@.len() >= 2
    &&& observed.events@[e].params@[0] == gate
    &&& observed.events@[e].params@[1] == skill
    &&& forall|d: int|
        0 <= d < e ==> !((#[trigger] observed.events@[d]).kind == 3
            && observed.events@[d].params@.len() >= 2 && observed.events@[d].params@[0] == gate
            && observed.events@[d].params@[1] == skill)
}

/// An activation is the first of its skill, where the runner was at the time of
/// it; every skill a gate fires has one.
pub proof fn an_activation_is_the_first_of_its_skill(
    observed: Observed,
    gate: int,
    n: nat,
    i: int,
)
    requires
        n <= observed.events@.len(),
        0 <= i < gate_activations(observed, gate, n).len(),
    ensures
        ({
            let a = gate_activations(observed, gate, n)[i];
            exists|e: int|
                e < n && #[trigger] is_first_firing(observed, gate, a.skill, e) && a.distance
                    == distance_at(observed, gate, observed.events@[e].frame_time) as i64
        }),
    decreases n,
{
    if n > 0 {
        let before = gate_activations(observed, gate, (n - 1) as nat);
        let after = gate_activations(observed, gate, n);
        if i < before.len() {
            an_activation_is_the_first_of_its_skill(observed, gate, (n - 1) as nat, i);
            assert(after[i] == before[i]);
            let e = choose|e: int|
                e < n - 1 && #[trigger] is_first_firing(observed, gate, before[i].skill, e)
                    && before[i].distance == distance_at(
                    observed,
                    gate,
                    observed.events@[e].frame_time,
                ) as i64;
            assert(is_first_firing(observed, gate, after[i].skill, e));
        } else {
            let event = observed.events@[n - 1];
            let skill = event.params@[1];
            assert(after[i].skill == skill);
            lemma_none_before(observed, gate, skill, (n - 1) as nat);
            assert(is_first_firing(observed, gate, skill, n - 1));
        }
    }
}

proof fn lemma_none_before(observed: Observed, gate: int, skill: i64, n: nat)
    requires
        n <= observed.events@.len(),
        !activated(gate_activations(observed, gate, n), skill),
    ensures
        forall|d: int|
            0 <= d < n ==> !((#[trigger] observed.events@[d]).kind == 3
                && observed.events@[d].params@.len() >= 2 && observed.events@[d].params@[0]
                == gate && observed.events@[d].params@[1] == skill),
    decreases n,
{
    if n > 0 {
        let before = gate_activations(observed, gate, (n - 1) as nat);
        let after = gate_activations(observed, gate, n);
        if activated(before, skill) {
            let k = choose|k: int| 0 <= k < before.len() && (#[trigger] before[k]).skill == skill;
            assert(after[k] == before[k]);
        }
        lemma_none_before(observed, gate, skill, (n - 1) as nat);
        let event = observed.events@[n - 1];
        if is_activation(event) && event.params@[0] == gate && event.params@[1] == skill {
            assert(after[after.len() - 1].skill == skill);
        }
    }
}

/// A distance is downhill where a slope of the course that falls lies under it.
pub proof fn a_descent_is_a_falling_slope(slopes: Seq<Slope>, distance: i64)
    ensures
        on_downhill(slopes, distance) <==> exists|i: int|
            0 <= i < slopes.len() && (#[trigger] slopes[i]).slope < 0 && slopes[i].start
                <= distance && distance < slopes[i].start + slopes[i].length,
{
    if exists|i: int|
        0 <= i < slopes.len() && (#[trigger] slopes[i]).slope < 0 && slopes[i].start <= distance
            && distance < slopes[i].start + slopes[i].length {
        let i = choose|i: int|
            0 <= i < slopes.len() && (#[trigger] slopes[i]).slope < 0 && slopes[i].start
                <= distance && distance < slopes[i].start + slopes[i].length;
        assert(descends_at(slopes[i], distance));
    }
}

/// The drain at a speed: twenty times the square of the speed past the course's
/// base speed and 12 m/s more, over 144; the base is 20 m/s, less 1 m/s for every
/// kilometre past two.
pub proof fn the_drain_goes_with_the_square_of_the_speed(
    speed: int,
    course: int,
    longer: int,
    square: int,
    drain: int,
)
    requires
        0 <= speed <= 1_000_000_000_000,
        0 <= course <= 1_000_000_000_000_000,
        is_nearest(longer, course - 2_000_000_000_000, 1000),
        ({
            let over = speed - (20_000_000_000 - longer) + 12_000_000_000;
            &&& is_nearest(square, over * over, 1_000_000_000)
            &&& 0 <= square <= 100_000_000_000_000_000
            &&& is_nearest(drain, 20 * square, 144)
        }),
    ensures
        drain_at(speed, course) == drain,
{
    rounding_is_to_the_nearest(course - 2_000_000_000_000, 1000, longer);
    let over = speed - (20_000_000_000 - longer) + 12_000_000_000;
    quantities_multiply_as_numbers(over, over, square);
    rounding_is_to_the_nearest(20 * square, 144, drain);
    lemma_no_larger(course - 2_000_000_000_000, 1000);
    lemma_no_larger(20 * square, 144);
}

/// Between two frames a drain can be read at least half a second apart, on a
/// descent at both ends, calm at both and with hit points left; it shows
/// downhill mode if hit points were lost, and under half of what is expected.
pub proof fn downhill_mode_shows_in_half_the_drain(
    a: ObservedFrame,
    b: ObservedFrame,
    gate: int,
    course: DrainCourse,
    guts: i64,
)
    requires
        0 <= a.time,
        0 <= b.time,
        0 <= a.hp@[gate],
        0 <= b.hp@[gate],
    ensures
        ({
            let elapsed = b.time - a.time;
            let lost = a.hp@[gate] - b.hp@[gate];
            let can_be_read = elapsed >= 500_000_000 && on_downhill(
                course.slopes@,
                a.distance@[gate],
            ) && on_downhill(course.slopes@, b.distance@[gate]) && !shows_rushed(a, gate)
                && !shows_rushed(b, gate) && b.hp@[gate] > 0;
            &&& readable_drain(a, b, gate, course) == can_be_read
            &&& shows_downhill(a, b, gate, course, guts) <==> can_be_read && lost > 0 && lost
                * 2_000_000_000 < expected_drain(a, b, gate, course, guts) * elapsed
        }),
{
}

/// The drain expected between two frames is that at their mean speed, and from
/// two thirds of the course on times the runner's guts factor.
pub proof fn guts_count_from_two_thirds_on(
    a: ObservedFrame,
    b: ObservedFrame,
    gate: int,
    course: DrainCourse,
    guts: i64,
    speed: int,
    with_guts: int,
)
    requires
        is_nearest(speed, a.speed@[gate] + b.speed@[gate], 200),
        is_nearest(with_guts, drain_at(speed, course.distance as int) * guts, 1_000_000_000),
        QUANTITY_MIN <= speed <= QUANTITY_MAX,
        QUANTITY_MIN <= with_guts <= QUANTITY_MAX,
    ensures
        expected_drain(a, b, gate, course, guts) == if 3 * (a.distance@[gate]
            + b.distance@[gate]) >= 4 * course.distance {
            with_guts
        } else {
            drain_at(speed, course.distance as int)
        },
{
    rounding_is_to_the_nearest(a.speed@[gate] + b.speed@[gate], 200, speed);
    quantities_multiply_as_numbers(
        drain_at(speed, course.distance as int),
        guts as int,
        with_guts,
    );
}

/// Whether the reading from frame `k` to the next ends a downhill spell: it does
/// not show the mode though it can be read, or the descent is over.
pub open spec fn ends_descent(
    frames: Seq<ObservedFrame>,
    gate: int,
    course: DrainCourse,
    guts: i64,
    k: int,
) -> bool {
    &&& !shows_downhill(frames[k], frames[k + 1], gate, course, guts)
    &&& readable_drain(frames[k], frames[k + 1], gate, course) || !on_downhill(
        course.slopes@,
        frames[k + 1].distance@[gate],
    )
}

/// Whether a downhill spell began with the reading from frame `i` and none of
/// the readings after it up to frame `j` ended it.
pub open spec fn goes_on_to(
    frames: Seq<ObservedFrame>,
    gate: int,
    course: DrainCourse,
    guts: i64,
    i: int,
    j: int,
) -> bool {
    &&& 0 <= i < j < frames.len()
    &&& shows_downhill(frames[i], frames[i + 1], gate, course, guts)
    &&& forall|k: int| i < k < j ==> !#[trigger] ends_descent(frames, gate, course, guts, k)
}

/// Whether a stretch is a downhill spell over before frame `n`: from the frame of
/// the first reading that shows the mode to that of the first one after it that
/// ends it.
pub open spec fn is_descent(
    frames: Seq<ObservedFrame>,
    gate: int,
    course: DrainCourse,
    guts: i64,
    stretch: Region,
    n: int,
) -> bool {
    exists|i: int, j: int|
        {
            &&& #[trigger] goes_on_to(frames, gate, course, guts, i, j)
            &&& ends_descent(frames, gate, course, guts, j)
            &&& j + 1 < n
            &&& stretch.start == frames[i].distance@[gate]
            &&& stretch.end == frames[j].distance@[gate]
        }
}

proof fn lemma_descent_stays(
    frames: Seq<ObservedFrame>,
    gate: int,
    course: DrainCourse,
    guts: i64,
    stretch: Region,
    n: int,
)
    requires
        is_descent(frames, gate, course, guts, stretch, n),
    ensures
        is_descent(frames, gate, course, guts, stretch, n + 1),
{
    let (i, j) = choose|i: int, j: int|
        {
            &&& #[trigger] goes_on_to(frames, gate, course, guts, i, j)
            &&& ends_descent(frames, gate, course, guts, j)
            &&& j + 1 < n
            &&& stretch.start == frames[i].distance@[gate]
            &&& stretch.end == frames[j].distance@[gate]
        };
    assert(goes_on_to(frames, gate, course, guts, i, j));
}

/// Every stretch read is a downhill spell (see [`is_descent`]), and one that
/// nothing has ended is still open, from the frame it began with.
pub proof fn a_descent_lasts_until_a_reading_ends_it(
    frames: Seq<ObservedFrame>,
    gate: int,
    course: DrainCourse,
    guts: i64,
    n: nat,
)
    requires
        2 <= n <= frames.len(),
    ensures
        ({
            let read = descents(frames, gate, course, guts, n);
            &&& match read.open {
                Some(start) => exists|i: int|
                    #[trigger] goes_on_to(frames, gate, course, guts, i, n - 1) && start
                        == frames[i].distance@[gate],
                None => !shows_downhill(frames[n - 2], frames[n - 1], gate, course, guts),
            }
            &&& forall|s: int|
                0 <= s < read.spells.len() ==> is_descent(
                    frames,
                    gate,
                    course,
                    guts,
                    #[trigger] read.spells[s],
                    n as int,
                )
        }),
    decreases n,
{
    let read = descents(frames, gate, course, guts, n);
    let before = descents(frames, gate, course, guts, (n - 1) as nat);
    if n == 2 {
        assert(before.spells.len() == 0 && before.open is None);
        if shows_downhill(frames[0], frames[1], gate, course, guts) {
            assert(goes_on_to(frames, gate, course, guts, 0, 1));
        }
    } else {
        a_descent_lasts_until_a_reading_ends_it(frames, gate, course, guts, (n - 1) as nat);
        if before.open is Some {
            let i = choose|i: int|
                #[trigger] goes_on_to(frames, gate, course, guts, i, n - 2) && before.open->0
                    == frames[i].distance@[gate];
            if !ends_descent(frames, gate, course, guts, n - 2) {
                assert(goes_on_to(frames, gate, course, guts, i, n - 1));
            } else {
                assert(goes_on_to(frames, gate, course, guts, i, n - 2));
                assert(is_descent(
                    frames,
                    gate,
                    course,
                    guts,
                    read.spells[before.spells.len() as int],
                    n as int,
                ));
            }
        } else if shows_downhill(frames[n - 2], frames[n - 1], gate, course, guts) {
            assert(goes_on_to(frames, gate, course, guts, n - 2, n - 1));
        }
        assert forall|s: int| 0 <= s < read.spells.len() implies is_descent(
            frames,
            gate,
            course,
            guts,
            #[trigger] read.spells[s],
            n as int,
        ) by {
            if s < before.spells.len() {
                assert(read.spells[s] == before.spells[s]);
                lemma_descent_stays(frames, gate, course, guts, before.spells[s], n - 1);
            }
        }
    }
}

/// A pinned runner keeps the skills that fired, in their order.
pub proof fn fired_skills_keep_their_order(skills: Seq<i64>, fired: Seq<Activation>, n: nat)
    requires
        n <= skills.len(),
    ensures
        skills_fired(skills, fired, n) == skills.take(n as int).filter(
            |s: i64| exists|i: int| 0 <= i < fired.len() && (#[trigger] fired[i]).skill == s,
        ),
    decreases n,
{
    reveal(Seq::filter);
    let kept = |s: i64| exists|i: int| 0 <= i < fired.len() && (#[trigger] fired[i]).skill == s;
    if n > 0 {
        fired_skills_keep_their_order(skills, fired, (n - 1) as nat);
        assert(skills.take(n as int).drop_last() =~= skills.take(n - 1));
        assert(kept(skills[n - 1]) == activated(fired, skills[n - 1]));
    }
}

/// A recorded runner is read in the engine's units: speed in hundredths, a lane
/// in ten-thousandths of the course's width.
pub proof fn a_frame_is_read_in_the_engines_units(frame: ObservedFrame, gate: int, width: i64)
    requires
        0 <= gate,
    ensures
        ({
            let sample = sample_of(frame, gate, width);
            &&& sample.distance == frame.distance@[gate]
            &&& is_nearest(sample.speed as int, frame.speed@[gate] as int, 100)
            &&& sample.hp == frame.hp@[gate]
            &&& sample.rushed == if gate < frame.rushed@.len() && frame.rushed@[gate] != 0 {
                1_000_000_000int
            } else {
                0
            }
            &&& sample.blocked == if gate < frame.blocker@.len() && frame.blocker@[gate] >= 0 {
                1_000_000_000int
            } else {
                0
            }
            &&& sample.lane is Some <==> gate < frame.lane@.len()
        }),
{
    rounding_is_to_the_nearest(frame.speed@[gate] as int, 100, 0);
    lemma_no_larger(frame.speed@[gate] as int, 100);
}

/// Whether each frame of a race shows a gate's runner rushed.
pub open spec fn rushed_series(race: Observed, gate: int) -> Seq<bool> {
    Seq::new(
        race.frames@.len(),
        |i: int|
            0 <= gate < race.frames@[i].rushed@.len() && race.frames@[i].rushed@[gate] != 0,
    )
}

/// Each gate's spells are added to the tally, over the race's own times, gate by
/// gate and round by round.
pub proof fn every_gate_of_every_round_is_tallied(
    t: TallyState,
    race: Observed,
    rounds: Seq<Observed>,
    gates: nat,
    n: nat,
)
    requires
        n < rounds.len(),
    ensures
        gates_tallied(t, race, 0) == t,
        gates_tallied(t, race, gates + 1) == series_added(
            gates_tallied(t, race, gates),
            Seq::new(race.frames@.len(), |i: int| race.frames@[i].time),
            rushed_series(race, gates as int),
        ),
        rounds_tallied(rounds, gates, n + 1) == gates_tallied(
            rounds_tallied(rounds, gates, n),
            rounds[n as int],
            gates,
        ),
        ({
            let none = rounds_tallied(rounds, gates, 0);
            &&& none.count == 0 && none.lower_sum == 0 && none.upper_sum == 0 && none.ladder_sum
                == 0
            &&& none.ladder == seq![0i64, 0, 0, 0]
        }),
{
    assert(rushed_flags(race, gates as int) =~= rushed_series(race, gates as int));
    assert(frame_times(race) =~= Seq::new(
        race.frames@.len(),
        |i: int| race.frames@[i].time,
    ));
}

/// A gate's rushed stretches are those of its spells, in order.
pub proof fn rushed_stretches_are_those_of_the_spells(observed: Observed, gate: int, i: int)
    requires
        0 <= i < gate_regions(observed, gate).len(),
    ensures
        ({
            let runs = spells(rushed_series(observed, gate), observed.frames@.len() as int);
            &&& gate_regions(observed, gate).len() == runs.len()
            &&& gate_regions(observed, gate)[i] == spell_region(observed, gate, runs[i])
        }),
{
    assert(rushed_flags(observed, gate) =~= rushed_series(observed, gate));
}

/// Rounds add up: what they show of a mode is the sum of what each shows.
pub proof fn modes_are_counted_round_by_round(rounds: Seq<Observed>, mode: i64, n: nat)
    requires
        n < rounds.len(),
    ensures
        times_shown_in(rounds, mode, n + 1) == times_shown_in(rounds, mode, n) + times_shown(
            rounds[n as int].frames@,
            mode,
            rounds[n as int].frames@.len(),
        ),
        times_shown_in(rounds, mode, 0) == 0,
{
}

/// A descent still going in the last frame ends there, at least a metre on; the
/// ones that are over stand as read.
pub proof fn an_open_descent_ends_with_the_recording(
    observed: Observed,
    gate: int,
    course: DrainCourse,
    guts: i64,
)
    requires
        observed.frames@.len() > 0,
    ensures
        ({
            let read = descents(observed.frames@, gate, course, guts, observed.frames@.len());
            let all = gate_descents(observed, gate, course, guts);
            let end = observed.frames@.last().distance@[gate];
            &&& read.open is None ==> all == read.spells
            &&& read.open matches Some(start) ==> all.len() == read.spells.len() + 1
                && all.drop_last() == read.spells && all.last().start == start && (start
                + 1_000_000_000 <= QUANTITY_MAX ==> all.last().end == if end >= start
                + 1_000_000_000 {
                end as int
            } else {
                start + 1_000_000_000
            })
        }),
{
    let read = descents(observed.frames@, gate, course, guts, observed.frames@.len());
    let all = gate_descents(observed, gate, course, guts);
    assert(read.open is Some ==> all.drop_last() =~= read.spells);
}

/// A recorded lane is a share of the course's width, in ten-thousandths.
pub proof fn a_lane_is_a_share_of_the_width(
    frame: ObservedFrame,
    gate: int,
    width: i64,
    share: int,
    lane: int,
)
    requires
        0 <= gate < frame.lane@.len(),
        is_nearest(share, frame.lane@[gate] as int, 10_000),
        is_nearest(lane, share * width, 1_000_000_000),
        QUANTITY_MIN <= lane <= QUANTITY_MAX,
    ensures
        sample_of(frame, gate, width).lane is Some,
        sample_of(frame, gate, width).lane->0 == lane,
{
    rounding_is_to_the_nearest(frame.lane@[gate] as int, 10_000, share);
    lemma_no_larger(frame.lane@[gate] as int, 10_000);
    quantities_multiply_as_numbers(share, width as int, lane);
}

} // verus!
