//! What the scores say of the rounds: each is a mean over every runner, sample,
//! skill or round it is about, not over some of them.
use crate::accuracy::errors::{
    apart, part_at, rank_correlation, regressions, sample_added, sample_of, squared_differences,
    FrameErrors, FrameSample, RacePart, Regression, Scores,
};
use crate::accuracy::recording::{
    activated, first_frame_at, gate_activations, is_activation, lemma_first_frame_at, Observed,
    ObservedFrame, ObservedResult,
};
use crate::accuracy::score::{
    correlation_sum, finish_orders, finish_sum, frame_added, frames_added, mean_sample,
    nearest_frame, no_errors, race_errors, round_sample, rounds_fired, rounds_summed,
    runners_summed, scores_of, share_of, skill_error, skills_summed, spurt_sum, winner,
    winner_hits, SampleFilter, ScoredCourse,
};
use crate::units::{
    is_nearest, magnitude, rounded_quotient, rounding_is_to_the_nearest, QUANTITY_MAX,
    QUANTITY_MIN,
};
use vstd::prelude::*;

verus! {

/// The first `n` values of `f` added up.
pub open spec fn summed(f: spec_fn(int) -> int, n: nat) -> int
    decreases n,
{
    if n == 0 {
        0
    } else {
        summed(f, (n - 1) as nat) + f(n - 1)
    }
}

/// The values of `f`, signs aside.
pub open spec fn sizes(f: spec_fn(int) -> int) -> spec_fn(int) -> int {
    |i: int| magnitude(f(i))
}

proof fn lemma_sizes_grow(f: spec_fn(int) -> int, m: nat, n: nat)
    requires
        m <= n,
    ensures
        0 <= summed(sizes(f), m) <= summed(sizes(f), n),
        magnitude(summed(f, n)) <= summed(sizes(f), n),
    decreases n,
{
    if n > 0 {
        lemma_sizes_grow(f, if m < n { m } else { (n - 1) as nat }, (n - 1) as nat);
        if m == n {
            lemma_sizes_grow(f, (n - 1) as nat, (n - 1) as nat);
        }
    }
}

proof fn lemma_size_within(f: spec_fn(int) -> int, i: int, n: nat)
    requires
        0 <= i < n,
    ensures
        magnitude(f(i)) <= summed(sizes(f), n),
    decreases n,
{
    lemma_sizes_grow(f, (n - 1) as nat, n);
    if i < n - 1 {
        lemma_size_within(f, i, (n - 1) as nat);
    }
}

proof fn lemma_summed_alike(f: spec_fn(int) -> int, g: spec_fn(int) -> int, n: nat)
    requires
        forall|i: int| 0 <= i < n ==> #[trigger] f(i) == g(i),
    ensures
        summed(f, n) == summed(g, n),
    decreases n,
{
    if n > 0 {
        lemma_summed_alike(f, g, (n - 1) as nat);
    }
}

proof fn lemma_quotient_is_no_larger(n: int, d: int)
    requires
        d > 0,
    ensures
        magnitude(rounded_quotient(n, d)) <= magnitude(n),
{
    let q = rounded_quotient(n, d);
    rounding_is_to_the_nearest(n, d, q);
    let a = magnitude(q);
    let m = magnitude(n);
    if a > m {
        assert(a * d >= m + d) by (nonlinear_arith)
            requires
                a >= m + 1,
                m >= 0,
                d >= 1,
        ;
        assert(q * d == a * d || q * d == -(a * d)) by (nonlinear_arith)
            requires
                q == a || q == -a,
        ;
        if q >= 0 {
            assert(q * d == a * d);
        } else {
            assert(q * d == -(a * d)) by (nonlinear_arith)
                requires
                    q == -a,
            ;
        }
    }
}

proof fn lemma_share(sum: int, n: int, mean: int)
    requires
        n > 0,
        QUANTITY_MIN <= sum <= QUANTITY_MAX,
        is_nearest(mean, sum, n),
    ensures
        share_of(sum as i64, n) == mean,
        magnitude(mean) <= magnitude(sum),
{
    rounding_is_to_the_nearest(sum, n, mean);
    lemma_quotient_is_no_larger(sum, n);
}

proof fn lemma_larger_sum_larger_mean(a: int, b: int, d: int)
    requires
        d > 0,
        magnitude(b) <= a,
    ensures
        magnitude(rounded_quotient(b, d)) <= rounded_quotient(a, d),
{
    let qa = rounded_quotient(a, d);
    let qb = magnitude(rounded_quotient(b, d));
    rounding_is_to_the_nearest(a, d, qa);
    rounding_is_to_the_nearest(magnitude(b), d, qb);
    if qb > qa {
        assert(qb * d >= qa * d + d) by (nonlinear_arith)
            requires
                qb >= qa + 1,
                d > 0,
        ;
    }
}

/// A runner's finish time in each round; nothing where the round lacks her.
pub open spec fn finish_times(rounds: Seq<Observed>, gate: int) -> spec_fn(int) -> int {
    |r: int|
        if gate < rounds[r].results@.len() {
            rounds[r].results@[gate].finish_time_raw as int
        } else {
            0
        }
}

/// A runner's spurt start in each round; nothing where the round lacks her.
pub open spec fn spurt_starts(rounds: Seq<Observed>, gate: int) -> spec_fn(int) -> int {
    |r: int|
        if gate < rounds[r].results@.len() {
            rounds[r].results@[gate].last_spurt_start_distance as int
        } else {
            0
        }
}

proof fn lemma_finish_sum(rounds: Seq<Observed>, gate: int, n: nat)
    requires
        n <= rounds.len(),
        summed(sizes(finish_times(rounds, gate)), n) <= QUANTITY_MAX,
    ensures
        finish_sum(rounds, gate, n) == summed(finish_times(rounds, gate), n),
        magnitude(finish_sum(rounds, gate, n)) <= QUANTITY_MAX,
    decreases n,
{
    lemma_sizes_grow(finish_times(rounds, gate), n, n);
    if n > 0 {
        lemma_sizes_grow(finish_times(rounds, gate), (n - 1) as nat, n);
        lemma_finish_sum(rounds, gate, (n - 1) as nat);
    }
}

proof fn lemma_spurt_sum(rounds: Seq<Observed>, gate: int, n: nat)
    requires
        n <= rounds.len(),
        summed(sizes(spurt_starts(rounds, gate)), n) <= QUANTITY_MAX,
    ensures
        spurt_sum(rounds, gate, n) == summed(spurt_starts(rounds, gate), n),
        magnitude(spurt_sum(rounds, gate, n)) <= QUANTITY_MAX,
    decreases n,
{
    lemma_sizes_grow(spurt_starts(rounds, gate), n, n);
    if n > 0 {
        lemma_sizes_grow(spurt_starts(rounds, gate), (n - 1) as nat, n);
        lemma_spurt_sum(rounds, gate, (n - 1) as nat);
    }
}

/// How far each runner's mean finish time is past the recorded one.
pub open spec fn finish_gaps(observed: Observed, means: Seq<int>) -> spec_fn(int) -> int {
    |g: int| means[g] - observed.results@[g].finish_time_raw
}

/// How far each runner's mean spurt start is past the recorded one; nothing for
/// a runner without a recorded spurt.
pub open spec fn spurt_gaps(observed: Observed, means: Seq<int>) -> spec_fn(int) -> int {
    |g: int|
        if observed.results@[g].last_spurt_start_distance > 0 {
            means[g] - observed.results@[g].last_spurt_start_distance
        } else {
            0
        }
}

/// One for each runner with a recorded spurt.
pub open spec fn spurt_recorded(observed: Observed) -> spec_fn(int) -> int {
    |g: int|
        if observed.results@[g].last_spurt_start_distance > 0 {
            1int
        } else {
            0
        }
}

/// Whether `means` are the runners' mean finish times over the rounds, to the
/// nearest unit, and everything fits in the range.
pub open spec fn are_mean_finishes(
    observed: Observed,
    rounds: Seq<Observed>,
    means: Seq<int>,
) -> bool {
    &&& rounds.len() > 0
    &&& means.len() == observed.results@.len()
    &&& forall|g: int|
        0 <= g < means.len() ==> {
            &&& is_nearest(
                #[trigger] means[g],
                summed(finish_times(rounds, g), rounds.len()),
                rounds.len() as int,
            )
            &&& summed(sizes(finish_times(rounds, g)), rounds.len()) <= QUANTITY_MAX
        }
    &&& summed(sizes(finish_gaps(observed, means)), means.len()) <= QUANTITY_MAX
}

/// Whether `means` are the runners' mean spurt starts over the rounds, to the
/// nearest unit, and everything fits in the range.
pub open spec fn are_mean_spurts(
    observed: Observed,
    rounds: Seq<Observed>,
    means: Seq<int>,
) -> bool {
    &&& rounds.len() > 0
    &&& means.len() == observed.results@.len()
    &&& forall|g: int|
        0 <= g < means.len() ==> {
            &&& is_nearest(
                #[trigger] means[g],
                summed(spurt_starts(rounds, g), rounds.len()),
                rounds.len() as int,
            )
            &&& summed(sizes(spurt_starts(rounds, g)), rounds.len()) <= QUANTITY_MAX
        }
    &&& summed(sizes(spurt_gaps(observed, means)), means.len()) <= QUANTITY_MAX
}

proof fn lemma_finish_sums(
    observed: Observed,
    rounds: Seq<Observed>,
    skills: Seq<Vec<i64>>,
    means: Seq<int>,
    n: nat,
)
    requires
        are_mean_finishes(observed, rounds, means),
        n <= means.len(),
    ensures
        runners_summed(observed, rounds, skills, n).finish_abs == summed(
            sizes(finish_gaps(observed, means)),
            n,
        ),
        runners_summed(observed, rounds, skills, n).finish_signed == summed(
            finish_gaps(observed, means),
            n,
        ),
    decreases n,
{
    let gaps = finish_gaps(observed, means);
    lemma_sizes_grow(gaps, n, means.len());
    lemma_sizes_grow(gaps, n, n);
    if n > 0 {
        lemma_finish_sums(observed, rounds, skills, means, (n - 1) as nat);
        lemma_sizes_grow(gaps, (n - 1) as nat, n);
        lemma_sizes_grow(gaps, (n - 1) as nat, (n - 1) as nat);
        lemma_size_within(gaps, n - 1, means.len());
        let g = n - 1;
        assert(is_nearest(
            means[g],
            summed(finish_times(rounds, g), rounds.len()),
            rounds.len() as int,
        ));
        lemma_finish_sum(rounds, g, rounds.len());
        lemma_share(finish_sum(rounds, g, rounds.len()), rounds.len() as int, means[g]);
    }
}

/// The mean finish error is over every runner: it is, to the nearest unit, the
/// sum over all of them of the distance between the mean simulated and the
/// recorded finish time, divided by how many they are; the bias is the same with
/// the sign kept, and never larger. The error is 0 only where every runner's
/// mean finish time is the recorded one, up to that rounding.
pub proof fn the_finish_error_is_over_every_runner(
    observed: Observed,
    rounds: Seq<Observed>,
    skills: Seq<Vec<i64>>,
    course: ScoredCourse,
    means: Seq<int>,
)
    requires
        are_mean_finishes(observed, rounds, means),
        means.len() > 0,
    ensures
        ({
            let scores = scores_of(observed, rounds, skills, course);
            let runners = means.len() as int;
            &&& scores.finish_time_mae matches Some(mae) && scores.finish_time_bias matches Some(
                bias,
            ) && {
                &&& is_nearest(
                    mae as int,
                    summed(sizes(finish_gaps(observed, means)), means.len()),
                    runners,
                )
                &&& is_nearest(
                    bias as int,
                    summed(finish_gaps(observed, means), means.len()),
                    runners,
                )
                &&& mae >= magnitude(bias as int)
                &&& mae == 0 ==> forall|g: int|
                    0 <= g < means.len() ==> 2 * magnitude(
                        #[trigger] means[g] - observed.results@[g].finish_time_raw,
                    ) < runners
            }
        }),
{
    let gaps = finish_gaps(observed, means);
    let runners = means.len() as int;
    let abs = summed(sizes(gaps), means.len());
    let signed = summed(gaps, means.len());
    lemma_finish_sums(observed, rounds, skills, means, means.len());
    lemma_sizes_grow(gaps, 0, means.len());
    rounding_is_to_the_nearest(abs, runners, 0);
    rounding_is_to_the_nearest(signed, runners, 0);
    lemma_share(abs, runners, rounded_quotient(abs, runners));
    lemma_share(signed, runners, rounded_quotient(signed, runners));
    lemma_larger_sum_larger_mean(abs, signed, runners);
    if rounded_quotient(abs, runners) == 0 {
        assert forall|g: int| 0 <= g < means.len() implies 2 * magnitude(
            #[trigger] means[g] - observed.results@[g].finish_time_raw,
        ) < runners by {
            lemma_size_within(gaps, g, means.len());
            assert(magnitude(gaps(g)) <= abs);
        }
    }
}

proof fn lemma_spurt_sums(
    observed: Observed,
    rounds: Seq<Observed>,
    skills: Seq<Vec<i64>>,
    means: Seq<int>,
    n: nat,
)
    requires
        are_mean_spurts(observed, rounds, means),
        n <= means.len() <= QUANTITY_MAX,
    ensures
        runners_summed(observed, rounds, skills, n).spurt_abs == summed(
            sizes(spurt_gaps(observed, means)),
            n,
        ),
        runners_summed(observed, rounds, skills, n).spurt_count == summed(
            spurt_recorded(observed),
            n,
        ),
        0 <= summed(spurt_recorded(observed), n) <= n,
    decreases n,
{
    let gaps = spurt_gaps(observed, means);
    lemma_sizes_grow(gaps, n, means.len());
    if n > 0 {
        lemma_spurt_sums(observed, rounds, skills, means, (n - 1) as nat);
        lemma_sizes_grow(gaps, (n - 1) as nat, n);
        lemma_size_within(gaps, n - 1, means.len());
        let g = n - 1;
        assert(is_nearest(
            means[g],
            summed(spurt_starts(rounds, g), rounds.len()),
            rounds.len() as int,
        ));
        lemma_spurt_sum(rounds, g, rounds.len());
        lemma_share(spurt_sum(rounds, g, rounds.len()), rounds.len() as int, means[g]);
    }
}

/// The mean spurt error is over every runner with a recorded spurt, and over no
/// other.
pub proof fn the_spurt_error_is_over_every_recorded_spurt(
    observed: Observed,
    rounds: Seq<Observed>,
    skills: Seq<Vec<i64>>,
    course: ScoredCourse,
    means: Seq<int>,
)
    requires
        are_mean_spurts(observed, rounds, means),
        means.len() <= QUANTITY_MAX,
    ensures
        ({
            let scores = scores_of(observed, rounds, skills, course);
            let count = summed(spurt_recorded(observed), means.len());
            &&& scores.spurt_start_mae matches Some(mae) && is_nearest(
                mae as int,
                summed(sizes(spurt_gaps(observed, means)), means.len()),
                if count > 0 {
                    count
                } else {
                    1
                },
            )
        }),
{
    let gaps = spurt_gaps(observed, means);
    lemma_spurt_sums(observed, rounds, skills, means, means.len());
    lemma_sizes_grow(gaps, 0, means.len());
    let abs = summed(sizes(gaps), means.len());
    let count = summed(spurt_recorded(observed), means.len());
    let d = if count > 0 {
        count
    } else {
        1
    };
    rounding_is_to_the_nearest(abs, d, 0);
    lemma_quotient_is_no_larger(abs, d);
}

/// One for each round in which a runner fires a skill: some skill event of the
/// round names her gate and the skill.
pub open spec fn firings(rounds: Seq<Observed>, gate: int, skill: i64) -> spec_fn(int) -> int {
    |r: int|
        if exists|i: int|
            0 <= i < rounds[r].events@.len() && is_activation(#[trigger] rounds[r].events@[i])
                && rounds[r].events@[i].params@[0] == gate && rounds[r].events@[i].params@[1]
                == skill {
            1int
        } else {
            0
        }
}

proof fn lemma_firings(rounds: Seq<Observed>, gate: int, skill: i64, n: nat)
    requires
        n <= rounds.len(),
    ensures
        rounds_fired(rounds, gate, skill, n) == summed(firings(rounds, gate, skill), n),
        0 <= summed(firings(rounds, gate, skill), n) <= n,
    decreases n,
{
    if n > 0 {
        lemma_firings(rounds, gate, skill, (n - 1) as nat);
    }
}

proof fn lemma_recorded_firing(observed: Observed, gate: int, skill: i64, n: nat)
    requires
        n <= observed.events@.len(),
    ensures
        activated(gate_activations(observed, gate, n), skill) <==> exists|i: int|
            0 <= i < n && is_activation(#[trigger] observed.events@[i])
                && observed.events@[i].params@[0] == gate && observed.events@[i].params@[1]
                == skill,
    decreases n,
{
    if n > 0 {
        lemma_recorded_firing(observed, gate, skill, (n - 1) as nat);
        let before = gate_activations(observed, gate, (n - 1) as nat);
        let after = gate_activations(observed, gate, n);
        let event = observed.events@[n - 1];
        if activated(before, skill) {
            let k = choose|k: int| 0 <= k < before.len() && (#[trigger] before[k]).skill == skill;
            assert(after[k] == before[k]);
        }
        if is_activation(event) && event.params@[0] == gate && event.params@[1] == skill {
            if !activated(before, skill) {
                assert(after[before.len() as int].skill == skill);
            }
        }
        if activated(after, skill) && !activated(before, skill) {
            let k = choose|k: int| 0 <= k < after.len() && (#[trigger] after[k]).skill == skill;
            if k < before.len() {
                assert(after[k] == before[k]);
            }
        }
    }
}

/// A skill's error is how far the share of the rounds that fire it is from what
/// was recorded: all of them where the recording fires it, none where it does
/// not.
pub proof fn a_skill_error_is_the_rate_against_the_recording(
    observed: Observed,
    rounds: Seq<Observed>,
    gate: int,
    skill: i64,
    rate: int,
)
    requires
        0 < rounds.len() <= QUANTITY_MAX,
        is_nearest(
            rate,
            summed(firings(rounds, gate, skill), rounds.len()) * 1_000_000_000,
            rounds.len() as int,
        ),
    ensures
        0 <= rate <= 1_000_000_000,
        skill_error(observed, rounds, gate, skill) == if exists|i: int|
            0 <= i < observed.events@.len() && is_activation(#[trigger] observed.events@[i])
                && observed.events@[i].params@[0] == gate && observed.events@[i].params@[1]
                == skill {
            1_000_000_000 - rate
        } else {
            rate
        },
{
    lemma_firings(rounds, gate, skill, rounds.len());
    lemma_recorded_firing(observed, gate, skill, observed.events@.len());
    let fired = summed(firings(rounds, gate, skill), rounds.len());
    let n = rounds.len() as int;
    rounding_is_to_the_nearest(fired * 1_000_000_000, n, rate);
    if rate < 0 {
        assert(rate * n <= -n) by (nonlinear_arith)
            requires
                rate <= -1,
                n > 0,
        ;
    }
    if rate > 1_000_000_000 {
        assert(rate * n >= 1_000_000_001 * n) by (nonlinear_arith)
            requires
                rate >= 1_000_000_001,
                n > 0,
        ;
    }
}

/// The errors of a runner's skills.
pub open spec fn skill_gaps(
    observed: Observed,
    rounds: Seq<Observed>,
    gate: int,
    skills: Seq<i64>,
) -> spec_fn(int) -> int {
    |k: int| skill_error(observed, rounds, gate, skills[k])
}

/// The errors of each runner's skills added up.
pub open spec fn runner_skill_gaps(
    observed: Observed,
    rounds: Seq<Observed>,
    skills: Seq<Vec<i64>>,
) -> spec_fn(int) -> int {
    |g: int| summed(skill_gaps(observed, rounds, g, skills[g]@), skills[g]@.len())
}

/// How many skills each runner holds.
pub open spec fn skill_counts(skills: Seq<Vec<i64>>) -> spec_fn(int) -> int {
    |g: int| skills[g]@.len() as int
}

proof fn lemma_skills(
    sum: int,
    observed: Observed,
    rounds: Seq<Observed>,
    gate: int,
    skills: Seq<i64>,
    n: nat,
)
    requires
        0 < rounds.len() <= QUANTITY_MAX,
        n <= skills.len(),
        0 <= sum,
        sum + summed(skill_gaps(observed, rounds, gate, skills), n) <= QUANTITY_MAX,
    ensures
        skills_summed(sum, observed, rounds, gate, skills, n) == sum + summed(
            skill_gaps(observed, rounds, gate, skills),
            n,
        ),
        0 <= summed(skill_gaps(observed, rounds, gate, skills), n),
    decreases n,
{
    if n > 0 {
        assert(skill_error(observed, rounds, gate, skills[n - 1]) >= 0);
        lemma_skills(sum, observed, rounds, gate, skills, (n - 1) as nat);
    }
}

proof fn lemma_skill_gaps_natural(
    observed: Observed,
    rounds: Seq<Observed>,
    gate: int,
    skills: Seq<i64>,
    n: nat,
)
    ensures
        0 <= summed(skill_gaps(observed, rounds, gate, skills), n),
    decreases n,
{
    if n > 0 {
        lemma_skill_gaps_natural(observed, rounds, gate, skills, (n - 1) as nat);
    }
}

proof fn lemma_skill_sums(
    observed: Observed,
    rounds: Seq<Observed>,
    skills: Seq<Vec<i64>>,
    n: nat,
)
    requires
        0 < rounds.len() <= QUANTITY_MAX,
        summed(runner_skill_gaps(observed, rounds, skills), n) <= QUANTITY_MAX,
        summed(skill_counts(skills), n) <= QUANTITY_MAX,
    ensures
        runners_summed(observed, rounds, skills, n).skill_abs == summed(
            runner_skill_gaps(observed, rounds, skills),
            n,
        ),
        runners_summed(observed, rounds, skills, n).skill_count == summed(skill_counts(skills), n),
        0 <= summed(runner_skill_gaps(observed, rounds, skills), n),
        0 <= summed(skill_counts(skills), n),
    decreases n,
{
    if n > 0 {
        let g = n - 1;
        lemma_skill_gaps_natural(observed, rounds, g, skills[g]@, skills[g]@.len());
        lemma_skill_sums(observed, rounds, skills, (n - 1) as nat);
        lemma_skills(
            summed(runner_skill_gaps(observed, rounds, skills), (n - 1) as nat),
            observed,
            rounds,
            g,
            skills[g]@,
            skills[g]@.len(),
        );
    }
}

/// The mean activation error is over every skill of every runner.
pub proof fn the_activation_error_is_over_every_skill(
    observed: Observed,
    rounds: Seq<Observed>,
    skills: Seq<Vec<i64>>,
    course: ScoredCourse,
)
    requires
        0 < rounds.len() <= QUANTITY_MAX,
        summed(runner_skill_gaps(observed, rounds, skills), observed.results@.len())
            <= QUANTITY_MAX,
        summed(skill_counts(skills), observed.results@.len()) <= QUANTITY_MAX,
    ensures
        ({
            let runners = observed.results@.len();
            let count = summed(skill_counts(skills), runners);
            scores_of(observed, rounds, skills, course).skill_activation_error matches Some(error)
                && is_nearest(
                error as int,
                summed(runner_skill_gaps(observed, rounds, skills), runners),
                if count > 0 {
                    count
                } else {
                    1
                },
            )
        }),
{
    let runners = observed.results@.len();
    lemma_skill_sums(observed, rounds, skills, runners);
    let abs = summed(runner_skill_gaps(observed, rounds, skills), runners);
    let count = summed(skill_counts(skills), runners);
    let d = if count > 0 {
        count
    } else {
        1
    };
    rounding_is_to_the_nearest(abs, d, 0);
    lemma_quotient_is_no_larger(abs, d);
}

/// Whether the runner at gate `g` won: first in the finishing order, and the
/// first listed one who is.
pub open spec fn won(results: Seq<ObservedResult>, g: int) -> bool {
    &&& 0 <= g < results.len()
    &&& results[g].finish_order == 0
    &&& forall|k: int| 0 <= k < g ==> (#[trigger] results[k]).finish_order != 0
}

proof fn lemma_winner(results: Seq<ObservedResult>, i: int)
    requires
        0 <= i <= results.len(),
        forall|k: int| 0 <= k < i ==> (#[trigger] results[k]).finish_order != 0,
    ensures
        match winner(results, i) {
            Some(g) => won(results, g),
            None => forall|k: int|
                0 <= k < results.len() ==> (#[trigger] results[k]).finish_order != 0,
        },
    decreases results.len() - i,
{
    if i < results.len() && results[i].finish_order != 0 {
        lemma_winner(results, i + 1);
    }
}

/// Whether a round has the recorded winner: the same gate won in both, or nobody
/// in either.
pub open spec fn same_winner(a: Seq<ObservedResult>, b: Seq<ObservedResult>) -> bool {
    forall|g: int| #[trigger] won(a, g) == won(b, g)
}

/// One for each round that has the recorded winner.
pub open spec fn hits(observed: Observed, rounds: Seq<Observed>) -> spec_fn(int) -> int {
    |r: int|
        if same_winner(rounds[r].results@, observed.results@) {
            1int
        } else {
            0
        }
}

proof fn lemma_same_winner(a: Seq<ObservedResult>, b: Seq<ObservedResult>)
    ensures
        same_winner(a, b) == (winner(a, 0) == winner(b, 0)),
{
    lemma_winner(a, 0);
    lemma_winner(b, 0);
    if same_winner(a, b) {
        if let Some(g) = winner(a, 0) {
            assert(won(a, g) == won(b, g));
        }
        if let Some(g) = winner(b, 0) {
            assert(won(a, g) == won(b, g));
        }
        if winner(a, 0) is Some && winner(b, 0) is Some {
            let x = winner(a, 0)->0;
            let y = winner(b, 0)->0;
            if x < y {
                assert(b[x].finish_order != 0);
            } else if y < x {
                assert(a[y].finish_order != 0);
            }
        }
    }
    if winner(a, 0) == winner(b, 0) {
        assert forall|g: int| #[trigger] won(a, g) == won(b, g) by {
            if let Some(x) = winner(a, 0) {
                if won(a, g) && g != x {
                    if g < x {
                        assert(a[g].finish_order != 0);
                    } else {
                        assert(a[x].finish_order != 0);
                    }
                }
                if won(b, g) && g != x {
                    if g < x {
                        assert(b[g].finish_order != 0);
                    } else {
                        assert(b[x].finish_order != 0);
                    }
                }
            }
        }
    }
}

proof fn lemma_hits(observed: Observed, rounds: Seq<Observed>, n: nat)
    requires
        n <= rounds.len(),
    ensures
        winner_hits(observed, rounds, n) == summed(hits(observed, rounds), n),
        0 <= summed(hits(observed, rounds), n) <= n,
    decreases n,
{
    if n > 0 {
        lemma_hits(observed, rounds, (n - 1) as nat);
        lemma_same_winner(rounds[n - 1].results@, observed.results@);
    }
}

/// The hit rate is the share of all rounds that have the recorded winner.
pub proof fn the_hit_rate_is_over_every_round(
    observed: Observed,
    rounds: Seq<Observed>,
    skills: Seq<Vec<i64>>,
    course: ScoredCourse,
)
    requires
        0 < rounds.len() <= QUANTITY_MAX,
    ensures
        scores_of(observed, rounds, skills, course).winner_hit_rate matches Some(rate)
            && is_nearest(
            rate as int,
            summed(hits(observed, rounds), rounds.len()) * 1_000_000_000,
            rounds.len() as int,
        ) && 0 <= rate <= 1_000_000_000,
{
    lemma_hits(observed, rounds, rounds.len());
    let n = rounds.len() as int;
    let h = summed(hits(observed, rounds), rounds.len());
    let rate = rounded_quotient(h * 1_000_000_000, n);
    rounding_is_to_the_nearest(h * 1_000_000_000, n, rate);
    if rate < 0 {
        assert(rate * n <= -n) by (nonlinear_arith)
            requires
                rate <= -1,
                n > 0,
        ;
    }
    if rate > 1_000_000_000 {
        assert(rate * n >= 1_000_000_001 * n) by (nonlinear_arith)
            requires
                rate >= 1_000_000_001,
                n > 0,
        ;
    }
}

/// The frame that stands for a time is as near it as any, and within a 15th of a
/// second; there is none only where none is that near.
pub proof fn the_nearest_frame_stands_for_a_time(frames: Seq<ObservedFrame>, time: i64, j: int)
    requires
        forall|a: int, b: int|
            0 <= a <= b < frames.len() ==> (#[trigger] frames[a]).time <= (
            #[trigger] frames[b]).time,
        forall|a: int| 0 <= a < frames.len() ==> (#[trigger] frames[a]).time >= 0,
        time >= 0,
        0 <= j < frames.len(),
    ensures
        match nearest_frame(frames, time) {
            Some(i) => {
                &&& 0 <= i < frames.len()
                &&& magnitude(frames[i].time - time) <= magnitude(frames[j].time - time)
                &&& 15 * magnitude(frames[i].time - time) <= 1_000_000_000
            },
            None => 15 * magnitude(frames[j].time - time) > 1_000_000_000,
        },
{
    lemma_first_frame_at(frames, time, 0);
    let after = first_frame_at(frames, time, 0);
    if after < frames.len() {
        assert(frames[after].time >= time);
        if j >= after {
            assert(frames[after].time <= frames[j].time);
        }
    }
    if after > 0 {
        assert(frames[after - 1].time < time);
        if j < after {
            assert(frames[j].time <= frames[after - 1].time);
        }
    }
}

/// What a pair of samples adds to the errors: how far the simulated one is off,
/// with and without its sign, in each measure; how far it agrees on being rushed;
/// what each says of being blocked; and the lane where both have one.
pub proof fn a_sample_adds_its_own_errors(e: FrameErrors, sim: FrameSample, observed: FrameSample)
    requires
        e.count < QUANTITY_MAX,
        e.lane_count < QUANTITY_MAX,
    ensures
        ({
            let after = sample_added(e, sim, observed);
            let fits = |x: int| QUANTITY_MIN <= x <= QUANTITY_MAX;
            let far = |a: i64, b: i64|
                if a >= b {
                    a - b
                } else {
                    b - a
                };
            let adds = |before: i64, now: i64, x: int|
                fits(x) && fits(before + x) ==> now == before + x;
            let lanes = sim.lane is Some && observed.lane is Some;
            &&& adds(e.distance_abs, after.distance_abs, far(sim.distance, observed.distance))
            &&& adds(e.speed_abs, after.speed_abs, far(sim.speed, observed.speed))
            &&& adds(e.speed_signed, after.speed_signed, sim.speed - observed.speed)
            &&& adds(e.hp_abs, after.hp_abs, far(sim.hp, observed.hp))
            &&& adds(e.hp_signed, after.hp_signed, sim.hp - observed.hp)
            &&& fits(far(sim.rushed, observed.rushed)) ==> adds(
                e.rushed_agreement,
                after.rushed_agreement,
                1_000_000_000 - far(sim.rushed, observed.rushed),
            )
            &&& adds(e.blocked_sim, after.blocked_sim, sim.blocked as int)
            &&& adds(e.blocked_observed, after.blocked_observed, observed.blocked as int)
            &&& if lanes {
                &&& adds(e.lane_abs, after.lane_abs, far(sim.lane->0, observed.lane->0))
                &&& after.lane_count == e.lane_count + 1
            } else {
                &&& after.lane_abs == e.lane_abs
                &&& after.lane_count == e.lane_count
            }
            &&& after.count == e.count + 1
        }),
{
}

/// Whether the sample of gate `g` in a frame counts: the rounds still show the
/// runner, and the filter lets her gate and the part of the race through.
pub open spec fn is_counted(
    frame: ObservedFrame,
    rounds: Seq<Observed>,
    course: ScoredCourse,
    filter: SampleFilter,
    g: int,
) -> bool {
    &&& mean_sample(rounds, g, frame.time, course.width) is Some
    &&& filter.gate is Some ==> filter.gate->0 == g
    &&& filter.part is Some ==> filter.part->0 == part_at(
        frame.distance@[g] as int,
        course.distance as int,
    )
}

/// What `f` makes of the gates of a frame that count.
pub open spec fn gate_values(
    f: spec_fn(FrameSample, FrameSample) -> int,
    frame: ObservedFrame,
    rounds: Seq<Observed>,
    course: ScoredCourse,
    filter: SampleFilter,
) -> spec_fn(int) -> int {
    |g: int|
        if is_counted(frame, rounds, course, filter, g) {
            f(
                mean_sample(rounds, g, frame.time, course.width)->0,
                sample_of(frame, g, course.width),
            )
        } else {
            0
        }
}

/// What `f` makes of each frame, over all its gates that count.
pub open spec fn frame_values(
    f: spec_fn(FrameSample, FrameSample) -> int,
    observed: Observed,
    rounds: Seq<Observed>,
    course: ScoredCourse,
    filter: SampleFilter,
) -> spec_fn(int) -> int {
    |i: int|
        summed(
            gate_values(f, observed.frames@[i], rounds, course, filter),
            observed.results@.len(),
        )
}

/// How far apart two samples' distances are.
pub open spec fn distances_apart() -> spec_fn(FrameSample, FrameSample) -> int {
    |a: FrameSample, b: FrameSample| magnitude(a.distance - b.distance)
}

/// How far apart two samples' speeds are.
pub open spec fn speeds_apart() -> spec_fn(FrameSample, FrameSample) -> int {
    |a: FrameSample, b: FrameSample| magnitude(a.speed - b.speed)
}

/// How far apart two samples' hit points are.
pub open spec fn hps_apart() -> spec_fn(FrameSample, FrameSample) -> int {
    |a: FrameSample, b: FrameSample| magnitude(a.hp - b.hp)
}

/// One for each pair of samples.
pub open spec fn each_pair() -> spec_fn(FrameSample, FrameSample) -> int {
    |a: FrameSample, b: FrameSample| 1int
}

/// How much faster the first of two samples is.
pub open spec fn speeds_past() -> spec_fn(FrameSample, FrameSample) -> int {
    |a: FrameSample, b: FrameSample| a.speed - b.speed
}

/// How much more hit points the first of two samples has.
pub open spec fn hps_past() -> spec_fn(FrameSample, FrameSample) -> int {
    |a: FrameSample, b: FrameSample| a.hp - b.hp
}

proof fn lemma_gate_sums(
    e: FrameErrors,
    frame: ObservedFrame,
    rounds: Seq<Observed>,
    course: ScoredCourse,
    filter: SampleFilter,
    n: nat,
)
    requires
        e.distance_abs >= 0,
        e.speed_abs >= 0,
        e.hp_abs >= 0,
        e.count >= 0,
        magnitude(e.speed_signed as int) <= e.speed_abs,
        magnitude(e.hp_signed as int) <= e.hp_abs,
        e.distance_abs + summed(
            gate_values(distances_apart(), frame, rounds, course, filter),
            n,
        ) <= QUANTITY_MAX,
        e.speed_abs + summed(gate_values(speeds_apart(), frame, rounds, course, filter), n)
            <= QUANTITY_MAX,
        e.hp_abs + summed(gate_values(hps_apart(), frame, rounds, course, filter), n)
            <= QUANTITY_MAX,
        e.count + summed(gate_values(each_pair(), frame, rounds, course, filter), n)
            <= QUANTITY_MAX,
    ensures
        ({
            let after = frame_added(e, frame, rounds, course, filter, n);
            let d = summed(gate_values(distances_apart(), frame, rounds, course, filter), n);
            let v = summed(gate_values(speeds_apart(), frame, rounds, course, filter), n);
            let h = summed(gate_values(hps_apart(), frame, rounds, course, filter), n);
            let c = summed(gate_values(each_pair(), frame, rounds, course, filter), n);
            &&& d >= 0 && v >= 0 && h >= 0 && c >= 0
            &&& after.distance_abs == e.distance_abs + d
            &&& after.speed_abs == e.speed_abs + v
            &&& after.hp_abs == e.hp_abs + h
            &&& after.count == e.count + c
            &&& after.speed_signed == e.speed_signed + summed(
                gate_values(speeds_past(), frame, rounds, course, filter),
                n,
            )
            &&& after.hp_signed == e.hp_signed + summed(
                gate_values(hps_past(), frame, rounds, course, filter),
                n,
            )
            &&& magnitude(after.speed_signed as int) <= after.speed_abs
            &&& magnitude(after.hp_signed as int) <= after.hp_abs
        }),
    decreases n,
{
    if n > 0 {
        lemma_gate_sums(e, frame, rounds, course, filter, (n - 1) as nat);
    }
}

proof fn lemma_frame_sums(
    observed: Observed,
    rounds: Seq<Observed>,
    course: ScoredCourse,
    filter: SampleFilter,
    n: nat,
)
    requires
        n <= observed.frames@.len(),
        summed(frame_values(distances_apart(), observed, rounds, course, filter), n)
            <= QUANTITY_MAX,
        summed(frame_values(speeds_apart(), observed, rounds, course, filter), n) <= QUANTITY_MAX,
        summed(frame_values(hps_apart(), observed, rounds, course, filter), n) <= QUANTITY_MAX,
        summed(frame_values(each_pair(), observed, rounds, course, filter), n) <= QUANTITY_MAX,
    ensures
        ({
            let e = frames_added(no_errors(), observed, rounds, course, filter, n);
            let d = summed(frame_values(distances_apart(), observed, rounds, course, filter), n);
            let v = summed(frame_values(speeds_apart(), observed, rounds, course, filter), n);
            let h = summed(frame_values(hps_apart(), observed, rounds, course, filter), n);
            let c = summed(frame_values(each_pair(), observed, rounds, course, filter), n);
            &&& d >= 0 && v >= 0 && h >= 0 && c >= 0
            &&& e.distance_abs == d
            &&& e.speed_abs == v
            &&& e.hp_abs == h
            &&& e.count == c
            &&& e.speed_signed == summed(
                frame_values(speeds_past(), observed, rounds, course, filter),
                n,
            )
            &&& e.hp_signed == summed(
                frame_values(hps_past(), observed, rounds, course, filter),
                n,
            )
            &&& magnitude(e.speed_signed as int) <= e.speed_abs
            &&& magnitude(e.hp_signed as int) <= e.hp_abs
        }),
    decreases n,
{
    if n > 0 {
        let frame = observed.frames@[n - 1];
        let gates = observed.results@.len();
        lemma_natural_gates(frame, rounds, course, filter, gates);
        lemma_frame_sums(observed, rounds, course, filter, (n - 1) as nat);
        lemma_gate_sums(
            frames_added(no_errors(), observed, rounds, course, filter, (n - 1) as nat),
            frame,
            rounds,
            course,
            filter,
            gates,
        );
    }
}

proof fn lemma_natural_gates(
    frame: ObservedFrame,
    rounds: Seq<Observed>,
    course: ScoredCourse,
    filter: SampleFilter,
    n: nat,
)
    ensures
        summed(gate_values(distances_apart(), frame, rounds, course, filter), n) >= 0,
        summed(gate_values(speeds_apart(), frame, rounds, course, filter), n) >= 0,
        summed(gate_values(hps_apart(), frame, rounds, course, filter), n) >= 0,
        summed(gate_values(each_pair(), frame, rounds, course, filter), n) >= 0,
    decreases n,
{
    if n > 0 {
        lemma_natural_gates(frame, rounds, course, filter, (n - 1) as nat);
    }
}

/// The trajectory, speed and hit point errors are over every sample: each is, to
/// the nearest unit, the sum over all frames and gates that the rounds still show
/// of how far the mean simulated runner is off, divided by how many those are.
pub proof fn the_frame_errors_are_over_every_sample(
    observed: Observed,
    rounds: Seq<Observed>,
    skills: Seq<Vec<i64>>,
    course: ScoredCourse,
    filter: SampleFilter,
)
    requires
        filter.gate is None,
        filter.part is None,
        ({
            let n = observed.frames@.len();
            &&& summed(frame_values(distances_apart(), observed, rounds, course, filter), n)
                <= QUANTITY_MAX
            &&& summed(frame_values(speeds_apart(), observed, rounds, course, filter), n)
                <= QUANTITY_MAX
            &&& summed(frame_values(hps_apart(), observed, rounds, course, filter), n)
                <= QUANTITY_MAX
            &&& summed(frame_values(each_pair(), observed, rounds, course, filter), n)
                <= QUANTITY_MAX
        }),
    ensures
        ({
            let n = observed.frames@.len();
            let scores = scores_of(observed, rounds, skills, course);
            let pairs = summed(frame_values(each_pair(), observed, rounds, course, filter), n);
            let per = if pairs > 0 {
                pairs
            } else {
                1
            };
            &&& is_nearest(
                scores.trajectory_mae as int,
                summed(frame_values(distances_apart(), observed, rounds, course, filter), n),
                per,
            )
            &&& is_nearest(
                scores.speed_mae as int,
                summed(frame_values(speeds_apart(), observed, rounds, course, filter), n),
                per,
            )
            &&& is_nearest(
                scores.speed_bias as int,
                summed(frame_values(speeds_past(), observed, rounds, course, filter), n),
                per,
            )
            &&& is_nearest(
                scores.hp_mae as int,
                summed(frame_values(hps_apart(), observed, rounds, course, filter), n),
                per,
            )
            &&& is_nearest(
                scores.hp_bias as int,
                summed(frame_values(hps_past(), observed, rounds, course, filter), n),
                per,
            )
        }),
{
    let n = observed.frames@.len();
    lemma_frame_sums(observed, rounds, course, filter, n);
    let e = race_errors(observed, rounds, course, filter);
    assert(filter == crate::accuracy::score::every_sample());
    let per = if e.count > 0 {
        e.count as int
    } else {
        1
    };
    rounding_is_to_the_nearest(e.distance_abs as int, per, 0);
    rounding_is_to_the_nearest(e.speed_abs as int, per, 0);
    rounding_is_to_the_nearest(e.speed_signed as int, per, 0);
    rounding_is_to_the_nearest(e.hp_abs as int, per, 0);
    rounding_is_to_the_nearest(e.hp_signed as int, per, 0);
    lemma_quotient_is_no_larger(e.distance_abs as int, per);
    lemma_quotient_is_no_larger(e.speed_abs as int, per);
    lemma_quotient_is_no_larger(e.speed_signed as int, per);
    lemma_quotient_is_no_larger(e.hp_abs as int, per);
    lemma_quotient_is_no_larger(e.hp_signed as int, per);
}

/// The rounds that still show a runner at a time: one for each.
pub open spec fn showing(
    rounds: Seq<Observed>,
    gate: int,
    time: i64,
    course_width: i64,
) -> spec_fn(int) -> int {
    |r: int|
        if round_sample(rounds[r], gate, time, course_width) is Some {
            1int
        } else {
            0
        }
}

/// What `f` makes of a runner in each round that still shows her.
pub open spec fn shown_values(
    f: spec_fn(FrameSample) -> int,
    rounds: Seq<Observed>,
    gate: int,
    time: i64,
    course_width: i64,
) -> spec_fn(int) -> int {
    |r: int|
        match round_sample(rounds[r], gate, time, course_width) {
            Some(sample) => f(sample),
            None => 0,
        }
}

/// Where a sample shows the runner.
pub open spec fn distance_shown() -> spec_fn(FrameSample) -> int {
    |s: FrameSample| s.distance as int
}

/// How fast a sample shows the runner.
pub open spec fn speed_shown() -> spec_fn(FrameSample) -> int {
    |s: FrameSample| s.speed as int
}

/// The hit points a sample shows.
pub open spec fn hp_shown() -> spec_fn(FrameSample) -> int {
    |s: FrameSample| s.hp as int
}

/// Whether a sample shows the runner rushed.
pub open spec fn rushed_shown() -> spec_fn(FrameSample) -> int {
    |s: FrameSample| s.rushed as int
}

/// Whether a sample shows the runner blocked.
pub open spec fn blocked_shown() -> spec_fn(FrameSample) -> int {
    |s: FrameSample| s.blocked as int
}

/// Whether what `f` makes of the runner over the rounds fits in the range.
pub open spec fn shown_fit(
    f: spec_fn(FrameSample) -> int,
    rounds: Seq<Observed>,
    gate: int,
    time: i64,
    course_width: i64,
    n: nat,
) -> bool {
    summed(sizes(shown_values(f, rounds, gate, time, course_width)), n) <= QUANTITY_MAX
}

proof fn lemma_rounds_summed(
    rounds: Seq<Observed>,
    gate: int,
    time: i64,
    w: i64,
    n: nat,
)
    requires
        n <= rounds.len(),
        shown_fit(distance_shown(), rounds, gate, time, w, n),
        shown_fit(speed_shown(), rounds, gate, time, w, n),
        shown_fit(hp_shown(), rounds, gate, time, w, n),
        shown_fit(rushed_shown(), rounds, gate, time, w, n),
        shown_fit(blocked_shown(), rounds, gate, time, w, n),
    ensures
        ({
            let (sum, count) = rounds_summed(rounds, gate, time, w, n);
            &&& count == summed(showing(rounds, gate, time, w), n)
            &&& 0 <= count <= n
            &&& sum.distance == summed(shown_values(distance_shown(), rounds, gate, time, w), n)
            &&& sum.speed == summed(shown_values(speed_shown(), rounds, gate, time, w), n)
            &&& sum.hp == summed(shown_values(hp_shown(), rounds, gate, time, w), n)
            &&& sum.rushed == summed(shown_values(rushed_shown(), rounds, gate, time, w), n)
            &&& sum.blocked == summed(shown_values(blocked_shown(), rounds, gate, time, w), n)
        }),
    decreases n,
{
    if n > 0 {
        let m = (n - 1) as nat;
        lemma_sizes_grow(shown_values(distance_shown(), rounds, gate, time, w), m, n);
        lemma_sizes_grow(shown_values(speed_shown(), rounds, gate, time, w), m, n);
        lemma_sizes_grow(shown_values(hp_shown(), rounds, gate, time, w), m, n);
        lemma_sizes_grow(shown_values(rushed_shown(), rounds, gate, time, w), m, n);
        lemma_sizes_grow(shown_values(blocked_shown(), rounds, gate, time, w), m, n);
        lemma_rounds_summed(rounds, gate, time, w, m);
    }
}

/// A mean sample is over every round that still shows the runner, and over no
/// other; there is none only where no round does.
pub proof fn a_mean_sample_is_over_every_round_that_shows_her(
    rounds: Seq<Observed>,
    gate: int,
    time: i64,
    w: i64,
)
    requires
        shown_fit(distance_shown(), rounds, gate, time, w, rounds.len()),
        shown_fit(speed_shown(), rounds, gate, time, w, rounds.len()),
        shown_fit(hp_shown(), rounds, gate, time, w, rounds.len()),
        shown_fit(rushed_shown(), rounds, gate, time, w, rounds.len()),
        shown_fit(blocked_shown(), rounds, gate, time, w, rounds.len()),
    ensures
        ({
            let n = rounds.len();
            let count = summed(showing(rounds, gate, time, w), n);
            match mean_sample(rounds, gate, time, w) {
                Some(mean) => {
                    &&& count > 0
                    &&& is_nearest(
                        mean.distance as int,
                        summed(shown_values(distance_shown(), rounds, gate, time, w), n),
                        count,
                    )
                    &&& is_nearest(
                        mean.speed as int,
                        summed(shown_values(speed_shown(), rounds, gate, time, w), n),
                        count,
                    )
                    &&& is_nearest(
                        mean.hp as int,
                        summed(shown_values(hp_shown(), rounds, gate, time, w), n),
                        count,
                    )
                    &&& is_nearest(
                        mean.rushed as int,
                        summed(shown_values(rushed_shown(), rounds, gate, time, w), n),
                        count,
                    )
                    &&& is_nearest(
                        mean.blocked as int,
                        summed(shown_values(blocked_shown(), rounds, gate, time, w), n),
                        count,
                    )
                },
                None => count == 0,
            }
        }),
{
    lemma_rounds_summed(rounds, gate, time, w, rounds.len());
    let (sum, count) = rounds_summed(rounds, gate, time, w, rounds.len());
    if count > 0 {
        rounding_is_to_the_nearest(sum.distance as int, count, 0);
        rounding_is_to_the_nearest(sum.speed as int, count, 0);
        rounding_is_to_the_nearest(sum.hp as int, count, 0);
        rounding_is_to_the_nearest(sum.rushed as int, count, 0);
        rounding_is_to_the_nearest(sum.blocked as int, count, 0);
        lemma_share(sum.distance as int, count, rounded_quotient(sum.distance as int, count));
        lemma_share(sum.speed as int, count, rounded_quotient(sum.speed as int, count));
        lemma_share(sum.hp as int, count, rounded_quotient(sum.hp as int, count));
        lemma_share(sum.rushed as int, count, rounded_quotient(sum.rushed as int, count));
        lemma_share(sum.blocked as int, count, rounded_quotient(sum.blocked as int, count));
    }
}

/// The squared differences of two orders.
pub open spec fn order_gaps(a: Seq<i32>, b: Seq<i32>) -> spec_fn(int) -> int {
    |i: int| (a[i] - b[i]) * (a[i] - b[i])
}

proof fn lemma_squares(a: Seq<i32>, b: Seq<i32>, n: nat)
    ensures
        squared_differences(a, b, n) == summed(order_gaps(a, b), n),
        squared_differences(a, b, n) >= 0,
    decreases n,
{
    if n > 0 {
        lemma_squares(a, b, (n - 1) as nat);
        let d = a[n - 1] - b[n - 1];
        assert(d * d >= 0) by (nonlinear_arith);
    }
}

/// The rank correlation of two orders of `n` is 1 less six times their squared
/// differences over `n` times `n` squared less 1.
pub proof fn the_rank_correlation_is_spearmans(sim: Seq<i32>, observed: Seq<i32>, q: int)
    requires
        sim.len() == observed.len(),
        sim.len() >= 2,
        is_nearest(
            q,
            6_000_000_000 * summed(order_gaps(sim, observed), sim.len()),
            sim.len() * (sim.len() * sim.len() - 1),
        ),
        QUANTITY_MIN <= q <= QUANTITY_MAX,
    ensures
        1_000_000_000 - q >= QUANTITY_MIN ==> rank_correlation(sim, observed) == Some(
            1_000_000_000 - q,
        ) || 1_000_000_000 - q > QUANTITY_MAX,
{
    let n = sim.len() as int;
    lemma_squares(sim, observed, sim.len());
    assert(n * (n * n - 1) > 0) by (nonlinear_arith)
        requires
            n >= 2,
    ;
    rounding_is_to_the_nearest(
        6_000_000_000 * summed(order_gaps(sim, observed), sim.len()),
        n * (n * n - 1),
        q,
    );
}

/// The parts of a race: a distance short of a sixth of the course is early, one
/// from there to two thirds of it in the middle, and one from there on late.
pub proof fn a_race_has_three_parts(distance: int, course: int)
    requires
        course > 0,
    ensures
        part_at(distance, course) == RacePart::Early <==> 6 * distance < course,
        part_at(distance, course) == RacePart::Mid <==> course <= 6 * distance && 3 * distance < 2
            * course,
        part_at(distance, course) == RacePart::Late <==> 3 * distance >= 2 * course,
{
}

/// What counts as worse: without a baseline, the want of one and nothing else;
/// with one, each error that has grown past its slack, and only those. The
/// blocked share may not wander further from the recording, on either side.
pub proof fn what_has_grown_past_its_slack_is_worse(before: Scores, now: Scores)
    ensures
        regressions(None, now) == seq![Regression::NoBaseline],
        ({
            let worse = regressions(Some(before), now);
            let grew = |a: Option<i64>, b: Option<i64>, slack: int|
                a is Some && b is Some && b->0 - a->0 > slack;
            &&& !worse.contains(Regression::NoBaseline)
            &&& worse.contains(Regression::FinishTime) <==> grew(
                before.finish_time_mae,
                now.finish_time_mae,
                20_000_000,
            )
            &&& worse.contains(Regression::Trajectory) <==> now.trajectory_mae
                - before.trajectory_mae > 250_000_000
            &&& worse.contains(Regression::Speed) <==> now.speed_mae - before.speed_mae
                > 20_000_000
            &&& worse.contains(Regression::Lane) <==> grew(
                before.lane_mae,
                now.lane_mae,
                50_000_000,
            )
            &&& worse.contains(Regression::BlockedShare) <==> before.blocked_share_diff is Some
                && now.blocked_share_diff is Some && magnitude(now.blocked_share_diff->0 as int)
                - magnitude(before.blocked_share_diff->0 as int) > 10_000_000
            &&& worse.contains(Regression::Hp) <==> now.hp_mae - before.hp_mae > 2_000_000_000
        }),
{
    broadcast use vstd::seq_lib::group_seq_properties;

}

/// The errors over the samples a filter lets through are over all of those, and
/// over no other: as many as count, and each with its own distance.
pub proof fn filtered_errors_are_over_what_passes(
    observed: Observed,
    rounds: Seq<Observed>,
    course: ScoredCourse,
    filter: SampleFilter,
)
    requires
        ({
            let n = observed.frames@.len();
            &&& summed(frame_values(distances_apart(), observed, rounds, course, filter), n)
                <= QUANTITY_MAX
            &&& summed(frame_values(speeds_apart(), observed, rounds, course, filter), n)
                <= QUANTITY_MAX
            &&& summed(frame_values(hps_apart(), observed, rounds, course, filter), n)
                <= QUANTITY_MAX
            &&& summed(frame_values(each_pair(), observed, rounds, course, filter), n)
                <= QUANTITY_MAX
        }),
    ensures
        ({
            let n = observed.frames@.len();
            let e = race_errors(observed, rounds, course, filter);
            &&& e.count == summed(frame_values(each_pair(), observed, rounds, course, filter), n)
            &&& e.distance_abs == summed(
                frame_values(distances_apart(), observed, rounds, course, filter),
                n,
            )
            &&& e.speed_abs == summed(
                frame_values(speeds_apart(), observed, rounds, course, filter),
                n,
            )
            &&& e.hp_abs == summed(frame_values(hps_apart(), observed, rounds, course, filter), n)
        }),
{
    lemma_frame_sums(observed, rounds, course, filter, observed.frames@.len());
}

/// How far two samples agree on being rushed.
pub open spec fn rushed_alike() -> spec_fn(FrameSample, FrameSample) -> int {
    |a: FrameSample, b: FrameSample| 1_000_000_000 - magnitude(a.rushed - b.rushed)
}

/// How far apart two samples are on being rushed.
pub open spec fn rushed_apart() -> spec_fn(FrameSample, FrameSample) -> int {
    |a: FrameSample, b: FrameSample| magnitude(a.rushed - b.rushed)
}

/// What the first of two samples says of being blocked.
pub open spec fn blocked_first() -> spec_fn(FrameSample, FrameSample) -> int {
    |a: FrameSample, b: FrameSample| a.blocked as int
}

/// What the second of two samples says of being blocked.
pub open spec fn blocked_second() -> spec_fn(FrameSample, FrameSample) -> int {
    |a: FrameSample, b: FrameSample| b.blocked as int
}

/// How far apart two samples' lanes are, where both have one.
pub open spec fn lanes_apart() -> spec_fn(FrameSample, FrameSample) -> int {
    |a: FrameSample, b: FrameSample|
        if a.lane is Some && b.lane is Some {
            magnitude(a.lane->0 - b.lane->0)
        } else {
            0
        }
}

/// One for each pair of samples that both have a lane.
pub open spec fn lane_pairs() -> spec_fn(FrameSample, FrameSample) -> int {
    |a: FrameSample, b: FrameSample|
        if a.lane is Some && b.lane is Some {
            1int
        } else {
            0
        }
}

/// Whether what `f` makes of the samples fits in the range, signs aside, frame by
/// frame and gate by gate.
pub open spec fn samples_fit(
    f: spec_fn(FrameSample, FrameSample) -> int,
    observed: Observed,
    rounds: Seq<Observed>,
    course: ScoredCourse,
    filter: SampleFilter,
    n: nat,
) -> bool {
    summed(frame_sizes(f, observed, rounds, course, filter), n) <= QUANTITY_MAX
}

/// What `f` makes of each frame, signs aside.
pub open spec fn frame_sizes(
    f: spec_fn(FrameSample, FrameSample) -> int,
    observed: Observed,
    rounds: Seq<Observed>,
    course: ScoredCourse,
    filter: SampleFilter,
) -> spec_fn(int) -> int {
    |i: int|
        summed(
            sizes(gate_values(f, observed.frames@[i], rounds, course, filter)),
            observed.results@.len(),
        )
}

/// What a field of the errors is, as the sum of `f` over the samples.
spec fn is_sum(
    field: int,
    f: spec_fn(FrameSample, FrameSample) -> int,
    observed: Observed,
    rounds: Seq<Observed>,
    course: ScoredCourse,
    filter: SampleFilter,
    n: nat,
) -> bool {
    &&& field == summed(frame_values(f, observed, rounds, course, filter), n)
    &&& magnitude(field) <= summed(frame_sizes(f, observed, rounds, course, filter), n)
}

spec fn is_partial_sum(
    field: int,
    start: int,
    f: spec_fn(FrameSample, FrameSample) -> int,
    frame: ObservedFrame,
    rounds: Seq<Observed>,
    course: ScoredCourse,
    filter: SampleFilter,
    n: nat,
) -> bool {
    field == start + summed(gate_values(f, frame, rounds, course, filter), n)
}

spec fn has_room(
    start: int,
    f: spec_fn(FrameSample, FrameSample) -> int,
    frame: ObservedFrame,
    rounds: Seq<Observed>,
    course: ScoredCourse,
    filter: SampleFilter,
    n: nat,
) -> bool {
    magnitude(start) + summed(sizes(gate_values(f, frame, rounds, course, filter)), n)
        <= QUANTITY_MAX
}

proof fn lemma_room(
    start: int,
    f: spec_fn(FrameSample, FrameSample) -> int,
    frame: ObservedFrame,
    rounds: Seq<Observed>,
    course: ScoredCourse,
    filter: SampleFilter,
    n: nat,
)
    requires
        n > 0,
        has_room(start, f, frame, rounds, course, filter, n),
    ensures
        has_room(start, f, frame, rounds, course, filter, (n - 1) as nat),
        ({
            let v = gate_values(f, frame, rounds, course, filter);
            &&& QUANTITY_MIN <= start + summed(v, (n - 1) as nat) + v(n - 1) <= QUANTITY_MAX
            &&& magnitude(v(n - 1)) <= QUANTITY_MAX
        }),
{
    let v = gate_values(f, frame, rounds, course, filter);
    lemma_sizes_grow(v, (n - 1) as nat, n);
    lemma_sizes_grow(v, n, n);
    lemma_size_within(v, n - 1, n);
}

proof fn lemma_other_gate_sums(
    e: FrameErrors,
    frame: ObservedFrame,
    rounds: Seq<Observed>,
    course: ScoredCourse,
    filter: SampleFilter,
    n: nat,
)
    requires
        has_room(e.rushed_agreement as int, rushed_alike(), frame, rounds, course, filter, n),
        has_room(0, rushed_apart(), frame, rounds, course, filter, n),
        has_room(e.blocked_sim as int, blocked_first(), frame, rounds, course, filter, n),
        has_room(e.blocked_observed as int, blocked_second(), frame, rounds, course, filter, n),
        has_room(e.lane_abs as int, lanes_apart(), frame, rounds, course, filter, n),
        has_room(e.lane_count as int, lane_pairs(), frame, rounds, course, filter, n),
    ensures
        ({
            let after = frame_added(e, frame, rounds, course, filter, n);
            &&& is_partial_sum(
                after.rushed_agreement as int,
                e.rushed_agreement as int,
                rushed_alike(),
                frame,
                rounds,
                course,
                filter,
                n,
            )
            &&& is_partial_sum(
                after.blocked_sim as int,
                e.blocked_sim as int,
                blocked_first(),
                frame,
                rounds,
                course,
                filter,
                n,
            )
            &&& is_partial_sum(
                after.blocked_observed as int,
                e.blocked_observed as int,
                blocked_second(),
                frame,
                rounds,
                course,
                filter,
                n,
            )
            &&& is_partial_sum(
                after.lane_abs as int,
                e.lane_abs as int,
                lanes_apart(),
                frame,
                rounds,
                course,
                filter,
                n,
            )
            &&& is_partial_sum(
                after.lane_count as int,
                e.lane_count as int,
                lane_pairs(),
                frame,
                rounds,
                course,
                filter,
                n,
            )
        }),
    decreases n,
{
    if n > 0 {
        lemma_room(e.rushed_agreement as int, rushed_alike(), frame, rounds, course, filter, n);
        lemma_room(0, rushed_apart(), frame, rounds, course, filter, n);
        lemma_room(e.blocked_sim as int, blocked_first(), frame, rounds, course, filter, n);
        lemma_room(e.blocked_observed as int, blocked_second(), frame, rounds, course, filter, n);
        lemma_room(e.lane_abs as int, lanes_apart(), frame, rounds, course, filter, n);
        lemma_room(e.lane_count as int, lane_pairs(), frame, rounds, course, filter, n);
        lemma_other_gate_sums(e, frame, rounds, course, filter, (n - 1) as nat);
    }
}

proof fn lemma_frame_room(
    start: int,
    f: spec_fn(FrameSample, FrameSample) -> int,
    observed: Observed,
    rounds: Seq<Observed>,
    course: ScoredCourse,
    filter: SampleFilter,
    n: nat,
)
    requires
        0 < n <= observed.frames@.len(),
        samples_fit(f, observed, rounds, course, filter, n),
        is_sum(start, f, observed, rounds, course, filter, (n - 1) as nat),
    ensures
        has_room(
            start,
            f,
            observed.frames@[n - 1],
            rounds,
            course,
            filter,
            observed.results@.len(),
        ),
        ({
            let v = gate_values(f, observed.frames@[n - 1], rounds, course, filter);
            is_sum(
                start + summed(v, observed.results@.len()),
                f,
                observed,
                rounds,
                course,
                filter,
                n,
            )
        }),
{
    let v = gate_values(f, observed.frames@[n - 1], rounds, course, filter);
    lemma_sizes_grow(v, observed.results@.len(), observed.results@.len());
}

proof fn lemma_frame_fits(
    f: spec_fn(FrameSample, FrameSample) -> int,
    observed: Observed,
    rounds: Seq<Observed>,
    course: ScoredCourse,
    filter: SampleFilter,
    n: nat,
)
    requires
        0 < n,
        samples_fit(f, observed, rounds, course, filter, n),
    ensures
        has_room(
            0,
            f,
            observed.frames@[n - 1],
            rounds,
            course,
            filter,
            observed.results@.len(),
        ),
{
    lemma_frame_sizes_natural(f, observed, rounds, course, filter, (n - 1) as nat);
}

proof fn lemma_frame_sizes_natural(
    f: spec_fn(FrameSample, FrameSample) -> int,
    observed: Observed,
    rounds: Seq<Observed>,
    course: ScoredCourse,
    filter: SampleFilter,
    n: nat,
)
    ensures
        summed(frame_sizes(f, observed, rounds, course, filter), n) >= 0,
    decreases n,
{
    if n > 0 {
        lemma_frame_sizes_natural(f, observed, rounds, course, filter, (n - 1) as nat);
        lemma_sizes_grow(
            gate_values(f, observed.frames@[n - 1], rounds, course, filter),
            0,
            observed.results@.len(),
        );
    }
}

proof fn lemma_fit_before(
    f: spec_fn(FrameSample, FrameSample) -> int,
    observed: Observed,
    rounds: Seq<Observed>,
    course: ScoredCourse,
    filter: SampleFilter,
    n: nat,
)
    requires
        0 < n,
        samples_fit(f, observed, rounds, course, filter, n),
    ensures
        samples_fit(f, observed, rounds, course, filter, (n - 1) as nat),
{
    let v = gate_values(f, observed.frames@[n - 1], rounds, course, filter);
    lemma_sizes_grow(v, 0, observed.results@.len());
}

proof fn lemma_other_frame_sums(
    observed: Observed,
    rounds: Seq<Observed>,
    course: ScoredCourse,
    filter: SampleFilter,
    n: nat,
)
    requires
        n <= observed.frames@.len(),
        samples_fit(rushed_alike(), observed, rounds, course, filter, n),
        samples_fit(rushed_apart(), observed, rounds, course, filter, n),
        samples_fit(blocked_first(), observed, rounds, course, filter, n),
        samples_fit(blocked_second(), observed, rounds, course, filter, n),
        samples_fit(lanes_apart(), observed, rounds, course, filter, n),
        samples_fit(lane_pairs(), observed, rounds, course, filter, n),
    ensures
        ({
            let e = frames_added(no_errors(), observed, rounds, course, filter, n);
            &&& is_sum(
                e.rushed_agreement as int,
                rushed_alike(),
                observed,
                rounds,
                course,
                filter,
                n,
            )
            &&& is_sum(e.blocked_sim as int, blocked_first(), observed, rounds, course, filter, n)
            &&& is_sum(
                e.blocked_observed as int,
                blocked_second(),
                observed,
                rounds,
                course,
                filter,
                n,
            )
            &&& is_sum(e.lane_abs as int, lanes_apart(), observed, rounds, course, filter, n)
            &&& is_sum(e.lane_count as int, lane_pairs(), observed, rounds, course, filter, n)
        }),
    decreases n,
{
    if n > 0 {
        let m = (n - 1) as nat;
        lemma_fit_before(rushed_alike(), observed, rounds, course, filter, n);
        lemma_fit_before(rushed_apart(), observed, rounds, course, filter, n);
        lemma_fit_before(blocked_first(), observed, rounds, course, filter, n);
        lemma_fit_before(blocked_second(), observed, rounds, course, filter, n);
        lemma_fit_before(lanes_apart(), observed, rounds, course, filter, n);
        lemma_fit_before(lane_pairs(), observed, rounds, course, filter, n);
        lemma_other_frame_sums(observed, rounds, course, filter, m);
        lemma_frame_fits(rushed_apart(), observed, rounds, course, filter, n);
        let e = frames_added(no_errors(), observed, rounds, course, filter, m);
        lemma_frame_room(
            e.rushed_agreement as int,
            rushed_alike(),
            observed,
            rounds,
            course,
            filter,
            n,
        );
        lemma_frame_room(
            e.blocked_sim as int,
            blocked_first(),
            observed,
            rounds,
            course,
            filter,
            n,
        );
        lemma_frame_room(
            e.blocked_observed as int,
            blocked_second(),
            observed,
            rounds,
            course,
            filter,
            n,
        );
        lemma_frame_room(e.lane_abs as int, lanes_apart(), observed, rounds, course, filter, n);
        lemma_frame_room(e.lane_count as int, lane_pairs(), observed, rounds, course, filter, n);
        lemma_other_gate_sums(
            e,
            observed.frames@[n - 1],
            rounds,
            course,
            filter,
            observed.results@.len(),
        );
    }
}

/// The rushed agreement, the blocked share and the lane error are over every
/// sample too, the lane error over those in which both sides have a lane; the
/// blocked share is the simulated less the recorded one.
pub proof fn the_other_frame_errors_are_over_every_sample(
    observed: Observed,
    rounds: Seq<Observed>,
    skills: Seq<Vec<i64>>,
    course: ScoredCourse,
    filter: SampleFilter,
    n: nat,
)
    requires
        filter.gate is None,
        filter.part is None,
        n == observed.frames@.len(),
        samples_fit(rushed_alike(), observed, rounds, course, filter, n),
        samples_fit(rushed_apart(), observed, rounds, course, filter, n),
        samples_fit(blocked_first(), observed, rounds, course, filter, n),
        samples_fit(blocked_second(), observed, rounds, course, filter, n),
        samples_fit(lanes_apart(), observed, rounds, course, filter, n),
        samples_fit(lane_pairs(), observed, rounds, course, filter, n),
        summed(frame_values(distances_apart(), observed, rounds, course, filter), n)
            <= QUANTITY_MAX,
        summed(frame_values(speeds_apart(), observed, rounds, course, filter), n) <= QUANTITY_MAX,
        summed(frame_values(hps_apart(), observed, rounds, course, filter), n) <= QUANTITY_MAX,
        summed(frame_values(each_pair(), observed, rounds, course, filter), n) <= QUANTITY_MAX,
    ensures
        ({
            let scores = scores_of(observed, rounds, skills, course);
            let pairs = summed(frame_values(each_pair(), observed, rounds, course, filter), n);
            let per = if pairs > 0 {
                pairs
            } else {
                1
            };
            let laned = summed(frame_values(lane_pairs(), observed, rounds, course, filter), n);
            let blocked = summed(frame_values(blocked_first(), observed, rounds, course, filter), n)
                - summed(frame_values(blocked_second(), observed, rounds, course, filter), n);
            &&& is_nearest(
                scores.rushed_agreement as int,
                summed(frame_values(rushed_alike(), observed, rounds, course, filter), n),
                per,
            )
            &&& QUANTITY_MIN <= blocked <= QUANTITY_MAX ==> scores.blocked_share_diff is Some
                && is_nearest(scores.blocked_share_diff->0 as int, blocked, per)
            &&& laned <= 0 ==> scores.lane_mae is None
            &&& laned > 0 ==> scores.lane_mae is Some && is_nearest(
                scores.lane_mae->0 as int,
                summed(frame_values(lanes_apart(), observed, rounds, course, filter), n),
                laned,
            )
        }),
{
    lemma_frame_sums(observed, rounds, course, filter, n);
    lemma_other_frame_sums(observed, rounds, course, filter, n);
    let e = race_errors(observed, rounds, course, filter);
    assert(filter == crate::accuracy::score::every_sample());
    let per = if e.count > 0 {
        e.count as int
    } else {
        1
    };
    let blocked = e.blocked_sim - e.blocked_observed;
    rounding_is_to_the_nearest(e.rushed_agreement as int, per, 0);
    rounding_is_to_the_nearest(blocked, per, 0);
    lemma_quotient_is_no_larger(e.rushed_agreement as int, per);
    lemma_quotient_is_no_larger(blocked, per);
    if e.lane_count > 0 {
        rounding_is_to_the_nearest(e.lane_abs as int, e.lane_count as int, 0);
        lemma_share(
            e.lane_abs as int,
            e.lane_count as int,
            rounded_quotient(e.lane_abs as int, e.lane_count as int),
        );
    }
}

/// Each round's rank correlation with the recording.
pub open spec fn correlations(observed: Observed, rounds: Seq<Observed>) -> spec_fn(int) -> int {
    |r: int|
        rank_correlation(
            Seq::new(
                rounds[r].results@.len(),
                |g: int| rounds[r].results@[g].finish_order,
            ),
            Seq::new(
                observed.results@.len(),
                |g: int| observed.results@[g].finish_order,
            ),
        )->0
}

/// Whether a round has a rank correlation with the recording, and one with a
/// bound.
pub open spec fn is_correlated(observed: Observed, round: Observed) -> bool {
    let rho = rank_correlation(
        Seq::new(round.results@.len(), |g: int| round.results@[g].finish_order),
        Seq::new(observed.results@.len(), |g: int| observed.results@[g].finish_order),
    );
    rho is Some && QUANTITY_MIN < rho->0
}

proof fn lemma_correlations(observed: Observed, rounds: Seq<Observed>, n: nat)
    requires
        n <= rounds.len(),
        forall|r: int| 0 <= r < n ==> is_correlated(observed, #[trigger] rounds[r]),
        summed(sizes(correlations(observed, rounds)), n) <= QUANTITY_MAX,
    ensures
        correlation_sum(observed, rounds, n) == Some(summed(correlations(observed, rounds), n)),
    decreases n,
{
    if n > 0 {
        let rho = correlations(observed, rounds);
        lemma_sizes_grow(rho, (n - 1) as nat, n);
        lemma_sizes_grow(rho, (n - 1) as nat, (n - 1) as nat);
        lemma_sizes_grow(rho, n, n);
        lemma_correlations(observed, rounds, (n - 1) as nat);
        assert(is_correlated(observed, rounds[n - 1]));
        assert(finish_orders(rounds[n - 1].results@) =~= Seq::new(
            rounds[n - 1].results@.len(),
            |g: int| rounds[n - 1].results@[g].finish_order,
        ));
        assert(finish_orders(observed.results@) =~= Seq::new(
            observed.results@.len(),
            |g: int| observed.results@[g].finish_order,
        ));
    }
}

/// The order score is the mean rank correlation over every round, to the nearest
/// unit.
pub proof fn the_order_score_is_over_every_round(
    observed: Observed,
    rounds: Seq<Observed>,
    skills: Seq<Vec<i64>>,
    course: ScoredCourse,
)
    requires
        rounds.len() > 0,
        forall|r: int| 0 <= r < rounds.len() ==> is_correlated(observed, #[trigger] rounds[r]),
        summed(sizes(correlations(observed, rounds)), rounds.len()) <= QUANTITY_MAX,
    ensures
        scores_of(observed, rounds, skills, course).order_spearman matches Some(rho)
            && is_nearest(
            rho as int,
            summed(correlations(observed, rounds), rounds.len()),
            rounds.len() as int,
        ),
{
    lemma_correlations(observed, rounds, rounds.len());
    lemma_sizes_grow(correlations(observed, rounds), 0, rounds.len());
    let sum = summed(correlations(observed, rounds), rounds.len());
    let n = rounds.len() as int;
    rounding_is_to_the_nearest(sum, n, 0);
    lemma_share(sum, n, rounded_quotient(sum, n));
}

/// Without a round nothing that is a mean over rounds is scored, but for errors
/// that nothing would go into: those are 0.
pub proof fn without_a_round_there_is_no_mean(
    observed: Observed,
    skills: Seq<Vec<i64>>,
    course: ScoredCourse,
)
    ensures
        ({
            let scores = scores_of(observed, Seq::empty(), skills, course);
            let spurt = exists|g: int|
                0 <= g < observed.results@.len() && (
                #[trigger] observed.results@[g]).last_spurt_start_distance > 0;
            let skill = exists|g: int|
                0 <= g < observed.results@.len() && (#[trigger] skills[g])@.len() > 0;
            &&& scores.finish_time_mae is None
            &&& scores.finish_time_bias is None
            &&& scores.winner_hit_rate is None
            &&& scores.order_spearman is None
            &&& scores.spurt_start_mae == if spurt {
                None
            } else {
                Some(0i64)
            }
            &&& scores.skill_activation_error == if skill {
                None
            } else {
                Some(0i64)
            }
        }),
{
}

} // verus!
