use honse_sim::accuracy::errors::{
    check_against_baseline, observed_sample, spearman, FrameErrors, FrameSample, RacePart,
    Regression, Scores,
};
use honse_sim::accuracy::pins::{
    documented_drain, observed_downhill_regions, pin_outcomes, DrainCourse, Slope,
};
use honse_sim::accuracy::recording::{
    observed_activations, observed_distance_at, observed_mode_counts, observed_rushed_regions,
    observed_rushed_spells, rushed_spells, simulated_mode_counts, Activation, ModeCounts, Observed,
    ObservedEvent, ObservedFrame, ObservedResult,
};
use honse_sim::accuracy::score::{
    apply_spell_scores, frame_errors, mean_sim_sample, score, sim_sample_at, SampleFilter,
    ScoredCourse,
};
use honse_sim::accuracy::spells::{ladder_rung, RungCounts, SpellTally};
use honse_sim::language::Region;

const TICK_SECONDS: f64 = 1.0 / 15.0;

fn q(x: f64) -> i64 {
    (x * 1e9).round() as i64
}

fn ladder(tally: &SpellTally) -> [i64; 4] {
    [0, 1, 2, 3].map(|rung| tally.ladder.get(rung))
}

/// A recording frame with nothing in it but the rushed column.
fn rushed_frame(time: f64, rushed: Vec<i64>) -> ObservedFrame {
    let gates = rushed.len();
    ObservedFrame {
        time: q(time),
        distance: vec![0; gates],
        speed: vec![0; gates],
        hp: vec![0; gates],
        rushed,
        blocker: vec![-1; gates],
        lane: vec![0; gates],
    }
}

/// A recording of `modes[gate][frame]` rushed modes, sampled every `dt`.
fn recording(dt: f64, modes: &[Vec<i64>]) -> Observed {
    let frames = (0..modes[0].len())
        .map(|index| {
            rushed_frame(
                index as f64 * dt,
                modes.iter().map(|gate| gate[index]).collect(),
            )
        })
        .collect();
    Observed {
        frames,
        results: (0..modes.len())
            .map(|gate| ObservedResult {
                finish_order: gate as i32,
                finish_time_raw: q(60.0),
                last_spurt_start_distance: 0,
            })
            .collect(),
        events: Vec::new(),
    }
}

#[test]
fn ladder_rung_takes_the_shortest_rung_the_recording_allows() {
    // A single rushed sample bounds the spell from below at 0 s, and the
    // shortest spell is one 3 s interval.
    assert_eq!(ladder_rung(q(0.0)), 0);
    // Three samples 1.066 s apart span 2.13 s: still a 3 s spell.
    assert_eq!(ladder_rung(q(2.132)), 0);
    // A span at a rung stays on it, at tick resolution too.
    assert_eq!(ladder_rung(q(3.0)), 0);
    assert_eq!(ladder_rung(q(2.9333)), 0);
    // Past a rung, the rung is ruled out.
    assert_eq!(ladder_rung(q(3.2)), 1);
    assert_eq!(ladder_rung(q(6.4)), 2);
    assert_eq!(ladder_rung(q(9.6)), 3);
    // Longer spans clamp to the top rung.
    assert_eq!(ladder_rung(q(12.0)), 3);
    assert_eq!(ladder_rung(q(30.0)), 3);
}

#[test]
fn recorded_spells_are_bracketed_by_the_sampling_gaps() {
    // Gate 0 is rushed in three consecutive frames, gate 1 in one frame only.
    let dt = 1.066;
    let observed = recording(
        dt,
        &[vec![0, 0, 3, 3, 3, 0, 0, 0], vec![0, 0, 0, 0, 0, 0, 4, 0]],
    );
    let tally = observed_rushed_spells(&observed);
    assert_eq!(tally.count, 2);
    // Spans are 2 * dt and 0; both bracket to a 3 s spell.
    assert_eq!(tally.lower_sum, q(2.0 * dt), "{tally:?}");
    // Upper bounds add the gap before the first and after the last sample.
    assert_eq!(tally.upper_sum, q(2.0 * dt + 4.0 * dt), "{tally:?}");
    assert_eq!(ladder(&tally), [2, 0, 0, 0]);
    assert_eq!(tally.mean_ladder(), Some(q(3.0)));
    assert_eq!(tally.mean_lower(), Some(q(dt)));
    assert_eq!(tally.mean_upper(), Some(q(3.0 * dt)));
    assert_eq!(tally.share(0), q(1.0));
    assert_eq!(tally.share(1), 0);
}

#[test]
fn a_spell_running_into_the_last_sample_still_counts() {
    let observed = recording(1.066, &[vec![0, 0, 1, 1]]);
    let tally = observed_rushed_spells(&observed);
    assert_eq!(tally.count, 1);
    assert_eq!(ladder(&tally), [1, 0, 0, 0]);
}

#[test]
fn tick_resolution_spells_land_on_their_ladder_rung() {
    for (ticks, rung) in [(45usize, 0usize), (90, 1), (135, 2), (181, 3)] {
        let times: Vec<i64> = (0..400).map(|i| q(f64::from(i) * TICK_SECONDS)).collect();
        let mut rushed = vec![false; 400];
        for flag in rushed.iter_mut().skip(10).take(ticks) {
            *flag = true;
        }
        let mut tally = SpellTally::new();
        tally.add_series(&times, &rushed);
        assert_eq!(tally.count, 1);
        assert_eq!(tally.ladder.get(rung), 1, "{ticks} ticks: {tally:?}");
    }
}

#[test]
fn the_duration_metric_sees_what_rushed_agreement_cannot() {
    let mut errors = FrameErrors::new();
    // Frames of a 3 s spell against frames of a 12 s one.
    let recorded_frames = 45;
    let simulated_frames = 181;
    let flag = |on: bool| FrameSample {
        rushed: if on { q(1.0) } else { 0 },
        ..FrameSample::default()
    };
    for frame in 0..10_000 {
        errors.add_sample(
            flag(frame < simulated_frames),
            flag(frame < recorded_frames),
        );
    }
    let agreement = errors.mean(errors.rushed_agreement);
    assert!(agreement > q(0.98), "agreement {agreement}");
    assert_eq!(agreement, q(0.9864));

    // The duration metric puts the same pair three rungs apart.
    let times: Vec<i64> = (0..400).map(|i| q(f64::from(i) * TICK_SECONDS)).collect();
    let mut recorded = SpellTally::new();
    let mut simulated = SpellTally::new();
    let mut flags = vec![false; 400];
    flags[..45].fill(true);
    recorded.add_series(&times, &flags);
    let mut flags = vec![false; 400];
    flags[..181].fill(true);
    simulated.add_series(&times, &flags);
    assert_eq!(ladder(&recorded), [1, 0, 0, 0]);
    assert_eq!(ladder(&simulated), [0, 0, 0, 1]);
    assert_eq!(
        simulated.mean_ladder().expect("a spell") - recorded.mean_ladder().expect("a spell"),
        q(9.0)
    );
}

#[test]
fn mode_counts_keep_the_temptation_enum() {
    let observed = recording(1.066, &[vec![0, 3, 3, 1], vec![0, 0, 4, 2]]);
    let expected = ModeCounts {
        sashi: 1,
        senko: 1,
        nige: 2,
        boost: 1,
    };
    assert_eq!(observed_mode_counts(&observed), expected);
    // Over two rounds of the same, twice that.
    let rounds = vec![observed, recording(1.066, &[vec![1, 2, 3, 3, 4]])];
    assert_eq!(
        simulated_mode_counts(&rounds),
        ModeCounts {
            sashi: 2,
            senko: 2,
            nige: 4,
            boost: 2,
        }
    );
}

#[test]
fn blocked_share_difference_is_signed_and_pooled() {
    let mut errors = FrameErrors::new();
    let blocked = |value: f64| FrameSample {
        blocked: q(value),
        ..FrameSample::default()
    };
    // Four samples: the simulation blocks in half of them, the recording in one.
    errors.add_sample(blocked(1.0), blocked(1.0));
    errors.add_sample(blocked(1.0), blocked(0.0));
    errors.add_sample(blocked(0.0), blocked(0.0));
    errors.add_sample(blocked(0.0), blocked(0.0));
    assert_eq!(errors.blocked_share_diff(), q(0.25));
    assert_eq!(errors.lane_mae(), None);
}

#[test]
fn spells_are_the_longest_stretches_of_rushed_samples() {
    let times: Vec<i64> = (0..8).map(|i| q(f64::from(i))).collect();
    let mut tally = SpellTally::new();
    tally.add_series(
        &times,
        &vec![true, true, false, true, false, false, true, true],
    );
    assert_eq!(tally.count, 3);
    assert_eq!(tally.lower_sum, q(2.0));
    // Gaps: none before and 1 s after, 1 s and 1 s, 1 s before and none after.
    assert_eq!(tally.upper_sum, q(6.0));
    // A spell without a time is not counted.
    let mut short = SpellTally::new();
    short.add_series(&vec![q(0.0)], &vec![false, true]);
    assert_eq!(short, SpellTally::new());
    assert_eq!(short.mean_ladder(), None);
}

#[test]
fn merged_tallies_hold_both_sides_spells() {
    let times: Vec<i64> = (0..5).map(|i| q(f64::from(i) * 2.0)).collect();
    let mut one = SpellTally::new();
    one.add_series(&times, &vec![false, true, true, true, false]);
    let mut two = SpellTally::new();
    two.add_series(&times, &vec![false, true, false, false, false]);
    let mut both = SpellTally::new();
    both.add_series(&times, &vec![false, true, true, true, false]);
    both.add_series(&times, &vec![false, true, false, false, false]);
    one.merge(&two);
    assert_eq!(one, both);
    assert_eq!(ladder(&one), [1, 1, 0, 0]);
    assert_eq!(one.ladder_sum, q(9.0));
}

/// A race of one runner: distances, one second apart.
fn one_runner(distances: &[f64], rushed: &[i64]) -> Observed {
    Observed {
        frames: distances
            .iter()
            .zip(rushed)
            .enumerate()
            .map(|(i, (d, r))| ObservedFrame {
                time: q(i as f64),
                distance: vec![q(*d)],
                speed: vec![q(2000.0)],
                hp: vec![q(100.0)],
                rushed: vec![*r],
                blocker: vec![-1],
                lane: vec![q(5000.0)],
            })
            .collect(),
        results: vec![ObservedResult {
            finish_order: 0,
            finish_time_raw: q(60.0),
            last_spurt_start_distance: q(700.0),
        }],
        events: vec![],
    }
}

#[test]
fn distances_are_interpolated_between_frames() {
    let race = one_runner(&[0.0, 10.0, 30.0], &[0, 0, 0]);
    assert_eq!(observed_distance_at(&race, 0, q(-1.0)), 0);
    assert_eq!(observed_distance_at(&race, 0, q(0.5)), q(5.0));
    assert_eq!(observed_distance_at(&race, 0, q(1.0)), q(10.0));
    assert_eq!(observed_distance_at(&race, 0, q(1.25)), q(15.0));
    assert_eq!(observed_distance_at(&race, 0, q(9.0)), q(30.0));
    let empty = one_runner(&[], &[]);
    assert_eq!(observed_distance_at(&empty, 0, q(1.0)), 0);
}

#[test]
fn rushed_regions_run_to_where_the_spell_is_seen_over() {
    let race = one_runner(&[0.0, 10.0, 20.0, 30.0, 40.0], &[0, 1, 1, 0, 2]);
    let regions = observed_rushed_regions(&race);
    assert_eq!(
        regions,
        vec![vec![
            Region::new(q(10.0), q(30.0)),
            // Still going in the last frame: at least a metre.
            Region::new(q(40.0), q(41.0)),
        ]]
    );
}

fn skill_event(time: f64, gate: i64, skill: i64) -> ObservedEvent {
    ObservedEvent {
        frame_time: q(time),
        kind: 3,
        params: vec![gate, skill],
    }
}

#[test]
fn a_skill_counts_where_it_first_fires() {
    let mut race = one_runner(&[0.0, 10.0, 20.0], &[0, 0, 0]);
    race.events = vec![
        skill_event(0.5, 0, 200331),
        ObservedEvent {
            frame_time: q(0.7),
            kind: 1,
            params: vec![0, 7],
        },
        skill_event(1.5, 0, 200331),
        skill_event(1.5, 0, 110101),
        ObservedEvent {
            frame_time: q(1.6),
            kind: 3,
            params: vec![0],
        },
    ];
    assert_eq!(
        observed_activations(&race),
        vec![vec![
            Activation {
                skill: 200331,
                distance: q(5.0)
            },
            Activation {
                skill: 110101,
                distance: q(15.0)
            },
        ]]
    );
}

#[test]
fn samples_come_in_the_engines_units() {
    let race = one_runner(&[0.0, 10.0], &[0, 3]);
    assert_eq!(
        observed_sample(&race.frames[1], 0, q(30.0)),
        FrameSample {
            distance: q(10.0),
            speed: q(20.0),
            hp: q(100.0),
            rushed: q(1.0),
            blocked: 0,
            lane: Some(q(15.0)),
        }
    );
    // The nearest frame within a tick, the earlier of two as near.
    assert_eq!(
        sim_sample_at(&race, 0, q(1.06), q(30.0)).map(|s| s.distance),
        Some(q(10.0))
    );
    // A 15th of a second away and no more.
    assert!(sim_sample_at(&race, 0, q(1.0) + 66_666_666, q(30.0)).is_some());
    assert_eq!(sim_sample_at(&race, 0, q(1.0) + 66_666_667, q(30.0)), None);
    assert_eq!(sim_sample_at(&race, 0, q(0.5), q(30.0)), None);
    assert_eq!(sim_sample_at(&race, 0, q(1.2), q(30.0)), None);
}

#[test]
fn the_mean_is_over_the_rounds_still_running() {
    let rounds = vec![
        one_runner(&[0.0, 10.0, 20.0], &[0, 0, 0]),
        one_runner(&[0.0, 14.0], &[0, 1]),
    ];
    let mean = mean_sim_sample(&rounds, 0, q(1.0), q(30.0)).expect("both run");
    assert_eq!(mean.distance, q(12.0));
    assert_eq!(mean.rushed, q(0.5));
    let mean = mean_sim_sample(&rounds, 0, q(2.0), q(30.0)).expect("one runs");
    assert_eq!(mean.distance, q(20.0));
    assert_eq!(mean_sim_sample(&rounds, 0, q(3.0), q(30.0)), None);
}

#[test]
fn a_race_is_early_to_a_sixth_and_late_from_two_thirds() {
    let course = q(2400.0);
    assert_eq!(RacePart::of(0, course), RacePart::Early);
    assert_eq!(RacePart::of(q(400.0) - 1, course), RacePart::Early);
    assert_eq!(RacePart::of(q(400.0), course), RacePart::Mid);
    assert_eq!(RacePart::of(q(1600.0) - 1, course), RacePart::Mid);
    assert_eq!(RacePart::of(q(1600.0), course), RacePart::Late);
    // A course of no length, or less: the quotients compare as they come out.
    assert_eq!(RacePart::of(q(1.0), 0), RacePart::Late);
    assert_eq!(RacePart::of(0, 0), RacePart::Late);
    assert_eq!(RacePart::of(q(-1.0), 0), RacePart::Early);
    assert_eq!(RacePart::of(q(100.0), -course), RacePart::Early);
    assert_eq!(RacePart::of(q(-400.0), -course), RacePart::Mid);
    assert_eq!(RacePart::of(q(-1600.0), -course), RacePart::Late);
}

#[test]
fn rank_correlation_of_orders() {
    assert_eq!(
        spearman(&vec![0, 1, 2, 3], &vec![0, 1, 2, 3]),
        Some(q(1.0))
    );
    assert_eq!(
        spearman(&vec![0, 1, 2, 3], &vec![3, 2, 1, 0]),
        Some(q(-1.0))
    );
    // One neighbouring pair exchanged: 1 - 6 * 2 / 60.
    assert_eq!(
        spearman(&vec![0, 1, 2, 3], &vec![1, 0, 2, 3]),
        Some(q(0.8))
    );
    assert_eq!(spearman(&vec![0], &vec![0]), None);
    assert_eq!(spearman(&vec![], &vec![0]), None);
    // A lone runner in another place: without bound.
    assert_eq!(spearman(&vec![0], &vec![3]), Some(i64::MIN));
}

const COURSE: ScoredCourse = ScoredCourse {
    distance: 2_400_000_000_000,
    width: 30_000_000_000,
};

#[test]
fn a_race_scores_perfectly_against_itself() {
    let race = || {
        let mut race = one_runner(&[0.0, 10.0, 20.0], &[0, 1, 0]);
        race.events = vec![skill_event(1.0, 0, 200331)];
        race
    };
    let scores = score(
        &race(),
        &vec![race(), race()],
        &vec![vec![200331, 110101]],
        &COURSE,
    );
    assert_eq!(scores.finish_time_mae, Some(0));
    assert_eq!(scores.finish_time_bias, Some(0));
    assert_eq!(scores.winner_hit_rate, Some(q(1.0)));
    assert_eq!(scores.order_spearman, None);
    assert_eq!(scores.spurt_start_mae, Some(0));
    assert_eq!(scores.skill_activation_error, Some(0));
    assert_eq!(scores.trajectory_mae, 0);
    assert_eq!(scores.rushed_agreement, q(1.0));
    assert_eq!(scores.lane_mae, Some(0));
    assert_eq!(scores.blocked_share_diff, Some(0));
    assert_eq!(check_against_baseline(&Some(scores), &scores), vec![]);
}

#[test]
fn without_a_round_only_what_needs_none_is_scored() {
    let mut race = one_runner(&[0.0, 10.0], &[0, 0]);
    let scores = score(&race, &vec![], &vec![vec![200331]], &COURSE);
    assert_eq!(scores.finish_time_mae, None);
    assert_eq!(scores.finish_time_bias, None);
    assert_eq!(scores.winner_hit_rate, None);
    assert_eq!(scores.order_spearman, None);
    assert_eq!(scores.spurt_start_mae, None, "a spurt is recorded");
    assert_eq!(scores.skill_activation_error, None, "a skill is held");
    assert_eq!(scores.trajectory_mae, 0);
    assert_eq!(scores.rushed_agreement, 0);
    assert_eq!(scores.lane_mae, None);
    assert_eq!(scores.blocked_share_diff, Some(0));
    // What is missing is no regression.
    assert_eq!(check_against_baseline(&Some(some_scores()), &scores), vec![]);
    assert_eq!(check_against_baseline(&Some(scores), &some_scores()), vec![]);
    // A sum that nothing goes into is 0.
    race.results[0].last_spurt_start_distance = 0;
    let scores = score(&race, &vec![], &vec![vec![]], &COURSE);
    assert_eq!(scores.finish_time_mae, None);
    assert_eq!(scores.spurt_start_mae, Some(0));
    assert_eq!(scores.skill_activation_error, Some(0));
}

#[test]
fn without_a_runner_the_rounds_are_still_counted() {
    let mut race = one_runner(&[0.0, 10.0], &[0, 0]);
    race.results = vec![];
    let mut round = one_runner(&[0.0, 10.0], &[0, 0]);
    round.results = vec![];
    let scores = score(&race, &vec![round], &vec![], &COURSE);
    assert_eq!(scores.finish_time_mae, None);
    assert_eq!(scores.finish_time_bias, None);
    assert_eq!(scores.winner_hit_rate, Some(q(1.0)), "nobody wins on either side");
    assert_eq!(scores.order_spearman, None);
    assert_eq!(scores.spurt_start_mae, Some(0));
    assert_eq!(scores.skill_activation_error, Some(0));
    assert_eq!(scores.trajectory_mae, 0);
    assert_eq!(scores.lane_mae, None);
}

#[test]
fn scores_measure_each_difference() {
    let mut observed = one_runner(&[0.0, 10.0], &[0, 0]);
    observed.events = vec![skill_event(1.0, 0, 200331)];
    let mut fast = one_runner(&[0.0, 12.0], &[0, 0]);
    fast.results[0].finish_time_raw = q(59.0);
    fast.results[0].last_spurt_start_distance = q(710.0);
    fast.frames[1].hp[0] = q(90.0);
    let mut slow = one_runner(&[0.0, 12.0], &[0, 1]);
    slow.results[0].finish_time_raw = q(60.5);
    slow.results[0].finish_order = 1;
    slow.events = vec![skill_event(1.0, 0, 200331)];
    slow.frames[1].blocker[0] = 2;
    let scores = score(
        &observed,
        &vec![fast, slow],
        &vec![vec![200331, 110101]],
        &COURSE,
    );
    // Mean finish 59.75 s.
    assert_eq!(scores.finish_time_mae, Some(q(0.25)));
    assert_eq!(scores.finish_time_bias, Some(q(-0.25)));
    assert_eq!(scores.winner_hit_rate, Some(q(0.5)));
    assert_eq!(scores.spurt_start_mae, Some(q(5.0)));
    // 200331 fires in half the rounds, 110101 in none and not in the recording.
    assert_eq!(scores.skill_activation_error, Some(q(0.25)));
    // Two samples: none off at 0 s, 2 m off at 1 s.
    assert_eq!(scores.trajectory_mae, q(1.0));
    assert_eq!(scores.hp_mae, q(2.5));
    assert_eq!(scores.hp_bias, q(-2.5));
    assert_eq!(scores.rushed_agreement, q(0.75));
    assert_eq!(scores.blocked_share_diff, Some(q(0.25)));
}

#[test]
fn errors_can_be_limited_to_a_part_or_a_runner() {
    let observed = one_runner(&[0.0, 1700.0], &[0, 0]);
    let rounds = vec![one_runner(&[3.0, 1700.0], &[0, 0])];
    let errors = |gate: Option<usize>, part: Option<RacePart>| {
        frame_errors(&observed, &rounds, &COURSE, &SampleFilter { gate, part })
    };
    assert_eq!(errors(None, None).count, 2);
    assert_eq!(errors(None, None).distance_abs, q(3.0));
    assert_eq!(errors(Some(0), Some(RacePart::Late)).count, 1);
    assert_eq!(errors(Some(0), Some(RacePart::Late)).distance_abs, 0);
    assert_eq!(errors(None, Some(RacePart::Mid)).count, 0);
    assert_eq!(errors(Some(1), None).count, 0);
}

fn some_scores() -> Scores {
    let race = one_runner(&[0.0, 10.0], &[0, 0]);
    let rounds = vec![one_runner(&[0.0, 10.0], &[0, 0])];
    score(&race, &rounds, &vec![vec![]], &COURSE)
}

#[test]
fn only_growth_past_the_slack_is_a_regression() {
    let before = some_scores();
    assert_eq!(
        check_against_baseline(&None, &before),
        vec![Regression::NoBaseline]
    );
    let at_the_slack = Scores {
        finish_time_mae: Some(q(0.02)),
        trajectory_mae: q(0.25),
        speed_mae: q(0.02),
        lane_mae: Some(q(0.05)),
        blocked_share_diff: Some(q(-0.01)),
        hp_mae: q(2.0),
        ..before
    };
    assert_eq!(check_against_baseline(&Some(before), &at_the_slack), vec![]);
    let worse = Scores {
        finish_time_mae: Some(q(0.02) + 1),
        trajectory_mae: q(0.25) + 1,
        speed_mae: q(0.02) + 1,
        lane_mae: Some(q(0.05) + 1),
        blocked_share_diff: Some(q(-0.01) - 1),
        hp_mae: q(2.0) + 1,
        ..before
    };
    assert_eq!(
        check_against_baseline(&Some(before), &worse),
        vec![
            Regression::FinishTime,
            Regression::Trajectory,
            Regression::Speed,
            Regression::Lane,
            Regression::BlockedShare,
            Regression::Hp,
        ]
    );
    // What either side lacks is not compared.
    let old = Scores {
        lane_mae: None,
        blocked_share_diff: None,
        ..before
    };
    assert_eq!(
        check_against_baseline(
            &Some(old),
            &Scores {
                lane_mae: Some(q(9.0)),
                blocked_share_diff: Some(q(1.0)),
                ..before
            }
        ),
        vec![]
    );
}

#[test]
fn spell_scores_are_per_round() {
    let observed = recording(1.0, &[vec![0, 1, 0, 0, 0, 0, 0, 0]]);
    let rounds = vec![
        recording(1.0, &[vec![0, 1, 1, 1, 1, 1, 0, 0]]),
        recording(1.0, &[vec![0, 0, 0, 0, 0, 0, 0, 0]]),
    ];
    let comparison = rushed_spells(&observed, &rounds);
    assert_eq!(comparison.rounds, 2);
    let mut scores = some_scores();
    apply_spell_scores(&mut scores, &comparison);
    assert_eq!(
        scores.rushed_spell_ladder_observed,
        RungCounts {
            three: q(1.0),
            six: 0,
            nine: 0,
            twelve: 0,
        }
    );
    assert_eq!(
        scores.rushed_spell_ladder_sim,
        RungCounts {
            three: 0,
            six: q(0.5),
            nine: 0,
            twelve: 0,
        }
    );
    assert_eq!(scores.rushed_spell_duration_diff, Some(q(3.0)));
    let mut pooled = comparison;
    pooled.merge(&comparison);
    assert_eq!(pooled.rounds, 4);
    assert_eq!(pooled.sim.count, 2);
    assert_eq!(pooled.duration_diff(), Some(q(3.0)));
}

#[test]
fn the_documented_drain() {
    // Base speed 20 at 2000 m: 20 * 12^2 / 144.
    assert_eq!(documented_drain(q(20.0), q(2000.0)), q(20.0));
    // Base speed 19.6 at 2400 m: 20 * (20 - 19.6 + 12)^2 / 144.
    assert_eq!(documented_drain(q(20.0), q(2400.0)), 21_355_555_556);
}

/// A runner over a descent from 100 m to 200 m, draining `lost[i]` from frame
/// `i` to the next, 20 m and a second apart.
fn descending(lost: &[f64]) -> Observed {
    let mut race = one_runner(&vec![0.0; lost.len() + 1], &vec![0; lost.len() + 1]);
    let mut hp = 1000.0;
    for i in 0..=lost.len() {
        race.frames[i].distance[0] = q(100.0 + 20.0 * i as f64);
        race.frames[i].hp[0] = q(hp);
        if i < lost.len() {
            hp -= lost[i];
        }
    }
    race
}

#[test]
fn downhill_mode_is_read_off_the_drain() {
    let course = DrainCourse {
        distance: q(2000.0),
        slopes: vec![Slope {
            start: q(100.0),
            length: q(100.0),
            slope: q(-1.0),
        }],
    };
    // 20 a second is documented: 8 shows the mode, 12 does not.
    let race = descending(&[20.0, 8.0, 8.0, 12.0]);
    assert_eq!(
        observed_downhill_regions(&race, &course, &vec![q(1.0)]),
        vec![vec![Region::new(q(120.0), q(160.0))]]
    );
    // Rushed samples are skipped, and off the descent the spell ends.
    let race = descending(&[8.0, 8.0, 8.0, 8.0, 8.0]);
    assert_eq!(
        observed_downhill_regions(&race, &course, &vec![q(1.0)]),
        vec![vec![Region::new(q(100.0), q(180.0))]]
    );
    let mut race = descending(&[8.0, 8.0]);
    race.frames[0].rushed[0] = 1;
    assert_eq!(
        observed_downhill_regions(&race, &course, &vec![q(1.0)]),
        vec![vec![Region::new(q(120.0), q(140.0))]]
    );
}

#[test]
fn a_pinned_runner_keeps_what_she_fired() {
    let mut race = one_runner(&[0.0, 10.0, 20.0], &[0, 1, 0]);
    race.events = vec![skill_event(1.0, 0, 200331)];
    let course = DrainCourse {
        distance: q(2000.0),
        slopes: vec![],
    };
    let pinned = pin_outcomes(
        &race,
        &course,
        &vec![q(1.0)],
        &vec![vec![110101, 200331]],
    );
    assert_eq!(pinned.len(), 1);
    assert_eq!(pinned[0].skills, vec![200331]);
    assert_eq!(
        pinned[0].forced_positions,
        vec![Activation {
            skill: 200331,
            distance: q(10.0)
        }]
    );
    assert_eq!(pinned[0].rushed, vec![Region::new(q(10.0), q(20.0))]);
    assert_eq!(pinned[0].downhill, vec![]);
    assert_eq!(pinned[0].last_spurt, Some(q(700.0)));
}
