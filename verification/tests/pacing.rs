use honse_sim::language::{RunnerId, Strategy};
use honse_sim::pacing::{select_pacer, PacerBranch, PACEMAKER_HOLD_CHECKS};
use honse_sim::rng::Rolls;
use honse_sim::runner::{Health, Runner, RunnerBody, RunnerScript, RunnerTally, StatBlock};

fn q(x: f64) -> i64 {
    (x * 1e9).round() as i64
}

fn test_runner(id: u32, strategy: Strategy) -> Runner {
    let stats = StatBlock {
        speed: q(1000.0),
        stamina: q(1000.0),
        power: q(1000.0),
        guts: q(1000.0),
        wit: q(800.0),
    };
    let health = Health {
        current: q(2000.0),
        max: q(2000.0),
    };
    Runner::new(
        RunnerBody::at_gate(RunnerId(id), strategy),
        RunnerScript::with_skills(vec![]),
        RunnerTally::fresh(strategy, stats, health),
        Rolls::new(vec![]),
        Rolls::new(vec![]),
        Rolls::new(vec![]),
    )
}

/// `select_pacer`'s pick, for the assertions that only care who it is.
fn picked(
    runners: &[Runner],
    pacer_override: Option<RunnerId>,
    opening_pacemaker: Option<RunnerId>,
) -> Option<RunnerId> {
    select_pacer(runners, pacer_override, opening_pacemaker).map(|c| c.runner_id)
}

fn runner(id: u32, strategy: Strategy, position: f64) -> Runner {
    let mut r = test_runner(id, strategy);
    r.body.position = q(position);
    r.body.gate = i64::from(id);
    r
}

/// A runner in a rushed spell: the override has written Front Runner over her
/// keep-strategy and left her style alone.
fn rushed(id: u32, strategy: Strategy, position: f64) -> Runner {
    let mut r = runner(id, strategy, position);
    r.body.is_rushed = true;
    r.tally.position_keep_strategy = Strategy::FrontRunner;
    r
}

#[test]
fn prefers_furthest_runaway_then_front_runner() {
    let runners = vec![
        runner(0, Strategy::FrontRunner, 300.0),
        runner(1, Strategy::Runaway, 250.0),
        runner(2, Strategy::Runaway, 280.0),
    ];
    // Runaway is preferred over Front Runner; furthest Runaway is id 2.
    assert_eq!(picked(&runners, None, None), Some(RunnerId(2)));
}

#[test]
fn falls_back_to_front_runner_when_no_runaway() {
    let runners = vec![
        runner(0, Strategy::FrontRunner, 200.0),
        runner(1, Strategy::FrontRunner, 260.0),
        runner(2, Strategy::PaceChaser, 300.0),
    ];
    assert_eq!(picked(&runners, None, None), Some(RunnerId(1)));
}

#[test]
fn fronted_field_ignores_the_front_less_fallback_and_the_override() {
    let runners = vec![
        runner(0, Strategy::PaceChaser, 400.0),
        runner(1, Strategy::FrontRunner, 260.0),
        runner(2, Strategy::LateSurger, 380.0),
    ];
    assert_eq!(picked(&runners, None, None), Some(RunnerId(1)));
    assert_eq!(picked(&runners, Some(RunnerId(0)), None), Some(RunnerId(1)));
    // Even a hold recorded by a round that started front-less loses to her.
    assert_eq!(picked(&runners, None, Some(RunnerId(0))), Some(RunnerId(1)));
}

#[test]
fn front_less_field_elects_first_place_of_the_most_forward_style() {
    let runners = vec![
        runner(0, Strategy::LateSurger, 300.0),
        runner(1, Strategy::PaceChaser, 180.0),
        runner(2, Strategy::PaceChaser, 220.0),
    ];
    // Pace Chaser outranks the Late Surger who is physically ahead.
    assert_eq!(picked(&runners, None, None), Some(RunnerId(2)));
    assert!(runners
        .iter()
        .all(|r| r.tally.position_keep_strategy == r.body.strategy));
}

#[test]
fn front_less_role_moves_to_the_new_leader_every_frame() {
    let mut runners = vec![
        runner(0, Strategy::PaceChaser, 220.0),
        runner(1, Strategy::PaceChaser, 180.0),
    ];
    // Past her hold: PACEMAKER_HOLD_CHECKS checks have run.
    runners[0].body.pos_keep_checks_run = PACEMAKER_HOLD_CHECKS;
    assert_eq!(picked(&runners, None, None), Some(RunnerId(0)));

    runners[1].body.position = q(260.0);
    assert_eq!(
        picked(&runners, Some(RunnerId(0)), Some(RunnerId(0))),
        Some(RunnerId(1)),
        "the previous holder must not keep the role once she is headed"
    );
}

#[test]
fn the_opening_pacemaker_keeps_the_role_for_her_first_checks() {
    let mut runners = vec![
        runner(0, Strategy::PaceChaser, 100.0),
        runner(1, Strategy::PaceChaser, 140.0),
    ];

    for checks in 0..PACEMAKER_HOLD_CHECKS {
        runners[0].body.pos_keep_checks_run = checks;
        assert_eq!(
            picked(&runners, Some(RunnerId(0)), Some(RunnerId(0))),
            Some(RunnerId(0)),
            "held after {checks} checks, though runner 1 leads"
        );
    }

    runners[0].body.pos_keep_checks_run = PACEMAKER_HOLD_CHECKS;
    assert_eq!(
        picked(&runners, Some(RunnerId(0)), Some(RunnerId(0))),
        Some(RunnerId(1)),
        "the hold is over: the role follows the leader of the style"
    );
}

#[test]
fn a_later_holder_does_not_inherit_the_opening_hold() {
    let mut runners = vec![
        runner(0, Strategy::PaceChaser, 100.0),
        runner(1, Strategy::PaceChaser, 140.0),
    ];
    runners[0].body.pos_keep_checks_run = PACEMAKER_HOLD_CHECKS;
    runners[1].body.pos_keep_checks_run = 1;

    // Runner 1 leads and takes the role...
    assert_eq!(
        picked(&runners, Some(RunnerId(0)), Some(RunnerId(0))),
        Some(RunnerId(1))
    );
    // ...and gives it straight back when runner 0 heads her again.
    runners[0].body.position = q(180.0);
    assert_eq!(
        picked(&runners, Some(RunnerId(1)), Some(RunnerId(0))),
        Some(RunnerId(0))
    );
}

#[test]
fn a_rushed_runner_is_not_elected_from_the_back_of_a_front_less_field() {
    let runners = vec![
        runner(0, Strategy::PaceChaser, 300.0),
        runner(1, Strategy::PaceChaser, 250.0),
        rushed(2, Strategy::PaceChaser, 100.0),
    ];
    let choice = select_pacer(&runners, None, None).expect("pacer");
    assert_eq!(choice.runner_id, RunnerId(0));
    assert_eq!(choice.branch, PacerBranch::FrontLessElection);
}

#[test]
fn a_rushed_runner_leading_a_front_less_field_is_not_elected_either() {
    let runners = vec![
        runner(0, Strategy::PaceChaser, 200.0),
        runner(1, Strategy::PaceChaser, 260.0),
        rushed(2, Strategy::EndCloser, 400.0),
    ];
    assert_eq!(picked(&runners, None, None), Some(RunnerId(1)));
}

#[test]
fn a_fronted_field_still_elects_a_rushed_convert_ahead_of_its_front_runner() {
    let runners = vec![
        runner(0, Strategy::FrontRunner, 200.0),
        rushed(1, Strategy::PaceChaser, 400.0),
        runner(2, Strategy::LateSurger, 300.0),
    ];
    let choice = select_pacer(&runners, None, None).expect("pacer");
    assert_eq!(choice.runner_id, RunnerId(1));
    assert_eq!(choice.branch, PacerBranch::ExactStrategy);
}

#[test]
fn every_pass_reports_itself() {
    let fronted = vec![
        runner(0, Strategy::FrontRunner, 200.0),
        runner(1, Strategy::PaceChaser, 300.0),
    ];
    assert_eq!(
        select_pacer(&fronted, None, None).map(|c| c.branch),
        Some(PacerBranch::ExactStrategy)
    );
    // A hold recorded by another round cannot reach a fronted field.
    assert_eq!(
        select_pacer(&fronted, None, Some(RunnerId(1))).map(|c| c.branch),
        Some(PacerBranch::ExactStrategy)
    );

    let mut front_less = vec![
        runner(0, Strategy::PaceChaser, 200.0),
        runner(1, Strategy::PaceChaser, 300.0),
    ];
    assert_eq!(
        select_pacer(&front_less, None, None).map(|c| c.branch),
        Some(PacerBranch::FrontLessElection)
    );
    assert_eq!(
        select_pacer(&front_less, None, Some(RunnerId(0))).map(|c| c.branch),
        Some(PacerBranch::OpeningHold)
    );
    front_less[0].body.pos_keep_checks_run = PACEMAKER_HOLD_CHECKS;
    assert_eq!(
        select_pacer(&front_less, None, Some(RunnerId(0))).map(|c| c.branch),
        Some(PacerBranch::FrontLessElection)
    );

    assert_eq!(
        select_pacer(&[], Some(RunnerId(7)), None).map(|c| c.branch),
        Some(PacerBranch::Override)
    );
}

#[test]
fn exact_position_tie_breaks_on_the_inner_gate() {
    let mut runners = vec![
        runner(0, Strategy::PaceChaser, 0.0),
        runner(1, Strategy::PaceChaser, 0.0),
        runner(2, Strategy::PaceChaser, 0.0),
    ];
    // Listed innermost-first, the rail wins.
    assert_eq!(picked(&runners, None, None), Some(RunnerId(0)));

    // Listed in any other order, the rail still wins.
    runners[0].body.gate = 5;
    runners[1].body.gate = 3;
    runners[2].body.gate = 1;
    assert_eq!(picked(&runners, None, None), Some(RunnerId(2)));

    // A runner who is genuinely ahead beats a lower gate.
    runners[0].body.position = q(0.5);
    assert_eq!(picked(&runners, None, None), Some(RunnerId(0)));
}

#[test]
fn override_is_the_empty_field_fallback() {
    assert_eq!(picked(&[], Some(RunnerId(7)), None), Some(RunnerId(7)));
}

#[test]
fn empty_field_without_override_is_none() {
    assert_eq!(picked(&[], None, None), None);
}

#[test]
fn a_full_tie_goes_to_the_runner_listed_first() {
    let mut runners = vec![
        runner(4, Strategy::LateSurger, 10.0),
        runner(9, Strategy::LateSurger, 10.0),
    ];
    runners[0].body.gate = 3;
    runners[1].body.gate = 3;
    assert_eq!(picked(&runners, None, None), Some(RunnerId(4)));
}

#[test]
fn late_surgers_and_end_closers_are_elected_in_turn() {
    let runners = vec![
        runner(0, Strategy::EndCloser, 300.0),
        runner(1, Strategy::LateSurger, 180.0),
    ];
    assert_eq!(picked(&runners, None, None), Some(RunnerId(1)));
    let runners = vec![
        runner(0, Strategy::EndCloser, 300.0),
        runner(1, Strategy::EndCloser, 301.0),
    ];
    assert_eq!(picked(&runners, Some(RunnerId(0)), None), Some(RunnerId(1)));
}

#[test]
fn the_listing_never_decides() {
    let field = |order: [usize; 3]| -> Vec<Runner> {
        order
            .iter()
            .map(|&i| match i {
                0 => runner(0, Strategy::LateSurger, 250.0),
                1 => runner(1, Strategy::PaceChaser, 200.0),
                _ => runner(2, Strategy::PaceChaser, 200.0),
            })
            .collect()
    };
    for order in [[0, 1, 2], [0, 2, 1], [1, 0, 2], [1, 2, 0], [2, 0, 1], [2, 1, 0]] {
        // Level chasers: the inner one.
        assert_eq!(picked(&field(order), None, None), Some(RunnerId(1)), "{order:?}");
        assert_eq!(
            picked(&field(order), None, Some(RunnerId(0))),
            Some(RunnerId(0)),
            "{order:?}"
        );
    }
}
