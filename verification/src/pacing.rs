//! Who sets the pace.
//!
//! Selection reads positions, styles and keep-strategies and answers with an
//! id; nothing is written back into the field.
//!
//! With neither a Runaway nor a Front Runner in the field by running style, the
//! pacemaker is the first-place runner of the most forward style. Running
//! styles decide that half, not keep-strategies: a rushed spell rewrites the
//! keep-strategy only, and must not make a runner at the back the pacemaker.
use crate::language::{strategy_matches, styles_match, RunnerId, Strategy};
use crate::runner::Runner;
use vstd::prelude::*;

verus! {

/// Position-keep checks for which the runner elected on the opening frame of a
/// front-less field keeps the role.
pub const PACEMAKER_HOLD_CHECKS: i64 = 2;

/// What a pass looks for in a runner.
#[derive(Debug, Clone, Copy, PartialEq, Eq, Structural)]
pub enum PacerCriterion {
    /// She keeps position as exactly this style.
    KeepStrategy(Strategy),
    /// She was entered with this style.
    Style(Strategy),
}

/// Whether the runner meets the criterion.
pub open spec fn meets(r: Runner, criterion: PacerCriterion) -> bool {
    match criterion {
        PacerCriterion::KeepStrategy(strategy) => r.tally.position_keep_strategy == strategy,
        PacerCriterion::Style(strategy) => r.body.strategy == strategy,
    }
}

/// Whether runner `i` comes before runner `j`: further forward, on a tie the
/// inner gate, and on equal gates the one listed first.
pub open spec fn comes_before(runners: Seq<Runner>, i: int, j: int) -> bool {
    let (a, b) = (runners[i].body, runners[j].body);
    a.position > b.position || (a.position == b.position && (a.gate < b.gate || (a.gate == b.gate
        && i <= j)))
}

/// Whether runner `i` is the furthest-forward one that meets the criterion.
pub open spec fn is_furthest(runners: Seq<Runner>, criterion: PacerCriterion, i: int) -> bool {
    &&& 0 <= i < runners.len()
    &&& meets(runners[i], criterion)
    &&& forall|j: int|
        0 <= j < runners.len() && meets(#[trigger] runners[j], criterion) ==> comes_before(
            runners,
            i,
            j,
        )
}

/// Whether some runner meets the criterion.
pub open spec fn any_meets(runners: Seq<Runner>, criterion: PacerCriterion) -> bool {
    exists|i: int| 0 <= i < runners.len() && meets(#[trigger] runners[i], criterion)
}

/// The furthest-forward runner that meets the criterion, if there is one.
pub open spec fn furthest_of(runners: Seq<Runner>, criterion: PacerCriterion) -> Option<int> {
    if any_meets(runners, criterion) {
        Some(choose|i: int| is_furthest(runners, criterion, i))
    } else {
        None
    }
}

proof fn lemma_furthest_is_unique(runners: Seq<Runner>, criterion: PacerCriterion, i: int)
    requires
        is_furthest(runners, criterion, i),
    ensures
        furthest_of(runners, criterion) == Some(i),
{
    let k = choose|k: int| is_furthest(runners, criterion, k);
    assert(meets(runners[i], criterion));
    assert(is_furthest(runners, criterion, k));
    assert(comes_before(runners, i, k) && comes_before(runners, k, i));
}

fn runner_meets(r: &Runner, criterion: PacerCriterion) -> (yes: bool)
    ensures
        yes == meets(*r, criterion),
{
    match criterion {
        PacerCriterion::KeepStrategy(strategy) => r.tally.position_keep_strategy == strategy,
        PacerCriterion::Style(strategy) => r.body.strategy == strategy,
    }
}

/// Where the furthest-forward runner that meets the criterion stands in the
/// list. An exact tie on position breaks on the lower gate.
pub fn furthest(runners: &[Runner], criterion: PacerCriterion) -> (found: Option<usize>)
    ensures
        match found {
            Some(i) => furthest_of(runners@, criterion) == Some(i as int) && i < runners@.len()
                && is_furthest(runners@, criterion, i as int),
            None => furthest_of(runners@, criterion) is None && !any_meets(runners@, criterion),
        },
{
    let mut best: Option<usize> = None;
    let mut j: usize = 0;
    while j < runners.len()
        invariant
            j <= runners@.len(),
            match best {
                Some(b) => {
                    &&& b < j
                    &&& meets(runners@[b as int], criterion)
                    &&& forall|k: int|
                        0 <= k < j && meets(#[trigger] runners@[k], criterion) ==> comes_before(
                            runners@,
                            b as int,
                            k,
                        )
                },
                None => forall|k: int|
                    0 <= k < j ==> !meets(#[trigger] runners@[k], criterion),
            },
        decreases runners@.len() - j,
    {
        if runner_meets(&runners[j], criterion) {
            let better = match best {
                Some(b) => {
                    let (r, s) = (&runners[j].body, &runners[b].body);
                    r.position > s.position || (r.position == s.position && r.gate < s.gate)
                },
                None => true,
            };
            if better {
                best = Some(j);
            }
        }
        j = j + 1;
    }
    proof {
        if let Some(b) = best {
            lemma_furthest_is_unique(runners@, criterion, b as int);
        }
    }
    best
}

/// The furthest-forward runner who keeps position as exactly `strategy`.
pub fn furthest_with_exact_strategy(runners: &[Runner], strategy: Strategy) -> (found: Option<
    usize,
>)
    ensures
        match found {
            Some(i) => furthest_of(runners@, PacerCriterion::KeepStrategy(strategy)) == Some(
                i as int,
            ) && i < runners@.len(),
            None => furthest_of(runners@, PacerCriterion::KeepStrategy(strategy)) is None,
        },
{
    furthest(runners, PacerCriterion::KeepStrategy(strategy))
}

/// The furthest-forward runner entered with style `strategy`.
pub fn furthest_with_base_style(runners: &[Runner], strategy: Strategy) -> (found: Option<usize>)
    ensures
        match found {
            Some(i) => furthest_of(runners@, PacerCriterion::Style(strategy)) == Some(i as int) && i
                < runners@.len(),
            None => furthest_of(runners@, PacerCriterion::Style(strategy)) is None,
        },
{
    furthest(runners, PacerCriterion::Style(strategy))
}

/// Whether the field holds a Front Runner or a Runaway, by running style.
pub open spec fn fronted(runners: Seq<Runner>) -> bool {
    exists|i: int|
        0 <= i < runners.len() && styles_match(
            (#[trigger] runners[i]).body.strategy,
            Strategy::FrontRunner,
        )
}

/// See [`fronted`].
pub fn is_fronted(runners: &[Runner]) -> (yes: bool)
    ensures
        yes == fronted(runners@),
{
    let mut i: usize = 0;
    while i < runners.len()
        invariant
            i <= runners@.len(),
            forall|k: int|
                0 <= k < i ==> !styles_match(
                    (#[trigger] runners@[k]).body.strategy,
                    Strategy::FrontRunner,
                ),
        decreases runners@.len() - i,
    {
        if strategy_matches(runners[i].body.strategy, Strategy::FrontRunner) {
            return true;
        }
        i = i + 1;
    }
    false
}

/// Which pass answered, so a caller never has to infer it from the field.
#[derive(Debug, Clone, Copy, PartialEq, Eq, Structural)]
pub enum PacerBranch {
    /// A fronted field's pass over keep-strategies.
    ExactStrategy,
    /// A front-less field's opening election, still inside its hold.
    OpeningHold,
    /// A front-less field's election: first place of the most forward style.
    FrontLessElection,
    /// The existing pacer override (an empty field, and nothing else).
    Override,
}

/// The chosen pacer and the pass that chose her.
#[derive(Debug, Clone, Copy, PartialEq, Eq, Structural)]
pub struct PacerChoice {
    /// The chosen pacer.
    pub runner_id: RunnerId,
    /// The pass that answered.
    pub branch: PacerBranch,
}

impl PacerChoice {
    /// The choice of `runner_id` by `branch`.
    pub fn new(runner_id: RunnerId, branch: PacerBranch) -> (choice: PacerChoice)
        ensures
            choice == (PacerChoice { runner_id, branch }),
    {
        PacerChoice { runner_id, branch }
    }
}

/// The first runner from `i` on with this id.
pub open spec fn first_with_id(runners: Seq<Runner>, id: RunnerId, i: int) -> Option<int>
    decreases runners.len() - i,
{
    if i < 0 || i >= runners.len() {
        None
    } else if runners[i].body.id == id {
        Some(i)
    } else {
        first_with_id(runners, id, i + 1)
    }
}

/// Where the first runner with this id stands in the list.
pub fn find_runner(runners: &[Runner], id: RunnerId) -> (found: Option<usize>)
    ensures
        match found {
            Some(i) => first_with_id(runners@, id, 0) == Some(i as int) && i < runners@.len()
                && runners@[i as int].body.id == id,
            None => first_with_id(runners@, id, 0) is None,
        },
{
    let mut i: usize = 0;
    while i < runners.len()
        invariant
            i <= runners@.len(),
            first_with_id(runners@, id, 0) == first_with_id(runners@, id, i as int),
        decreases runners@.len() - i,
    {
        if runners[i].body.id == id {
            return Some(i);
        }
        i = i + 1;
    }
    None
}

/// The choice of the runner at `at` by `branch`.
pub open spec fn chosen(runners: Seq<Runner>, at: int, branch: PacerBranch) -> Option<PacerChoice> {
    Some(PacerChoice { runner_id: runners[at].body.id, branch })
}

/// A fronted field's pacer: the furthest Runaway, else the furthest Front
/// Runner, by keep-strategy.
pub open spec fn fronted_pacer(runners: Seq<Runner>) -> Option<PacerChoice> {
    match furthest_of(runners, PacerCriterion::KeepStrategy(Strategy::Runaway)) {
        Some(i) => chosen(runners, i, PacerBranch::ExactStrategy),
        None => match furthest_of(runners, PacerCriterion::KeepStrategy(Strategy::FrontRunner)) {
            Some(i) => chosen(runners, i, PacerBranch::ExactStrategy),
            None => None,
        },
    }
}

/// A front-less field's election: the first-place runner of the most forward
/// style present.
pub open spec fn elected_pacer(runners: Seq<Runner>) -> Option<PacerChoice> {
    match furthest_of(runners, PacerCriterion::Style(Strategy::PaceChaser)) {
        Some(i) => chosen(runners, i, PacerBranch::FrontLessElection),
        None => match furthest_of(runners, PacerCriterion::Style(Strategy::LateSurger)) {
            Some(i) => chosen(runners, i, PacerBranch::FrontLessElection),
            None => match furthest_of(runners, PacerCriterion::Style(Strategy::EndCloser)) {
                Some(i) => chosen(runners, i, PacerBranch::FrontLessElection),
                None => None,
            },
        },
    }
}

/// Whether the opening pacemaker of a front-less field still holds the role.
pub open spec fn held_by(runners: Seq<Runner>, opening_pacemaker: Option<RunnerId>) -> Option<int> {
    match opening_pacemaker {
        Some(id) => match first_with_id(runners, id, 0) {
            Some(i) => if runners[i].body.pos_keep_checks_run < PACEMAKER_HOLD_CHECKS {
                Some(i)
            } else {
                None
            },
            None => None,
        },
        None => None,
    }
}

/// What the field itself answers, before any override.
pub open spec fn field_pacer(runners: Seq<Runner>, opening_pacemaker: Option<RunnerId>) -> Option<
    PacerChoice,
> {
    if fronted(runners) {
        fronted_pacer(runners)
    } else {
        match held_by(runners, opening_pacemaker) {
            Some(i) => chosen(runners, i, PacerBranch::OpeningHold),
            None => elected_pacer(runners),
        }
    }
}

/// The pacer of the field: what the field itself answers, and the override only
/// where it does not.
pub open spec fn pacer_of(
    runners: Seq<Runner>,
    pacer_override: Option<RunnerId>,
    opening_pacemaker: Option<RunnerId>,
) -> Option<PacerChoice> {
    match field_pacer(runners, opening_pacemaker) {
        Some(choice) => Some(choice),
        None => match pacer_override {
            Some(runner_id) => Some(PacerChoice { runner_id, branch: PacerBranch::Override }),
            None => None,
        },
    }
}

fn override_choice(pacer_override: Option<RunnerId>) -> (choice: Option<PacerChoice>)
    ensures
        choice == match pacer_override {
            Some(runner_id) => Some(PacerChoice { runner_id, branch: PacerBranch::Override }),
            None => None,
        },
{
    match pacer_override {
        Some(runner_id) => Some(PacerChoice::new(runner_id, PacerBranch::Override)),
        None => None,
    }
}

/// Select the pacer for the field (see [`pacer_of`]).
pub fn select_pacer(
    runners: &[Runner],
    pacer_override: Option<RunnerId>,
    opening_pacemaker: Option<RunnerId>,
) -> (choice: Option<PacerChoice>)
    ensures
        choice == pacer_of(runners@, pacer_override, opening_pacemaker),
{
    if is_fronted(runners) {
        if let Some(i) = furthest_with_exact_strategy(runners, Strategy::Runaway) {
            return Some(PacerChoice::new(runners[i].body.id, PacerBranch::ExactStrategy));
        }
        if let Some(i) = furthest_with_exact_strategy(runners, Strategy::FrontRunner) {
            return Some(PacerChoice::new(runners[i].body.id, PacerBranch::ExactStrategy));
        }
        return override_choice(pacer_override);
    }
    if let Some(id) = opening_pacemaker {
        if let Some(i) = find_runner(runners, id) {
            if runners[i].body.pos_keep_checks_run < PACEMAKER_HOLD_CHECKS {
                return Some(PacerChoice::new(runners[i].body.id, PacerBranch::OpeningHold));
            }
        }
    }
    if let Some(i) = furthest_with_base_style(runners, Strategy::PaceChaser) {
        return Some(PacerChoice::new(runners[i].body.id, PacerBranch::FrontLessElection));
    }
    if let Some(i) = furthest_with_base_style(runners, Strategy::LateSurger) {
        return Some(PacerChoice::new(runners[i].body.id, PacerBranch::FrontLessElection));
    }
    if let Some(i) = furthest_with_base_style(runners, Strategy::EndCloser) {
        return Some(PacerChoice::new(runners[i].body.id, PacerBranch::FrontLessElection));
    }
    override_choice(pacer_override)
}

/// Where a style is present, its furthest runner is among the field.
proof fn lemma_furthest_exists(runners: Seq<Runner>, criterion: PacerCriterion)
    requires
        any_meets(runners, criterion),
    ensures
        furthest_of(runners, criterion) is Some,
        is_furthest(runners, criterion, furthest_of(runners, criterion)->0),
{
    lemma_some_runner_is_furthest(runners, criterion, runners.len());
    assert(exists|i: int| is_furthest(runners, criterion, i)) by {
        assert(runners.take(runners.len() as int) =~= runners);
    }
}

proof fn lemma_some_runner_is_furthest(
    runners: Seq<Runner>,
    criterion: PacerCriterion,
    n: nat,
)
    requires
        n <= runners.len(),
    ensures
        any_meets(runners.take(n as int), criterion) ==> exists|i: int|
            is_furthest(runners.take(n as int), criterion, i),
    decreases n,
{
    if n > 0 && any_meets(runners.take(n as int), criterion) {
        let all = runners.take(n as int);
        let init = runners.take(n - 1);
        lemma_some_runner_is_furthest(runners, criterion, (n - 1) as nat);
        if any_meets(init, criterion) {
            let b = choose|i: int| is_furthest(init, criterion, i);
            assert(is_furthest(init, criterion, b));
            let last = n - 1;
            if meets(all[last], criterion) && !comes_before(all, b, last) {
                assert forall|j: int|
                    0 <= j < all.len() && meets(#[trigger] all[j], criterion) implies comes_before(
                    all,
                    last,
                    j,
                ) by {
                    if j < last {
                        assert(meets(init[j], criterion));
                        assert(comes_before(init, b, j));
                    }
                }
                assert(is_furthest(all, criterion, last));
            } else {
                assert forall|j: int|
                    0 <= j < all.len() && meets(#[trigger] all[j], criterion) implies comes_before(
                    all,
                    b,
                    j,
                ) by {
                    if j < last {
                        assert(meets(init[j], criterion));
                        assert(comes_before(init, b, j));
                    }
                }
                assert(is_furthest(all, criterion, b));
            }
        } else {
            let i = choose|i: int| 0 <= i < all.len() && meets(#[trigger] all[i], criterion);
            if i < n - 1 {
                assert(meets(init[i], criterion));
            }
            assert forall|j: int|
                0 <= j < all.len() && meets(#[trigger] all[j], criterion) implies comes_before(
                all,
                n - 1,
                j,
            ) by {
                if j < n - 1 {
                    assert(meets(init[j], criterion));
                }
            }
            assert(is_furthest(all, criterion, n - 1));
        }
    }
}

/// In a field whose front runners keep position as front runners, the override
/// is the tail of an empty field and nothing else: whenever anybody is racing
/// the field itself answers, with one of its own runners.
pub proof fn override_answers_only_an_empty_field(
    runners: Seq<Runner>,
    pacer_override: Option<RunnerId>,
    opening_pacemaker: Option<RunnerId>,
)
    requires
        forall|i: int|
            0 <= i < runners.len() && styles_match(
                (#[trigger] runners[i]).body.strategy,
                Strategy::FrontRunner,
            ) ==> styles_match(runners[i].tally.position_keep_strategy, Strategy::FrontRunner),
    ensures
        runners.len() > 0 ==> {
            let choice = pacer_of(runners, pacer_override, opening_pacemaker);
            choice is Some && choice->0.branch != PacerBranch::Override && exists|i: int|
                0 <= i < runners.len() && (#[trigger] runners[i]).body.id == choice->0.runner_id
        },
        runners.len() == 0 ==> pacer_of(runners, pacer_override, opening_pacemaker)
            == match pacer_override {
            Some(runner_id) => Some(PacerChoice { runner_id, branch: PacerBranch::Override }),
            None => None,
        },
{
    if runners.len() == 0 {
        lemma_empty_field_has_no_pacer(runners, opening_pacemaker);
    } else if fronted(runners) {
        let i = choose|i: int|
            0 <= i < runners.len() && styles_match(
                (#[trigger] runners[i]).body.strategy,
                Strategy::FrontRunner,
            );
        let runaway = PacerCriterion::KeepStrategy(Strategy::Runaway);
        let front = PacerCriterion::KeepStrategy(Strategy::FrontRunner);
        assert(meets(runners[i], runaway) || meets(runners[i], front));
        if any_meets(runners, runaway) {
            lemma_furthest_exists(runners, runaway);
        } else {
            lemma_furthest_exists(runners, front);
        }
    } else if held_by(runners, opening_pacemaker) is Some {
        lemma_first_with_id(runners, opening_pacemaker->0, 0);
    } else {
        assert(!styles_match(runners[0].body.strategy, Strategy::FrontRunner));
        let chaser = PacerCriterion::Style(Strategy::PaceChaser);
        let surger = PacerCriterion::Style(Strategy::LateSurger);
        let closer = PacerCriterion::Style(Strategy::EndCloser);
        assert(meets(runners[0], chaser) || meets(runners[0], surger) || meets(runners[0], closer));
        if any_meets(runners, chaser) {
            lemma_furthest_exists(runners, chaser);
        } else if any_meets(runners, surger) {
            lemma_furthest_exists(runners, surger);
        } else {
            lemma_furthest_exists(runners, closer);
        }
    }
}

proof fn lemma_empty_field_has_no_pacer(
    runners: Seq<Runner>,
    opening_pacemaker: Option<RunnerId>,
)
    requires
        runners.len() == 0,
    ensures
        field_pacer(runners, opening_pacemaker) is None,
{
}

proof fn lemma_first_with_id(runners: Seq<Runner>, id: RunnerId, from: int)
    requires
        0 <= from,
    ensures
        match first_with_id(runners, id, from) {
            Some(i) => from <= i < runners.len() && runners[i].body.id == id && (forall|k: int|
                from <= k < i ==> (#[trigger] runners[k]).body.id != id),
            None => forall|k: int|
                from <= k < runners.len() ==> (#[trigger] runners[k]).body.id != id,
        },
    decreases runners.len() - from,
{
    if from < runners.len() && runners[from].body.id != id {
        lemma_first_with_id(runners, id, from + 1);
    }
}

/// A front-less field's pacer does not depend on keep-strategies: a rushed
/// spell, which rewrites nothing else, cannot move the role.
pub proof fn rushed_spells_do_not_move_a_front_less_role(
    runners: Seq<Runner>,
    rushed: Seq<Runner>,
    pacer_override: Option<RunnerId>,
    opening_pacemaker: Option<RunnerId>,
)
    requires
        runners.len() == rushed.len(),
        forall|i: int| 0 <= i < runners.len() ==> (#[trigger] runners[i]).body == rushed[i].body,
        !fronted(runners),
    ensures
        pacer_of(runners, pacer_override, opening_pacemaker) == pacer_of(
            rushed,
            pacer_override,
            opening_pacemaker,
        ),
{
    assert(!fronted(rushed)) by {
        if fronted(rushed) {
            let i = choose|i: int|
                0 <= i < rushed.len() && styles_match(
                    (#[trigger] rushed[i]).body.strategy,
                    Strategy::FrontRunner,
                );
            assert(styles_match(runners[i].body.strategy, Strategy::FrontRunner));
        }
    }
    lemma_same_furthest_style(runners, rushed, Strategy::PaceChaser);
    lemma_same_furthest_style(runners, rushed, Strategy::LateSurger);
    lemma_same_furthest_style(runners, rushed, Strategy::EndCloser);
    if let Some(id) = opening_pacemaker {
        lemma_first_with_id(runners, id, 0);
        lemma_first_with_id(rushed, id, 0);
        lemma_same_first_with_id(runners, rushed, id);
        if let Some(i) = first_with_id(runners, id, 0) {
            assert(runners[i].body == rushed[i].body);
        }
    }
}

proof fn lemma_same_first_with_id(a: Seq<Runner>, b: Seq<Runner>, id: RunnerId)
    requires
        a.len() == b.len(),
        forall|i: int| 0 <= i < a.len() ==> (#[trigger] a[i]).body == b[i].body,
    ensures
        first_with_id(a, id, 0) == first_with_id(b, id, 0),
{
    lemma_first_with_id(a, id, 0);
    lemma_first_with_id(b, id, 0);
    match (first_with_id(a, id, 0), first_with_id(b, id, 0)) {
        (Some(i), Some(j)) => {
            assert(a[i].body == b[i].body && a[j].body == b[j].body);
        },
        (Some(i), None) => {
            assert(a[i].body == b[i].body);
        },
        (None, Some(j)) => {
            assert(a[j].body == b[j].body);
        },
        (None, None) => {},
    }
}

proof fn lemma_same_furthest_style(a: Seq<Runner>, b: Seq<Runner>, strategy: Strategy)
    requires
        a.len() == b.len(),
        forall|i: int| 0 <= i < a.len() ==> (#[trigger] a[i]).body == b[i].body,
    ensures
        furthest_of(a, PacerCriterion::Style(strategy)) == furthest_of(
            b,
            PacerCriterion::Style(strategy),
        ),
        furthest_of(a, PacerCriterion::Style(strategy)) matches Some(i) ==> chosen(
            a,
            i,
            PacerBranch::FrontLessElection,
        ) == chosen(b, i, PacerBranch::FrontLessElection),
{
    let style = PacerCriterion::Style(strategy);
    if any_meets(a, style) {
        lemma_furthest_exists(a, style);
        let i = furthest_of(a, style)->0;
        assert(a[i].body == b[i].body);
        assert forall|j: int| 0 <= j < b.len() && meets(#[trigger] b[j], style) implies comes_before(
            b,
            i,
            j,
        ) by {
            assert(a[j].body == b[j].body);
            assert(meets(a[j], style));
        }
        assert(is_furthest(b, style, i));
        lemma_furthest_is_unique(b, style, i);
    } else if any_meets(b, style) {
        let i = choose|i: int| 0 <= i < b.len() && meets(#[trigger] b[i], style);
        assert(a[i].body == b[i].body);
        assert(meets(a[i], style));
    }
}

/// The runner a front-less field elected first keeps the role for her first two
/// position-keep checks, wherever the others are.
pub proof fn the_opening_pacemaker_holds_the_role(
    runners: Seq<Runner>,
    pacer_override: Option<RunnerId>,
    opening: RunnerId,
    i: int,
)
    requires
        !fronted(runners),
        0 <= i < runners.len(),
        runners[i].body.id == opening,
        forall|k: int| 0 <= k < i ==> (#[trigger] runners[k]).body.id != opening,
        runners[i].body.pos_keep_checks_run < PACEMAKER_HOLD_CHECKS,
    ensures
        pacer_of(runners, pacer_override, Some(opening)) == Some(
            PacerChoice { runner_id: opening, branch: PacerBranch::OpeningHold },
        ),
{
    lemma_first_with_id(runners, opening, 0);
}

/// Once the hold is over, or where there never was one, the role of a
/// front-less field goes to the first-place runner of the most forward style:
/// nobody of that style is ahead of her, level ones are no further in, and
/// nobody runs a more forward style.
pub proof fn the_election_follows_first_place(
    runners: Seq<Runner>,
    pacer_override: Option<RunnerId>,
    opening_pacemaker: Option<RunnerId>,
    style: Strategy,
)
    requires
        !fronted(runners),
        held_by(runners, opening_pacemaker) is None,
        any_meets(runners, PacerCriterion::Style(style)),
        style == Strategy::LateSurger || style == Strategy::EndCloser ==> !any_meets(
            runners,
            PacerCriterion::Style(Strategy::PaceChaser),
        ),
        style == Strategy::EndCloser ==> !any_meets(
            runners,
            PacerCriterion::Style(Strategy::LateSurger),
        ),
    ensures
        exists|i: int|
            is_furthest(runners, PacerCriterion::Style(style), i) && pacer_of(
                runners,
                pacer_override,
                opening_pacemaker,
            ) == #[trigger] chosen(runners, i, PacerBranch::FrontLessElection),
{
    lemma_furthest_exists(runners, PacerCriterion::Style(style));
    let i = furthest_of(runners, PacerCriterion::Style(style))->0;
    assert(meets(runners[i], PacerCriterion::Style(style)));
    assert(!styles_match(runners[i].body.strategy, Strategy::FrontRunner));
    assert(pacer_of(runners, pacer_override, opening_pacemaker) == chosen(
        runners,
        i,
        PacerBranch::FrontLessElection,
    ));
}

/// A fronted field that keeps a front runner in front answers from the field
/// alone: neither the last pacer nor the opening one matters.
pub proof fn a_fronted_field_ignores_pacer_history(
    runners: Seq<Runner>,
    a_override: Option<RunnerId>,
    a_opening: Option<RunnerId>,
    b_override: Option<RunnerId>,
    b_opening: Option<RunnerId>,
)
    requires
        fronted(runners),
        any_meets(runners, PacerCriterion::KeepStrategy(Strategy::Runaway)) || any_meets(
            runners,
            PacerCriterion::KeepStrategy(Strategy::FrontRunner),
        ),
    ensures
        pacer_of(runners, a_override, a_opening) == pacer_of(runners, b_override, b_opening),
        pacer_of(runners, a_override, a_opening) is Some,
        pacer_of(runners, a_override, a_opening)->0.branch == PacerBranch::ExactStrategy,
{
}

/// Whether every runner of `a` is among those of `b`.
pub open spec fn listed_in(a: Seq<Runner>, b: Seq<Runner>) -> bool {
    forall|i: int| 0 <= i < a.len() ==> b.contains(#[trigger] a[i])
}

/// Whether no two runners share an id or a starting gate.
pub open spec fn told_apart(runners: Seq<Runner>) -> bool {
    forall|i: int, j: int|
        0 <= i < j < runners.len() ==> (#[trigger] runners[i]).body.id != (
        #[trigger] runners[j]).body.id && runners[i].body.gate != runners[j].body.gate
}

proof fn lemma_listed_meets(a: Seq<Runner>, b: Seq<Runner>, criterion: PacerCriterion)
    requires
        listed_in(a, b),
        any_meets(a, criterion),
    ensures
        any_meets(b, criterion),
{
    let i = choose|i: int| 0 <= i < a.len() && meets(#[trigger] a[i], criterion);
    assert(b.contains(a[i]));
    let j = b.index_of(a[i]);
    assert(meets(b[j], criterion));
}

proof fn lemma_listed_fronted(a: Seq<Runner>, b: Seq<Runner>)
    requires
        listed_in(a, b),
        fronted(a),
    ensures
        fronted(b),
{
    let i = choose|i: int|
        0 <= i < a.len() && styles_match((#[trigger] a[i]).body.strategy, Strategy::FrontRunner);
    assert(b.contains(a[i]));
    let j = b.index_of(a[i]);
    assert(styles_match(b[j].body.strategy, Strategy::FrontRunner));
}

proof fn lemma_same_furthest_runner(a: Seq<Runner>, b: Seq<Runner>, criterion: PacerCriterion)
    requires
        listed_in(a, b),
        listed_in(b, a),
        told_apart(a),
    ensures
        furthest_of(a, criterion) is Some == furthest_of(b, criterion) is Some,
        furthest_of(a, criterion) is Some ==> a[furthest_of(a, criterion)->0]
            == b[furthest_of(b, criterion)->0],
{
    if any_meets(a, criterion) || any_meets(b, criterion) {
        if any_meets(a, criterion) {
            lemma_listed_meets(a, b, criterion);
        } else {
            lemma_listed_meets(b, a, criterion);
        }
        lemma_furthest_exists(a, criterion);
        lemma_furthest_exists(b, criterion);
        let i = furthest_of(a, criterion)->0;
        let j = furthest_of(b, criterion)->0;
        assert(b.contains(a[i]) && a.contains(b[j]));
        let of_a = b.index_of(a[i]);
        let of_b = a.index_of(b[j]);
        assert(meets(b[of_a], criterion) && meets(a[of_b], criterion));
        assert(comes_before(b, j, of_a) && comes_before(a, i, of_b));
        assert(a[i].body.gate == a[of_b].body.gate);
        if i < of_b {
            assert(a[i].body.gate != a[of_b].body.gate);
        } else if of_b < i {
            assert(a[of_b].body.gate != a[i].body.gate);
        }
    }
}

proof fn lemma_same_first_runner(a: Seq<Runner>, b: Seq<Runner>, id: RunnerId)
    requires
        listed_in(a, b),
        listed_in(b, a),
        told_apart(a),
    ensures
        first_with_id(a, id, 0) is Some == first_with_id(b, id, 0) is Some,
        first_with_id(a, id, 0) is Some ==> a[first_with_id(a, id, 0)->0] == b[first_with_id(
            b,
            id,
            0,
        )->0],
{
    lemma_first_with_id(a, id, 0);
    lemma_first_with_id(b, id, 0);
    if let Some(i) = first_with_id(a, id, 0) {
        assert(b.contains(a[i]));
        assert(b[b.index_of(a[i])].body.id == id);
    }
    if let Some(j) = first_with_id(b, id, 0) {
        assert(a.contains(b[j]));
        let k = a.index_of(b[j]);
        assert(a[k].body.id == id);
        let i = first_with_id(a, id, 0)->0;
        if i < k {
            assert(a[i].body.id != a[k].body.id);
        } else if k < i {
            assert(a[k].body.id != a[i].body.id);
        }
    }
}

/// The order a field is listed in never decides the pacer: two lists of the same
/// runners, no two of them with one id or one starting gate, have the same one.
pub proof fn the_listing_never_decides_the_pacer(
    a: Seq<Runner>,
    b: Seq<Runner>,
    pacer_override: Option<RunnerId>,
    opening_pacemaker: Option<RunnerId>,
)
    requires
        listed_in(a, b),
        listed_in(b, a),
        told_apart(a),
    ensures
        pacer_of(a, pacer_override, opening_pacemaker) == pacer_of(
            b,
            pacer_override,
            opening_pacemaker,
        ),
{
    if fronted(a) {
        lemma_listed_fronted(a, b);
    }
    if fronted(b) {
        lemma_listed_fronted(b, a);
    }
    lemma_same_furthest_runner(a, b, PacerCriterion::KeepStrategy(Strategy::Runaway));
    lemma_same_furthest_runner(a, b, PacerCriterion::KeepStrategy(Strategy::FrontRunner));
    lemma_same_furthest_runner(a, b, PacerCriterion::Style(Strategy::PaceChaser));
    lemma_same_furthest_runner(a, b, PacerCriterion::Style(Strategy::LateSurger));
    lemma_same_furthest_runner(a, b, PacerCriterion::Style(Strategy::EndCloser));
    if let Some(id) = opening_pacemaker {
        lemma_same_first_runner(a, b, id);
    }
}

/// Whether the choice is runner `i` by `branch`, the furthest forward of those
/// who meet the criterion: nobody of them is further, of those level with her
/// none has a gate further in, and none with her gate is listed before her.
pub open spec fn is_front_of(
    runners: Seq<Runner>,
    choice: Option<PacerChoice>,
    branch: PacerBranch,
    criterion: PacerCriterion,
    i: int,
) -> bool {
    &&& 0 <= i < runners.len()
    &&& meets(runners[i], criterion)
    &&& choice == Some(PacerChoice { runner_id: runners[i].body.id, branch })
    &&& forall|j: int|
        0 <= j < runners.len() && meets(#[trigger] runners[j], criterion) ==> {
            ||| runners[j].body.position < runners[i].body.position
            ||| runners[j].body.position == runners[i].body.position && runners[j].body.gate
                > runners[i].body.gate
            ||| runners[j].body.position == runners[i].body.position && runners[j].body.gate
                == runners[i].body.gate && i <= j
        }
}

/// Whether the choice is the furthest forward of those who meet the criterion.
pub open spec fn goes_to_the_front_of(
    runners: Seq<Runner>,
    choice: Option<PacerChoice>,
    branch: PacerBranch,
    criterion: PacerCriterion,
) -> bool {
    exists|i: int| is_front_of(runners, choice, branch, criterion, i)
}

/// Whether some runner keeps position as this style.
pub open spec fn someone_keeps_as(runners: Seq<Runner>, style: Strategy) -> bool {
    exists|i: int|
        0 <= i < runners.len() && (#[trigger] runners[i]).tally.position_keep_strategy == style
}

/// Whether some runner was entered with this style.
pub open spec fn someone_runs_as(runners: Seq<Runner>, style: Strategy) -> bool {
    exists|i: int| 0 <= i < runners.len() && (#[trigger] runners[i]).body.strategy == style
}

/// Whether a runner with this id is in the field and her first entry has taken
/// fewer than two position-keep checks.
pub open spec fn still_holds(runners: Seq<Runner>, id: RunnerId) -> bool {
    exists|i: int|
        0 <= i < runners.len() && (#[trigger] runners[i]).body.id == id
            && runners[i].body.pos_keep_checks_run < 2 && forall|j: int|
            0 <= j < i ==> (#[trigger] runners[j]).body.id != id
}

/// Who sets the pace. With a Front Runner or Runaway entered: the furthest who
/// keeps position as a Runaway, else the furthest who keeps it as a Front Runner.
/// Without one: the opening pacemaker for her first two checks, else the furthest
/// Pace Chaser, else Late Surger, else End Closer, by the style entered. The
/// override answers only where none of these does.
pub proof fn the_pace_is_set_from_the_front(
    runners: Seq<Runner>,
    pacer_override: Option<RunnerId>,
    opening: Option<RunnerId>,
)
    ensures
        ({
            let choice = pacer_of(runners, pacer_override, opening);
            let overridden = match pacer_override {
                Some(id) => choice == Some(
                    PacerChoice { runner_id: id, branch: PacerBranch::Override },
                ),
                None => choice is None,
            };
            let exact = PacerBranch::ExactStrategy;
            let elected = PacerBranch::FrontLessElection;
            if someone_runs_as(runners, Strategy::FrontRunner) || someone_runs_as(
                runners,
                Strategy::Runaway,
            ) {
                if someone_keeps_as(runners, Strategy::Runaway) {
                    goes_to_the_front_of(
                        runners,
                        choice,
                        exact,
                        PacerCriterion::KeepStrategy(Strategy::Runaway),
                    )
                } else if someone_keeps_as(runners, Strategy::FrontRunner) {
                    goes_to_the_front_of(
                        runners,
                        choice,
                        exact,
                        PacerCriterion::KeepStrategy(Strategy::FrontRunner),
                    )
                } else {
                    overridden
                }
            } else if opening is Some && still_holds(runners, opening->0) {
                choice == Some(
                    PacerChoice { runner_id: opening->0, branch: PacerBranch::OpeningHold },
                )
            } else if someone_runs_as(runners, Strategy::PaceChaser) {
                goes_to_the_front_of(
                    runners,
                    choice,
                    elected,
                    PacerCriterion::Style(Strategy::PaceChaser),
                )
            } else if someone_runs_as(runners, Strategy::LateSurger) {
                goes_to_the_front_of(
                    runners,
                    choice,
                    elected,
                    PacerCriterion::Style(Strategy::LateSurger),
                )
            } else if someone_runs_as(runners, Strategy::EndCloser) {
                goes_to_the_front_of(
                    runners,
                    choice,
                    elected,
                    PacerCriterion::Style(Strategy::EndCloser),
                )
            } else {
                overridden
            }
        }),
{
    lemma_keeps(runners, Strategy::Runaway);
    lemma_keeps(runners, Strategy::FrontRunner);
    lemma_runs(runners, Strategy::FrontRunner);
    lemma_runs(runners, Strategy::Runaway);
    lemma_runs(runners, Strategy::PaceChaser);
    lemma_runs(runners, Strategy::LateSurger);
    lemma_runs(runners, Strategy::EndCloser);
    lemma_fronted(runners);
    if opening is Some {
        lemma_held(runners, opening->0, 0);
    }
    let choice = pacer_of(runners, pacer_override, opening);
    lemma_goes(runners, choice, PacerCriterion::KeepStrategy(Strategy::Runaway));
    lemma_goes(runners, choice, PacerCriterion::KeepStrategy(Strategy::FrontRunner));
    lemma_goes(runners, choice, PacerCriterion::Style(Strategy::PaceChaser));
    lemma_goes(runners, choice, PacerCriterion::Style(Strategy::LateSurger));
    lemma_goes(runners, choice, PacerCriterion::Style(Strategy::EndCloser));
}

proof fn lemma_keeps(runners: Seq<Runner>, style: Strategy)
    ensures
        someone_keeps_as(runners, style) == any_meets(
            runners,
            PacerCriterion::KeepStrategy(style),
        ),
{
    let criterion = PacerCriterion::KeepStrategy(style);
    if someone_keeps_as(runners, style) {
        let i = choose|i: int|
            0 <= i < runners.len() && (#[trigger] runners[i]).tally.position_keep_strategy
                == style;
        assert(meets(runners[i], criterion));
    }
}

proof fn lemma_runs(runners: Seq<Runner>, style: Strategy)
    ensures
        someone_runs_as(runners, style) == any_meets(runners, PacerCriterion::Style(style)),
{
    let criterion = PacerCriterion::Style(style);
    if someone_runs_as(runners, style) {
        let i = choose|i: int|
            0 <= i < runners.len() && (#[trigger] runners[i]).body.strategy == style;
        assert(meets(runners[i], criterion));
    }
}

proof fn lemma_fronted(runners: Seq<Runner>)
    ensures
        fronted(runners) == (someone_runs_as(runners, Strategy::FrontRunner) || someone_runs_as(
            runners,
            Strategy::Runaway,
        )),
{
    if someone_runs_as(runners, Strategy::FrontRunner) {
        let i = choose|i: int|
            0 <= i < runners.len() && (#[trigger] runners[i]).body.strategy
                == Strategy::FrontRunner;
        assert(styles_match(runners[i].body.strategy, Strategy::FrontRunner));
    }
    if someone_runs_as(runners, Strategy::Runaway) {
        let i = choose|i: int|
            0 <= i < runners.len() && (#[trigger] runners[i]).body.strategy == Strategy::Runaway;
        assert(styles_match(runners[i].body.strategy, Strategy::FrontRunner));
    }
}

proof fn lemma_held(runners: Seq<Runner>, id: RunnerId, from: int)
    requires
        0 <= from <= runners.len(),
        forall|j: int| 0 <= j < from ==> (#[trigger] runners[j]).body.id != id,
    ensures
        match first_with_id(runners, id, from) {
            Some(i) => {
                &&& 0 <= i < runners.len()
                &&& runners[i].body.id == id
                &&& still_holds(runners, id) == (runners[i].body.pos_keep_checks_run < 2)
            },
            None => !still_holds(runners, id),
        },
    decreases runners.len() - from,
{
    if from < runners.len() {
        if runners[from].body.id == id {
            if still_holds(runners, id) {
                let i = choose|i: int|
                    0 <= i < runners.len() && (#[trigger] runners[i]).body.id == id
                        && runners[i].body.pos_keep_checks_run < 2 && forall|j: int|
                        0 <= j < i ==> (#[trigger] runners[j]).body.id != id;
                assert(i == from);
            }
        } else {
            lemma_held(runners, id, from + 1);
        }
    }
}

proof fn lemma_goes(runners: Seq<Runner>, choice: Option<PacerChoice>, criterion: PacerCriterion)
    ensures
        any_meets(runners, criterion) ==> furthest_of(runners, criterion) is Some && (choice
            is Some && choice->0.runner_id == runners[furthest_of(
            runners,
            criterion,
        )->0].body.id ==> goes_to_the_front_of(runners, choice, choice->0.branch, criterion)),
        !any_meets(runners, criterion) ==> furthest_of(runners, criterion) is None,
{
    if any_meets(runners, criterion) {
        lemma_furthest_exists(runners, criterion);
        let i = furthest_of(runners, criterion)->0;
        if choice is Some && choice->0.runner_id == runners[i].body.id {
            assert forall|j: int|
                0 <= j < runners.len() && meets(#[trigger] runners[j], criterion) implies {
                ||| runners[j].body.position < runners[i].body.position
                ||| runners[j].body.position == runners[i].body.position && runners[j].body.gate
                    > runners[i].body.gate
                ||| runners[j].body.position == runners[i].body.position && runners[j].body.gate
                    == runners[i].body.gate && i <= j
            } by {
                assert(comes_before(runners, i, j));
            }
            assert(is_front_of(runners, choice, choice->0.branch, criterion, i));
        }
    }
}

} // verus!
