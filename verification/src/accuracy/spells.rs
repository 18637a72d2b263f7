//! Rushed spells in a sampled series: how long they ran, and on which rung of
//! the 3, 6, 9 and 12 s ladder they sit.
//!
//! A sampled series brackets a spell rather than timing it. A spell seen in the
//! samples `first` to `last` began in the gap before `first` and ended in the
//! gap after `last`: the span between the two is a lower bound, and the span
//! with both gaps an upper one.
use crate::units::{clamp_wide, divide_rounded, minus, plus, rounded_quotient, sat, ONE};
use vstd::prelude::*;

verus! {

/// The seconds between two rungs: a spell may end every 3 s.
pub const RUNG_SECONDS: i64 = 3_000_000_000;

/// Slack when placing a span on the ladder: a span that is exactly a rung may
/// be sampled a hair above it.
pub const LADDER_SLACK: i64 = 1_000_000;

/// The top rung: no spell outlasts 12 s.
pub const TOP_RUNG: usize = 3;

/// The seconds of a rung.
pub open spec fn rung_seconds(rung: int) -> int {
    (rung + 1) * RUNG_SECONDS
}

/// Whether a spell that ran for at least `lower` can sit on a rung.
pub open spec fn rung_allows(lower: int, rung: int) -> bool {
    lower <= rung_seconds(rung) + LADDER_SLACK
}

/// The shortest rung a spell can sit on that ran for at least `lower`; the top
/// one for spans past it.
pub open spec fn rung_of(lower: int) -> int {
    if rung_allows(lower, 0) {
        0
    } else if rung_allows(lower, 1) {
        1
    } else if rung_allows(lower, 2) {
        2
    } else {
        TOP_RUNG as int
    }
}

/// See [`rung_of`].
pub fn ladder_rung(lower: i64) -> (rung: usize)
    ensures
        rung == rung_of(lower as int),
        rung <= TOP_RUNG,
{
    if lower <= RUNG_SECONDS + LADDER_SLACK {
        0
    } else if lower <= 2 * RUNG_SECONDS + LADDER_SLACK {
        1
    } else if lower <= 3 * RUNG_SECONDS + LADDER_SLACK {
        2
    } else {
        TOP_RUNG
    }
}

/// Every rung under a spell's own is ruled out by its span, and its own is
/// allowed unless the span is past the ladder.
pub proof fn shorter_rungs_are_ruled_out(lower: int, rung: int)
    requires
        0 <= rung < rung_of(lower),
    ensures
        !rung_allows(lower, rung),
        rung_allows(lower, TOP_RUNG as int) ==> rung_allows(lower, rung_of(lower)),
{
}

/// Spells per rung.
#[derive(Debug, Clone, Copy, PartialEq, Eq, Structural)]
pub struct RungCounts {
    pub three: i64,
    pub six: i64,
    pub nine: i64,
    pub twelve: i64,
}

impl RungCounts {
    /// The counts in rung order.
    pub open spec fn counts(self) -> Seq<i64> {
        seq![self.three, self.six, self.nine, self.twelve]
    }

    /// No spell on any rung.
    pub fn none() -> (counts: RungCounts)
        ensures
            counts.counts() == seq![0i64, 0, 0, 0],
    {
        RungCounts { three: 0, six: 0, nine: 0, twelve: 0 }
    }

    /// The number of spells on a rung.
    pub fn get(&self, rung: usize) -> (n: i64)
        requires
            rung <= TOP_RUNG,
        ensures
            n == self.counts()[rung as int],
    {
        if rung == 0 {
            self.three
        } else if rung == 1 {
            self.six
        } else if rung == 2 {
            self.nine
        } else {
            self.twelve
        }
    }

    fn add_on(&mut self, rung: usize, n: i64)
        requires
            rung <= TOP_RUNG,
        ensures
            final(self).counts() == old(self).counts().update(
                rung as int,
                sat(old(self).counts()[rung as int] + n) as i64,
            ),
    {
        if rung == 0 {
            self.three = plus(self.three, n);
        } else if rung == 1 {
            self.six = plus(self.six, n);
        } else if rung == 2 {
            self.nine = plus(self.nine, n);
        } else {
            self.twelve = plus(self.twelve, n);
        }
        proof {
            assert(self.counts() =~= old(self).counts().update(
                rung as int,
                sat(old(self).counts()[rung as int] + n) as i64,
            ));
        }
    }
}

/// The spells found in one or more sampled series.
#[derive(Debug, Clone, Copy, PartialEq, Eq, Structural)]
pub struct SpellTally {
    /// How many.
    pub count: i64,
    /// Sum of the spans, each a lower bound on the spell.
    pub lower_sum: i64,
    /// Sum of the upper bounds.
    pub upper_sum: i64,
    /// Sum of the rungs the spells sit on, in seconds.
    pub ladder_sum: i64,
    /// Spells per rung.
    pub ladder: RungCounts,
}

/// A tally as its numbers.
#[verifier::ext_equal]
pub struct TallyState {
    pub count: int,
    pub lower_sum: int,
    pub upper_sum: int,
    pub ladder_sum: int,
    pub ladder: Seq<i64>,
}

impl View for SpellTally {
    type V = TallyState;

    open spec fn view(&self) -> TallyState {
        TallyState {
            count: self.count as int,
            lower_sum: self.lower_sum as int,
            upper_sum: self.upper_sum as int,
            ladder_sum: self.ladder_sum as int,
            ladder: self.ladder.counts(),
        }
    }
}

/// The tally of nothing.
pub open spec fn empty_tally() -> TallyState {
    TallyState {
        count: 0,
        lower_sum: 0,
        upper_sum: 0,
        ladder_sum: 0,
        ladder: seq![0i64, 0, 0, 0],
    }
}

/// The time from the sample before `first` to `first`; 0 where there is none.
pub open spec fn gap_before(times: Seq<i64>, first: int) -> int {
    if first > 0 {
        sat(times[first] - times[first - 1])
    } else {
        0
    }
}

/// The time from `last` to the sample after it; 0 where there is none.
pub open spec fn gap_after(times: Seq<i64>, last: int) -> int {
    if last + 1 < times.len() {
        sat(times[last + 1] - times[last])
    } else {
        0
    }
}

/// The tally with the spell seen in the samples `first` to `last` added; a
/// spell without a time for both is not counted.
pub open spec fn run_added(t: TallyState, times: Seq<i64>, first: int, last: int) -> TallyState {
    if first >= times.len() || last >= times.len() {
        t
    } else {
        let lower = sat(times[last] - times[first]);
        let upper = sat(sat(lower + gap_before(times, first)) + gap_after(times, last));
        let rung = rung_of(lower);
        TallyState {
            count: sat(t.count + 1),
            lower_sum: sat(t.lower_sum + lower),
            upper_sum: sat(t.upper_sum + upper),
            ladder_sum: sat(t.ladder_sum + rung_seconds(rung)),
            ladder: t.ladder.update(rung, sat(t.ladder[rung] + 1) as i64),
        }
    }
}

/// Whether a spell ends with sample `k`.
pub open spec fn ends_spell(rushed: Seq<bool>, k: int) -> bool {
    rushed[k] && (k + 1 == rushed.len() || !rushed[k + 1])
}

/// The first sample of the spell that sample `k` belongs to.
pub open spec fn spell_start(rushed: Seq<bool>, k: int) -> int
    decreases k,
{
    if k <= 0 || !rushed[k - 1] {
        k
    } else {
        spell_start(rushed, k - 1)
    }
}

/// The spells that end before sample `n`, each by its first and last sample. A
/// spell still going in the last sample ends there.
pub open spec fn spells(rushed: Seq<bool>, n: int) -> Seq<(int, int)>
    decreases n,
{
    if n <= 0 {
        Seq::empty()
    } else if ends_spell(rushed, n - 1) {
        spells(rushed, n - 1).push((spell_start(rushed, n - 1), n - 1))
    } else {
        spells(rushed, n - 1)
    }
}

/// The tally with the first `n` of `runs` added.
pub open spec fn runs_added(
    t: TallyState,
    times: Seq<i64>,
    runs: Seq<(int, int)>,
    n: nat,
) -> TallyState
    decreases n,
{
    if n == 0 {
        t
    } else {
        let (first, last) = runs[n - 1];
        run_added(runs_added(t, times, runs, (n - 1) as nat), times, first, last)
    }
}

/// The tally with every spell of one sampled series added.
pub open spec fn series_added(t: TallyState, times: Seq<i64>, rushed: Seq<bool>) -> TallyState {
    let runs = spells(rushed, rushed.len() as int);
    runs_added(t, times, runs, runs.len())
}

proof fn lemma_runs_added_prefix(
    t: TallyState,
    times: Seq<i64>,
    runs: Seq<(int, int)>,
    more: Seq<(int, int)>,
    n: nat,
)
    requires
        n <= runs.len(),
        runs.is_prefix_of(more),
    ensures
        runs_added(t, times, runs, n) == runs_added(t, times, more, n),
    decreases n,
{
    if n > 0 {
        lemma_runs_added_prefix(t, times, runs, more, (n - 1) as nat);
        assert(runs[n - 1] == more[n - 1]);
    }
}

proof fn lemma_spell_start(rushed: Seq<bool>, k: int)
    requires
        0 <= k < rushed.len(),
        rushed[k],
    ensures
        0 <= spell_start(rushed, k) <= k,
        forall|i: int| spell_start(rushed, k) <= i <= k ==> rushed[i],
        spell_start(rushed, k) == 0 || !rushed[spell_start(rushed, k) - 1],
    decreases k,
{
    if k > 0 && rushed[k - 1] {
        lemma_spell_start(rushed, k - 1);
    }
}

/// Every spell is a longest stretch of rushed samples.
pub proof fn spells_are_the_longest_rushed_stretches(rushed: Seq<bool>, n: int, i: int)
    requires
        0 <= n <= rushed.len(),
        0 <= i < spells(rushed, n).len(),
    ensures
        ({
            let (first, last) = spells(rushed, n)[i];
            &&& 0 <= first <= last < n
            &&& forall|k: int| first <= k <= last ==> rushed[k]
            &&& first == 0 || !rushed[first - 1]
            &&& last + 1 == rushed.len() || !rushed[last + 1]
        }),
    decreases n,
{
    if ends_spell(rushed, n - 1) {
        if i == spells(rushed, n).len() - 1 {
            lemma_spell_start(rushed, n - 1);
        } else {
            spells_are_the_longest_rushed_stretches(rushed, n - 1, i);
        }
    } else {
        spells_are_the_longest_rushed_stretches(rushed, n - 1, i);
    }
}

/// Whether sample `k` belongs to the spell `run`.
pub open spec fn in_spell(run: (int, int), k: int) -> bool {
    run.0 <= k <= run.1
}

proof fn lemma_ended_spell_is_listed(rushed: Seq<bool>, last: int, n: int)
    requires
        0 <= last < n <= rushed.len(),
        ends_spell(rushed, last),
    ensures
        spells(rushed, n).contains((spell_start(rushed, last), last)),
    decreases n,
{
    if last < n - 1 {
        lemma_ended_spell_is_listed(rushed, last, n - 1);
        let before = spells(rushed, n - 1);
        let i = choose|i: int|
            0 <= i < before.len() && before[i] == (spell_start(rushed, last), last);
        assert(spells(rushed, n)[i] == (spell_start(rushed, last), last));
    } else {
        let run = (spell_start(rushed, last), last);
        assert(spells(rushed, n).last() == run);
    }
}

/// Every rushed sample belongs to a spell.
pub proof fn every_rushed_sample_is_in_a_spell(rushed: Seq<bool>, k: int)
    requires
        0 <= k < rushed.len(),
        rushed[k],
    ensures
        exists|i: int|
            0 <= i < spells(rushed, rushed.len() as int).len() && in_spell(
                #[trigger] spells(rushed, rushed.len() as int)[i],
                k,
            ),
{
    lemma_rushed_sample_is_in_a_spell(rushed, k, k);
}

proof fn lemma_rushed_sample_is_in_a_spell(rushed: Seq<bool>, k: int, last: int)
    requires
        0 <= k <= last < rushed.len(),
        forall|i: int| k <= i <= last ==> rushed[i],
    ensures
        exists|i: int|
            0 <= i < spells(rushed, rushed.len() as int).len() && in_spell(
                #[trigger] spells(rushed, rushed.len() as int)[i],
                k,
            ),
    decreases rushed.len() - last,
{
    if ends_spell(rushed, last) {
        lemma_ended_spell_is_listed(rushed, last, rushed.len() as int);
        let all = spells(rushed, rushed.len() as int);
        let run = (spell_start(rushed, last), last);
        let i = choose|i: int| 0 <= i < all.len() && all[i] == run;
        lemma_start_reaches_back(rushed, k, last);
        assert(in_spell(all[i], k));
    } else {
        lemma_rushed_sample_is_in_a_spell(rushed, k, last + 1);
    }
}

proof fn lemma_start_reaches_back(rushed: Seq<bool>, k: int, last: int)
    requires
        0 <= k <= last < rushed.len(),
        forall|i: int| k <= i <= last ==> rushed[i],
    ensures
        spell_start(rushed, last) <= k,
    decreases last - k,
{
    if k < last {
        assert(rushed[last - 1]);
        lemma_start_reaches_back(rushed, k, last - 1);
    }
    if k == last {
        lemma_spell_start(rushed, last);
    }
}

/// Whether every spell counted sits on a rung, and nothing has reached the end
/// of the range.
pub open spec fn accounted(t: TallyState) -> bool {
    &&& t.ladder.len() == 4
    &&& t.count == t.ladder[0] + t.ladder[1] + t.ladder[2] + t.ladder[3]
    &&& t.ladder_sum == RUNG_SECONDS * (t.ladder[0] + 2 * t.ladder[1] + 3 * t.ladder[2] + 4
        * t.ladder[3])
    &&& 0 <= t.ladder[0] && 0 <= t.ladder[1] && 0 <= t.ladder[2] && 0 <= t.ladder[3]
}

/// Every spell counted sits on one rung, and the rungs' seconds add up to the
/// ladder sum, while the sums stay inside the range: up to 750 million spells.
pub proof fn every_spell_sits_on_one_rung(t: TallyState, times: Seq<i64>, first: int, last: int)
    requires
        accounted(t),
        t.count < 750_000_000,
    ensures
        accounted(run_added(t, times, first, last)),
{
    if first < times.len() && last < times.len() {
        let rung = rung_of(sat(times[last] - times[first]));
        let after = run_added(t, times, first, last);
        assert(after.ladder[0] == t.ladder[0] + if rung == 0 { 1int } else { 0 });
        assert(after.ladder[1] == t.ladder[1] + if rung == 1 { 1int } else { 0 });
        assert(after.ladder[2] == t.ladder[2] + if rung == 2 { 1int } else { 0 });
        assert(after.ladder[3] == t.ladder[3] + if rung == 3 { 1int } else { 0 });
    }
}

/// The mean of a sum over `count` spells; none without a spell.
pub open spec fn mean_over(sum: int, count: int) -> Option<int> {
    if count <= 0 {
        None
    } else {
        Some(sat(rounded_quotient(sum, count)))
    }
}

/// The two tallies taken together.
pub open spec fn merged(a: TallyState, b: TallyState) -> TallyState {
    TallyState {
        count: sat(a.count + b.count),
        lower_sum: sat(a.lower_sum + b.lower_sum),
        upper_sum: sat(a.upper_sum + b.upper_sum),
        ladder_sum: sat(a.ladder_sum + b.ladder_sum),
        ladder: Seq::new(4, |i: int| sat(a.ladder[i] + b.ladder[i]) as i64),
    }
}

impl SpellTally {
    /// The tally of nothing.
    pub fn new() -> (tally: SpellTally)
        ensures
            tally@ == empty_tally(),
    {
        SpellTally {
            count: 0,
            lower_sum: 0,
            upper_sum: 0,
            ladder_sum: 0,
            ladder: RungCounts::none(),
        }
    }

    /// Add one spell, seen in the samples `first` to `last`.
    pub fn add_run(&mut self, times: &Vec<i64>, first: usize, last: usize)
        ensures
            final(self)@ == run_added(old(self)@, times@, first as int, last as int),
    {
        if first >= times.len() || last >= times.len() {
            return ;
        }
        let lower: i64 = minus(times[last], times[first]);
        let before: i64 = if first > 0 {
            minus(times[first], times[first - 1])
        } else {
            0
        };
        let after: i64 = if last < times.len() - 1 {
            minus(times[last + 1], times[last])
        } else {
            0
        };
        let rung: usize = ladder_rung(lower);
        let seconds: i64 = (rung as i64 + 1) * RUNG_SECONDS;
        self.count = plus(self.count, 1);
        self.lower_sum = plus(self.lower_sum, lower);
        self.upper_sum = plus(self.upper_sum, plus(plus(lower, before), after));
        self.ladder_sum = plus(self.ladder_sum, seconds);
        self.ladder.add_on(rung, 1);
    }

    /// Add every spell of one sampled series.
    pub fn add_series(&mut self, times: &Vec<i64>, rushed: &Vec<bool>)
        ensures
            final(self)@ == series_added(old(self)@, times@, rushed@),
    {
        let mut first: usize = 0;
        let mut index: usize = 0;
        let total: usize = rushed.len();
        let ghost start = self@;
        while index < total
            invariant
                index <= total,
                total == rushed@.len(),
                index > 0 && rushed@[index - 1] ==> first == spell_start(rushed@, index - 1),
                self@ == runs_added(
                    start,
                    times@,
                    spells(rushed@, index as int),
                    spells(rushed@, index as int).len(),
                ),
            decreases total - index,
        {
            if rushed[index] {
                if index == 0 || !rushed[index - 1] {
                    first = index;
                }
                if index == total - 1 || !rushed[index + 1] {
                    self.add_run(times, first, index);
                }
            }
            proof {
                let before = spells(rushed@, index as int);
                let now = spells(rushed@, index + 1);
                assert(before.is_prefix_of(now));
                lemma_runs_added_prefix(start, times@, before, now, before.len());
            }
            index = index + 1;
        }
    }

    /// Take another tally's spells in.
    pub fn merge(&mut self, other: &SpellTally)
        ensures
            final(self)@ == merged(old(self)@, other@),
    {
        self.count = plus(self.count, other.count);
        self.lower_sum = plus(self.lower_sum, other.lower_sum);
        self.upper_sum = plus(self.upper_sum, other.upper_sum);
        self.ladder_sum = plus(self.ladder_sum, other.ladder_sum);
        self.ladder.three = plus(self.ladder.three, other.ladder.three);
        self.ladder.six = plus(self.ladder.six, other.ladder.six);
        self.ladder.nine = plus(self.ladder.nine, other.ladder.nine);
        self.ladder.twelve = plus(self.ladder.twelve, other.ladder.twelve);
        proof {
            assert(self@.ladder =~= merged(old(self)@, other@).ladder);
        }
    }

    fn mean(&self, sum: i64) -> (mean: Option<i64>)
        ensures
            match mean {
                Some(m) => mean_over(sum as int, self.count as int) == Some(m as int),
                None => mean_over(sum as int, self.count as int) is None,
            },
    {
        if self.count <= 0 {
            None
        } else {
            Some(clamp_wide(divide_rounded(sum as i128, self.count as i128)))
        }
    }

    /// Mean of the spans; none without a spell.
    pub fn mean_lower(&self) -> (mean: Option<i64>)
        ensures
            match mean {
                Some(m) => mean_over(self@.lower_sum, self@.count) == Some(m as int),
                None => mean_over(self@.lower_sum, self@.count) is None,
            },
    {
        self.mean(self.lower_sum)
    }

    /// Mean of the upper bounds; none without a spell.
    pub fn mean_upper(&self) -> (mean: Option<i64>)
        ensures
            match mean {
                Some(m) => mean_over(self@.upper_sum, self@.count) == Some(m as int),
                None => mean_over(self@.upper_sum, self@.count) is None,
            },
    {
        self.mean(self.upper_sum)
    }

    /// Mean duration read off the ladder; none without a spell.
    pub fn mean_ladder(&self) -> (mean: Option<i64>)
        ensures
            match mean {
                Some(m) => mean_over(self@.ladder_sum, self@.count) == Some(m as int),
                None => mean_over(self@.ladder_sum, self@.count) is None,
            },
    {
        self.mean(self.ladder_sum)
    }

    /// Share of the spells on a rung; 0 without a spell on it.
    pub fn share(&self, rung: usize) -> (share: i64)
        requires
            rung <= TOP_RUNG,
        ensures
            share == sat(
                rounded_quotient(
                    self@.ladder[rung as int] * ONE,
                    if self.count >= 1 {
                        self.count as int
                    } else {
                        1
                    },
                ),
            ),
    {
        let total: i64 = if self.count >= 1 {
            self.count
        } else {
            1
        };
        let n: i64 = self.ladder.get(rung);
        clamp_wide(divide_rounded(n as i128 * ONE as i128, total as i128))
    }
}

/// The spells of a recording beside those of the simulated rounds.
#[derive(Debug, Clone, Copy, PartialEq, Eq, Structural)]
pub struct SpellComparison {
    /// The recording's.
    pub observed: SpellTally,
    /// The rounds', summed.
    pub sim: SpellTally,
    /// How many rounds.
    pub rounds: i64,
}

impl SpellComparison {
    /// Take another comparison in.
    pub fn merge(&mut self, other: &SpellComparison)
        ensures
            final(self).observed@ == merged(old(self).observed@, other.observed@),
            final(self).sim@ == merged(old(self).sim@, other.sim@),
            final(self).rounds == sat(old(self).rounds + other.rounds),
    {
        self.observed.merge(&other.observed);
        self.sim.merge(&other.sim);
        self.rounds = plus(self.rounds, other.rounds);
    }

    /// How much longer the simulated spells run, read off the ladder; none
    /// without a spell on either side.
    pub fn duration_diff(&self) -> (diff: Option<i64>)
        ensures
            match diff {
                Some(d) => self.observed.count > 0 && self.sim.count > 0 && d == sat(
                    mean_over(self.sim@.ladder_sum, self.sim@.count)->0 - mean_over(
                        self.observed@.ladder_sum,
                        self.observed@.count,
                    )->0,
                ),
                None => self.observed.count <= 0 || self.sim.count <= 0,
            },
    {
        match (self.sim.mean_ladder(), self.observed.mean_ladder()) {
            (Some(sim), Some(observed)) => Some(minus(sim, observed)),
            _ => None,
        }
    }
}

} // verus!
