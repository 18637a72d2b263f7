//! A recorded race and what can be read off it. A simulated round is read the
//! same way.
use crate::accuracy::spells::{
    empty_tally, series_added, spell_start, spells, SpellComparison, SpellTally, TallyState,
};
use crate::language::Region;
use crate::units::{
    clamp_wide, count_of, divide_rounded, larger, max_quantity, minus, plus, rounded_quotient, sat,
    wide_product, ONE,
};
use vstd::prelude::*;

verus! {

/// The kind of event a skill activation is recorded as.
pub const EVENT_SKILL: i8 = 3;

/// One recorded frame, a column per gate.
#[derive(Debug)]
pub struct ObservedFrame {
    /// Race time.
    pub time: i64,
    /// Metres run.
    pub distance: Vec<i64>,
    /// Centimetres per second.
    pub speed: Vec<i64>,
    /// Hit points.
    pub hp: Vec<i64>,
    /// Rushed mode: 0 calm. Older recordings have none.
    pub rushed: Vec<i64>,
    /// Gate of the runner blocking in front, or negative. Older recordings have
    /// none.
    pub blocker: Vec<i64>,
    /// Lane, 10000 to the course's width. Older recordings have none.
    pub lane: Vec<i64>,
}

/// How a runner finished.
#[derive(Debug, Clone, Copy, PartialEq, Eq, Structural)]
pub struct ObservedResult {
    pub finish_order: i32,
    pub finish_time_raw: i64,
    pub last_spurt_start_distance: i64,
}

/// One recorded event.
#[derive(Debug)]
pub struct ObservedEvent {
    pub frame_time: i64,
    pub kind: i8,
    pub params: Vec<i64>,
}

/// A recorded race: its frames in time order, and a result per gate.
#[derive(Debug)]
pub struct Observed {
    pub frames: Vec<ObservedFrame>,
    pub results: Vec<ObservedResult>,
    pub events: Vec<ObservedEvent>,
}

impl Observed {
    /// Whether every frame has a distance for every gate.
    pub open spec fn covers_gates(&self) -> bool {
        forall|i: int|
            0 <= i < self.frames@.len() ==> (#[trigger] self.frames@[i]).distance@.len()
                >= self.results@.len()
    }

    /// Whether every activation names a gate of the race.
    pub open spec fn names_gates(&self) -> bool {
        forall|i: int|
            0 <= i < self.events@.len() && is_activation(#[trigger] self.events@[i]) ==> 0
                <= self.events@[i].params@[0] < self.results@.len()
    }
}

/// Whether a frame shows a gate's runner rushed.
pub open spec fn shows_rushed(frame: ObservedFrame, gate: int) -> bool {
    0 <= gate < frame.rushed@.len() && frame.rushed@[gate] != 0
}

/// A gate's runner rushed or not, per frame.
pub open spec fn rushed_flags(observed: Observed, gate: int) -> Seq<bool> {
    Seq::new(observed.frames@.len(), |i: int| shows_rushed(observed.frames@[i], gate))
}

/// The time of each frame.
pub open spec fn frame_times(observed: Observed) -> Seq<i64> {
    Seq::new(observed.frames@.len(), |i: int| observed.frames@[i].time)
}

fn read_rushed_flags(observed: &Observed, gate: usize) -> (flags: Vec<bool>)
    ensures
        flags@ == rushed_flags(*observed, gate as int),
{
    let mut flags: Vec<bool> = Vec::new();
    let mut i: usize = 0;
    while i < observed.frames.len()
        invariant
            i <= observed.frames@.len(),
            flags@.len() == i,
            forall|j: int|
                0 <= j < i ==> flags@[j] == shows_rushed(
                    #[trigger] observed.frames@[j],
                    gate as int,
                ),
        decreases observed.frames@.len() - i,
    {
        let frame = &observed.frames[i];
        flags.push(gate < frame.rushed.len() && frame.rushed[gate] != 0);
        i = i + 1;
    }
    assert(flags@ =~= rushed_flags(*observed, gate as int));
    flags
}

fn read_frame_times(observed: &Observed) -> (times: Vec<i64>)
    ensures
        times@ == frame_times(*observed),
{
    let mut times: Vec<i64> = Vec::new();
    let mut i: usize = 0;
    while i < observed.frames.len()
        invariant
            i <= observed.frames@.len(),
            times@.len() == i,
            forall|j: int| 0 <= j < i ==> times@[j] == (#[trigger] observed.frames@[j]).time,
        decreases observed.frames@.len() - i,
    {
        times.push(observed.frames[i].time);
        i = i + 1;
    }
    assert(times@ =~= frame_times(*observed));
    times
}

/// The tally with the rushed spells of a race's first `n` gates added.
pub open spec fn gates_tallied(t: TallyState, race: Observed, n: nat) -> TallyState
    decreases n,
{
    if n == 0 {
        t
    } else {
        series_added(
            gates_tallied(t, race, (n - 1) as nat),
            frame_times(race),
            rushed_flags(race, n - 1),
        )
    }
}

fn tally_gates(tally: &mut SpellTally, race: &Observed, gates: usize)
    ensures
        final(tally)@ == gates_tallied(old(tally)@, *race, gates as nat),
{
    let times = read_frame_times(race);
    let ghost start = tally@;
    let mut gate: usize = 0;
    while gate < gates
        invariant
            gate <= gates,
            times@ == frame_times(*race),
            tally@ == gates_tallied(start, *race, gate as nat),
        decreases gates - gate,
    {
        let flags = read_rushed_flags(race, gate);
        tally.add_series(&times, &flags);
        gate = gate + 1;
    }
}

/// The recorded rushed spells, over every gate.
pub fn observed_rushed_spells(observed: &Observed) -> (tally: SpellTally)
    ensures
        tally@ == gates_tallied(empty_tally(), *observed, observed.results@.len()),
{
    let mut tally = SpellTally::new();
    tally_gates(&mut tally, observed, observed.results.len());
    tally
}

/// The rushed spells of the first `n` rounds, over `gates` gates each.
pub open spec fn rounds_tallied(rounds: Seq<Observed>, gates: nat, n: nat) -> TallyState
    decreases n,
{
    if n == 0 {
        empty_tally()
    } else {
        gates_tallied(rounds_tallied(rounds, gates, (n - 1) as nat), rounds[n - 1], gates)
    }
}

/// The simulated rushed spells, over every runner of every round.
pub fn simulated_rushed_spells(rounds: &Vec<Observed>, runners: usize) -> (tally: SpellTally)
    ensures
        tally@ == rounds_tallied(rounds@, runners as nat, rounds@.len()),
{
    let mut tally = SpellTally::new();
    let mut i: usize = 0;
    while i < rounds.len()
        invariant
            i <= rounds@.len(),
            tally@ == rounds_tallied(rounds@, runners as nat, i as nat),
        decreases rounds@.len() - i,
    {
        tally_gates(&mut tally, &rounds[i], runners);
        i = i + 1;
    }
    tally
}

/// The recorded rushed spells of a race beside the simulated ones. The
/// simulated side reads each round on its own, not the rate over the rounds: a
/// rate against a flag stays near agreement however wrong the lengths are.
pub fn rushed_spells(observed: &Observed, rounds: &Vec<Observed>) -> (comparison: SpellComparison)
    ensures
        comparison.observed@ == gates_tallied(
            empty_tally(),
            *observed,
            observed.results@.len(),
        ),
        comparison.sim@ == rounds_tallied(rounds@, observed.results@.len(), rounds@.len()),
        comparison.rounds == sat(rounds@.len() as int),
{
    SpellComparison {
        observed: observed_rushed_spells(observed),
        sim: simulated_rushed_spells(rounds, observed.results.len()),
        rounds: count_of(rounds.len()),
    }
}

/// The stretch of course of the spell `run`: from where it is first seen to
/// where it is first seen over. One still going in the last frame ends there,
/// at least a metre on.
pub open spec fn spell_region(observed: Observed, gate: int, run: (int, int)) -> Region {
    let frames = observed.frames@;
    let start = frames[run.0].distance@[gate];
    if run.1 + 1 < frames.len() {
        Region { start, end: frames[run.1 + 1].distance@[gate] }
    } else {
        Region {
            start,
            end: larger(frames[run.1].distance@[gate] as int, sat(start + ONE)) as i64,
        }
    }
}

/// The spells `runs` of a gate as stretches of course.
pub open spec fn spell_regions(observed: Observed, gate: int, runs: Seq<(int, int)>) -> Seq<
    Region,
> {
    Seq::new(runs.len(), |i: int| spell_region(observed, gate, runs[i]))
}

/// A gate's rushed spells as stretches of course.
pub open spec fn gate_regions(observed: Observed, gate: int) -> Seq<Region> {
    spell_regions(
        observed,
        gate,
        spells(rushed_flags(observed, gate), observed.frames@.len() as int),
    )
}

fn read_gate_regions(observed: &Observed, gate: usize) -> (regions: Vec<Region>)
    requires
        observed.covers_gates(),
        gate < observed.results@.len(),
    ensures
        regions@ == gate_regions(*observed, gate as int),
{
    let flags = read_rushed_flags(observed, gate);
    let mut regions: Vec<Region> = Vec::new();
    let mut first: usize = 0;
    let mut index: usize = 0;
    let total: usize = flags.len();
    while index < total
        invariant
            index <= total,
            total == flags@.len(),
            total == observed.frames@.len(),
            flags@ == rushed_flags(*observed, gate as int),
            observed.covers_gates(),
            gate < observed.results@.len(),
            index > 0 && flags@[index - 1] ==> first == spell_start(flags@, index - 1) && first
                < index,
            regions@ == spell_regions(*observed, gate as int, spells(flags@, index as int)),
        decreases total - index,
    {
        if flags[index] {
            if index == 0 || !flags[index - 1] {
                first = index;
            }
            if index == total - 1 || !flags[index + 1] {
                let start: i64 = observed.frames[first].distance[gate];
                let end: i64 = if index < total - 1 {
                    observed.frames[index + 1].distance[gate]
                } else {
                    max_quantity(observed.frames[index].distance[gate], plus(start, ONE))
                };
                regions.push(Region::new(start, end));
            }
        }
        proof {
            let now = spells(flags@, index + 1);
            assert(regions@ =~= spell_regions(*observed, gate as int, now));
        }
        index = index + 1;
    }
    regions
}

/// The recorded rushed spells per gate, as stretches of course.
pub fn observed_rushed_regions(observed: &Observed) -> (regions: Vec<Vec<Region>>)
    requires
        observed.covers_gates(),
    ensures
        regions@.len() == observed.results@.len(),
        forall|gate: int|
            0 <= gate < regions@.len() ==> (#[trigger] regions@[gate])@ == gate_regions(
                *observed,
                gate,
            ),
{
    let mut regions: Vec<Vec<Region>> = Vec::new();
    let mut gate: usize = 0;
    while gate < observed.results.len()
        invariant
            gate <= observed.results@.len(),
            observed.covers_gates(),
            regions@.len() == gate,
            forall|g: int|
                0 <= g < gate ==> (#[trigger] regions@[g])@ == gate_regions(*observed, g),
        decreases observed.results@.len() - gate,
    {
        regions.push(read_gate_regions(observed, gate));
        gate = gate + 1;
    }
    regions
}

/// How often a row holds `mode` among its first `n` entries.
pub open spec fn times_in_row(row: Seq<i64>, mode: i64, n: nat) -> int
    decreases n,
{
    if n == 0 {
        0
    } else {
        times_in_row(row, mode, (n - 1) as nat) + if row[n - 1] == mode {
            1int
        } else {
            0
        }
    }
}

/// How often the first `n` frames show `mode`.
pub open spec fn times_shown(frames: Seq<ObservedFrame>, mode: i64, n: nat) -> int
    decreases n,
{
    if n == 0 {
        0
    } else {
        times_shown(frames, mode, (n - 1) as nat) + times_in_row(
            frames[n - 1].rushed@,
            mode,
            frames[n - 1].rushed@.len(),
        )
    }
}

/// Samples per rushed mode.
#[derive(Debug, Clone, Copy, PartialEq, Eq, Structural)]
pub struct ModeCounts {
    /// Mode 1.
    pub sashi: i64,
    /// Mode 2.
    pub senko: i64,
    /// Mode 3.
    pub nige: i64,
    /// Mode 4.
    pub boost: i64,
}

fn count_mode(observed: &Observed, mode: i64) -> (n: i64)
    ensures
        n == sat(times_shown(observed.frames@, mode, observed.frames@.len())),
{
    let mut n: i64 = 0;
    let mut i: usize = 0;
    while i < observed.frames.len()
        invariant
            i <= observed.frames@.len(),
            n == sat(times_shown(observed.frames@, mode, i as nat)),
            times_shown(observed.frames@, mode, i as nat) >= 0,
        decreases observed.frames@.len() - i,
    {
        let row = &observed.frames[i].rushed;
        let mut k: usize = 0;
        while k < row.len()
            invariant
                i < observed.frames@.len(),
                *row == observed.frames@[i as int].rushed,
                k <= row@.len(),
                times_shown(observed.frames@, mode, i as nat) >= 0,
                times_in_row(row@, mode, k as nat) >= 0,
                n == sat(
                    times_shown(observed.frames@, mode, i as nat) + times_in_row(
                        row@,
                        mode,
                        k as nat,
                    ),
                ),
            decreases row@.len() - k,
        {
            if row[k] == mode {
                n = plus(n, 1);
            }
            k = k + 1;
        }
        i = i + 1;
    }
    n
}

/// The recorded samples per rushed mode: the mode itself, where a spell only
/// asks whether there is one.
pub fn observed_mode_counts(observed: &Observed) -> (counts: ModeCounts)
    ensures
        counts.sashi == sat(times_shown(observed.frames@, 1, observed.frames@.len())),
        counts.senko == sat(times_shown(observed.frames@, 2, observed.frames@.len())),
        counts.nige == sat(times_shown(observed.frames@, 3, observed.frames@.len())),
        counts.boost == sat(times_shown(observed.frames@, 4, observed.frames@.len())),
{
    ModeCounts {
        sashi: count_mode(observed, 1),
        senko: count_mode(observed, 2),
        nige: count_mode(observed, 3),
        boost: count_mode(observed, 4),
    }
}

/// How often the first `n` rounds show `mode`.
pub open spec fn times_shown_in(rounds: Seq<Observed>, mode: i64, n: nat) -> int
    decreases n,
{
    if n == 0 {
        0
    } else {
        times_shown_in(rounds, mode, (n - 1) as nat) + times_shown(
            rounds[n - 1].frames@,
            mode,
            rounds[n - 1].frames@.len(),
        )
    }
}

proof fn lemma_times_are_natural(frames: Seq<ObservedFrame>, mode: i64, n: nat)
    ensures
        times_shown(frames, mode, n) >= 0,
    decreases n,
{
    if n > 0 {
        lemma_times_are_natural(frames, mode, (n - 1) as nat);
        lemma_row_is_natural(frames[n - 1].rushed@, mode, frames[n - 1].rushed@.len());
    }
}

proof fn lemma_row_is_natural(row: Seq<i64>, mode: i64, n: nat)
    ensures
        times_in_row(row, mode, n) >= 0,
    decreases n,
{
    if n > 0 {
        lemma_row_is_natural(row, mode, (n - 1) as nat);
    }
}

fn count_mode_in(rounds: &Vec<Observed>, mode: i64) -> (n: i64)
    ensures
        n == sat(times_shown_in(rounds@, mode, rounds@.len())),
{
    let mut n: i64 = 0;
    let mut i: usize = 0;
    while i < rounds.len()
        invariant
            i <= rounds@.len(),
            times_shown_in(rounds@, mode, i as nat) >= 0,
            n == sat(times_shown_in(rounds@, mode, i as nat)),
        decreases rounds@.len() - i,
    {
        proof {
            lemma_times_are_natural(
                rounds@[i as int].frames@,
                mode,
                rounds@[i as int].frames@.len(),
            );
        }
        n = plus(n, count_mode(&rounds[i], mode));
        i = i + 1;
    }
    n
}

/// The simulated samples per rushed mode, over every round.
pub fn simulated_mode_counts(rounds: &Vec<Observed>) -> (counts: ModeCounts)
    ensures
        counts.sashi == sat(times_shown_in(rounds@, 1, rounds@.len())),
        counts.senko == sat(times_shown_in(rounds@, 2, rounds@.len())),
        counts.nige == sat(times_shown_in(rounds@, 3, rounds@.len())),
        counts.boost == sat(times_shown_in(rounds@, 4, rounds@.len())),
{
    ModeCounts {
        sashi: count_mode_in(rounds, 1),
        senko: count_mode_in(rounds, 2),
        nige: count_mode_in(rounds, 3),
        boost: count_mode_in(rounds, 4),
    }
}

/// The first frame from `i` on that is not before `time`.
pub open spec fn first_frame_at(frames: Seq<ObservedFrame>, time: i64, i: int) -> int
    decreases frames.len() - i,
{
    if i >= frames.len() || frames[i].time >= time {
        i
    } else {
        first_frame_at(frames, time, i + 1)
    }
}

/// A runner's recorded distance at `time`: on the line between the frames
/// before and after it, or that of the one frame on the only side there is.
pub open spec fn distance_at(observed: Observed, gate: int, time: i64) -> int {
    let frames = observed.frames@;
    let after = first_frame_at(frames, time, 0);
    if frames.len() == 0 {
        0
    } else if after == 0 {
        frames[0].distance@[gate] as int
    } else if after == frames.len() {
        frames.last().distance@[gate] as int
    } else {
        let prev = frames[after - 1];
        let next = frames[after];
        let run = sat(next.distance@[gate] - prev.distance@[gate]);
        let share = rounded_quotient(
            sat(time - prev.time) * run,
            sat(next.time - prev.time),
        );
        sat(prev.distance@[gate] + sat(share))
    }
}

pub(crate) proof fn lemma_first_frame_at(frames: Seq<ObservedFrame>, time: i64, i: int)
    requires
        0 <= i <= frames.len(),
    ensures
        i <= first_frame_at(frames, time, i) <= frames.len(),
        forall|k: int|
            i <= k < first_frame_at(frames, time, i) ==> (#[trigger] frames[k]).time < time,
        first_frame_at(frames, time, i) < frames.len() ==> frames[first_frame_at(
            frames,
            time,
            i,
        )].time >= time,
    decreases frames.len() - i,
{
    if i < frames.len() && frames[i].time < time {
        lemma_first_frame_at(frames, time, i + 1);
    }
}

/// See [`first_frame_at`].
pub(crate) fn find_frame_at(frames: &Vec<ObservedFrame>, time: i64) -> (at: usize)
    ensures
        at == first_frame_at(frames@, time, 0),
        at <= frames@.len(),
{
    let mut at: usize = 0;
    while at < frames.len() && frames[at].time < time
        invariant
            at <= frames@.len(),
            first_frame_at(frames@, time, 0) == first_frame_at(frames@, time, at as int),
        decreases frames@.len() - at,
    {
        at = at + 1;
    }
    at
}

/// See [`distance_at`].
pub fn observed_distance_at(observed: &Observed, gate: usize, time: i64) -> (distance: i64)
    requires
        observed.covers_gates(),
        gate < observed.results@.len(),
    ensures
        distance == distance_at(*observed, gate as int, time),
{
    let frames = &observed.frames;
    let total: usize = frames.len();
    if total == 0 {
        return 0;
    }
    let after: usize = find_frame_at(frames, time);
    proof {
        lemma_first_frame_at(frames@, time, 0);
    }
    if after == 0 {
        return frames[0].distance[gate];
    }
    if after == total {
        return frames[total - 1].distance[gate];
    }
    let prev = &frames[after - 1];
    let next = &frames[after];
    let run: i64 = minus(next.distance[gate], prev.distance[gate]);
    let elapsed: i64 = minus(time, prev.time);
    let span: i64 = minus(next.time, prev.time);
    let share: i128 = divide_rounded(wide_product(elapsed, run), span as i128);
    plus(prev.distance[gate], clamp_wide(share))
}

/// The recorded distance lies between those of the frames around it.
pub proof fn a_distance_lies_between_its_frames(observed: Observed, gate: int, time: i64)
    requires
        observed.covers_gates(),
        0 <= gate < observed.results@.len(),
        0 < first_frame_at(observed.frames@, time, 0) < observed.frames@.len(),
        forall|i: int, j: int|
            0 <= i < j < observed.frames@.len() ==> 0 <= (
            #[trigger] observed.frames@[i]).distance@[gate] <= (
            #[trigger] observed.frames@[j]).distance@[gate] && 0 <= observed.frames@[i].time
                <= observed.frames@[j].time,
    ensures
        ({
            let after = first_frame_at(observed.frames@, time, 0);
            observed.frames@[after - 1].distance@[gate] <= distance_at(observed, gate, time)
                <= observed.frames@[after].distance@[gate]
        }),
{
    let frames = observed.frames@;
    let after = first_frame_at(frames, time, 0);
    lemma_first_frame_at(frames, time, 0);
    let prev = frames[after - 1];
    let next = frames[after];
    assert(prev.time < time <= next.time);
    assert(0 <= prev.distance@[gate] <= next.distance@[gate]);
    let run = next.distance@[gate] - prev.distance@[gate];
    let elapsed = time - prev.time;
    let span = next.time - prev.time;
    let share = rounded_quotient(elapsed * run, span);
    assert(0 <= elapsed * run <= span * run) by (nonlinear_arith)
        requires
            0 <= elapsed <= span,
            0 <= run,
    ;
    let m = elapsed * run;
    assert(m / span <= run) by (nonlinear_arith)
        requires
            0 <= m <= span * run,
            span > 0,
    ;
    assert(m / span == run ==> m % span == 0) by (nonlinear_arith)
        requires
            0 <= m <= span * run,
            span > 0,
    ;
    assert(0 <= m / span) by (nonlinear_arith)
        requires
            0 <= m,
            span > 0,
    ;
    assert(0 <= share <= run);
}

/// A skill activation as the recording first shows it.
#[derive(Debug, Clone, Copy, PartialEq, Eq, Structural)]
pub struct Activation {
    /// The skill's number.
    pub skill: i64,
    /// Where.
    pub distance: i64,
}

/// Whether an event is an activation: a skill event with a gate and a skill.
pub open spec fn is_activation(event: ObservedEvent) -> bool {
    event.kind == EVENT_SKILL && event.params@.len() >= 2
}

/// Whether a skill is among the activations.
pub open spec fn activated(list: Seq<Activation>, skill: i64) -> bool {
    exists|i: int| 0 <= i < list.len() && (#[trigger] list[i]).skill == skill
}

/// A gate's activations among the first `n` events, the first of each skill.
pub open spec fn gate_activations(observed: Observed, gate: int, n: nat) -> Seq<Activation>
    decreases n,
{
    if n == 0 {
        Seq::empty()
    } else {
        let before = gate_activations(observed, gate, (n - 1) as nat);
        let event = observed.events@[n - 1];
        if is_activation(event) && event.params@[0] == gate && !activated(
            before,
            event.params@[1],
        ) {
            before.push(
                Activation {
                    skill: event.params@[1],
                    distance: distance_at(observed, gate, event.frame_time) as i64,
                },
            )
        } else {
            before
        }
    }
}

/// No skill is listed twice.
pub proof fn each_skill_activates_once(observed: Observed, gate: int, n: nat, i: int, j: int)
    requires
        0 <= i < j < gate_activations(observed, gate, n).len(),
    ensures
        gate_activations(observed, gate, n)[i].skill != gate_activations(
            observed,
            gate,
            n,
        )[j].skill,
    decreases n,
{
    let before = gate_activations(observed, gate, (n - 1) as nat);
    if j < before.len() {
        each_skill_activates_once(observed, gate, (n - 1) as nat, i, j);
    } else {
        assert(before[i].skill != observed.events@[n - 1].params@[1]);
    }
}

pub(crate) fn lists_skill(list: &Vec<Activation>, skill: i64) -> (found: bool)
    ensures
        found == activated(list@, skill),
{
    let mut i: usize = 0;
    while i < list.len()
        invariant
            i <= list@.len(),
            forall|k: int| 0 <= k < i ==> (#[trigger] list@[k]).skill != skill,
        decreases list@.len() - i,
    {
        if list[i].skill == skill {
            assert(list@[i as int].skill == skill);
            return true;
        }
        i = i + 1;
    }
    false
}

fn read_gate_activations(observed: &Observed, gate: usize) -> (list: Vec<Activation>)
    requires
        observed.covers_gates(),
        gate < observed.results@.len(),
    ensures
        list@ == gate_activations(*observed, gate as int, observed.events@.len()),
{
    let mut list: Vec<Activation> = Vec::new();
    let mut i: usize = 0;
    while i < observed.events.len()
        invariant
            i <= observed.events@.len(),
            observed.covers_gates(),
            gate < observed.results@.len(),
            list@ == gate_activations(*observed, gate as int, i as nat),
        decreases observed.events@.len() - i,
    {
        let event = &observed.events[i];
        if event.kind == EVENT_SKILL && event.params.len() >= 2 && event.params[0] >= 0
            && event.params[0] as u64 == gate as u64 {
            let skill: i64 = event.params[1];
            if !lists_skill(&list, skill) {
                list.push(
                    Activation {
                        skill,
                        distance: observed_distance_at(observed, gate, event.frame_time),
                    },
                );
            }
        }
        i = i + 1;
    }
    list
}

/// The recorded activations per gate, each skill where it first fired.
pub fn observed_activations(observed: &Observed) -> (per_runner: Vec<Vec<Activation>>)
    requires
        observed.covers_gates(),
        observed.names_gates(),
    ensures
        per_runner@.len() == observed.results@.len(),
        forall|gate: int|
            0 <= gate < per_runner@.len() ==> (#[trigger] per_runner@[gate])@
                == gate_activations(*observed, gate, observed.events@.len()),
{
    let mut per_runner: Vec<Vec<Activation>> = Vec::new();
    let mut gate: usize = 0;
    while gate < observed.results.len()
        invariant
            gate <= observed.results@.len(),
            observed.covers_gates(),
            per_runner@.len() == gate,
            forall|g: int|
                0 <= g < gate ==> (#[trigger] per_runner@[g])@ == gate_activations(
                    *observed,
                    g,
                    observed.events@.len(),
                ),
        decreases observed.results@.len() - gate,
    {
        per_runner.push(read_gate_activations(observed, gate));
        gate = gate + 1;
    }
    per_runner
}

} // verus!
