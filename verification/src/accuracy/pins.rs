//! What a recording pins of a simulated race: where each skill fires, where the
//! last spurt starts, and where a runner is rushed or in downhill mode.
use crate::accuracy::recording::{
    activated, gate_activations, gate_regions, lists_skill, observed_activations,
    observed_rushed_regions, shows_rushed, Activation, Observed, ObservedFrame,
};
use crate::accuracy::score::has_gates;
use crate::language::Region;
use crate::units::{
    clamp_wide, divide_rounded, larger, max_quantity, minus, plus, product, rounded_quotient, sat,
    times, wide_product, ONE,
};
use vstd::prelude::*;

verus! {

/// The shortest gap between two frames that a drain is read off: half a second.
pub const SHORTEST_READING: i64 = 500_000_000;

/// A slope of the course; a descent where it is negative.
#[derive(Debug, Clone, Copy, PartialEq, Eq, Structural)]
pub struct Slope {
    pub start: i64,
    pub length: i64,
    pub slope: i64,
}

/// Whether a slope is a descent over a distance.
pub open spec fn descends_at(slope: Slope, distance: i64) -> bool {
    slope.slope < 0 && slope.start <= distance < slope.start + slope.length
}

/// Whether a distance lies on a descent.
pub open spec fn on_downhill(slopes: Seq<Slope>, distance: i64) -> bool {
    exists|i: int| 0 <= i < slopes.len() && descends_at(#[trigger] slopes[i], distance)
}

fn is_downhill(slopes: &Vec<Slope>, distance: i64) -> (yes: bool)
    ensures
        yes == on_downhill(slopes@, distance),
{
    let mut i: usize = 0;
    while i < slopes.len()
        invariant
            i <= slopes@.len(),
            forall|k: int| 0 <= k < i ==> !descends_at(#[trigger] slopes@[k], distance),
        decreases slopes@.len() - i,
    {
        let s = slopes[i];
        if s.slope < 0 && s.start <= distance && (distance as i128) < s.start as i128
            + s.length as i128 {
            assert(descends_at(slopes@[i as int], distance));
            return true;
        }
        i = i + 1;
    }
    false
}

/// The documented hit points drained per second at `speed`, before any status:
/// 20 (speed - base + 12)^2 / 144, with the base speed of the course.
pub open spec fn drain_at(speed: int, course_distance: int) -> int {
    let base = sat(
        20 * ONE - sat(rounded_quotient(sat(course_distance - 2000 * ONE), 1000)),
    );
    let over = sat(sat(speed - base) + 12 * ONE);
    sat(rounded_quotient(20 * product(over, over), 144))
}

/// See [`drain_at`].
pub fn documented_drain(speed: i64, course_distance: i64) -> (drain: i64)
    ensures
        drain == drain_at(speed as int, course_distance as int),
{
    let past: i64 = minus(course_distance, 2_000_000_000_000);
    let base: i64 = minus(20_000_000_000, clamp_wide(divide_rounded(past as i128, 1000)));
    let over: i64 = plus(minus(speed, base), 12_000_000_000);
    let square: i64 = times(over, over);
    clamp_wide(divide_rounded(20 * square as i128, 144))
}

/// The course as far as the drain is read against it.
#[derive(Debug)]
pub struct DrainCourse {
    pub distance: i64,
    pub slopes: Vec<Slope>,
}

/// Whether a runner's drain between two frames can be read: on a descent, calm,
/// still with hit points, and the frames far enough apart.
pub open spec fn readable_drain(
    a: ObservedFrame,
    b: ObservedFrame,
    gate: int,
    course: DrainCourse,
) -> bool {
    &&& sat(b.time - a.time) >= SHORTEST_READING
    &&& on_downhill(course.slopes@, a.distance@[gate])
    &&& on_downhill(course.slopes@, b.distance@[gate])
    &&& !shows_rushed(a, gate)
    &&& !shows_rushed(b, gate)
    &&& b.hp@[gate] > 0
}

/// The drain expected of a runner between two frames: from two thirds of the
/// course on her guts count too.
pub open spec fn expected_drain(
    a: ObservedFrame,
    b: ObservedFrame,
    gate: int,
    course: DrainCourse,
    guts_modifier: i64,
) -> int {
    let speed = sat(rounded_quotient(a.speed@[gate] + b.speed@[gate], 200));
    let drain = drain_at(speed, course.distance as int);
    if 3 * (a.distance@[gate] + b.distance@[gate]) >= 4 * course.distance {
        product(drain, guts_modifier as int)
    } else {
        drain
    }
}

/// Whether a runner's drain between two frames shows downhill mode: under half
/// of what is expected, which nothing else brings about.
pub open spec fn shows_downhill(
    a: ObservedFrame,
    b: ObservedFrame,
    gate: int,
    course: DrainCourse,
    guts_modifier: i64,
) -> bool {
    let lost = sat(a.hp@[gate] - b.hp@[gate]);
    &&& readable_drain(a, b, gate, course)
    &&& lost > 0
    &&& 2 * lost * ONE < expected_drain(a, b, gate, course, guts_modifier) * sat(b.time - a.time)
}

/// The descents read so far, and where the one still going began.
#[verifier::ext_equal]
pub struct DescentState {
    pub open: Option<i64>,
    pub spells: Seq<Region>,
}

/// The descents once the frames up to `n` are read. A spell ends with the first
/// reading that does not show the mode, or off the descent.
pub open spec fn descents(
    frames: Seq<ObservedFrame>,
    gate: int,
    course: DrainCourse,
    guts_modifier: i64,
    n: nat,
) -> DescentState
    decreases n,
{
    if n <= 1 {
        DescentState { open: None, spells: Seq::empty() }
    } else {
        let before = descents(frames, gate, course, guts_modifier, (n - 1) as nat);
        let a = frames[n - 2];
        let b = frames[n - 1];
        match before.open {
            None => if shows_downhill(a, b, gate, course, guts_modifier) {
                DescentState { open: Some(a.distance@[gate]), ..before }
            } else {
                before
            },
            Some(start) => if !shows_downhill(a, b, gate, course, guts_modifier) && (
            readable_drain(a, b, gate, course) || !on_downhill(
                course.slopes@,
                b.distance@[gate],
            )) {
                DescentState {
                    open: None,
                    spells: before.spells.push(Region { start, end: a.distance@[gate] }),
                }
            } else {
                before
            },
        }
    }
}

/// A gate's downhill spells. One still going in the last frame ends there, at
/// least a metre on.
pub open spec fn gate_descents(
    observed: Observed,
    gate: int,
    course: DrainCourse,
    guts_modifier: i64,
) -> Seq<Region> {
    let read = descents(observed.frames@, gate, course, guts_modifier, observed.frames@.len());
    match read.open {
        Some(start) => read.spells.push(
            Region {
                start,
                end: larger(
                    observed.frames@.last().distance@[gate] as int,
                    sat(start + ONE),
                ) as i64,
            },
        ),
        None => read.spells,
    }
}

fn drain_is_readable(
    a: &ObservedFrame,
    b: &ObservedFrame,
    gate: usize,
    course: &DrainCourse,
) -> (yes: bool)
    requires
        has_gates(*a, gate as nat + 1),
        has_gates(*b, gate as nat + 1),
    ensures
        yes == readable_drain(*a, *b, gate as int, *course),
{
    let calm_a: bool = !(gate < a.rushed.len() && a.rushed[gate] != 0);
    let calm_b: bool = !(gate < b.rushed.len() && b.rushed[gate] != 0);
    minus(b.time, a.time) >= SHORTEST_READING && is_downhill(&course.slopes, a.distance[gate])
        && is_downhill(&course.slopes, b.distance[gate]) && calm_a && calm_b && b.hp[gate] > 0
}

fn drain_expected(
    a: &ObservedFrame,
    b: &ObservedFrame,
    gate: usize,
    course: &DrainCourse,
    guts_modifier: i64,
) -> (drain: i64)
    requires
        has_gates(*a, gate as nat + 1),
        has_gates(*b, gate as nat + 1),
    ensures
        drain == expected_drain(*a, *b, gate as int, *course, guts_modifier),
{
    let speed: i64 = clamp_wide(
        divide_rounded(a.speed[gate] as i128 + b.speed[gate] as i128, 200),
    );
    let drain: i64 = documented_drain(speed, course.distance);
    if 3 * (a.distance[gate] as i128 + b.distance[gate] as i128) >= 4 * course.distance as i128 {
        times(drain, guts_modifier)
    } else {
        drain
    }
}

fn downhill_shows(
    a: &ObservedFrame,
    b: &ObservedFrame,
    gate: usize,
    course: &DrainCourse,
    guts_modifier: i64,
) -> (yes: bool)
    requires
        has_gates(*a, gate as nat + 1),
        has_gates(*b, gate as nat + 1),
    ensures
        yes == shows_downhill(*a, *b, gate as int, *course, guts_modifier),
{
    if !drain_is_readable(a, b, gate, course) {
        return false;
    }
    let lost: i64 = minus(a.hp[gate], b.hp[gate]);
    if lost <= 0 {
        return false;
    }
    let expected: i64 = drain_expected(a, b, gate, course, guts_modifier);
    2_000_000_000 * lost as i128 <= wide_product(expected, minus(b.time, a.time)) - 1
}

fn read_gate_descents(
    observed: &Observed,
    gate: usize,
    course: &DrainCourse,
    guts_modifier: i64,
) -> (spells: Vec<Region>)
    requires
        observed.samples_gates(gate as nat + 1),
    ensures
        spells@ == gate_descents(*observed, gate as int, *course, guts_modifier),
{
    let mut spells: Vec<Region> = Vec::new();
    let mut open: Option<i64> = None;
    let total: usize = observed.frames.len();
    if total == 0 {
        assert(spells@ =~= gate_descents(*observed, gate as int, *course, guts_modifier));
        return spells;
    }
    let mut n: usize = 1;
    while n < total
        invariant
            1 <= n <= total,
            total == observed.frames@.len(),
            observed.samples_gates(gate as nat + 1),
            (DescentState { open, spells: spells@ }) == descents(
                observed.frames@,
                gate as int,
                *course,
                guts_modifier,
                n as nat,
            ),
        decreases total - n,
    {
        let a = &observed.frames[n - 1];
        let b = &observed.frames[n];
        proof {
            assert(has_gates(observed.frames@[n - 1], gate as nat + 1));
            assert(has_gates(observed.frames@[n as int], gate as nat + 1));
        }
        let in_mode: bool = downhill_shows(a, b, gate, course, guts_modifier);
        match open {
            None => {
                if in_mode {
                    open = Some(a.distance[gate]);
                }
            },
            Some(start) => {
                if !in_mode && (drain_is_readable(a, b, gate, course) || !is_downhill(
                    &course.slopes,
                    b.distance[gate],
                )) {
                    spells.push(Region::new(start, a.distance[gate]));
                    open = None;
                }
            },
        }
        n = n + 1;
    }
    if let Some(start) = open {
        proof {
            assert(has_gates(observed.frames@[total - 1], gate as nat + 1));
        }
        let last: i64 = observed.frames[total - 1].distance[gate];
        spells.push(Region::new(start, max_quantity(last, plus(start, ONE))));
    }
    spells
}

/// Downhill-mode spells per gate, read off the recorded drain. The mode itself
/// is not recorded. `guts_modifiers` has each runner's late-race factor.
pub fn observed_downhill_regions(
    observed: &Observed,
    course: &DrainCourse,
    guts_modifiers: &Vec<i64>,
) -> (regions: Vec<Vec<Region>>)
    requires
        observed.samples_gates(observed.results@.len()),
        guts_modifiers@.len() >= observed.results@.len(),
    ensures
        regions@.len() == observed.results@.len(),
        forall|gate: int|
            0 <= gate < regions@.len() ==> (#[trigger] regions@[gate])@ == gate_descents(
                *observed,
                gate,
                *course,
                guts_modifiers@[gate],
            ),
{
    let mut regions: Vec<Vec<Region>> = Vec::new();
    let mut gate: usize = 0;
    while gate < observed.results.len()
        invariant
            gate <= observed.results@.len(),
            observed.samples_gates(observed.results@.len()),
            guts_modifiers@.len() >= observed.results@.len(),
            regions@.len() == gate,
            forall|g: int|
                0 <= g < gate ==> (#[trigger] regions@[g])@ == gate_descents(
                    *observed,
                    g,
                    *course,
                    guts_modifiers@[g],
                ),
        decreases observed.results@.len() - gate,
    {
        proof {
            assert forall|i: int| 0 <= i < observed.frames@.len() implies has_gates(
                #[trigger] observed.frames@[i],
                gate as nat + 1,
            ) by {
                assert(has_gates(observed.frames@[i], observed.results@.len()));
            }
        }
        regions.push(read_gate_descents(observed, gate, course, guts_modifiers[gate]));
        gate = gate + 1;
    }
    regions
}

/// What a recording pins of one runner.
#[derive(Debug)]
pub struct PinnedRunner {
    /// Where she is rushed.
    pub rushed: Vec<Region>,
    /// Where she is in downhill mode.
    pub downhill: Vec<Region>,
    /// Where her last spurt starts, if it was recorded.
    pub last_spurt: Option<i64>,
    /// Where each skill fires.
    pub forced_positions: Vec<Activation>,
    /// The skills she keeps: those that fired.
    pub skills: Vec<i64>,
}

/// The skills among the first `n` that fired, in order.
pub open spec fn skills_fired(skills: Seq<i64>, fired: Seq<Activation>, n: nat) -> Seq<i64>
    decreases n,
{
    if n == 0 {
        Seq::empty()
    } else {
        let before = skills_fired(skills, fired, (n - 1) as nat);
        if activated(fired, skills[n - 1]) {
            before.push(skills[n - 1])
        } else {
            before
        }
    }
}

fn keep_fired(skills: &Vec<i64>, fired: &Vec<Activation>) -> (kept: Vec<i64>)
    ensures
        kept@ == skills_fired(skills@, fired@, skills@.len()),
{
    let mut kept: Vec<i64> = Vec::new();
    let mut i: usize = 0;
    while i < skills.len()
        invariant
            i <= skills@.len(),
            kept@ == skills_fired(skills@, fired@, i as nat),
        decreases skills@.len() - i,
    {
        if lists_skill(fired, skills[i]) {
            kept.push(skills[i]);
        }
        i = i + 1;
    }
    kept
}

/// Whether `pinned` is what the recording pins of a gate's runner.
pub open spec fn is_pinned(
    pinned: PinnedRunner,
    observed: Observed,
    gate: int,
    course: DrainCourse,
    guts_modifier: i64,
    skills: Seq<i64>,
) -> bool {
    let fired = gate_activations(observed, gate, observed.events@.len());
    let spurt = observed.results@[gate].last_spurt_start_distance;
    &&& pinned.rushed@ == gate_regions(observed, gate)
    &&& pinned.downhill@ == gate_descents(observed, gate, course, guts_modifier)
    &&& pinned.last_spurt == if spurt > 0 {
        Some(spurt)
    } else {
        None
    }
    &&& pinned.forced_positions@ == fired
    &&& pinned.skills@ == skills_fired(skills, fired, skills.len())
}

/// Every runner's recorded outcomes: each skill forced where it fired and every
/// other dropped, the last spurt where it was recorded, and the rushed and
/// downhill spells in place of the simulated rolls.
pub fn pin_outcomes(
    observed: &Observed,
    course: &DrainCourse,
    guts_modifiers: &Vec<i64>,
    skills: &Vec<Vec<i64>>,
) -> (pinned: Vec<PinnedRunner>)
    requires
        observed.samples_gates(observed.results@.len()),
        observed.names_gates(),
        guts_modifiers@.len() >= observed.results@.len(),
        skills@.len() >= observed.results@.len(),
    ensures
        pinned@.len() == observed.results@.len(),
        forall|gate: int|
            0 <= gate < pinned@.len() ==> is_pinned(
                #[trigger] pinned@[gate],
                *observed,
                gate,
                *course,
                guts_modifiers@[gate],
                skills@[gate]@,
            ),
{
    proof {
        assert forall|i: int| 0 <= i < observed.frames@.len() implies (
        #[trigger] observed.frames@[i]).distance@.len() >= observed.results@.len() by {
            assert(has_gates(observed.frames@[i], observed.results@.len()));
        }
    }
    let mut fired = observed_activations(observed);
    let mut rushed = observed_rushed_regions(observed);
    let mut downhill = observed_downhill_regions(observed, course, guts_modifiers);
    let ghost all_fired = fired@;
    let ghost all_rushed = rushed@;
    let ghost all_downhill = downhill@;
    let mut pinned: Vec<PinnedRunner> = Vec::new();
    let total: usize = observed.results.len();
    let mut gate: usize = 0;
    while gate < total
        invariant
            gate <= total,
            total == observed.results@.len(),
            skills@.len() >= observed.results@.len(),
            all_fired.len() == total,
            all_rushed.len() == total,
            all_downhill.len() == total,
            fired@ == all_fired.skip(gate as int),
            rushed@ == all_rushed.skip(gate as int),
            downhill@ == all_downhill.skip(gate as int),
            forall|g: int|
                0 <= g < total ==> (#[trigger] all_fired[g])@ == gate_activations(
                    *observed,
                    g,
                    observed.events@.len(),
                ),
            forall|g: int|
                0 <= g < total ==> (#[trigger] all_rushed[g])@ == gate_regions(*observed, g),
            forall|g: int|
                0 <= g < total ==> (#[trigger] all_downhill[g])@ == gate_descents(
                    *observed,
                    g,
                    *course,
                    guts_modifiers@[g],
                ),
            pinned@.len() == gate,
            forall|g: int|
                0 <= g < gate ==> is_pinned(
                    #[trigger] pinned@[g],
                    *observed,
                    g,
                    *course,
                    guts_modifiers@[g],
                    skills@[g]@,
                ),
        decreases total - gate,
    {
        let here = fired.remove(0);
        let spells = rushed.remove(0);
        let slopes = downhill.remove(0);
        proof {
            assert(here == all_fired[gate as int]);
            assert(spells == all_rushed[gate as int]);
            assert(slopes == all_downhill[gate as int]);
            assert(fired@ =~= all_fired.skip(gate + 1));
            assert(rushed@ =~= all_rushed.skip(gate + 1));
            assert(downhill@ =~= all_downhill.skip(gate + 1));
        }
        let spurt: i64 = observed.results[gate].last_spurt_start_distance;
        let kept = keep_fired(&skills[gate], &here);
        pinned.push(
            PinnedRunner {
                rushed: spells,
                downhill: slopes,
                last_spurt: if spurt > 0 {
                    Some(spurt)
                } else {
                    None
                },
                forced_positions: here,
                skills: kept,
            },
        );
        gate = gate + 1;
    }
    pinned
}

proof fn lemma_fired_skills_were_activated(
    skills: Seq<i64>,
    fired: Seq<Activation>,
    n: nat,
    i: int,
)
    requires
        n <= skills.len(),
        0 <= i < skills_fired(skills, fired, n).len(),
    ensures
        activated(fired, skills_fired(skills, fired, n)[i]),
        skills.contains(skills_fired(skills, fired, n)[i]),
    decreases n,
{
    let before = skills_fired(skills, fired, (n - 1) as nat);
    if i < before.len() {
        lemma_fired_skills_were_activated(skills, fired, (n - 1) as nat, i);
    } else {
        assert(skills[n - 1] == skills_fired(skills, fired, n)[i]);
    }
}

/// A pinned runner keeps only skills she held and fired.
pub proof fn pinned_skills_are_held_and_fired(
    pinned: PinnedRunner,
    observed: Observed,
    gate: int,
    course: DrainCourse,
    guts_modifier: i64,
    skills: Seq<i64>,
    i: int,
)
    requires
        is_pinned(pinned, observed, gate, course, guts_modifier, skills),
        0 <= i < pinned.skills@.len(),
    ensures
        skills.contains(pinned.skills@[i]),
        activated(pinned.forced_positions@, pinned.skills@[i]),
{
    lemma_fired_skills_were_activated(skills, pinned.forced_positions@, skills.len(), i);
}

} // verus!
