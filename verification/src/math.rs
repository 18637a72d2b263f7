//! Numeric value objects: [`Timer`] and the [`RaceClock`].
use crate::units::{divide_rounded, clamp_wide, plus, rounded_quotient, sat};
use vstd::prelude::*;

verus! {

/// A countdown / elapsed timer.
///
/// Timers usually start below zero and are advanced each tick; expiry is
/// `t >= 0`, so the code that checks a duration is separate from the code that
/// set it.
#[derive(Debug, Clone, Copy, PartialEq, Eq, Structural)]
pub struct Timer {
    /// Seconds, in billionths.
    pub t: i64,
}

impl Timer {
    /// A timer reading `t`.
    pub fn new(t: i64) -> (timer: Timer)
        ensures
            timer.t == t,
    {
        Timer { t }
    }

    /// Advance the timer by `dt`.
    pub fn advance(&mut self, dt: i64)
        ensures
            final(self).t == sat(old(self).t + dt),
    {
        self.t = plus(self.t, dt);
    }

    /// Whether the timer has run out.
    pub open spec fn expired(self) -> bool {
        self.t >= 0
    }
}

/// Clock units in a second: clock times are whole numbers of 2^-40 s, which
/// holds every float32 second count from 2^-17 s up exactly.
pub const CLOCK_UNITS_PER_SECOND: u64 = 0x100_0000_0000;

/// The game's tick, 0.0666 s as a float32, in clock units.
pub const FRAME_CLOCK_UNITS: u64 = 73_227_476_992;

/// One more than the largest float32 significand.
pub const FLOAT32_SIGNIFICANDS: u64 = 0x100_0000;

/// The smallest doubling of `step` at which `v` has a 24-bit significand.
pub open spec fn float32_spacing_from(v: int, step: int) -> int
    decreases v / step,
{
    if step <= 0 || v < FLOAT32_SIGNIFICANDS * step {
        step
    } else {
        proof {
            lemma_halving(v, step);
        }
        float32_spacing_from(v, 2 * step)
    }
}

/// Doubling the step halves the significand.
pub proof fn lemma_halving(v: int, step: int)
    requires
        step > 0,
        v >= FLOAT32_SIGNIFICANDS * step,
    ensures
        0 <= v / (2 * step) < v / step,
{
    assert(v / step >= FLOAT32_SIGNIFICANDS) by (nonlinear_arith)
        requires
            step > 0,
            v >= FLOAT32_SIGNIFICANDS * step,
    ;
    assert(v / (2 * step) == (v / step) / 2) by {
        vstd::arithmetic::div_mod::lemma_div_denominator(v, step, 2);
        assert(step * 2 == 2 * step);
    }
}

/// The gap between the float32 values around `v`.
pub open spec fn float32_spacing(v: int) -> int {
    float32_spacing_from(v, 1)
}

/// `v` rounded to a float32: the nearest value with a 24-bit significand, and
/// of two equally near ones the one with the even significand.
pub open spec fn as_float32(v: int) -> int {
    let step = float32_spacing(v);
    let low = v / step;
    let rest = v % step;
    if 2 * rest > step || (2 * rest == step && low % 2 == 1) {
        (low + 1) * step
    } else {
        low * step
    }
}

proof fn lemma_spacing_is_positive(v: int, step: int)
    requires
        v >= 0,
        step > 0,
    ensures
        float32_spacing_from(v, step) >= step,
        v < FLOAT32_SIGNIFICANDS * float32_spacing_from(v, step),
        float32_spacing_from(v, step) == step || FLOAT32_SIGNIFICANDS * float32_spacing_from(
            v,
            step,
        ) <= 2 * v,
    decreases v / step,
{
    if v >= FLOAT32_SIGNIFICANDS * step {
        lemma_halving(v, step);
        lemma_spacing_is_positive(v, 2 * step);
    }
}

/// A float32 is within half a spacing of the value it stands for, and its
/// significand has 24 bits.
pub proof fn float32_is_the_nearest(v: int)
    requires
        v >= 0,
    ensures
        float32_spacing(v) > 0,
        2 * (as_float32(v) - v) <= float32_spacing(v),
        2 * (v - as_float32(v)) <= float32_spacing(v),
        exists|m: int|
            0 <= m <= FLOAT32_SIGNIFICANDS && as_float32(v) == #[trigger] (m * float32_spacing(v)),
{
    lemma_spacing_is_positive(v, 1);
    let step = float32_spacing(v);
    let low = v / step;
    let rest = v % step;
    assert(v == low * step + rest) by {
        vstd::arithmetic::div_mod::lemma_fundamental_div_mod(v, step);
        assert(step * low == low * step) by (nonlinear_arith);
    }
    assert((low + 1) * step == low * step + step) by (nonlinear_arith);
    assert(0 <= low < FLOAT32_SIGNIFICANDS) by (nonlinear_arith)
        requires
            step > 0,
            0 <= v < FLOAT32_SIGNIFICANDS * step,
            low == v / step,
    ;
    if as_float32(v) == (low + 1) * step {
        assert(as_float32(v) == (low + 1) * float32_spacing(v));
    } else {
        assert(as_float32(v) == low * float32_spacing(v));
    }
}

/// `v` clock units rounded to a float32 (see [`as_float32`]).
fn round_to_float32(v: u64) -> (r: u128)
    ensures
        r == as_float32(v as int),
{
    let mut step: u128 = 1;
    while v as u128 >= 0x100_0000u128 * step
        invariant
            1 <= step <= 0x1_0000_0000_0000,
            float32_spacing(v as int) == float32_spacing_from(v as int, step as int),
        decreases v as int / step as int,
    {
        proof {
            lemma_halving(v as int, step as int);
            assert(step < 0x100_0000_0000) by (nonlinear_arith)
                requires
                    v as u128 >= 0x100_0000 * step,
                    v <= 0xffff_ffff_ffff_ffff,
            ;
        }
        step = 2 * step;
    }
    let low: u128 = v as u128 / step;
    let rest: u128 = v as u128 % step;
    proof {
        assert(0 <= low <= v) by (nonlinear_arith)
            requires
                low == v as u128 / step,
                step >= 1,
        ;
        assert((low + 1) * step <= 0x1_0000_0000_0000_0000 * 0x1_0000_0000_0000) by (nonlinear_arith)
            requires
                0 <= low <= 0xffff_ffff_ffff_ffff,
                1 <= step <= 0x1_0000_0000_0000,
        ;
        assert(low * step <= (low + 1) * step) by (nonlinear_arith)
            requires
                step >= 1,
        ;
    }
    if 2 * rest > step || (2 * rest == step && low % 2 == 1) {
        (low + 1) * step
    } else {
        low * step
    }
}

/// The race clock as the game keeps it: 0 at the start, and each tick adds the
/// step in float32, `t(n+1) = float32(t(n) + float32(dt))`.
///
/// The clock also counts its ticks, for readers that index frames.
#[derive(Debug, Clone, Copy, PartialEq, Eq, Structural)]
pub struct RaceClock {
    units: u64,
    ticks: u32,
}

/// The clock units after one step of `dt` from `units`.
pub open spec fn clock_after(units: int, dt: int) -> int {
    let sum = as_float32(within_clock(units + as_float32(dt)));
    within_clock(sum)
}

/// Clock units held inside the clock's range.
pub open spec fn within_clock(units: int) -> int {
    if units > u64::MAX {
        u64::MAX as int
    } else {
        units
    }
}

/// The clock units after `n` steps of `dt` from the start.
pub open spec fn clock_after_steps(n: nat, dt: int) -> int
    decreases n,
{
    if n == 0 {
        0
    } else {
        clock_after(clock_after_steps((n - 1) as nat, dt), dt)
    }
}

impl RaceClock {
    /// The clock's reading, in clock units.
    pub closed spec fn reading(self) -> int {
        self.units as int
    }

    /// The clock's tick count.
    pub closed spec fn tick_count(self) -> int {
        self.ticks as int
    }

    /// The clock's reading in seconds.
    pub open spec fn in_seconds(self) -> int {
        sat(rounded_quotient(self.reading() * crate::units::ONE, CLOCK_UNITS_PER_SECOND as int))
    }

    /// The clock at the start: 0 s, no ticks.
    pub fn new() -> (clock: RaceClock)
        ensures
            clock.reading() == 0,
            clock.tick_count() == 0,
    {
        RaceClock { units: 0, ticks: 0 }
    }

    /// The clock after `ticks` steps of `dt` clock units from the start.
    pub fn after_ticks(ticks: u32, dt: u64) -> (clock: RaceClock)
        ensures
            clock.reading() == clock_after_steps(ticks as nat, dt as int),
            clock.tick_count() == ticks,
    {
        let mut clock = RaceClock::new();
        let mut i: u32 = 0;
        while i < ticks
            invariant
                i <= ticks,
                clock.reading() == clock_after_steps(i as nat, dt as int),
                clock.tick_count() == i,
            decreases ticks - i,
        {
            clock.advance(dt);
            i = i + 1;
        }
        clock
    }

    /// One step of `dt` clock units, summed in float32.
    pub fn advance(&mut self, dt: u64)
        requires
            old(self).tick_count() < u32::MAX,
        ensures
            final(self).reading() == clock_after(old(self).reading(), dt as int),
            final(self).tick_count() == old(self).tick_count() + 1,
    {
        let step: u128 = round_to_float32(dt);
        proof {
            float32_is_the_nearest(dt as int);
            lemma_float32_bound(dt as int);
        }
        let sum: u128 = self.units as u128 + step;
        let held: u64 = if sum > u64::MAX as u128 {
            u64::MAX
        } else {
            sum as u64
        };
        let rounded: u128 = round_to_float32(held);
        self.units = if rounded > u64::MAX as u128 {
            u64::MAX
        } else {
            rounded as u64
        };
        self.ticks = self.ticks + 1;
    }

    /// Seconds since the start, in billionths.
    pub fn seconds(&self) -> (s: i64)
        ensures
            s == self.in_seconds(),
    {
        proof {
            assert(self.units * 1_000_000_000 <= 0x1_0000_0000_0000_0000 * 1_000_000_000);
        }
        clamp_wide(
            divide_rounded(
                self.units as i128 * crate::units::ONE as i128,
                CLOCK_UNITS_PER_SECOND as i128,
            ),
        )
    }

    /// The float32 reading itself, in clock units.
    pub fn clock_units(&self) -> (units: u64)
        ensures
            units == self.reading(),
    {
        self.units
    }

    /// Steps taken since the start.
    pub fn ticks(&self) -> (n: u32)
        ensures
            n == self.tick_count(),
    {
        self.ticks
    }
}

impl Default for RaceClock {
    fn default() -> (clock: RaceClock)
        ensures
            clock.reading() == 0,
            clock.tick_count() == 0,
    {
        RaceClock::new()
    }
}

proof fn lemma_float32_bound(v: int)
    requires
        0 <= v <= u64::MAX,
    ensures
        0 <= as_float32(v) <= 2 * 0x1_0000_0000_0000_0000,
{
    float32_is_the_nearest(v);
    lemma_spacing_is_positive(v, 1);
    let step = float32_spacing(v);
    assert(0 <= v / step) by (nonlinear_arith)
        requires
            v >= 0,
            step > 0,
    ;
    assert(0 <= (v / step) * step) by (nonlinear_arith)
        requires
            v / step >= 0,
            step > 0,
    ;
    assert(0 <= (v / step + 1) * step) by (nonlinear_arith)
        requires
            v / step >= 0,
            step > 0,
    ;
}

/// Every whole number under 2^24 is a float32, and past it the values stand no
/// further apart than one in 2^23.
pub proof fn float32_keeps_24_bits(v: int)
    requires
        v >= 0,
    ensures
        v < 0x100_0000 ==> as_float32(v) == v,
        v >= 0x100_0000 ==> 0x80_0000 * float32_spacing(v) <= v,
        v < 0x100_0000 * float32_spacing(v),
{
    lemma_spacing_is_positive(v, 1);
    if v < 0x100_0000 {
        assert(float32_spacing(v) == 1);
        assert(v / 1 == v && v % 1 == 0);
    }
}

/// Half-way between two float32 values the one with the even significand is
/// taken.
pub proof fn float32_ties_go_to_the_even_one(v: int, low: int)
    requires
        v >= 0,
        2 * (v - low * float32_spacing(v)) == float32_spacing(v),
    ensures
        low % 2 == 0 ==> as_float32(v) == low * float32_spacing(v),
        low % 2 == 1 ==> as_float32(v) == (low + 1) * float32_spacing(v),
{
    lemma_spacing_is_positive(v, 1);
    let step = float32_spacing(v);
    let rest = v - low * step;
    vstd::arithmetic::div_mod::lemma_fundamental_div_mod_converse(v, step, low, rest);
}

/// A tick moves the clock on by its step, in float32; the clock reads its units
/// as seconds, 2^40 to one, to the nearest billionth.
pub proof fn a_tick_adds_its_step(units: int, dt: int, clock: RaceClock)
    requires
        0 <= units,
        0 <= dt,
        units + as_float32(dt) <= u64::MAX,
        as_float32(units + as_float32(dt)) <= u64::MAX,
    ensures
        clock_after(units, dt) == as_float32(units + as_float32(dt)),
        clock_after_steps(0, dt) == 0,
        clock_after_steps(1, dt) == clock_after(0, dt),
        crate::units::is_nearest(
            clock.in_seconds(),
            clock.reading() * 1_000_000_000,
            0x100_0000_0000,
        ),
{
    reveal_with_fuel(clock_after_steps, 2);
    let n = clock.reading() * 1_000_000_000;
    crate::units::rounding_is_to_the_nearest(n, 0x100_0000_0000, 0);
    let q = rounded_quotient(n, 0x100_0000_0000);
    assert(0 <= n <= 0xffff_ffff_ffff_ffff * 1_000_000_000);
    assert(0 <= q <= 0x100_0000 * 1_000_000_000);
}

} // verus!
