//! Random draws.
use crate::units::ONE;
use vstd::prelude::*;

verus! {

/// A source of random draws.
///
/// A generator is a state machine: what it draws next, and the state it is in
/// after that, follow from the state it is in.
pub trait Prng: Sized {
    /// What the next draw under `upper` is.
    spec fn next_uniform(self, upper: int) -> int;

    /// The generator after a draw under `upper`.
    spec fn after_uniform(self, upper: int) -> Self;

    /// A draw is under its bound.
    proof fn draws_are_under_their_bound(self, upper: int)
        requires
            upper > 0,
        ensures
            0 <= self.next_uniform(upper) < upper,
    ;

    /// A draw from `0..upper`.
    fn uniform(&mut self, upper: u32) -> (r: u32)
        requires
            upper > 0,
        ensures
            r < upper,
            r == old(self).next_uniform(upper as int),
            *final(self) == old(self).after_uniform(upper as int),
    ;
}

/// A recorded stream of raw draws, the last one repeating; an empty stream
/// draws 0.
pub struct Rolls {
    values: Vec<u64>,
    next: usize,
}

/// The next raw draw of a stream.
pub open spec fn next_roll(stream: Seq<u64>) -> u64 {
    if stream.len() == 0 {
        0
    } else {
        stream[0]
    }
}

/// A stream after one draw.
pub open spec fn after_roll(stream: Seq<u64>) -> Seq<u64> {
    if stream.len() <= 1 {
        stream
    } else {
        stream.skip(1)
    }
}

/// A raw draw as a number in `[0, 1)`.
pub open spec fn fraction_of(roll: u64) -> int {
    roll as int % ONE as int
}

/// A raw draw as a number under `upper`.
pub open spec fn index_of(roll: u64, upper: int) -> int {
    roll as int % upper
}

/// `list` with the entries at `i` and `j` exchanged.
pub open spec fn exchanged<T>(list: Seq<T>, i: int, j: int) -> Seq<T> {
    list.update(i, list[j]).update(j, list[i])
}

/// Exchanging two entries keeps what the list holds.
pub proof fn exchanging_keeps_the_contents<T>(list: Seq<T>, i: int, j: int)
    requires
        0 <= i < list.len(),
        0 <= j < list.len(),
    ensures
        exchanged(list, i, j).to_multiset() == list.to_multiset(),
{
    broadcast use vstd::seq_lib::group_to_multiset_ensures;
    broadcast use vstd::multiset::group_multiset_axioms;

    let once = list.update(i, list[j]);
    assert(list.to_multiset().count(list[i]) > 0) by {
        assert(list.contains(list[i]));
    }
    assert(list.to_multiset().count(list[j]) > 0) by {
        assert(list.contains(list[j]));
    }
    assert(once[j] == list[j]);
    assert(exchanged(list, i, j).to_multiset() =~= list.to_multiset());
}

impl View for Rolls {
    type V = Seq<u64>;

    closed spec fn view(&self) -> Seq<u64> {
        self.values@.skip(self.cursor())
    }
}

impl Rolls {
    spec fn cursor(&self) -> int {
        if self.values@.len() == 0 {
            0
        } else if self.next < self.values@.len() {
            self.next as int
        } else {
            self.values@.len() - 1
        }
    }

    /// The stream that draws `values` in order.
    pub fn new(values: Vec<u64>) -> (rolls: Rolls)
        ensures
            rolls@ == values@,
    {
        let rolls = Rolls { values, next: 0 };
        proof {
            assert(rolls.values@.skip(0) =~= rolls.values@);
        }
        rolls
    }

    /// The next raw draw.
    pub fn draw(&mut self) -> (roll: u64)
        ensures
            roll == next_roll(old(self)@),
            final(self)@ == after_roll(old(self)@),
            *final(self) == old(self).drawn(),
    {
        let n: usize = self.values.len();
        if n == 0 {
            return 0;
        }
        let at: usize = if self.next < n {
            self.next
        } else {
            n - 1
        };
        let roll: u64 = self.values[at];
        let ghost before = *self;
        if self.next < n {
            self.next = self.next + 1;
        }
        proof {
            assert(before.values@.skip(at as int)[0] == roll);
            if at + 1 < n {
                assert(before@.skip(1) =~= self@);
            } else {
                assert(before@ =~= self@);
            }
        }
        roll
    }

    /// The stream after one draw.
    pub closed spec fn drawn(self) -> Rolls {
        if self.values@.len() == 0 || self.next >= self.values@.len() {
            self
        } else {
            Rolls { values: self.values, next: (self.next + 1) as usize }
        }
    }

    /// After a draw, under any bound, the stream shows what [`after_roll`] says.
    pub proof fn a_draw_moves_the_stream_on(self)
        ensures
            self.drawn()@ == after_roll(self@),
            forall|upper: int| #[trigger] self.after_uniform(upper)@ == after_roll(self@),
    {
        let n = self.values.len();
        if n > 0 && self.next < n {
            if self.next + 1 < n {
                assert(self@.skip(1) =~= self.drawn()@);
            } else {
                assert(self@ =~= self.drawn()@);
            }
        }
    }

    /// A draw from `[0, 1)`, in billionths.
    pub fn random(&mut self) -> (r: i64)
        ensures
            r == fraction_of(next_roll(old(self)@)),
            0 <= r < ONE,
            final(self)@ == after_roll(old(self)@),
    {
        let roll: u64 = self.draw();
        (roll % (ONE as u64)) as i64
    }

    /// A draw from `0..n`.
    pub fn pick(&mut self, n: usize) -> (i: usize)
        requires
            n > 0,
        ensures
            i == index_of(next_roll(old(self)@), n as int),
            i < n,
            final(self)@ == after_roll(old(self)@),
    {
        let roll: u64 = self.draw();
        (roll % (n as u64)) as usize
    }

    /// The same stream again.
    pub fn duplicate(&self) -> (rolls: Rolls)
        ensures
            rolls@ == self@,
    {
        let mut values: Vec<u64> = Vec::new();
        let mut i: usize = 0;
        while i < self.values.len()
            invariant
                i <= self.values.len(),
                values@ == self.values@.take(i as int),
            decreases self.values.len() - i,
        {
            values.push(self.values[i]);
            i = i + 1;
            proof {
                assert(self.values@.take(i as int) =~= self.values@.take(i - 1).push(
                    self.values@[i - 1],
                ));
            }
        }
        proof {
            assert(self.values@.take(i as int) =~= self.values@);
        }
        Rolls { values, next: self.next }
    }
}

impl Prng for Rolls {
    open spec fn next_uniform(self, upper: int) -> int {
        index_of(next_roll(self@), upper)
    }

    open spec fn after_uniform(self, upper: int) -> Rolls {
        self.drawn()
    }

    proof fn draws_are_under_their_bound(self, upper: int) {
    }

    fn uniform(&mut self, upper: u32) -> (r: u32)
        ensures
            final(self)@ == after_roll(old(self)@),
    {
        let roll: u64 = self.draw();
        (roll % (upper as u64)) as u32
    }
}

/// A stream draws its values in order and repeats the last; an empty one draws
/// 0. A draw as a fraction is its billionths, and as a pick what is left of it
/// under the bound.
pub proof fn a_stream_draws_in_order_and_repeats_its_last(stream: Seq<u64>, upper: int)
    requires
        upper > 0,
    ensures
        stream.len() == 0 ==> next_roll(stream) == 0 && after_roll(stream) == stream,
        stream.len() == 1 ==> next_roll(stream) == stream[0] && after_roll(stream) == stream,
        stream.len() >= 2 ==> next_roll(stream) == stream[0] && next_roll(after_roll(stream))
            == stream[1] && after_roll(stream).len() == stream.len() - 1,
        0 <= fraction_of(next_roll(stream)) < 1_000_000_000,
        (next_roll(stream) - fraction_of(next_roll(stream))) % 1_000_000_000 == 0,
        0 <= index_of(next_roll(stream), upper) < upper,
        (next_roll(stream) - index_of(next_roll(stream), upper)) % upper == 0,
{
    let r = next_roll(stream) as int;
    vstd::arithmetic::div_mod::lemma_fundamental_div_mod(r, upper);
    vstd::arithmetic::div_mod::lemma_mod_multiples_basic(r / upper, upper);
    assert(r - r % upper == (r / upper) * upper) by (nonlinear_arith)
        requires
            r == upper * (r / upper) + r % upper,
    ;
    vstd::arithmetic::div_mod::lemma_mod_division_less_than_divisor(r, upper);
}

} // verus!
