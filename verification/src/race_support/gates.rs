//! Starting gates.
use crate::rng::{exchanged, exchanging_keeps_the_contents, Prng};
use vstd::prelude::*;

verus! {

/// The gates under `n` that no slot claims, in ascending order.
pub open spec fn free_gates(fixed: Seq<Option<i64>>, n: nat) -> Seq<i64>
    decreases n,
{
    if n == 0 {
        Seq::empty()
    } else {
        let before = free_gates(fixed, (n - 1) as nat);
        if fixed.contains(Some((n - 1) as i64)) {
            before
        } else {
            before.push((n - 1) as i64)
        }
    }
}

/// A list shuffled from place `i` down: each place is exchanged with the one
/// the next draw picks among it and those before it. The first place takes no
/// draw of its own.
pub open spec fn shuffled_from<R: Prng>(list: Seq<i64>, i: int, rng: R) -> (Seq<i64>, R)
    decreases i,
{
    if i < 1 {
        (list, rng)
    } else {
        shuffled_from(
            exchanged(list, i, rng.next_uniform(i + 1)),
            i - 1,
            rng.after_uniform(i + 1),
        )
    }
}

/// How many of the first `n` slots are free.
pub open spec fn free_slots(fixed: Seq<Option<i64>>, n: nat) -> nat
    decreases n,
{
    if n == 0 {
        0
    } else {
        free_slots(fixed, (n - 1) as nat) + if fixed[n - 1] is None {
            1nat
        } else {
            0nat
        }
    }
}

/// The free gates in the order they are dealt, and the generator after the
/// shuffle. Without a slot to deal to, nothing is shuffled.
pub open spec fn dealing_order<R: Prng>(fixed: Seq<Option<i64>>, gate_count: nat, rng: R) -> (
    Seq<i64>,
    R,
) {
    let free = free_gates(fixed, gate_count);
    if free_slots(fixed, fixed.len()) == 0 {
        (free, rng)
    } else {
        shuffled_from(free, free.len() - 1, rng)
    }
}

/// Gate of slot `i`: its own, or the next one dealt; 0 once none is left.
pub open spec fn gate_of(fixed: Seq<Option<i64>>, dealt: Seq<i64>, i: int) -> i64 {
    match fixed[i] {
        Some(gate) => gate,
        None => {
            let k = free_slots(fixed, i as nat) as int;
            if k < dealt.len() {
                dealt[k]
            } else {
                0
            }
        },
    }
}

/// One gate per slot.
pub open spec fn gates_dealt(fixed: Seq<Option<i64>>, dealt: Seq<i64>) -> Seq<i64> {
    Seq::new(fixed.len(), |i: int| gate_of(fixed, dealt, i))
}

fn claims(fixed: &[Option<i64>], gate: i64) -> (claimed: bool)
    ensures
        claimed == fixed@.contains(Some(gate)),
{
    let mut i: usize = 0;
    while i < fixed.len()
        invariant
            i <= fixed@.len(),
            forall|k: int| 0 <= k < i ==> fixed@[k] != Some(gate),
        decreases fixed@.len() - i,
    {
        if let Some(g) = fixed[i] {
            if g == gate {
                assert(fixed@[i as int] == Some(gate));
                return true;
            }
        }
        i = i + 1;
    }
    false
}

fn unclaimed(fixed: &[Option<i64>], gate_count: u32) -> (free: Vec<i64>)
    ensures
        free@ == free_gates(fixed@, gate_count as nat),
        free@.len() <= gate_count,
{
    let mut free: Vec<i64> = Vec::new();
    let mut n: u32 = 0;
    while n < gate_count
        invariant
            n <= gate_count,
            free@ == free_gates(fixed@, n as nat),
            free@.len() <= n,
        decreases gate_count - n,
    {
        if !claims(fixed, n as i64) {
            free.push(n as i64);
        }
        n = n + 1;
    }
    free
}

proof fn lemma_free_slots_counted(fixed: Seq<Option<i64>>, n: nat)
    requires
        n <= fixed.len(),
    ensures
        free_slots(fixed, n) == 0 <==> forall|i: int| 0 <= i < n ==> (#[trigger] fixed[i]) is Some,
    decreases n,
{
    if n > 0 {
        lemma_free_slots_counted(fixed, (n - 1) as nat);
        assert(free_slots(fixed, n) == 0 ==> fixed[n - 1] is Some);
    }
}

fn fully_pinned(fixed: &[Option<i64>]) -> (pinned: bool)
    ensures
        pinned == (free_slots(fixed@, fixed@.len()) == 0),
{
    let mut i: usize = 0;
    while i < fixed.len()
        invariant
            i <= fixed@.len(),
            forall|k: int| 0 <= k < i ==> (#[trigger] fixed@[k]) is Some,
        decreases fixed@.len() - i,
    {
        if fixed[i].is_none() {
            proof {
                lemma_free_slots_counted(fixed@, fixed@.len());
                assert(fixed@[i as int] is None);
            }
            return false;
        }
        i = i + 1;
    }
    proof {
        lemma_free_slots_counted(fixed@, fixed@.len());
    }
    true
}

/// Assign one gate per slot.
///
/// A slot with a fixed gate keeps it. The remaining gates are dealt to the
/// remaining slots by a shuffle over `rng`; a fully pinned field takes no draw.
/// `gate_count` may exceed the field; a fixed gate outside `0..gate_count` or
/// claimed twice is honored as given.
pub fn assign_gates<R: Prng>(fixed: &[Option<i64>], gate_count: u32, rng: &mut R) -> (gates: Vec<
    i64,
>)
    ensures
        gates@ == gates_dealt(
            fixed@,
            dealing_order(fixed@, gate_count as nat, *old(rng)).0,
        ),
        *final(rng) == dealing_order(fixed@, gate_count as nat, *old(rng)).1,
        free_slots(fixed@, fixed@.len()) == 0 ==> *final(rng) == *old(rng),
{
    let mut free = unclaimed(fixed, gate_count);
    let ghost start = *rng;
    let ghost unshuffled = free@;
    let pinned: bool = fully_pinned(fixed);
    let mut i: usize = if pinned {
        0
    } else {
        free.len()
    };
    while i > 1
        invariant
            i <= free@.len() <= gate_count,
            free@.len() == 0 || pinned || i >= 1,
            pinned ==> i == 0 && free@ == unshuffled && *rng == start,
            !pinned ==> shuffled_from(unshuffled, unshuffled.len() - 1, start) == shuffled_from(
                free@,
                i - 1,
                *rng,
            ),
        decreases i,
    {
        let ghost before = free@;
        let j: usize = rng.uniform(i as u32) as usize;
        let a: i64 = free[i - 1];
        let b: i64 = free[j];
        free.set(i - 1, b);
        free.set(j, a);
        proof {
            assert(free@ =~= exchanged(before, i - 1, j as int));
        }
        i = i - 1;
    }
    let mut gates: Vec<i64> = Vec::new();
    let mut dealt: usize = 0;
    let mut i: usize = 0;
    while i < fixed.len()
        invariant
            i <= fixed@.len(),
            dealt == if free_slots(fixed@, i as nat) < free@.len() {
                free_slots(fixed@, i as nat) as int
            } else {
                free@.len() as int
            },
            gates@ == Seq::new(i as nat, |k: int| gate_of(fixed@, free@, k)),
        decreases fixed@.len() - i,
    {
        let gate: i64 = match fixed[i] {
            Some(gate) => gate,
            None => {
                if dealt < free.len() {
                    dealt = dealt + 1;
                    free[dealt - 1]
                } else {
                    0
                }
            },
        };
        gates.push(gate);
        i = i + 1;
        proof {
            assert(gates@ =~= Seq::new(i as nat, |k: int| gate_of(fixed@, free@, k)));
        }
    }
    proof {
        assert(gates@ =~= gates_dealt(fixed@, free@));
    }
    gates
}

proof fn lemma_shuffle_keeps_the_contents<R: Prng>(list: Seq<i64>, i: int, rng: R)
    requires
        i < list.len(),
    ensures
        shuffled_from(list, i, rng).0.to_multiset() == list.to_multiset(),
        shuffled_from(list, i, rng).0.len() == list.len(),
    decreases i,
{
    if i >= 1 {
        rng.draws_are_under_their_bound(i + 1);
        let j = rng.next_uniform(i + 1);
        exchanging_keeps_the_contents(list, i, j);
        lemma_shuffle_keeps_the_contents(exchanged(list, i, j), i - 1, rng.after_uniform(i + 1));
    }
}

proof fn lemma_free_gates(fixed: Seq<Option<i64>>, n: nat)
    requires
        n <= i64::MAX,
    ensures
        free_gates(fixed, n).no_duplicates(),
        forall|g: i64|
            #[trigger] free_gates(fixed, n).contains(g) <==> 0 <= g < n && !fixed.contains(Some(g)),
    decreases n,
{
    if n > 0 {
        lemma_free_gates(fixed, (n - 1) as nat);
        let before = free_gates(fixed, (n - 1) as nat);
        let all = free_gates(fixed, n);
        let last = (n - 1) as i64;
        assert forall|g: i64| #[trigger] all.contains(g) <==> 0 <= g < n && !fixed.contains(
            Some(g),
        ) by {
            if all.contains(g) {
                let k = all.index_of(g);
                if k < before.len() {
                    assert(before[k] == g);
                    assert(before.contains(g));
                }
            }
            if 0 <= g < n && !fixed.contains(Some(g)) {
                if g < n - 1 {
                    assert(before.contains(g));
                    let k = before.index_of(g);
                    assert(all[k] == g);
                } else {
                    assert(all[all.len() - 1] == g);
                }
            }
        }
        assert(!before.contains(last));
        assert forall|a: int, b: int| 0 <= a < all.len() && 0 <= b < all.len() && a != b implies all[a]
            != all[b] by {
            if a < before.len() {
                assert(before.contains(before[a]));
            }
            if b < before.len() {
                assert(before.contains(before[b]));
            }
        }
    }
}

/// A slot with a fixed gate keeps it, whatever the draws.
pub proof fn fixed_gates_are_kept<R: Prng>(
    fixed: Seq<Option<i64>>,
    gate_count: nat,
    rng: R,
    i: int,
)
    requires
        0 <= i < fixed.len(),
        fixed[i] is Some,
    ensures
        gates_dealt(fixed, dealing_order(fixed, gate_count, rng).0)[i] == fixed[i]->0,
{
}

/// The gates dealt are the unclaimed ones, each once, whatever the draws.
pub proof fn dealt_gates_are_the_unclaimed_ones<R: Prng>(
    fixed: Seq<Option<i64>>,
    gate_count: nat,
    rng: R,
)
    requires
        gate_count <= i64::MAX,
    ensures
        dealing_order(fixed, gate_count, rng).0.no_duplicates(),
        dealing_order(fixed, gate_count, rng).0.len() == free_gates(fixed, gate_count).len(),
        forall|g: i64|
            #[trigger] dealing_order(fixed, gate_count, rng).0.contains(g) <==> 0 <= g < gate_count
                && !fixed.contains(Some(g)),
{
    broadcast use vstd::seq_lib::group_to_multiset_ensures;

    let free = free_gates(fixed, gate_count);
    let dealt = dealing_order(fixed, gate_count, rng).0;
    lemma_free_gates(fixed, gate_count);
    lemma_shuffle_keeps_the_contents(free, free.len() - 1, rng);
    free.lemma_multiset_has_no_duplicates();
    dealt.lemma_multiset_has_no_duplicates_conv();
    assert forall|g: i64| #[trigger] dealt.contains(g) <==> 0 <= g < gate_count && !fixed.contains(
        Some(g),
    ) by {
        assert(dealt.contains(g) <==> dealt.to_multiset().count(g) > 0);
        assert(free.contains(g) <==> free.to_multiset().count(g) > 0);
    }
}

proof fn lemma_free_slots_grow(fixed: Seq<Option<i64>>, a: nat, b: nat)
    requires
        a <= b,
    ensures
        free_slots(fixed, a) <= free_slots(fixed, b) <= b,
        a < b && fixed[a as int] is None ==> free_slots(fixed, a) < free_slots(fixed, b),
    decreases b,
{
    if b > 0 {
        if a < b {
            lemma_free_slots_grow(fixed, a, (b - 1) as nat);
        } else {
            lemma_free_slots_grow(fixed, 0, (b - 1) as nat);
        }
    }
}

/// Slots without a fixed gate get gates of their own: unclaimed, under the
/// count, and no two the same, as long as there are gates to deal.
pub proof fn free_slots_get_gates_of_their_own<R: Prng>(
    fixed: Seq<Option<i64>>,
    gate_count: nat,
    rng: R,
    i: int,
    j: int,
)
    requires
        gate_count <= i64::MAX,
        0 <= i < j < fixed.len(),
        fixed[i] is None,
        fixed[j] is None,
        free_slots(fixed, fixed.len()) <= free_gates(fixed, gate_count).len(),
    ensures
        ({
            let gates = gates_dealt(fixed, dealing_order(fixed, gate_count, rng).0);
            &&& 0 <= gates[i] < gate_count
            &&& !fixed.contains(Some(gates[i]))
            &&& 0 <= gates[j] < gate_count
            &&& !fixed.contains(Some(gates[j]))
            &&& gates[i] != gates[j]
        }),
{
    let dealt = dealing_order(fixed, gate_count, rng).0;
    dealt_gates_are_the_unclaimed_ones(fixed, gate_count, rng);
    lemma_free_slots_grow(fixed, i as nat, j as nat);
    lemma_free_slots_grow(fixed, j as nat, fixed.len());
    let a = free_slots(fixed, i as nat) as int;
    let b = free_slots(fixed, j as nat) as int;
    assert(dealt.contains(dealt[a]));
    assert(dealt.contains(dealt[b]));
}

/// An all-free field as large as its gates starts from a permutation of them:
/// every gate is used, by exactly one slot.
pub proof fn an_all_free_field_gets_a_permutation<R: Prng>(
    fixed: Seq<Option<i64>>,
    rng: R,
    gate: i64,
)
    requires
        fixed.len() <= i64::MAX,
        forall|i: int| 0 <= i < fixed.len() ==> (#[trigger] fixed[i]) is None,
        0 <= gate < fixed.len(),
    ensures
        ({
            let gates = gates_dealt(fixed, dealing_order(fixed, fixed.len(), rng).0);
            &&& gates.len() == fixed.len()
            &&& gates.no_duplicates()
            &&& gates.contains(gate)
        }),
{
    let n = fixed.len();
    let dealt = dealing_order(fixed, n, rng).0;
    let gates = gates_dealt(fixed, dealt);
    dealt_gates_are_the_unclaimed_ones(fixed, n, rng);
    lemma_all_slots_free(fixed, n);
    lemma_all_gates_free(fixed, n);
    assert forall|i: int| 0 <= i < n implies gates[i] == dealt[i] by {
        lemma_all_slots_free(fixed, i as nat);
    }
    assert(gates =~= dealt);
    assert(!fixed.contains(Some(gate)));
}

proof fn lemma_all_slots_free(fixed: Seq<Option<i64>>, n: nat)
    requires
        n <= fixed.len(),
        forall|i: int| 0 <= i < fixed.len() ==> (#[trigger] fixed[i]) is None,
    ensures
        free_slots(fixed, n) == n,
    decreases n,
{
    if n > 0 {
        lemma_all_slots_free(fixed, (n - 1) as nat);
        assert(fixed[n - 1] is None);
    }
}

proof fn lemma_all_gates_free(fixed: Seq<Option<i64>>, n: nat)
    requires
        forall|i: int| 0 <= i < fixed.len() ==> (#[trigger] fixed[i]) is None,
    ensures
        free_gates(fixed, n).len() == n,
    decreases n,
{
    if n > 0 {
        lemma_all_gates_free(fixed, (n - 1) as nat);
    }
}

/// A fully pinned field takes no draw, however many gates are left over, and
/// every slot starts where it is pinned.
pub proof fn a_fully_pinned_field_takes_no_draw<R: Prng>(
    fixed: Seq<Option<i64>>,
    gate_count: nat,
    rng: R,
)
    requires
        forall|i: int| 0 <= i < fixed.len() ==> (#[trigger] fixed[i]) is Some,
    ensures
        dealing_order(fixed, gate_count, rng).1 == rng,
        gates_dealt(fixed, dealing_order(fixed, gate_count, rng).0) == Seq::new(
            fixed.len(),
            |i: int| fixed[i]->0,
        ),
{
    lemma_free_slots_counted(fixed, fixed.len());
    assert(gates_dealt(fixed, dealing_order(fixed, gate_count, rng).0) =~= Seq::new(
        fixed.len(),
        |i: int| fixed[i]->0,
    ));
}

/// The generator after the draws under `n`, `n - 1` and so on down to 2.
pub open spec fn after_draws<R: Prng>(rng: R, n: int) -> R
    decreases n,
{
    if n < 2 {
        rng
    } else {
        after_draws(rng.after_uniform(n), n - 1)
    }
}

proof fn lemma_shuffle_draws<R: Prng>(list: Seq<i64>, i: int, rng: R)
    ensures
        shuffled_from(list, i, rng).1 == after_draws(rng, i + 1),
    decreases i,
{
    if i >= 1 {
        lemma_shuffle_draws(
            exchanged(list, i, rng.next_uniform(i + 1)),
            i - 1,
            rng.after_uniform(i + 1),
        );
    }
}

/// An all-free field takes one draw less than it has gates: under the number of
/// gates, one less, and so on down to 2.
pub proof fn an_all_free_field_takes_its_draws<R: Prng>(
    fixed: Seq<Option<i64>>,
    gate_count: nat,
    rng: R,
)
    requires
        fixed.len() > 0,
        forall|i: int| 0 <= i < fixed.len() ==> (#[trigger] fixed[i]) is None,
    ensures
        dealing_order(fixed, gate_count, rng).1 == after_draws(rng, gate_count as int),
{
    lemma_all_slots_free(fixed, fixed.len());
    lemma_all_gates_free(fixed, gate_count);
    let free = free_gates(fixed, gate_count);
    lemma_shuffle_draws(free, free.len() - 1, rng);
}

/// Each draw of the deal settles one place, from the last down: the free gate it
/// picks among those not settled yet stands there.
pub proof fn each_draw_settles_one_place<R: Prng>(list: Seq<i64>, i: int, rng: R)
    requires
        1 <= i < list.len(),
    ensures
        shuffled_from(list, i, rng).0[i] == list[rng.next_uniform(i + 1)],
        shuffled_from(list, 0, rng) == (list, rng),
{
    rng.draws_are_under_their_bound(i + 1);
    lemma_later_places_stay(
        exchanged(list, i, rng.next_uniform(i + 1)),
        i - 1,
        rng.after_uniform(i + 1),
        i,
    );
}

proof fn lemma_later_places_stay<R: Prng>(list: Seq<i64>, i: int, rng: R, k: int)
    requires
        i < k < list.len(),
        0 <= k,
    ensures
        shuffled_from(list, i, rng).0[k] == list[k],
        shuffled_from(list, i, rng).0.len() == list.len(),
    decreases i,
{
    if i >= 1 {
        rng.draws_are_under_their_bound(i + 1);
        lemma_later_places_stay(
            exchanged(list, i, rng.next_uniform(i + 1)),
            i - 1,
            rng.after_uniform(i + 1),
            k,
        );
    }
}

/// The unclaimed gates are dealt in turn: the first free slot gets the first of
/// them, and so on, and a free slot with none left over gets gate 0.
pub proof fn free_slots_are_dealt_to_in_turn(
    fixed: Seq<Option<i64>>,
    dealt: Seq<i64>,
    i: int,
)
    requires
        0 <= i < fixed.len(),
        fixed[i] is None,
    ensures
        ({
            let turn = fixed.take(i).filter(|g: Option<i64>| g is None).len() as int;
            &&& turn < dealt.len() ==> gates_dealt(fixed, dealt)[i] == dealt[turn]
            &&& turn >= dealt.len() ==> gates_dealt(fixed, dealt)[i] == 0
        }),
{
    lemma_turns(fixed, i as nat);
}

proof fn lemma_turns(fixed: Seq<Option<i64>>, n: nat)
    requires
        n <= fixed.len(),
    ensures
        free_slots(fixed, n) == fixed.take(n as int).filter(|g: Option<i64>| g is None).len(),
    decreases n,
{
    reveal(Seq::filter);
    if n > 0 {
        lemma_turns(fixed, (n - 1) as nat);
        assert(fixed.take(n as int).drop_last() =~= fixed.take(n - 1));
    }
}

} // verus!
