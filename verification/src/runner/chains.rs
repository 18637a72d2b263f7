//! Chains of golds that force golds.
use crate::effect::{hits_opponents, SkillType};
use crate::model::{duration_multiplier, PendingState, SkillEffectSpec};
use crate::runner::activation::{
    activated, after_rolls, application_order, effect_applied, effect_outcome, effect_resolved,
    effects_applied, forced_gold_count, gold_candidates, gold_forced, gold_picks, golds_forced,
    is_held, picks_forced, resolved, resolved_modifier, skill_activated, FORCED_GOLD_CHAIN,
};
use crate::runner::RunnerState;
use vstd::prelude::*;

verus! {

/// Whether an effect, as it applies, forces golds on its caster.
pub open spec fn forces_golds(s: RunnerState, p: PendingState, effect: SkillEffectSpec) -> bool {
    let r = resolved(s, p.skill_id.number, effect);
    &&& !is_held(effect)
    &&& !hits_opponents(r.effect_type, r.target, r.modifier as int)
    &&& r.effect_type == SkillType::ActivateRandomGold
}

/// Whether every chain of golds that one effect starts ends within `depth`
/// links.
pub open spec fn effect_ends(
    s: RunnerState,
    p: PendingState,
    effect: SkillEffectSpec,
    distance: i64,
    depth: nat,
) -> bool
    decreases depth, 2int, 0int,
{
    forces_golds(s, p, effect) ==> golds_end(
        effect_resolved(s, p, effect),
        forced_gold_count(resolved_modifier(s, p.skill_id.number, effect)),
        distance,
        depth,
    )
}

/// Whether every chain that the first `n` of `effects` start ends within
/// `depth` links.
pub open spec fn effects_end(
    s: RunnerState,
    p: PendingState,
    effects: Seq<SkillEffectSpec>,
    n: nat,
    distance: i64,
    time_scaling: i64,
    depth: nat,
) -> bool
    decreases depth, 3int, n,
{
    n > 0 ==> {
        let m = (n - 1) as nat;
        let before = effects_applied(s, p, effects, m, distance, time_scaling, depth).0;
        &&& effects_end(s, p, effects, m, distance, time_scaling, depth)
        &&& effect_ends(before, p, effects[n - 1], distance, depth)
    }
}

/// Whether every chain of forced golds that the activation of `p` starts ends
/// within `depth` links.
pub open spec fn chain_ends(s: RunnerState, p: PendingState, distance: i64, depth: nat) -> bool
    decreases depth, 4int, 0int,
{
    let effects = application_order(p.effects);
    let time_scaling = duration_multiplier(
        p.duration_scaling,
        s.tally.health.current as int,
        s.tally.activation_distance_from_top as int,
    ) as i64;
    effects_end(s, p, effects, effects.len(), distance, time_scaling, depth)
}

/// Whether there is a link left for the gold at `at`, and the chains it starts
/// in turn end within the rest.
pub open spec fn gold_ends(s: RunnerState, at: usize, distance: i64, depth: nat) -> bool
    decreases depth, 0int, 0int,
{
    depth > 0 && chain_ends(s, s.pending[at as int], distance, (depth - 1) as nat)
}

/// Whether the chains that the golds at the first `n` of `picks` start end
/// within `depth` links.
pub open spec fn picks_end(
    s: RunnerState,
    picks: Seq<usize>,
    n: nat,
    distance: i64,
    depth: nat,
) -> bool
    decreases depth, 0int, n + 1,
{
    n > 0 ==> {
        let m = (n - 1) as nat;
        &&& picks_end(s, picks, m, distance, depth)
        &&& gold_ends(picks_forced(s, picks, m, distance, depth), picks[n - 1], distance, depth)
    }
}

/// How many of `available` golds are forced when `count` are asked for.
pub open spec fn taken(count: int, available: nat) -> nat {
    let n = if count < available {
        count
    } else {
        available as int
    };
    if n < 0 {
        0
    } else {
        n as nat
    }
}

/// Whether the chains that `count` drawn golds start end within `depth` links.
pub open spec fn golds_end(s: RunnerState, count: int, distance: i64, depth: nat) -> bool
    decreases depth, 1int, 0int,
{
    let candidates = gold_candidates(s.pending, s.body, s.pending.len());
    let picks = gold_picks(s);
    picks_end(
        RunnerState { gold_rolls: after_rolls(s.gold_rolls, candidates.len()), ..s },
        picks,
        taken(count, picks.len()),
        distance,
        depth,
    )
}

proof fn lemma_effect_is_the_same(
    s: RunnerState,
    p: PendingState,
    effect: SkillEffectSpec,
    distance: i64,
    time_scaling: i64,
    depth: nat,
    more: nat,
)
    requires
        depth <= more,
        effect_ends(s, p, effect, distance, depth),
    ensures
        effect_applied(s, p, effect, distance, time_scaling, more) == effect_applied(
            s,
            p,
            effect,
            distance,
            time_scaling,
            depth,
        ),
        effect_ends(s, p, effect, distance, more),
    decreases depth, 2int, 0int,
{
    reveal(effect_outcome);
    if forces_golds(s, p, effect) {
        lemma_golds_are_the_same(
            effect_resolved(s, p, effect),
            forced_gold_count(resolved_modifier(s, p.skill_id.number, effect)),
            distance,
            depth,
            more,
        );
    }
}

proof fn lemma_effects_are_the_same(
    s: RunnerState,
    p: PendingState,
    effects: Seq<SkillEffectSpec>,
    n: nat,
    distance: i64,
    time_scaling: i64,
    depth: nat,
    more: nat,
)
    requires
        depth <= more,
        effects_end(s, p, effects, n, distance, time_scaling, depth),
    ensures
        effects_applied(s, p, effects, n, distance, time_scaling, more) == effects_applied(
            s,
            p,
            effects,
            n,
            distance,
            time_scaling,
            depth,
        ),
        effects_end(s, p, effects, n, distance, time_scaling, more),
    decreases depth, 3int, n,
{
    if n > 0 {
        let m = (n - 1) as nat;
        lemma_effects_are_the_same(s, p, effects, m, distance, time_scaling, depth, more);
        let before = effects_applied(s, p, effects, m, distance, time_scaling, depth).0;
        lemma_effect_is_the_same(
            before,
            p,
            effects[n - 1],
            distance,
            time_scaling,
            depth,
            more,
        );
    }
}

/// Where every chain of forced golds ends within `depth` links, what an
/// activation does is the same however many more links are allowed.
pub proof fn an_ended_chain_needs_no_more_links(
    s: RunnerState,
    p: PendingState,
    distance: i64,
    depth: nat,
    more: nat,
)
    requires
        depth <= more,
        chain_ends(s, p, distance, depth),
    ensures
        activated(s, p, distance, more) == activated(s, p, distance, depth),
        chain_ends(s, p, distance, more),
    decreases depth, 4int, 0int,
{
    let effects = application_order(p.effects);
    let time_scaling = duration_multiplier(
        p.duration_scaling,
        s.tally.health.current as int,
        s.tally.activation_distance_from_top as int,
    ) as i64;
    lemma_effects_are_the_same(
        s,
        p,
        effects,
        effects.len(),
        distance,
        time_scaling,
        depth,
        more,
    );
}

proof fn lemma_gold_is_the_same(
    s: RunnerState,
    at: usize,
    distance: i64,
    depth: nat,
    more: nat,
)
    requires
        depth <= more,
        gold_ends(s, at, distance, depth),
    ensures
        gold_forced(s, at, distance, more) == gold_forced(s, at, distance, depth),
        gold_ends(s, at, distance, more),
    decreases depth, 0int, 0int,
{
    an_ended_chain_needs_no_more_links(
        s,
        s.pending[at as int],
        distance,
        (depth - 1) as nat,
        (more - 1) as nat,
    );
}

proof fn lemma_picks_are_the_same(
    s: RunnerState,
    picks: Seq<usize>,
    n: nat,
    distance: i64,
    depth: nat,
    more: nat,
)
    requires
        depth <= more,
        picks_end(s, picks, n, distance, depth),
    ensures
        picks_forced(s, picks, n, distance, more) == picks_forced(s, picks, n, distance, depth),
        picks_end(s, picks, n, distance, more),
    decreases depth, 0int, n + 1,
{
    if n > 0 {
        let m = (n - 1) as nat;
        lemma_picks_are_the_same(s, picks, m, distance, depth, more);
        lemma_gold_is_the_same(
            picks_forced(s, picks, m, distance, depth),
            picks[n - 1],
            distance,
            depth,
            more,
        );
    }
}

proof fn lemma_golds_are_the_same(
    s: RunnerState,
    count: int,
    distance: i64,
    depth: nat,
    more: nat,
)
    requires
        depth <= more,
        golds_end(s, count, distance, depth),
    ensures
        golds_forced(s, count, distance, more) == golds_forced(s, count, distance, depth),
        golds_end(s, count, distance, more),
    decreases depth, 1int, 0int,
{
    let candidates = gold_candidates(s.pending, s.body, s.pending.len());
    let picks = gold_picks(s);
    lemma_picks_are_the_same(
        RunnerState { gold_rolls: after_rolls(s.gold_rolls, candidates.len()), ..s },
        picks,
        taken(count, picks.len()),
        distance,
        depth,
        more,
    );
}

/// A chain of forced golds that ends is run to its end: what an activation does
/// is what it does when just as many links are followed as its chains have.
pub proof fn a_chain_that_ends_is_run_to_its_end(
    s: RunnerState,
    p: PendingState,
    distance: i64,
    depth: nat,
)
    requires
        depth <= FORCED_GOLD_CHAIN,
        chain_ends(s, p, distance, depth),
    ensures
        skill_activated(s, p, distance) == activated(s, p, distance, depth),
{
    reveal(skill_activated);
    an_ended_chain_needs_no_more_links(s, p, distance, depth, FORCED_GOLD_CHAIN as nat);
}

} // verus!
