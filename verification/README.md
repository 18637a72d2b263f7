# honse_sim

The decision logic of a horse-racing simulation, verified with Verus: which of a
runner's skills fire on which tick and what they do, how a field is ranked and
its pace set, what a skill's conditions read of the field, and how close a
simulated race comes to a recorded one.

Every quantity is a whole number of billionths (`src/units.rs`): a metre, a
second, a metre per second or a point is 1 000 000 000. Sums and products that
leave the 64-bit range stop at its ends. The race clock alone is kept in
2^-40 s, so that it holds the exact value of a float32 sum.

## Layout

| Path | What it holds |
|---|---|
| `src/units.rs` | fixed-point arithmetic |
| `src/math.rs` | timers and the race clock |
| `src/language.rs` | runners, skills, running styles, stretches of course, text |
| `src/skill_names.rs` | ids for skills, whatever text the skill data names them by |
| `src/effect.rs` | effect types, targets, rarities, value scaling |
| `src/model.rs` | skill data and the runtime forms of a skill |
| `src/rng.rs` | random draws |
| `src/condition/` | run-time conditions and their registry |
| `src/runner/` | a runner's skills: triggers, preparation, activation, the tick's passes, targeted effects |
| `src/pacing.rs` | the election of the pacemaker |
| `src/race_support/` | ranking, condition timers, reads of the field, starting gates |
| `src/accuracy/` | recordings, rushed spells, errors and scores |
| `app/` | floating-point conversions, serialized skill data, captured races on disk and in print |
| `tests/` | tests on concrete values |

## How to read it

A function that changes a runner is specified by a function on `RunnerState`,
the mathematical view of `Runner`: `process_skill_activations`, for example,
turns `old(self)@` into `skills_processed(old(self)@, field, distance)`. What
holds across calls stands as public proof functions beside those definitions,
most of them in `src/runner/laws.rs`, `src/race_support/` and `src/pacing.rs`.

Parsing conditions, placing activation windows and moving runners are not part
of this crate. What they produce comes in as plain values: `ParsedAlternative`,
the windows of `PrepareContext`, and the fields of `RunnerBody`.
