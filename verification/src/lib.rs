pub mod accuracy;
pub mod condition;
pub mod effect;
pub mod language;
pub mod math;
pub mod model;
pub mod pacing;
pub mod race_support;
pub mod rng;
pub mod runner;
pub mod skill_names;
pub mod units;
