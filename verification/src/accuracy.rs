//! How close a simulated race comes to a recorded one.
pub mod errors;
pub mod pins;
pub mod recording;
pub mod recording_laws;
pub mod score;
pub mod score_laws;
pub mod spells;
