//! The field of a race, frame by frame: the snapshot every runner reads, the
//! condition timers it keeps, what runners see of each other, and the gates
//! they start from. Pure mechanics over runner positions.
pub mod field_laws;
pub mod gates;
pub mod reads;
pub mod snapshot;
pub mod timers;
