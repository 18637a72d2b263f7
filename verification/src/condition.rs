//! Runtime conditions: the live-race view they read, the three families of
//! condition tokens, and the registry that names them.
pub mod blocking;
pub mod dynamic;
pub mod meaning;
pub mod names;
pub mod order;
pub mod proximity;
