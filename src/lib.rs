//! An interactive directory picker: a breadth-first walker bounded by depth,
//! fuzzy scoring of the discovered paths, and the session state machine that
//! merges discoveries with key events.

pub mod scorer;
pub mod store;
pub mod session;
pub mod walker;
