//! Real-time application core of a small shooter: a fixed-step scheduler,
//! the routing of input and command events, session lifecycle commands and a
//! self-describing save format for nested named state.

pub mod scheduler;
pub mod visitor;
pub mod game;
