//! The gateway: identity, clock, shared state and federation with peers.

pub mod clock;
pub mod federation;
pub mod laws;
pub mod seed;
pub mod state;
