//! Coordination library for a lattice of agents that exchange signed
//! directives, route and aggregate them, and evolve deterministic state.

pub mod aggregator;
pub mod bridge;
pub mod codec;
pub mod council;
pub mod envelope;
pub mod kernel;
pub mod protocol;
pub mod reply;
pub mod router;
pub mod signing;
pub mod snapshot;
pub mod state;
pub mod synthesis;
