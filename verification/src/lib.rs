//! Coordination of named agents over channels, and the controls that keep them
//! from talking past their capabilities, to themselves, or forever.

pub mod agent;
pub mod capability;
pub mod channel;
pub mod control;
pub mod envelope;
pub mod exchange_laws;
pub mod facts;
pub mod facts_laws;
pub mod host;
pub mod host_laws;
pub mod host_step_laws;
pub mod lease;
pub mod message;
pub mod names;
pub mod number;
pub mod run_laws;
pub mod scenario;
pub mod seen;
pub mod simulation;
pub mod simulation_laws;
pub mod text;
