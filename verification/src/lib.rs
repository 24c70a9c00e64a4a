//! A discrete-event model of a queueing system: request sources, a bounded
//! buffer and a pool of service devices, advanced one event at a time.

pub mod types;
pub mod confidence;
pub mod model;
pub mod simulation;
pub mod analytics;
pub mod laws;
