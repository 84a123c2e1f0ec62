//! Core library of an event-driven terrain simulation: simulation clocks and
//! time deltas, human-readable time formatting and parsing, two event-driven
//! simulation frameworks, and the integer index arithmetic of a toroidal
//! triangulated lattice.

pub mod digits;
pub mod humanized;
pub mod lattice;
pub mod scheduler;
pub mod scheduler_time;
pub mod sim_clock;
pub mod simulation;
pub mod sim_time;
