//! Exact solver for the probe-placement problem: given a rectangular grid of
//! altitudes and a multiset of probes, each with a visibility range, place the
//! probes on distinct cells so that the number of observed cells is maximal,
//! ties broken by the summed altitude of observed cells and then by the summed
//! altitude of the occupied cells.

pub mod agent;
pub mod bits;
pub mod laws;
pub mod outcome;
pub mod search;

pub use agent::Agent;
pub use outcome::BestResult;
pub use search::State;
pub use bits::pop64;
