//! A state-vector simulator for small quantum circuits.

pub mod basis;
pub mod error;
pub mod gates;
pub mod laws;
pub mod probability;
pub mod qubit;
pub mod state;
