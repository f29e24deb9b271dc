//! Deterministic simulation of several nodes in one process.

pub mod network;
pub mod node;
