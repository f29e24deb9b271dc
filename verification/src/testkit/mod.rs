//! Simulation and benchmark support.

pub mod network;
pub mod observe;
pub mod timeline;
