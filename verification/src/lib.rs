//! A session broker: a fixed pool of backend ports handed out one per client,
//! remembered by an opaque token, looked up on later requests and reclaimed
//! on release.
//!
//! The broker itself is [`engine::DaemonState`]. Its operations are specified
//! against the mathematical model in [`model`], and the request protocol built
//! on top of it lives in [`gateway`].

pub mod engine;
pub mod error;
pub mod gateway;
pub mod laws;
pub mod model;
pub mod token;
