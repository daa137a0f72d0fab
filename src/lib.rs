//! Netcode core of a real-time multiplayer simulation: the authoritative
//! session store, client-side prediction and reconciliation, interpolation of
//! remote entities, lag-compensated collision checks and a simulator of an
//! unreliable network.

pub mod constants;
pub mod types;
pub mod movement;
pub mod prediction;
pub mod track;
pub mod interpolation;
pub mod game;
pub mod colors;
pub mod server;
pub mod network;
pub mod client;
mod platform;
