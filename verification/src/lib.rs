//! Peer-synchronization protocol layer of a blockchain node: the wire message
//! model, the per-peer state tables, the protocol engine that dispatches
//! inbound messages, and the liveness sweep that flags stalled peers.

pub mod chain;
pub mod engine;
pub mod random;
pub mod table;
pub mod wire;
