//! Consensus and replicated-storage core of a distributed key-value engine:
//! a Raft cluster member and the in-memory write buffer that its committed
//! log entries land in.

pub mod byte_string;
pub mod config;
pub mod log;
pub mod raft;
