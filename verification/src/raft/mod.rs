//! One member of a Raft cluster: its state, the two RPC handlers, and the
//! decisions behind elections and replication.
//!
//! Log indices start at 1. Index 0 stands for the empty prefix of a log and
//! has term 0, so a request whose previous index is 0 matches every log.
//!
//! Whatever changes the persistent state takes a `persisted` flag: the
//! caller writes the planned state to stable storage first and passes the
//! outcome. After a failed write the change does not happen and the call
//! returns an error.
//!
//! A role changes as follows. An election timeout makes a follower or a
//! candidate a candidate of the next term; votes of a majority make a
//! candidate leader; and a higher term in any request or answer makes a
//! node a follower of that term. Nothing else changes a role.
//!
//! What is proved of a single node stands in `safety` and `log_safety`.
//! What is proved of a cluster stands in the `cluster` modules: election
//! safety, log matching, leader completeness and commit safety.

pub mod append_entries;
pub mod cluster;
pub mod cluster_commit;
pub mod cluster_leaders;
pub mod cluster_logs;
pub mod cluster_terms;
pub mod durability;
pub mod election;
pub mod log_safety;
pub mod messages;
pub mod quorum;
pub mod replication;
pub mod request_votes;
pub mod safety;
pub mod state;
