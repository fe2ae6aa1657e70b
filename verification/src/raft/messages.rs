//! The requests and replies that cluster members exchange.

use vstd::prelude::*;

use super::state::{entry_views, LogEntry, LogEntryView};

verus! {

/// A candidate's request for a vote.
#[derive(Clone, Debug, PartialEq, Eq)]
pub struct RequestVoteRequest {
    pub term: u64,
    pub candidate_id: String,
    pub last_log_index: u64,
    pub last_log_term: u64,
}

pub struct RequestVoteView {
    pub term: u64,
    pub candidate_id: Seq<char>,
    pub last_log_index: u64,
    pub last_log_term: u64,
}

impl View for RequestVoteRequest {
    type V = RequestVoteView;

    open spec fn view(&self) -> RequestVoteView {
        RequestVoteView {
            term: self.term,
            candidate_id: self.candidate_id@,
            last_log_index: self.last_log_index,
            last_log_term: self.last_log_term,
        }
    }
}

/// The answer to a request for a vote.
#[derive(Clone, Copy, Debug, PartialEq, Eq, Structural)]
pub struct RequestVoteResponse {
    pub term: u64,
    pub granted: bool,
}

/// A leader's request to append entries; with no entries it is a heartbeat.
#[derive(Clone, Debug, PartialEq, Eq)]
pub struct AppendEntriesRequest {
    pub term: u64,
    pub leader_id: String,
    pub prev_log_index: u64,
    pub prev_log_term: u64,
    pub entries: Vec<LogEntry>,
    pub leader_commit_index: u64,
}

pub struct AppendEntriesView {
    pub term: u64,
    pub leader_id: Seq<char>,
    pub prev_log_index: u64,
    pub prev_log_term: u64,
    pub entries: Seq<LogEntryView>,
    pub leader_commit_index: u64,
}

impl View for AppendEntriesRequest {
    type V = AppendEntriesView;

    open spec fn view(&self) -> AppendEntriesView {
        AppendEntriesView {
            term: self.term,
            leader_id: self.leader_id@,
            prev_log_index: self.prev_log_index,
            prev_log_term: self.prev_log_term,
            entries: entry_views(self.entries@),
            leader_commit_index: self.leader_commit_index,
        }
    }
}

/// The answer to a request to append entries.
#[derive(Clone, Copy, Debug, PartialEq, Eq, Structural)]
pub struct AppendEntriesResponse {
    pub term: u64,
    pub success: bool,
}

} // verus!
