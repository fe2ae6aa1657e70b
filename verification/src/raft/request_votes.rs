//! The RequestVote handler.

use vstd::prelude::*;

use super::durability::{HardState, RaftError};
use super::messages::{RequestVoteRequest, RequestVoteResponse, RequestVoteView};
use super::state::{NodeState, NodeView};

verus! {

/// Whether a log that ends with `(last_term, last_index)` is at least as
/// up to date as one that ends with `(own_term, own_index)`: the later
/// last term wins, and with equal terms the longer log.
pub open spec fn at_least_as_up_to_date(
    last_term: u64,
    last_index: u64,
    own_term: u64,
    own_index: u64,
) -> bool {
    last_term > own_term || (last_term == own_term && last_index >= own_index)
}

/// What a handled vote request leaves behind.
#[derive(Clone, Copy, Debug, PartialEq, Eq, Structural)]
pub struct VoteOutcome {
    pub reply: RequestVoteResponse,
    /// Set when the vote was granted: the node defers to the candidate and
    /// its election timer starts anew.
    pub reset_election_timer: bool,
}

impl NodeView {
    /// Whether a node in this state grants the vote that `req` asks for:
    /// the request is of the node's own term, the node has not voted for
    /// anyone else in it, and the candidate's log is at least as up to date
    /// as the node's.
    pub open spec fn grants(self, req: RequestVoteView) -> bool {
        &&& req.term == self.current_term
        &&& (self.voted_for is None || self.voted_for == Some(req.candidate_id))
        &&& at_least_as_up_to_date(
            req.last_log_term,
            req.last_log_index,
            self.last_log_term(),
            self.last_log_index(),
        )
    }

    /// The node after a vote request. A stale request changes nothing. Any
    /// other request first makes the node adopt the request's term, and if
    /// the node then grants the vote, it records the candidate.
    pub open spec fn after_vote_request(self, req: RequestVoteView) -> NodeView {
        let seen = self.observe_term(req.term);
        if seen.grants(req) {
            NodeView { voted_for: Some(req.candidate_id), ..seen }
        } else {
            seen
        }
    }

    /// The reply to a vote request: the node's term after the request, and
    /// whether the vote was granted.
    pub open spec fn vote_reply(self, req: RequestVoteView) -> RequestVoteResponse {
        let seen = self.observe_term(req.term);
        RequestVoteResponse { term: seen.current_term, granted: seen.grants(req) }
    }
}

impl NodeState {
    /// Whether the node, after it has adopted the request's term, grants
    /// the vote.
    fn would_grant(&self, req: &RequestVoteRequest) -> (granted: bool)
        requires
            self.wf(),
        ensures
            granted == self@.observe_term(req.term).grants(req@),
    {
        let current = self.persistent_state.current_term;
        if req.term < current {
            return false;
        }
        let free = if req.term > current {
            true
        } else {
            match &self.persistent_state.voted_for {
                None => true,
                Some(candidate) => *candidate == req.candidate_id,
            }
        };
        let own_term = self.last_log_term();
        let own_index = self.last_log_index();
        free && (req.last_log_term > own_term || (req.last_log_term == own_term
            && req.last_log_index >= own_index))
    }

    /// What has to be written to stable storage before the vote request is
    /// answered: nothing if the request leaves term and vote as they are.
    pub fn plan_vote(&self, req: &RequestVoteRequest) -> (plan: Option<HardState>)
        requires
            self.wf(),
        ensures
            plan is Some <==> !self@.same_persistent(self@.after_vote_request(req@)),
            plan is Some ==> plan->Some_0@ == self@.after_vote_request(req@).hard_state(),
    {
        let granted = self.would_grant(req);
        if granted {
            let unchanged = req.term == self.persistent_state.current_term && match &self.persistent_state.voted_for {
                None => false,
                Some(candidate) => *candidate == req.candidate_id,
            };
            if unchanged {
                None
            } else {
                Some(
                    HardState {
                        current_term: req.term,
                        voted_for: Some(req.candidate_id.clone()),
                    },
                )
            }
        } else {
            self.plan_term(req.term)
        }
    }

    /// Handles a vote request. `persisted` says whether the state that
    /// [`NodeState::plan_vote`] planned has been written to stable storage.
    ///
    /// Where nothing had to be written, or the write succeeded, the node
    /// takes the new state and the reply is returned. After a failed write
    /// the node stays as it was and the request fails: no vote is granted.
    pub fn request_vote(&mut self, req: &RequestVoteRequest, persisted: bool) -> (result: Result<
        VoteOutcome,
        RaftError,
    >)
        requires
            old(self).wf(),
        ensures
            final(self).wf(),
            final(self)@ == old(self)@.settle(old(self)@.after_vote_request(req@), persisted),
            old(self)@.settles(old(self)@.after_vote_request(req@), persisted) ==> result == Ok::<
                VoteOutcome,
                RaftError,
            >(
                VoteOutcome {
                    reply: old(self)@.vote_reply(req@),
                    reset_election_timer: old(self)@.vote_reply(req@).granted,
                },
            ),
            !old(self)@.settles(old(self)@.after_vote_request(req@), persisted) ==> result == Err::<
                VoteOutcome,
                RaftError,
            >(RaftError::NotPersisted),
    {
        let granted = self.would_grant(req);
        if !persisted {
            let plan = self.plan_vote(req);
            if plan.is_some() {
                return Err(RaftError::NotPersisted);
            }
        }
        self.adopt_term(req.term);
        if granted {
            self.persistent_state.voted_for = Some(req.candidate_id.clone());
        }
        Ok(
            VoteOutcome {
                reply: RequestVoteResponse { term: self.persistent_state.current_term, granted },
                reset_election_timer: granted,
            },
        )
    }
}

} // verus!
