//! Elections: what a node does when its election timer fires, and what it
//! does with the answers to its requests for votes.

use vstd::prelude::*;

use super::durability::{HardState, RaftError};
use super::messages::{RequestVoteRequest, RequestVoteResponse, RequestVoteView};
use super::state::{
    NodeState, NodeView, Role, RoleView, VolatileCandidateState, VolatileLeaderState,
};

verus! {

/// Number of peers that have granted their vote.
pub open spec fn granted(votes: Seq<bool>) -> nat
    decreases votes.len(),
{
    if votes.len() == 0 {
        0
    } else {
        granted(votes.drop_last()) + if votes.last() {
            1nat
        } else {
            0nat
        }
    }
}

/// Whether `supporters` nodes are a strict majority of a cluster of a node
/// and its `peers`.
pub open spec fn is_majority(supporters: nat, peers: nat) -> bool {
    2 * supporters > peers + 1
}

/// Counts the votes granted by peers.
fn count_granted(votes: &Vec<bool>) -> (count: usize)
    ensures
        count == granted(votes@),
        count <= votes@.len(),
{
    let mut count: usize = 0;
    let mut at: usize = 0;
    while at < votes.len()
        invariant
            at <= votes.len(),
            count == granted(votes@.take(at as int)),
            count <= at,
        decreases votes.len() - at,
    {
        if votes[at] {
            count += 1;
        }
        at += 1;
        assert(votes@.take(at as int).drop_last() =~= votes@.take(at - 1));
    }
    assert(votes@.take(at as int) =~= votes@);
    count
}

impl NodeView {
    /// Whether an election timeout makes the node start an election: a
    /// leader does not, and no term follows the largest `u64`.
    pub open spec fn can_campaign(self) -> bool {
        !(self.role is Leader) && self.current_term < u64::MAX
    }

    /// The node as leader of `peers` peers: every peer is sent the entry
    /// after the last one next, and none is known to hold any entry.
    pub open spec fn as_leader(self, peers: nat) -> NodeView {
        NodeView {
            role: RoleView::Leader {
                next_index: Seq::new(peers, |i: int| (self.log.len() + 1) as u64),
                match_index: Seq::new(peers, |i: int| 0u64),
            },
            ..self
        }
    }

    /// A candidate whose votes, its own included, are a strict majority of
    /// the cluster becomes leader; any other node stays as it is.
    pub open spec fn promote_if_elected(self) -> NodeView {
        match self.role {
            RoleView::Candidate { votes } => if is_majority(granted(votes) + 1, votes.len()) {
                self.as_leader(votes.len())
            } else {
                self
            },
            _ => self,
        }
    }

    /// The node after its election timer has fired. A node that can
    /// campaign enters the next term as a candidate with its own vote and
    /// none from its peers; alone in its cluster, it is leader at once.
    pub open spec fn after_election_timeout(self, id: Seq<char>, peers: nat) -> NodeView {
        if self.can_campaign() {
            (NodeView {
                current_term: (self.current_term + 1) as u64,
                voted_for: Some(id),
                role: RoleView::Candidate { votes: Seq::new(peers, |i: int| false) },
                ..self
            }).promote_if_elected()
        } else {
            self
        }
    }

    /// The request for votes that a candidate with this state sends.
    pub open spec fn vote_request(self, id: Seq<char>) -> RequestVoteView {
        RequestVoteView {
            term: self.current_term,
            candidate_id: id,
            last_log_index: self.last_log_index(),
            last_log_term: self.last_log_term(),
        }
    }

    /// Whether the answer of `peer` counts as a vote: the node is a
    /// candidate, the answer is of its term and grants the vote, and the
    /// peer is one of its peers.
    pub open spec fn counts_vote(self, peer: int, resp: RequestVoteResponse) -> bool {
        &&& self.role is Candidate
        &&& resp.term == self.current_term
        &&& resp.granted
        &&& 0 <= peer < self.role->Candidate_votes.len()
    }

    /// The node after the answer of `peer` to its request for a vote. A
    /// higher term in the answer makes the node a follower of that term. A
    /// vote that counts is recorded, and with a majority the candidate
    /// becomes leader.
    pub open spec fn after_vote_response(self, peer: int, resp: RequestVoteResponse) -> NodeView {
        let seen = self.observe_term(resp.term);
        if seen.counts_vote(peer, resp) {
            (NodeView {
                role: RoleView::Candidate {
                    votes: seen.role->Candidate_votes.update(peer, true),
                },
                ..seen
            }).promote_if_elected()
        } else {
            seen
        }
    }
}

impl NodeState {
    /// Makes a candidate that has a majority the leader.
    fn promote_if_elected(&mut self)
        requires
            old(self).wf(),
        ensures
            final(self).wf(),
            final(self)@ == old(self)@.promote_if_elected(),
    {
        if self.volatile_leader_state.is_some() {
            return;
        }
        let elected = match &self.volatile_candidate_state {
            Some(candidate) => {
                let count = count_granted(&candidate.votes_granted);
                let peers = candidate.votes_granted.len();
                if count >= peers - count {
                    Some(peers)
                } else {
                    None
                }
            },
            None => None,
        };
        if let Some(peers) = elected {
            let next = self.persistent_state.log.len() as u64 + 1;
            let leader = VolatileLeaderState {
                members_next_index: vec![next; peers],
                match_index: vec![0u64; peers],
            };
            self.volatile_candidate_state = None;
            self.volatile_leader_state = Some(leader);
            assert(self@.role->Leader_next_index =~= old(self)@.as_leader(
                peers as nat,
            ).role->Leader_next_index);
            assert(self@.role->Leader_match_index =~= old(self)@.as_leader(
                peers as nat,
            ).role->Leader_match_index);
        }
    }

    /// What has to be written to stable storage before the node starts an
    /// election: the next term and the vote for itself.
    pub fn plan_election(&self, id: &String) -> (plan: Option<HardState>)
        ensures
            plan is Some <==> self@.can_campaign(),
            plan is Some ==> plan->Some_0@.current_term == self@.current_term + 1
                && plan->Some_0@.voted_for == Some(id@),
    {
        if self.volatile_leader_state.is_none() && self.persistent_state.current_term < u64::MAX {
            Some(
                HardState {
                    current_term: self.persistent_state.current_term + 1,
                    voted_for: Some(id.clone()),
                },
            )
        } else {
            None
        }
    }

    /// Handles an election timeout of the node `id`, which has `peers`
    /// peers. `persisted` says whether the state that
    /// [`NodeState::plan_election`] planned has been written to stable
    /// storage.
    ///
    /// A node that starts an election returns the request to send to every
    /// peer. A node that cannot campaign stays as it is and returns
    /// nothing. After a failed write the node stays as it was, and the call
    /// fails.
    pub fn election_timeout(&mut self, id: &String, peers: usize, persisted: bool) -> (result:
        Result<Option<RequestVoteRequest>, RaftError>)
        requires
            old(self).wf(),
        ensures
            final(self).wf(),
            final(self)@ == old(self)@.settle(
                old(self)@.after_election_timeout(id@, peers as nat),
                persisted,
            ),
            !old(self)@.can_campaign() ==> final(self)@ == old(self)@ && result is Ok
                && result->Ok_0 is None,
            old(self)@.can_campaign() && !persisted ==> final(self)@ == old(self)@ && result
                == Err::<Option<RequestVoteRequest>, RaftError>(RaftError::NotPersisted),
            old(self)@.can_campaign() && persisted ==> {
                &&& final(self)@ == old(self)@.after_election_timeout(id@, peers as nat)
                &&& result is Ok
                &&& result->Ok_0 is Some
                &&& result->Ok_0->Some_0@ == final(self)@.vote_request(id@)
            },
    {
        if self.volatile_leader_state.is_some() || self.persistent_state.current_term == u64::MAX {
            return Ok(None);
        }
        if !persisted {
            return Err(RaftError::NotPersisted);
        }
        self.persistent_state.current_term = self.persistent_state.current_term + 1;
        self.persistent_state.voted_for = Some(id.clone());
        self.volatile_candidate_state = Some(
            VolatileCandidateState { votes_granted: vec![false; peers] },
        );
        assert(self@.role->Candidate_votes =~= Seq::new(peers as nat, |i: int| false));
        self.promote_if_elected();
        Ok(
            Some(
                RequestVoteRequest {
                    term: self.persistent_state.current_term,
                    candidate_id: id.clone(),
                    last_log_index: self.last_log_index(),
                    last_log_term: self.last_log_term(),
                },
            ),
        )
    }

    /// Handles the answer of `peer` to a request for a vote. `persisted`
    /// says whether the state that [`NodeState::plan_term`] planned for the
    /// answer's term has been written to stable storage.
    ///
    /// Returns the role of the node after the answer. After a failed write
    /// the node stays as it was, and the call fails.
    pub fn vote_response(&mut self, peer: usize, resp: &RequestVoteResponse, persisted: bool) -> (result:
        Result<Role, RaftError>)
        requires
            old(self).wf(),
        ensures
            final(self).wf(),
            final(self)@ == old(self)@.settle(
                old(self)@.after_vote_response(peer as int, *resp),
                persisted,
            ),
            old(self)@.settles(old(self)@.after_vote_response(peer as int, *resp), persisted)
                ==> result == Ok::<Role, RaftError>(final(self)@.role.role()),
            !old(self)@.settles(old(self)@.after_vote_response(peer as int, *resp), persisted)
                ==> result == Err::<Role, RaftError>(RaftError::NotPersisted),
    {
        if !persisted && resp.term > self.persistent_state.current_term {
            return Err(RaftError::NotPersisted);
        }
        self.adopt_term(resp.term);
        let counts = resp.term == self.persistent_state.current_term && resp.granted;
        if counts && self.volatile_leader_state.is_none() {
            let mut recorded = false;
            match &mut self.volatile_candidate_state {
                Some(candidate) => {
                    if peer < candidate.votes_granted.len() {
                        candidate.votes_granted[peer] = true;
                        recorded = true;
                    }
                },
                None => {},
            }
            if recorded {
                self.promote_if_elected();
            }
        }
        Ok(self.role())
    }
}

} // verus!
