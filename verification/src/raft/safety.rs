//! What holds of a single node whatever happens to it: its term and its
//! vote only move forward, through restarts too; while it runs, so does
//! its commit index; and it grants at most one candidate its vote in a
//! term.

use vstd::prelude::*;

use super::messages::{
    AppendEntriesResponse, AppendEntriesView, RequestVoteResponse, RequestVoteView,
};
use super::append_entries::lemma_merge_changes;
use super::replication::lemma_highest_committable;
use super::state::{LogEntryView, NodeView};

verus! {

/// Everything that can happen to a node.
pub enum Input {
    /// A request for a vote arrives.
    VoteRequest { vote: RequestVoteView },
    /// A request to append entries arrives.
    AppendEntries { append: AppendEntriesView },
    /// The election timer of the node `id` with `peers` peers fires.
    ElectionTimeout { id: Seq<char>, peers: nat },
    /// The answer of `peer` to a request for a vote arrives.
    VoteResponse { voter: int, answer: RequestVoteResponse },
    /// The answer of `peer` to a request with `sent` entries arrives.
    AppendResponse { peer: int, sent: u64, resp: AppendEntriesResponse },
    /// Records are proposed to the node.
    Proposal { records: Seq<Seq<u8>> },
    /// The node advances its commit index as far as a leader may.
    CommitAdvance,
    /// The node stops and starts again from what it had stored.
    Restart,
}

/// An input together with the outcome of the write to stable storage that
/// was made for it.
pub struct Event {
    pub input: Input,
    pub persisted: bool,
}

impl NodeView {
    /// The state that an input asks for.
    pub open spec fn target(self, input: Input) -> NodeView {
        match input {
            Input::VoteRequest { vote } => self.after_vote_request(vote),
            Input::AppendEntries { append } => self.after_append_entries(append),
            Input::ElectionTimeout { id, peers } => self.after_election_timeout(id, peers),
            Input::VoteResponse { voter, answer } => self.after_vote_response(voter, answer),
            Input::AppendResponse { peer, sent, resp } => self.after_append_response(
                peer,
                sent,
                resp,
            ),
            Input::Proposal { records } => self.after_proposal(records),
            Input::CommitAdvance => self.after_commit_advance(),
            Input::Restart => self.restarted(),
        }
    }

    /// The node after an event: the state that the input asks for, unless
    /// that state had to be written to stable storage and was not.
    pub open spec fn step(self, event: Event) -> NodeView {
        self.settle(self.target(event.input), event.persisted)
    }

    /// The node after a run of events, first to last.
    pub open spec fn run(self, events: Seq<Event>) -> NodeView
        decreases events.len(),
    {
        if events.len() == 0 {
            self
        } else {
            self.run(events.drop_last()).step(events.last())
        }
    }

    /// Whether `later` can follow `self` in the life of a node, restarts
    /// included: the term has not gone back, and a vote given in a term
    /// still stands while the term lasts.
    pub open spec fn keeps_vote(self, later: NodeView) -> bool {
        &&& self.current_term <= later.current_term
        &&& (self.current_term == later.current_term && self.voted_for is Some) ==> later.voted_for
            == self.voted_for
    }

    /// Whether `later` can follow `self` while the node runs: term and vote
    /// are kept, and the commit index and the last applied index have not
    /// gone back.
    pub open spec fn precedes(self, later: NodeView) -> bool {
        &&& self.keeps_vote(later)
        &&& self.commit_index <= later.commit_index
        &&& self.last_applied <= later.last_applied
    }
}

/// Whether no event of the run is a restart.
pub open spec fn uninterrupted(events: Seq<Event>) -> bool {
    forall|at: int| 0 <= at < events.len() ==> !((#[trigger] events[at]).input is Restart)
}

/// An event keeps the invariant of a node, its term and its vote; unless
/// it is a restart, it moves nothing back.
pub proof fn lemma_step_forward(node: NodeView, event: Event)
    requires
        node.wf(),
    ensures
        node.step(event).wf(),
        node.keeps_vote(node.step(event)),
        !(event.input is Restart) ==> node.precedes(node.step(event)),
{
    match event.input {
        Input::VoteRequest { vote } => {},
        Input::AppendEntries { append: req } => {
            if node.accepts(req) {
                lemma_merge_changes(node.log, req.prev_log_index as int, req.entries);
            }
        },
        Input::ElectionTimeout { id, peers } => {},
        Input::VoteResponse { voter, answer } => {},
        Input::AppendResponse { peer, sent, resp } => {
            let seen = node.observe_term(resp.term);
            if seen.heeds(peer, resp) && resp.success {
                lemma_highest_committable(
                    seen.after_success(peer, sent),
                    seen.log.len() as int,
                );
            }
        },
        Input::Proposal { records } => {
            if node.takes_proposal() {
                let grown = NodeView {
                    log: node.log.push(LogEntryView { term: node.current_term, records }),
                    ..node
                };
                lemma_highest_committable(grown, grown.log.len() as int);
            }
        },
        Input::CommitAdvance => {
            lemma_highest_committable(node, node.log.len() as int);
        },
        Input::Restart => {},
    }
}

/// A run of events keeps the invariant of a node: the term never
/// decreases, and within a term the vote is never taken back or changed.
/// If no event of the run is a restart, the commit index and the last
/// applied index never decrease either.
pub proof fn lemma_run_forward(node: NodeView, events: Seq<Event>)
    requires
        node.wf(),
    ensures
        node.run(events).wf(),
        node.keeps_vote(node.run(events)),
        uninterrupted(events) ==> node.precedes(node.run(events)),
    decreases events.len(),
{
    if events.len() > 0 {
        lemma_run_forward(node, events.drop_last());
        lemma_step_forward(node.run(events.drop_last()), events.last());
        if uninterrupted(events) {
            assert(!(events[events.len() - 1].input is Restart));
            assert forall|at: int| 0 <= at < events.drop_last().len() implies !((
            #[trigger] events.drop_last()[at]).input is Restart) by {
                assert(events.drop_last()[at] == events[at]);
            }
        }
    }
}

/// Vote monotonicity: a node never grants two different candidates a vote
/// in the same term. If the node grants `first`, then lives through any
/// run of events, restarts among them, and grants `second` in the same
/// term, both requests are from the same candidate.
pub proof fn lemma_vote_monotonicity(
    node: NodeView,
    first: RequestVoteView,
    events: Seq<Event>,
    second: RequestVoteView,
)
    requires
        node.wf(),
        node.vote_reply(first).granted,
        node.after_vote_request(first).run(events).vote_reply(second).granted,
        first.term == second.term,
    ensures
        first.candidate_id == second.candidate_id,
{
    let voted = node.after_vote_request(first);
    lemma_step_forward(node, Event { input: Input::VoteRequest { vote: first }, persisted: true });
    lemma_run_forward(voted, events);
}

} // verus!
