//! A cluster of nodes, and election safety: in no term does more than one
//! node become leader.
//!
//! The cluster is a model. Its nodes change only as the functions of this
//! library change a node; the network may delay, repeat and reorder what
//! it carries, and may hand a node any request at all. One thing is asked
//! of it: an answer that grants a vote reaches a candidate only if the
//! voter has granted that candidate its vote in that term.
//!
//! The model also keeps a record of what has happened: what leaders have
//! sent, what nodes have taken in, and with which logs they have voted and
//! stood for election. Election safety does not depend on the record.
//! What is proved of the logs does, and asks more of the network. For log
//! matching it has to be faithful: a request to append entries reaches a
//! node only if a leader has sent it. For leader completeness and commit
//! safety it has to keep order: requests for votes are those of
//! candidates too, and a leader is handed the answer to the one request
//! that it has built from a peer's present next index.

use vstd::prelude::*;

use super::append_entries::higher;
use super::election::{granted, is_majority};
use super::messages::{AppendEntriesView, RequestVoteResponse, RequestVoteView};
use super::safety::{lemma_step_forward, Event, Input};
use super::state::{term_at, LogEntryView, NodeView, RoleView};

verus! {

/// A vote that was granted: `voter`, a node of the cluster, voted for the
/// node with the identifier `candidate` in `term`.
pub struct Ballot {
    pub voter: int,
    pub candidate: Seq<char>,
    pub term: u64,
}

/// A request to append entries that a leader has sent to the node `to`,
/// with the part of the leader's log that it was drawn from: the log up to
/// the last entry of the request.
pub struct Shipment {
    pub to: int,
    pub request: AppendEntriesView,
    pub origin: Seq<LogEntryView>,
}

/// An entry taken in: `node`, while in `term`, accepted from the leader of
/// that term the entry at `index`, an entry of that term, with all that
/// precedes it; or, as that leader, appended it.
pub struct Holding {
    pub node: int,
    pub term: u64,
    pub index: int,
}

/// An answer on its way: `from` has accepted the request of `term` that
/// came after index `prev` with `sent` entries, and says so to `to`.
pub struct Ack {
    pub from: int,
    pub to: int,
    pub term: u64,
    pub prev: u64,
    pub sent: u64,
}

/// A cluster: its nodes with their identifiers, and the record of what has
/// happened in it. The record holds every vote granted so far; for each
/// term the node that became leader in it; every request to append entries
/// sent so far; every log that a node has held or a leader has sent from;
/// for each term the log that its leader had when it was elected and the
/// nodes that had voted for it by then; for each node and term the log
/// with which the node became a candidate of the term; for each voter and
/// term the log that the voter had when it first voted in the term, if no
/// leader of the term was elected by then; every entry taken in; and every
/// answer that says so.
pub struct Cluster {
    pub ids: Seq<Seq<char>>,
    pub nodes: Seq<NodeView>,
    pub ballots: Set<Ballot>,
    pub elected: Map<u64, int>,
    pub shipments: Set<Shipment>,
    pub logs: Set<Seq<LogEntryView>>,
    pub election_logs: Map<u64, Seq<LogEntryView>>,
    pub electors: Map<u64, Set<int>>,
    pub canvasses: Map<(int, u64), Seq<LogEntryView>>,
    pub ballot_logs: Map<(int, u64), Seq<LogEntryView>>,
    pub holdings: Set<Holding>,
    pub acks: Set<Ack>,
}

/// What can happen in a cluster.
pub enum Action {
    /// The election timer of `node` fires.
    Timeout { node: int, persisted: bool },
    /// A request for a vote, said to be from `from`, reaches `node`.
    VoteRequest { from: int, node: int, vote: RequestVoteView, persisted: bool },
    /// The answer of the peer number `peer` to a request for a vote
    /// reaches `node`.
    VoteResponse { node: int, peer: int, answer: RequestVoteResponse, persisted: bool },
    /// `node`, if it leads its peer number `peer`, sends it a request to
    /// append at most `limit` entries.
    Send { node: int, peer: int, limit: nat },
    /// A request that a leader has sent reaches the node it was sent to.
    Deliver { shipment: Shipment, persisted: bool },
    /// `node` lives through an event of replication: a request to append
    /// entries that nobody need have sent, an answer to a request, a
    /// proposal, or an advance of the commit index.
    Replication { node: int, event: Event },
    /// `node` stops and starts again from what it had stored.
    Restart { node: int },
}

impl Action {
    /// The node that the action happens to.
    pub open spec fn node(self) -> int {
        match self {
            Action::Timeout { node, .. } => node,
            Action::VoteRequest { node, .. } => node,
            Action::VoteResponse { node, .. } => node,
            Action::Send { node, .. } => node,
            Action::Deliver { shipment, .. } => shipment.to,
            Action::Replication { node, .. } => node,
            Action::Restart { node } => node,
        }
    }
}

/// The node that is peer number `peer` of `node`: the nodes before `node`
/// come first, then those after it.
pub open spec fn peer_node(node: int, peer: int) -> int {
    if peer < node {
        peer
    } else {
        peer + 1
    }
}

impl Cluster {
    /// Number of nodes.
    pub open spec fn size(self) -> int {
        self.nodes.len() as int
    }

    /// Whether `node` is a node of the cluster.
    pub open spec fn has(self, node: int) -> bool {
        0 <= node < self.size()
    }

    /// Number of nodes before `upto` that voted for `candidate` in `term`.
    pub open spec fn tally(self, candidate: Seq<char>, term: u64, upto: int) -> nat
        decreases upto,
    {
        if upto <= 0 {
            0
        } else {
            self.tally(candidate, term, upto - 1) + if self.ballots.contains(
                Ballot { voter: upto - 1, candidate, term },
            ) {
                1nat
            } else {
                0nat
            }
        }
    }

    /// Whether a strict majority of the nodes voted for `candidate` in
    /// `term`.
    pub open spec fn has_majority(self, candidate: Seq<char>, term: u64) -> bool {
        2 * self.tally(candidate, term, self.size()) > self.size()
    }

    /// Whether the event is one of replication.
    pub open spec fn replicates(event: Event) -> bool {
        match event.input {
            Input::AppendEntries { .. } => true,
            Input::AppendResponse { .. } => true,
            Input::Proposal { .. } => true,
            Input::CommitAdvance => true,
            _ => false,
        }
    }

    /// Whether the action can happen. An answer that grants a vote has to
    /// be borne out by a ballot of the peer for the node in that term; an
    /// event of replication has to be one.
    pub open spec fn allows(self, action: Action) -> bool {
        &&& self.has(action.node())
        &&& match action {
            Action::VoteResponse { node, peer, answer, .. } => (answer.granted && 0 <= peer
                < self.size() - 1) ==> self.ballots.contains(
                Ballot { voter: peer_node(node, peer), candidate: self.ids[node], term: answer.term },
            ),
            Action::Deliver { shipment, .. } => self.shipments.contains(shipment),
            Action::Replication { event, .. } => Self::replicates(event),
            _ => true,
        }
    }

    /// Whether the action is one of a network that makes nothing up: a
    /// request to append entries reaches a node only if a leader has sent
    /// it to that node.
    pub open spec fn faithful(action: Action) -> bool {
        match action {
            Action::Replication { event, .. } => !(event.input is AppendEntries),
            _ => true,
        }
    }

    /// The request for votes that a candidate with the identifier `id` and
    /// the log `log` sends in `term`.
    pub open spec fn canvass_request(
        id: Seq<char>,
        term: u64,
        log: Seq<LogEntryView>,
    ) -> RequestVoteView {
        RequestVoteView {
            term,
            candidate_id: id,
            last_log_index: log.len() as u64,
            last_log_term: term_at(log, log.len() as int),
        }
    }

    /// Whether the action is one of a network that keeps order: it makes
    /// nothing up, requests for votes included, and it hands a leader an
    /// answer that a peer has accepted its entries only if the peer did
    /// accept the request that the leader built from the peer's present
    /// next index.
    pub open spec fn orderly(self, action: Action) -> bool {
        &&& Self::faithful(action)
        &&& match action {
            Action::VoteRequest { from, vote, .. } => {
                &&& self.has(from)
                &&& self.canvasses.contains_key((from, vote.term))
                &&& vote == Self::canvass_request(
                    self.ids[from],
                    vote.term,
                    self.canvasses[(from, vote.term)],
                )
            },
            Action::Replication { node, event } => match event.input {
                Input::AppendResponse { peer, sent, resp } => {
                    let seen = self.nodes[node].observe_term(resp.term);
                    (seen.heeds(peer, resp) && resp.success) ==> self.acks.contains(
                        Ack {
                            from: peer_node(node, peer),
                            to: node,
                            term: resp.term,
                            prev: (seen.role->Leader_next_index[peer] - 1) as u64,
                            sent,
                        },
                    )
                },
                _ => true,
            },
            _ => true,
        }
    }

    /// Whether each action of a run is orderly when its turn comes.
    pub open spec fn orderly_all(self, actions: Seq<Action>) -> bool
        decreases actions.len(),
    {
        actions.len() > 0 ==> {
            &&& self.orderly_all(actions.drop_last())
            &&& self.run(actions.drop_last()).orderly(actions.last())
        }
    }

    /// The node of the action after it.
    pub open spec fn node_after(self, action: Action) -> NodeView {
        let before = self.nodes[action.node()];
        match action {
            Action::Timeout { node, persisted } => before.step(
                Event {
                    input: Input::ElectionTimeout {
                        id: self.ids[node],
                        peers: (self.size() - 1) as nat,
                    },
                    persisted,
                },
            ),
            Action::VoteRequest { vote, persisted, .. } => before.step(
                Event { input: Input::VoteRequest { vote }, persisted },
            ),
            Action::VoteResponse { peer, answer, persisted, .. } => before.step(
                Event { input: Input::VoteResponse { voter: peer, answer }, persisted },
            ),
            Action::Send { .. } => before,
            Action::Deliver { shipment, persisted } => before.step(
                Event { input: Input::AppendEntries { append: shipment.request }, persisted },
            ),
            Action::Replication { event, .. } => before.step(event),
            Action::Restart { .. } => before.restarted(),
        }
    }

    /// What a leader sends with an action: the request for the peer, and
    /// the part of its log that the request was drawn from.
    pub open spec fn shipped(self, action: Action) -> Option<Shipment> {
        match action {
            Action::Send { node, peer, limit } => {
                let sender = self.nodes[node];
                match sender.append_request(peer, self.ids[node], limit) {
                    Some(request) => Some(
                        Shipment {
                            to: peer_node(node, peer),
                            request,
                            origin: sender.log.take(
                                request.prev_log_index + request.entries.len(),
                            ),
                        },
                    ),
                    None => None,
                }
            },
            _ => None,
        }
    }

    /// The vote that the action casts: a node that starts an election
    /// votes for itself, and a node that grants a vote has voted.
    pub open spec fn cast(self, action: Action) -> Option<Ballot> {
        let before = self.nodes[action.node()];
        let after = self.node_after(action);
        match action {
            Action::Timeout { node, .. } => if after.current_term != before.current_term {
                Some(Ballot { voter: node, candidate: self.ids[node], term: after.current_term })
            } else {
                None
            },
            Action::VoteRequest { node, vote, persisted, .. } => if before.vote_reply(vote).granted
                && before.settles(before.after_vote_request(vote), persisted) {
                Some(Ballot { voter: node, candidate: vote.candidate_id, term: vote.term })
            } else {
                None
            },
            _ => None,
        }
    }

    /// The votes after the action.
    pub open spec fn ballots_after(self, action: Action) -> Set<Ballot> {
        match self.cast(action) {
            Some(ballot) => self.ballots.insert(ballot),
            None => self.ballots,
        }
    }

    /// Whether the action makes a node take the entries of a shipment.
    pub open spec fn takes_in(self, action: Action) -> bool {
        match action {
            Action::Deliver { shipment, persisted } => {
                let before = self.nodes[shipment.to];
                before.accepts(shipment.request) && before.settles(
                    before.after_append_entries(shipment.request),
                    persisted,
                )
            },
            _ => false,
        }
    }

    /// Whether the action makes a leader append an entry to its log.
    pub open spec fn appends(self, action: Action) -> bool {
        match action {
            Action::Replication { node, event } => event.input is Proposal
                && self.nodes[node].takes_proposal() && event.persisted,
            _ => false,
        }
    }

    /// The entries taken in after the action. A node that accepts a
    /// shipment has taken in each of its entries that the leader appended
    /// in the shipment's term; a leader that appends an entry has taken it
    /// in.
    pub open spec fn holdings_after(self, action: Action) -> Set<Holding> {
        if self.takes_in(action) {
            let shipment = action->Deliver_shipment;
            let request = shipment.request;
            self.holdings.union(
                Set::new(
                    |holding: Holding|
                        holding.node == shipment.to && holding.term == request.term
                            && self.election_logs[request.term].len() < holding.index
                            <= request.prev_log_index + request.entries.len(),
                ),
            )
        } else if self.appends(action) {
            let leader = self.nodes[action.node()];
            self.holdings.insert(
                Holding {
                    node: action.node(),
                    term: leader.current_term,
                    index: leader.log.len() as int + 1,
                },
            )
        } else {
            self.holdings
        }
    }

    /// The cluster after the action. A node that is leader after it is
    /// recorded as the leader of its term.
    pub open spec fn after(self, action: Action) -> Cluster {
        let after = self.node_after(action);
        Cluster {
            ids: self.ids,
            nodes: self.nodes.update(action.node(), after),
            ballots: self.ballots_after(action),
            elected: if after.role is Leader {
                self.elected.insert(after.current_term, action.node())
            } else {
                self.elected
            },
            shipments: match self.shipped(action) {
                Some(shipment) => self.shipments.insert(shipment),
                None => self.shipments,
            },
            logs: match self.shipped(action) {
                Some(shipment) => self.logs.insert(shipment.origin),
                None => self.logs.insert(after.log),
            },
            election_logs: if after.role is Leader && !self.elected.contains_key(
                after.current_term,
            ) {
                self.election_logs.insert(after.current_term, after.log)
            } else {
                self.election_logs
            },
            electors: if after.role is Leader && !self.elected.contains_key(after.current_term) {
                self.electors.insert(
                    after.current_term,
                    Set::new(
                        |voter: int|
                            self.ballots_after(action).contains(
                                Ballot {
                                    voter,
                                    candidate: self.ids[action.node()],
                                    term: after.current_term,
                                },
                            ),
                    ),
                )
            } else {
                self.electors
            },
            canvasses: if action is Timeout && after.current_term
                != self.nodes[action.node()].current_term {
                self.canvasses.insert((action.node(), after.current_term), after.log)
            } else {
                self.canvasses
            },
            ballot_logs: match self.cast(action) {
                Some(ballot) => if self.ballot_logs.contains_key((ballot.voter, ballot.term))
                    || self.elected.contains_key(ballot.term) {
                    self.ballot_logs
                } else {
                    self.ballot_logs.insert((ballot.voter, ballot.term), after.log)
                },
                None => self.ballot_logs,
            },
            holdings: self.holdings_after(action),
            acks: if self.takes_in(action) {
                let shipment = action->Deliver_shipment;
                self.acks.insert(
                    Ack {
                        from: shipment.to,
                        to: self.elected[shipment.request.term],
                        term: shipment.request.term,
                        prev: shipment.request.prev_log_index,
                        sent: shipment.request.entries.len() as u64,
                    },
                )
            } else {
                self.acks
            },
        }
    }

    /// The cluster after a run of actions, first to last.
    pub open spec fn run(self, actions: Seq<Action>) -> Cluster
        decreases actions.len(),
    {
        if actions.len() == 0 {
            self
        } else {
            self.run(actions.drop_last()).after(actions.last())
        }
    }

    /// Whether each action of a run can happen when its turn comes.
    pub open spec fn allows_all(self, actions: Seq<Action>) -> bool
        decreases actions.len(),
    {
        actions.len() > 0 ==> {
            &&& self.allows_all(actions.drop_last())
            &&& self.run(actions.drop_last()).allows(actions.last())
        }
    }

    /// A cluster at its start: followers that have seen no term, with
    /// identifiers that differ, and no vote granted.
    pub open spec fn initial(self) -> bool {
        &&& self.ids.len() == self.nodes.len()
        &&& self.ids.no_duplicates()
        &&& forall|node: int| 0 <= node < self.nodes.len() ==> #[trigger] self.nodes[node]
            == NodeView::initial()
        &&& self.ballots == Set::<Ballot>::empty()
        &&& self.elected == Map::<u64, int>::empty()
        &&& self.shipments == Set::<Shipment>::empty()
        &&& self.logs == Set::<Seq<LogEntryView>>::empty().insert(Seq::empty())
        &&& self.election_logs == Map::<u64, Seq<LogEntryView>>::empty()
        &&& self.electors == Map::<u64, Set<int>>::empty()
        &&& self.canvasses == Map::<(int, u64), Seq<LogEntryView>>::empty()
        &&& self.ballot_logs == Map::<(int, u64), Seq<LogEntryView>>::empty()
        &&& self.holdings == Set::<Holding>::empty()
        &&& self.acks == Set::<Ack>::empty()
    }

    /// What the ballot says is true of its voter: the voter has reached
    /// the ballot's term, and while it is in that term, its vote is the
    /// ballot's candidate.
    pub open spec fn ballot_stands(self, ballot: Ballot) -> bool {
        &&& self.has(ballot.voter)
        &&& ballot.term <= self.nodes[ballot.voter].current_term
        &&& ballot.term == self.nodes[ballot.voter].current_term ==> self.nodes[ballot.voter].voted_for
            == Some(ballot.candidate)
    }

    /// What the role of `node` rests on. A candidate has a slot for each
    /// peer, has voted for itself, and holds only votes that were granted
    /// to it in its term. A leader has a slot for each peer and is the one
    /// recorded for its term.
    pub open spec fn role_founded(self, node: int) -> bool {
        let state = self.nodes[node];
        let term = state.current_term;
        match state.role {
            RoleView::Follower => true,
            RoleView::Candidate { votes } => votes_backed(self, node, term, votes),
            RoleView::Leader { next_index, .. } => {
                &&& next_index.len() == self.size() - 1
                &&& self.elected.contains_key(term)
                &&& self.elected[term] == node
            },
        }
    }

    /// The invariant of a cluster.
    pub open spec fn inv(self) -> bool {
        &&& self.ids.len() == self.nodes.len()
        &&& self.ids.no_duplicates()
        &&& forall|node: int| 0 <= node < self.nodes.len() ==> (#[trigger] self.nodes[node]).wf()
        &&& forall|ballot: Ballot| #[trigger]
            self.ballots.contains(ballot) ==> self.ballot_stands(ballot)
        &&& forall|a: Ballot, b: Ballot|
            #[trigger] self.ballots.contains(a) && #[trigger] self.ballots.contains(b) && a.voter
                == b.voter && a.term == b.term ==> a.candidate == b.candidate
        &&& forall|node: int| 0 <= node < self.nodes.len() ==> #[trigger] self.role_founded(node)
        &&& forall|term: u64| #[trigger]
            self.elected.contains_key(term) ==> self.has(self.elected[term]) && self.has_majority(
                self.ids[self.elected[term]],
                term,
            )
    }
}

/// Among the first `upto` nodes at most `upto` voted for a candidate.
proof fn lemma_tally_bound(cluster: Cluster, candidate: Seq<char>, term: u64, upto: int)
    ensures
        cluster.tally(candidate, term, upto) <= higher(upto, 0),
    decreases upto,
{
    if upto > 0 {
        lemma_tally_bound(cluster, candidate, term, upto - 1);
    }
}

/// More ballots never make a tally smaller.
proof fn lemma_tally_grows(
    before: Cluster,
    after: Cluster,
    candidate: Seq<char>,
    term: u64,
    upto: int,
)
    requires
        before.ballots.subset_of(after.ballots),
    ensures
        before.tally(candidate, term, upto) <= after.tally(candidate, term, upto),
    decreases upto,
{
    if upto > 0 {
        lemma_tally_grows(before, after, candidate, term, upto - 1);
    }
}

/// Two tallies that together exceed the number of voters share a voter.
proof fn lemma_quorums_meet(cluster: Cluster, a: Seq<char>, b: Seq<char>, term: u64, upto: int)
    requires
        cluster.tally(a, term, upto) + cluster.tally(b, term, upto) > higher(upto, 0),
    ensures
        exists|voter: int|
            0 <= voter < upto && #[trigger] cluster.ballots.contains(
                Ballot { voter, candidate: a, term },
            ) && cluster.ballots.contains(Ballot { voter, candidate: b, term }),
    decreases upto,
{
    if upto <= 0 {
    } else if cluster.ballots.contains(Ballot { voter: upto - 1, candidate: a, term })
        && cluster.ballots.contains(Ballot { voter: upto - 1, candidate: b, term }) {
    } else {
        lemma_tally_bound(cluster, a, term, upto - 1);
        lemma_tally_bound(cluster, b, term, upto - 1);
        lemma_quorums_meet(cluster, a, b, term, upto - 1);
    }
}

/// Whether the votes that a candidate holds were granted to it: its own,
/// and that of each peer whose slot is set.
pub open spec fn votes_backed(
    cluster: Cluster,
    node: int,
    term: u64,
    votes: Seq<bool>,
) -> bool {
    &&& votes.len() == cluster.size() - 1
    &&& cluster.ballots.contains(Ballot { voter: node, candidate: cluster.ids[node], term })
    &&& forall|peer: int|
        0 <= peer < votes.len() && #[trigger] votes[peer] ==> cluster.ballots.contains(
            Ballot { voter: peer_node(node, peer), candidate: cluster.ids[node], term },
        )
}

/// Number of peers of `node` among the first `upto` nodes.
pub open spec fn peers_before(node: int, upto: int) -> int {
    if upto <= node {
        upto
    } else {
        upto - 1
    }
}

/// The tally of a candidate counts its own vote and every vote it holds.
proof fn lemma_candidate_tally(
    cluster: Cluster,
    node: int,
    term: u64,
    votes: Seq<bool>,
    upto: int,
)
    requires
        cluster.has(node),
        votes_backed(cluster, node, term, votes),
        0 <= upto <= cluster.size(),
    ensures
        cluster.tally(cluster.ids[node], term, upto) >= granted(
            votes.take(peers_before(node, upto)),
        ) + if upto > node {
            1nat
        } else {
            0nat
        },
    decreases upto,
{
    if upto > 0 {
        lemma_candidate_tally(cluster, node, term, votes, upto - 1);
        let voter = upto - 1;
        if voter != node {
            let peer = peers_before(node, voter);
            assert(peer_node(node, peer) == voter);
            assert(votes.take(peer + 1).drop_last() =~= votes.take(peer));
            assert(votes.take(peer + 1).last() == votes[peer]);
        }
    }
}

/// A candidate that holds the votes of a majority has a majority of the
/// ballots.
proof fn lemma_elected_has_majority(cluster: Cluster, node: int, term: u64, votes: Seq<bool>)
    requires
        cluster.has(node),
        votes_backed(cluster, node, term, votes),
        is_majority(granted(votes) + 1, votes.len()),
    ensures
        cluster.has_majority(cluster.ids[node], term),
{
    lemma_candidate_tally(cluster, node, term, votes, cluster.size());
    assert(votes.take(cluster.size() - 1) =~= votes);
}

/// Votes that were backed stay backed when ballots are added.
proof fn lemma_votes_stay_backed(
    before: Cluster,
    after: Cluster,
    node: int,
    term: u64,
    votes: Seq<bool>,
)
    requires
        before.ballots.subset_of(after.ballots),
        before.ids == after.ids,
        before.size() == after.size(),
        votes_backed(before, node, term, votes),
    ensures
        votes_backed(after, node, term, votes),
{
}

/// Where the role of the node of an action comes from. After the action
/// the node has not gone back in its term and has kept a vote given in it;
/// as a candidate it holds only votes that were granted to it; and as a
/// leader it was leader of the same term before or has a majority of the
/// ballots of its term.
proof fn lemma_role_origin(cluster: Cluster, action: Action)
    requires
        cluster.inv(),
        cluster.allows(action),
    ensures
        ({
            let node = action.node();
            let before = cluster.nodes[node];
            let after = cluster.node_after(action);
            let next = cluster.after(action);
            &&& after.wf()
            &&& before.current_term <= after.current_term
            &&& (before.current_term == after.current_term && before.voted_for is Some)
                ==> after.voted_for == before.voted_for
            &&& match after.role {
                RoleView::Follower => true,
                RoleView::Candidate { votes } => votes_backed(
                    next,
                    node,
                    after.current_term,
                    votes,
                ),
                RoleView::Leader { .. } => {
                    ||| before.role is Leader && before.current_term == after.current_term
                    ||| next.has_majority(next.ids[node], after.current_term)
                },
            }
        }),
{
    let node = action.node();
    let before = cluster.nodes[node];
    let after = cluster.node_after(action);
    let next = cluster.after(action);
    assert(before.wf());
    assert(cluster.role_founded(node));
    assert(cluster.ballots.subset_of(next.ballots));
    if before.role is Candidate {
        lemma_votes_stay_backed(
            cluster,
            next,
            node,
            before.current_term,
            before.role->Candidate_votes,
        );
    }
    match action {
        Action::Timeout { persisted, .. } => {
            let id = cluster.ids[node];
            let peers = (cluster.size() - 1) as nat;
            let event = Event { input: Input::ElectionTimeout { id, peers }, persisted };
            lemma_step_forward(before, event);
            if before.can_campaign() && persisted {
                let votes = Seq::new(peers, |i: int| false);
                let term = (before.current_term + 1) as u64;
                assert(votes_backed(next, node, term, votes));
                if is_majority(granted(votes) + 1, votes.len()) {
                    lemma_elected_has_majority(next, node, term, votes);
                }
            }
        },
        Action::VoteRequest { vote, persisted, .. } => {
            lemma_step_forward(before, Event { input: Input::VoteRequest { vote }, persisted });
        },
        Action::VoteResponse { peer, answer, persisted, .. } => {
            lemma_step_forward(
                before,
                Event { input: Input::VoteResponse { voter: peer, answer }, persisted },
            );
            let seen = before.observe_term(answer.term);
            if seen.counts_vote(peer, answer) {
                let votes = seen.role->Candidate_votes.update(peer, true);
                assert(votes_backed(next, node, seen.current_term, votes));
                if is_majority(granted(votes) + 1, votes.len()) {
                    lemma_elected_has_majority(next, node, seen.current_term, votes);
                }
            }
        },
        Action::Send { .. } => {},
        Action::Deliver { shipment, persisted } => {
            lemma_step_forward(
                before,
                Event { input: Input::AppendEntries { append: shipment.request }, persisted },
            );
        },
        Action::Replication { event, .. } => {
            lemma_step_forward(before, event);
        },
        Action::Restart { .. } => {},
    }
}

/// An action that can happen keeps the invariant of the cluster, and the
/// leader recorded for a term stays the leader recorded for it.
pub proof fn lemma_action_keeps_inv(cluster: Cluster, action: Action)
    requires
        cluster.inv(),
        cluster.allows(action),
    ensures
        cluster.after(action).inv(),
        forall|term: u64| #[trigger]
            cluster.elected.contains_key(term) ==> cluster.after(action).elected.contains_key(
                term,
            ) && cluster.after(action).elected[term] == cluster.elected[term],
{
    let node = action.node();
    let before = cluster.nodes[node];
    let after = cluster.node_after(action);
    let next = cluster.after(action);
    lemma_role_origin(cluster, action);
    assert(cluster.ballots.subset_of(next.ballots));
    assert(cluster.role_founded(node));
    // Every ballot is true of its voter.
    assert forall|ballot: Ballot| #[trigger] next.ballots.contains(ballot) implies next.ballot_stands(
        ballot,
    ) by {
        if cluster.ballots.contains(ballot) {
            assert(cluster.ballot_stands(ballot));
        }
    }
    // No voter has two candidates in a term.
    assert forall|a: Ballot, b: Ballot|
        #[trigger] next.ballots.contains(a) && #[trigger] next.ballots.contains(b) && a.voter
            == b.voter && a.term == b.term implies a.candidate == b.candidate by {
        if cluster.ballots.contains(a) {
            assert(cluster.ballot_stands(a));
        }
        if cluster.ballots.contains(b) {
            assert(cluster.ballot_stands(b));
        }
    }
    // A second leader of a term would share a voter with the first.
    if after.role is Leader && cluster.elected.contains_key(after.current_term) {
        let term = after.current_term;
        let first = cluster.elected[term];
        if !(before.role is Leader && before.current_term == term) {
            lemma_tally_grows(cluster, next, cluster.ids[first], term, cluster.size());
            lemma_quorums_meet(next, cluster.ids[first], cluster.ids[node], term, next.size());
            let voter = choose|voter: int|
                0 <= voter < next.size() && #[trigger] next.ballots.contains(
                    Ballot { voter, candidate: cluster.ids[first], term },
                ) && next.ballots.contains(Ballot { voter, candidate: cluster.ids[node], term });
            assert(cluster.ids[first] == cluster.ids[node]);
        }
        assert(first == node);
    }
    assert forall|term: u64| #[trigger] next.elected.contains_key(term) implies next.has(
        next.elected[term],
    ) && next.has_majority(next.ids[next.elected[term]], term) by {
        if cluster.elected.contains_key(term) {
            lemma_tally_grows(cluster, next, cluster.ids[cluster.elected[term]], term, cluster.size());
        }
    }
    assert forall|other: int| 0 <= other < next.nodes.len() implies #[trigger] next.role_founded(
        other,
    ) by {
        if other != node {
            assert(cluster.role_founded(other));
            let state = cluster.nodes[other];
            if state.role is Candidate {
                lemma_votes_stay_backed(
                    cluster,
                    next,
                    other,
                    state.current_term,
                    state.role->Candidate_votes,
                );
            }
        }
    }
}

/// A cluster at its start has the invariant.
pub proof fn lemma_initial_inv(cluster: Cluster)
    requires
        cluster.initial(),
    ensures
        cluster.inv(),
{
    assert forall|node: int| 0 <= node < cluster.nodes.len() implies #[trigger] cluster.role_founded(
        node,
    ) by {
        assert(cluster.nodes[node] == NodeView::initial());
    }
}

/// A run of actions that can happen keeps the invariant of the cluster,
/// and the leader recorded for a term stays the leader recorded for it.
pub proof fn lemma_run_keeps_inv(cluster: Cluster, actions: Seq<Action>)
    requires
        cluster.inv(),
        cluster.allows_all(actions),
    ensures
        cluster.run(actions).inv(),
        cluster.run(actions).size() == cluster.size(),
        forall|term: u64| #[trigger]
            cluster.elected.contains_key(term) ==> cluster.run(actions).elected.contains_key(
                term,
            ) && cluster.run(actions).elected[term] == cluster.elected[term],
    decreases actions.len(),
{
    if actions.len() > 0 {
        lemma_run_keeps_inv(cluster, actions.drop_last());
        lemma_action_keeps_inv(cluster.run(actions.drop_last()), actions.last());
    }
}

/// Election safety, at one time: two nodes that are leader in the same
/// term are one node.
pub proof fn lemma_election_safety(cluster: Cluster, first: int, second: int)
    requires
        cluster.inv(),
        cluster.has(first),
        cluster.has(second),
        cluster.nodes[first].role is Leader,
        cluster.nodes[second].role is Leader,
        cluster.nodes[first].current_term == cluster.nodes[second].current_term,
    ensures
        first == second,
{
    assert(cluster.role_founded(first));
    assert(cluster.role_founded(second));
}

/// Election safety, over time: in no term is more than one node ever
/// leader. If `first` is leader in a term, and after any run of actions
/// `second` is leader in that term, they are one node.
pub proof fn lemma_one_leader_per_term(
    cluster: Cluster,
    actions: Seq<Action>,
    first: int,
    second: int,
)
    requires
        cluster.inv(),
        cluster.allows_all(actions),
        cluster.has(first),
        cluster.has(second),
        cluster.nodes[first].role is Leader,
        cluster.run(actions).nodes[second].role is Leader,
        cluster.nodes[first].current_term == cluster.run(actions).nodes[second].current_term,
    ensures
        first == second,
{
    lemma_run_keeps_inv(cluster, actions);
    assert(cluster.role_founded(first));
    assert(cluster.run(actions).role_founded(second));
}

} // verus!
