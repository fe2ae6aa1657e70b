//! Leader completeness: an entry that a majority of the nodes has taken in
//! is in the log of every leader of a later term.
//!
//! This holds in every cluster whose network keeps order.

use vstd::prelude::*;

use super::append_entries::{first_conflict, lemma_first_conflict, lemma_merge_changes, merge};
use super::cluster::{Action, Ballot, Cluster, Holding};
use super::cluster_logs::{lemma_fresh_leader, lemma_log_origin};
use super::cluster_terms::{
    lemma_action_keeps_terms_inv, lemma_initial_terms_inv, nondecreasing, starts_with,
};
use super::log_safety::{agree_through, log_matching, same_term_at};
use super::quorum::{count, lemma_count_grows, lemma_majorities_meet, majority};
use super::request_votes::at_least_as_up_to_date;
use super::state::{term_at, LogEntryView, NodeView};

verus! {

/// Whether the log holds an entry of `term` at `index`.
pub open spec fn holds_at(log: Seq<LogEntryView>, index: int, term: u64) -> bool {
    1 <= index <= log.len() && log[index - 1].term == term
}

/// Whether a candidate with the log `candidate` gets the vote of a node
/// with the log `voter`, as far as the logs go.
pub open spec fn log_up_to_date(candidate: Seq<LogEntryView>, voter: Seq<LogEntryView>) -> bool {
    at_least_as_up_to_date(
        term_at(candidate, candidate.len() as int),
        candidate.len() as u64,
        term_at(voter, voter.len() as int),
        voter.len() as u64,
    )
}

impl Cluster {
    /// Whether the leader of `later`, if one was elected, had the entry of
    /// `term` at `index` in its log when it was elected.
    pub open spec fn kept_by(self, later: u64, index: int, term: u64) -> bool {
        self.election_logs.contains_key(later) ==> holds_at(self.election_log(later), index, term)
    }

    /// Whether every leader of a term after `term` and before `bound` had
    /// the entry of `term` at `index` in its log when it was elected.
    pub open spec fn kept_until(self, bound: int, index: int, term: u64) -> bool {
        forall|later: u64| term < later < bound ==> #[trigger] self.kept_by(later, index, term)
    }

    /// What is recorded of a node that had voted for the leader of `term`
    /// when the leader was elected: its ballot, and its log when it voted,
    /// which was not more up to date than the leader's.
    pub open spec fn elector_sound(self, term: u64, voter: int) -> bool {
        &&& self.has(voter)
        &&& self.ballots.contains(
            Ballot { voter, candidate: self.ids[self.elected[term]], term },
        )
        &&& self.ballot_logs.contains_key((voter, term))
        &&& log_up_to_date(self.election_log(term), self.ballot_logs[(voter, term)])
    }

    /// The nodes that had voted for the leader of `term` when it was
    /// elected are a majority, and their record is sound.
    pub open spec fn electors_sound(self, term: u64) -> bool {
        &&& term >= 1
        &&& self.electors.contains_key(term)
        &&& majority(|voter: int| self.electors[term].contains(voter), self.size())
        &&& forall|voter: int| #[trigger]
            self.electors[term].contains(voter) ==> self.elector_sound(term, voter)
    }

    /// What is recorded of a ballot. While no leader of its term is
    /// elected, the voter's log is recorded. The candidate `candidate`, if
    /// the ballot is for it, had started its election, and the recorded
    /// log of the voter was not more up to date than the candidate's.
    pub open spec fn ballot_recorded(self, ballot: Ballot, candidate: int) -> bool {
        let key = (ballot.voter, ballot.term);
        &&& !self.elected.contains_key(ballot.term) ==> self.ballot_logs.contains_key(key)
        &&& (self.has(candidate) && self.ids[candidate] == ballot.candidate) ==> {
            &&& self.canvasses.contains_key((candidate, ballot.term))
            &&& self.ballot_logs.contains_key(key) ==> log_up_to_date(
                self.canvasses[(candidate, ballot.term)],
                self.ballot_logs[key],
            )
        }
    }

    /// A candidate has started its election, and has the log that it had
    /// then unless a leader of its term is elected.
    pub open spec fn candidate_canvassed(self, node: int) -> bool {
        let state = self.nodes[node];
        let key = (node, state.current_term);
        state.role is Candidate ==> {
            &&& self.canvasses.contains_key(key)
            &&& state.log == self.canvasses[key] || self.elected.contains_key(state.current_term)
        }
    }

    /// What a recorded start of an election rests on.
    pub open spec fn canvass_sound(self, node: int, term: u64) -> bool {
        &&& self.has(node)
        &&& 1 <= term <= self.nodes[node].current_term
        &&& self.logs.contains(self.canvasses[(node, term)])
    }

    /// What a recorded log of a voter rests on: the log is kept, the voter
    /// has reached the term, and while it is in the term it has a vote,
    /// for which there is a ballot.
    pub open spec fn ballot_log_sound(self, voter: int, term: u64) -> bool {
        let state = self.nodes[voter];
        &&& self.has(voter)
        &&& self.logs.contains(self.ballot_logs[(voter, term)])
        &&& term <= state.current_term
        &&& term == state.current_term ==> {
            &&& state.voted_for is Some
            &&& self.ballots.contains(
                Ballot { voter, candidate: state.voted_for->Some_0, term },
            )
        }
    }

    /// What an entry taken in rests on: its node has reached its term, and
    /// its index lies beyond the election log of its term.
    pub open spec fn holding_sound(self, holding: Holding) -> bool {
        &&& self.has(holding.node)
        &&& 1 <= holding.term <= self.nodes[holding.node].current_term
        &&& self.election_logs.contains_key(holding.term)
        &&& self.election_log(holding.term).len() < holding.index
    }

    /// A node still holds an entry that it has taken in, unless the leader
    /// of a later term that the node has reached did not have the entry.
    pub open spec fn holding_kept(self, holding: Holding) -> bool {
        let state = self.nodes[holding.node];
        self.kept_until(state.current_term + 1, holding.index, holding.term) ==> holds_at(
            state.log,
            holding.index,
            holding.term,
        )
    }

    /// When a node first voted in `term`, it held each entry of an earlier
    /// term that it had taken in, unless the leader of a term between the
    /// two did not have the entry.
    pub open spec fn held_when_voting(self, holding: Holding, term: u64) -> bool {
        let key = (holding.node, term);
        (self.ballot_logs.contains_key(key) && holding.term < term && self.kept_until(
            term as int,
            holding.index,
            holding.term,
        )) ==> holds_at(self.ballot_logs[key], holding.index, holding.term)
    }

    /// The leader of `term` had each entry of an earlier term that one of
    /// its electors had taken in, unless the leader of a term between the
    /// two did not have the entry.
    pub open spec fn held_when_elected(self, holding: Holding, term: u64) -> bool {
        (self.elected.contains_key(term) && self.electors[term].contains(holding.node)
            && holding.term < term && self.kept_until(term as int, holding.index, holding.term))
            ==> holds_at(self.election_log(term), holding.index, holding.term)
    }

    /// The invariant from which leader completeness follows.
    pub open spec fn leaders_inv(self) -> bool {
        &&& forall|term: u64| #[trigger]
            self.elected.contains_key(term) ==> self.electors_sound(term)
        &&& forall|ballot: Ballot, candidate: int|
            self.ballots.contains(ballot) ==> #[trigger] self.ballot_recorded(ballot, candidate)
        &&& forall|node: int|
            0 <= node < self.nodes.len() ==> #[trigger] self.candidate_canvassed(node)
        &&& forall|node: int, term: u64| #[trigger]
            self.canvasses.contains_key((node, term)) ==> self.canvass_sound(node, term)
        &&& forall|voter: int, term: u64| #[trigger]
            self.ballot_logs.contains_key((voter, term)) ==> self.ballot_log_sound(voter, term)
        &&& forall|holding: Holding| #[trigger]
            self.holdings.contains(holding) ==> self.holding_sound(holding)
        &&& forall|holding: Holding| #[trigger]
            self.holdings.contains(holding) ==> self.holding_kept(holding)
        &&& forall|holding: Holding, term: u64|
            self.holdings.contains(holding) ==> #[trigger] self.held_when_voting(holding, term)
        &&& forall|holding: Holding, term: u64|
            self.holdings.contains(holding) ==> #[trigger] self.held_when_elected(holding, term)
    }

    /// Everything that an orderly action starts from.
    pub open spec fn steady(self, action: Action) -> bool {
        &&& self.inv()
        &&& self.logs_inv()
        &&& self.terms_inv()
        &&& self.leaders_inv()
        &&& self.allows(action)
        &&& self.orderly(action)
    }

    /// The choice of the nodes that have taken in the entry of `term` at
    /// `index`.
    pub open spec fn taken_in_by(self, index: int, term: u64) -> spec_fn(int) -> bool {
        |node: int| self.holdings.contains(Holding { node, term, index })
    }

    /// Whether a majority of the nodes has taken in the entry of `term` at
    /// `index`.
    pub open spec fn sealed(self, index: int, term: u64) -> bool {
        majority(self.taken_in_by(index, term), self.size())
    }
}

/// A log of a candidate that is at least as up to date as the log of a
/// voter holds what the voter's log holds of an earlier term, if the
/// leaders between that term and the candidate's held it.
proof fn lemma_up_to_date_holds(
    cluster: Cluster,
    candidate: Seq<LogEntryView>,
    voter: Seq<LogEntryView>,
    bound: u64,
    index: int,
    term: u64,
)
    requires
        cluster.logs_inv(),
        cluster.terms_inv(),
        cluster.logs.contains(candidate),
        cluster.logs.contains(voter),
        log_up_to_date(candidate, voter),
        holds_at(voter, index, term),
        forall|at: int| 0 <= at < candidate.len() ==> (#[trigger] candidate[at]).term < bound,
        cluster.kept_until(bound as int, index, term),
        1 <= term,
    ensures
        holds_at(candidate, index, term),
{
    let voter_last = voter.len() - 1;
    assert(nondecreasing(voter));
    assert(voter[index - 1].term <= voter[voter_last].term);
    let candidate_last = candidate.len() - 1;
    assert(candidate.len() > 0);
    let top = candidate[candidate_last].term;
    assert(cluster.grown_at(candidate, candidate_last));
    if top == voter[voter_last].term {
        assert(cluster.grown_at(voter, voter_last));
        assert(candidate[voter_last].term == top);
        assert(log_matching(candidate, voter));
        assert(same_term_at(candidate, voter, voter_last));
        assert(agree_through(candidate, voter, voter_last));
    } else {
        assert(cluster.kept_by(top, index, term));
        let base = cluster.election_log(top);
        assert(starts_with(candidate, base));
        assert(candidate[index - 1] == base[index - 1]);
    }
}

/// Leader completeness: an entry of `term` that a majority of the nodes
/// has taken in was in the log of the leader of every later term when that
/// leader was elected.
pub proof fn lemma_leader_completeness(cluster: Cluster, index: int, term: u64, later: u64)
    requires
        cluster.inv(),
        cluster.terms_inv(),
        cluster.leaders_inv(),
        cluster.sealed(index, term),
        term < later,
        cluster.elected.contains_key(later),
    ensures
        holds_at(cluster.election_log(later), index, term),
    decreases later,
{
    assert forall|between: u64| term < between < later implies #[trigger] cluster.kept_by(
        between,
        index,
        term,
    ) by {
        if cluster.election_logs.contains_key(between) {
            lemma_leader_completeness(cluster, index, term, between);
        }
    }
    assert(cluster.kept_until(later as int, index, term));
    assert(cluster.electors_sound(later));
    let voter = lemma_majorities_meet(
        |voter: int| cluster.electors[later].contains(voter),
        cluster.taken_in_by(index, term),
        cluster.size(),
    );
    let holding = Holding { node: voter, term, index };
    assert(cluster.holdings.contains(holding));
    assert(cluster.held_when_elected(holding, later));
}

/// An entry that a majority of the nodes has taken in stands in every kept
/// log that holds an entry of a later term.
pub proof fn lemma_sealed_entry_in_later_logs(
    cluster: Cluster,
    index: int,
    term: u64,
    log: Seq<LogEntryView>,
    at: int,
)
    requires
        cluster.inv(),
        cluster.terms_inv(),
        cluster.leaders_inv(),
        cluster.sealed(index, term),
        cluster.logs.contains(log),
        0 <= at < log.len(),
        term < log[at].term,
    ensures
        holds_at(log, index, term),
        index <= at,
{
    let later = log[at].term;
    assert(cluster.grown_at(log, at));
    lemma_leader_completeness(cluster, index, term, later);
    let base = cluster.election_log(later);
    assert(starts_with(log, base));
    assert(log[index - 1] == base[index - 1]);
}

/// The votes for a candidate, counted as ballots or as nodes, are as many.
proof fn lemma_tally_counts(cluster: Cluster, candidate: Seq<char>, term: u64, upto: int)
    ensures
        cluster.tally(candidate, term, upto) == count(
            |voter: int| cluster.ballots.contains(Ballot { voter, candidate, term }),
            upto,
        ),
    decreases upto,
{
    if upto > 0 {
        lemma_tally_counts(cluster, candidate, term, upto - 1);
    }
}

/// Where an action that makes a node take a shipment in leaves the log of
/// the node: as it was, or as the origin of the shipment, with which it
/// agreed up to a position where it ended or held an entry of another
/// term.
pub proof fn lemma_deliver_shape(cluster: Cluster, action: Action) -> (split: int)
    requires
        cluster.inv(),
        cluster.logs_inv(),
        cluster.allows(action),
        action is Deliver,
    ensures
        ({
            let shipment = action->Deliver_shipment;
            let before = cluster.nodes[shipment.to];
            let after = cluster.node_after(action);
            let origin = shipment.origin;
            &&& after.log == before.log || after.log == origin
            &&& after.log != before.log ==> {
                &&& cluster.takes_in(action)
                &&& 0 <= split <= before.log.len()
                &&& split < origin.len()
                &&& forall|p: int| 0 <= p < split ==> #[trigger] before.log[p] == origin[p]
                &&& split < before.log.len() ==> before.log[split].term != origin[split].term
            }
            &&& cluster.takes_in(action) ==> {
                &&& after.current_term == shipment.request.term
                &&& before.current_term <= shipment.request.term
                &&& origin.len() <= after.log.len()
                &&& forall|p: int| 0 <= p < origin.len() ==> #[trigger] after.log[p] == origin[p]
            }
        }),
{
    let shipment = action->Deliver_shipment;
    let before = cluster.nodes[shipment.to];
    let after = cluster.node_after(action);
    let origin = shipment.origin;
    let req = shipment.request;
    let prev = req.prev_log_index as int;
    assert(before.wf());
    assert(cluster.shipment_sound(shipment));
    assert(cluster.logs.contains(before.log));
    if cluster.takes_in(action) {
        let held = first_conflict(before.log, prev, req.entries, 0);
        lemma_first_conflict(before.log, prev, req.entries, 0);
        lemma_merge_changes(before.log, prev, req.entries);
        assert(after.log == merge(before.log, prev, req.entries));
        assert forall|j: int| 0 <= j < req.entries.len() implies req.entries[j] == origin[prev
            + j] by {
            assert(origin.subrange(prev, prev + req.entries.len())[j] == origin[prev + j]);
        }
        assert forall|j: int| 0 <= j < prev implies before.log[j] == origin[j] by {
            assert(same_term_at(before.log, origin, prev - 1));
        }
        assert forall|p: int| 0 <= p < prev + held implies #[trigger] before.log[p]
            == origin[p] by {
            if p >= prev {
                assert(before.log[prev + (p - prev)].term == req.entries[p - prev].term);
                assert(req.entries[p - prev] == origin[prev + (p - prev)]);
                assert(same_term_at(before.log, origin, p));
            }
        }
        if held < req.entries.len() {
            assert forall|p: int| 0 <= p < origin.len() implies #[trigger] after.log[p]
                == origin[p] by {
                if p >= prev + held {
                    assert(after.log[p] == req.entries.skip(held)[p - prev - held]);
                    assert(req.entries[p - prev] == origin[prev + (p - prev)]);
                }
            }
            assert(after.log =~= origin);
            assert(origin[prev + held] == req.entries[held]);
        } else {
            assert(after.log == before.log);
        }
        prev + held
    } else {
        0
    }
}

/// After an orderly action every candidate has started its election, and
/// every recorded start of an election and every recorded log of a voter
/// is sound.
proof fn lemma_records_stay_sound(cluster: Cluster, action: Action)
    requires
        cluster.steady(action),
    ensures
        forall|node: int|
            0 <= node < cluster.nodes.len() ==> #[trigger] cluster.after(
                action,
            ).candidate_canvassed(node),
        forall|node: int, term: u64| #[trigger]
            cluster.after(action).canvasses.contains_key((node, term)) ==> cluster.after(
                action,
            ).canvass_sound(node, term),
        forall|voter: int, term: u64| #[trigger]
            cluster.after(action).ballot_logs.contains_key((voter, term)) ==> cluster.after(
                action,
            ).ballot_log_sound(voter, term),
{
    let node = action.node();
    let before = cluster.nodes[node];
    let after = cluster.node_after(action);
    let next = cluster.after(action);
    lemma_action_keeps_terms_inv(cluster, action);
    lemma_log_origin(cluster, action);
    lemma_fresh_leader(cluster, action);
    assert(cluster.role_founded(node));
    assert(cluster.candidate_canvassed(node));
    assert(cluster.logs.subset_of(next.logs));
    assert(next.logs.contains(after.log));
    assert(cluster.ballots.subset_of(next.ballots));
    assert forall|other: int| 0 <= other < cluster.nodes.len() implies #[trigger] next.candidate_canvassed(
        other,
    ) by {
        assert(cluster.candidate_canvassed(other));
        if other == node && after.role is Candidate {
            if action is Deliver && after.log != before.log {
                let shipment = action->Deliver_shipment;
                assert(cluster.shipment_sound(shipment));
                let split = lemma_deliver_shape(cluster, action);
            }
        }
    }
    assert forall|other: int, term: u64| #[trigger]
        next.canvasses.contains_key((other, term)) implies next.canvass_sound(other, term) by {
        if cluster.canvasses.contains_key((other, term)) {
            assert(cluster.canvass_sound(other, term));
        }
    }
    assert forall|voter: int, term: u64| #[trigger]
        next.ballot_logs.contains_key((voter, term)) implies next.ballot_log_sound(
        voter,
        term,
    ) by {
        if cluster.ballot_logs.contains_key((voter, term)) {
            assert(cluster.ballot_log_sound(voter, term));
            if voter == node && term == after.current_term {
                let ballot = Ballot {
                    voter,
                    candidate: before.voted_for->Some_0,
                    term,
                };
                assert(cluster.ballots.contains(ballot));
            }
        } else {
            let ballot = cluster.cast(action)->Some_0;
            assert(next.ballots.contains(ballot));
        }
    }
}

/// After an orderly action every entry taken in is sound.
proof fn lemma_holdings_stay_sound(cluster: Cluster, action: Action)
    requires
        cluster.steady(action),
    ensures
        forall|holding: Holding| #[trigger]
            cluster.after(action).holdings.contains(holding) ==> cluster.after(
                action,
            ).holding_sound(holding),
{
    let node = action.node();
    let before = cluster.nodes[node];
    let after = cluster.node_after(action);
    let next = cluster.after(action);
    lemma_action_keeps_terms_inv(cluster, action);
    lemma_log_origin(cluster, action);
    assert(cluster.role_founded(node));
    assert(cluster.leader_grown(node));
    assert forall|holding: Holding| #[trigger]
        next.holdings.contains(holding) implies next.holding_sound(holding) by {
        if cluster.holdings.contains(holding) {
            assert(cluster.holding_sound(holding));
        } else if cluster.takes_in(action) {
            let shipment = action->Deliver_shipment;
            assert(cluster.shipment_sound(shipment));
            assert(cluster.electors_sound(shipment.request.term));
            let split = lemma_deliver_shape(cluster, action);
        } else {
            assert(cluster.electors_sound(before.current_term));
        }
    }
}

/// After an orderly action every ballot is recorded as it should be.
proof fn lemma_ballots_stay_recorded(cluster: Cluster, action: Action)
    requires
        cluster.steady(action),
    ensures
        forall|ballot: Ballot, candidate: int|
            cluster.after(action).ballots.contains(ballot) ==> #[trigger] cluster.after(
                action,
            ).ballot_recorded(ballot, candidate),
{
    let node = action.node();
    let before = cluster.nodes[node];
    let after = cluster.node_after(action);
    let next = cluster.after(action);
    lemma_action_keeps_terms_inv(cluster, action);
    lemma_log_origin(cluster, action);
    assert(cluster.role_founded(node));
    assert(before.wf());
    assert forall|ballot: Ballot, candidate: int|
        next.ballots.contains(ballot) implies #[trigger] next.ballot_recorded(
        ballot,
        candidate,
    ) by {
        let key = (ballot.voter, ballot.term);
        if cluster.ballots.contains(ballot) {
            assert(cluster.ballot_recorded(ballot, candidate));
            assert(cluster.ballot_recorded(ballot, ballot.voter));
            if !cluster.ballot_logs.contains_key(key) {
                assert(!next.ballot_logs.contains_key(key));
            }
        } else {
            // The ballot is cast by this action.
            if cluster.ballot_logs.contains_key(key) {
                assert(cluster.ballot_log_sound(ballot.voter, ballot.term));
                if action is VoteRequest {
                    let earlier = Ballot {
                        voter: node,
                        candidate: before.voted_for->Some_0,
                        term: ballot.term,
                    };
                    assert(cluster.ballots.contains(earlier));
                    assert(earlier == ballot);
                }
            }
            if cluster.has(candidate) && cluster.ids[candidate] == ballot.candidate {
                match action {
                    Action::Timeout { .. } => {
                        assert(candidate == node);
                    },
                    Action::VoteRequest { from, vote, .. } => {
                        assert(candidate == from);
                    },
                    _ => {},
                }
            }
        }
    }
}

/// After an orderly action the electors of every leader are sound.
proof fn lemma_electors_stay_sound(cluster: Cluster, action: Action)
    requires
        cluster.steady(action),
    ensures
        forall|term: u64| #[trigger]
            cluster.after(action).elected.contains_key(term) ==> cluster.after(
                action,
            ).electors_sound(term),
{
    let node = action.node();
    let before = cluster.nodes[node];
    let after = cluster.node_after(action);
    let next = cluster.after(action);
    lemma_action_keeps_terms_inv(cluster, action);
    lemma_log_origin(cluster, action);
    lemma_fresh_leader(cluster, action);
    lemma_ballots_stay_recorded(cluster, action);
    lemma_records_stay_sound(cluster, action);
    assert(cluster.role_founded(node));
    assert(next.role_founded(node));
    assert(cluster.candidate_canvassed(node));
    assert(cluster.ballots.subset_of(next.ballots));
    assert forall|term: u64| #[trigger] next.elected.contains_key(term) implies next.electors_sound(
        term,
    ) by {
        if cluster.elected.contains_key(term) {
            assert(cluster.electors_sound(term));
            assert(next.electors[term] == cluster.electors[term]);
            assert forall|voter: int| #[trigger]
                next.electors[term].contains(voter) implies next.elector_sound(term, voter) by {
                assert(cluster.elector_sound(term, voter));
            }
        } else {
            // The node of the action has just been elected.
            let id = cluster.ids[node];
            let chosen = |voter: int| next.electors[term].contains(voter);
            let voted = |voter: int| next.ballots.contains(Ballot { voter, candidate: id, term });
            lemma_tally_counts(next, id, term, next.size());
            lemma_count_grows(voted, chosen, next.size());
            assert(next.has_majority(id, term));
            assert forall|voter: int| #[trigger]
                next.electors[term].contains(voter) implies next.elector_sound(term, voter) by {
                let ballot = Ballot { voter, candidate: id, term };
                assert(next.ballots.contains(ballot));
                assert(next.ballot_stands(ballot));
                assert(next.ballot_recorded(ballot, node));
                if cluster.ballots.contains(ballot) {
                    assert(cluster.ballot_recorded(ballot, node));
                    assert(cluster.canvass_sound(node, term));
                }
            }
            if action is Timeout {
            } else {
                assert(cluster.canvass_sound(node, term));
            }
        }
    }
}

/// What held of the leaders before an action that were to keep an entry
/// holds of them after it, when it is asked of the leaders after it.
proof fn lemma_kept_before(cluster: Cluster, action: Action, bound: int, index: int, term: u64)
    requires
        cluster.steady(action),
        cluster.after(action).kept_until(bound, index, term),
    ensures
        cluster.kept_until(bound, index, term),
{
    let next = cluster.after(action);
    assert forall|later: u64| term < later < bound implies #[trigger] cluster.kept_by(
        later,
        index,
        term,
    ) by {
        assert(next.kept_by(later, index, term));
    }
}

/// After an orderly action every node still holds what it has taken in,
/// unless a leader that it has reached did not have it.
proof fn lemma_holdings_stay_kept(cluster: Cluster, action: Action)
    requires
        cluster.steady(action),
    ensures
        forall|holding: Holding| #[trigger]
            cluster.after(action).holdings.contains(holding) ==> cluster.after(
                action,
            ).holding_kept(holding),
{
    let node = action.node();
    let before = cluster.nodes[node];
    let after = cluster.node_after(action);
    let next = cluster.after(action);
    lemma_action_keeps_terms_inv(cluster, action);
    lemma_log_origin(cluster, action);
    assert(cluster.role_founded(node));
    assert(cluster.logs.contains(before.log));
    assert forall|holding: Holding| #[trigger]
        next.holdings.contains(holding) implies next.holding_kept(holding) by {
        let index = holding.index;
        let term = holding.term;
        let state = next.nodes[holding.node];
        if next.kept_until(state.current_term + 1, index, term) {
            if cluster.holdings.contains(holding) {
                assert(cluster.holding_sound(holding));
                assert(cluster.holding_kept(holding));
                let old = cluster.nodes[holding.node];
                lemma_kept_before(cluster, action, state.current_term + 1, index, term);
                assert(cluster.kept_until(old.current_term + 1, index, term)) by {
                    assert forall|later: u64|
                        term < later < old.current_term + 1 implies #[trigger] cluster.kept_by(
                        later,
                        index,
                        term,
                    ) by {}
                }
                assert(holds_at(old.log, index, term));
                if holding.node == node && after.log != before.log {
                    if action is Deliver {
                        let shipment = action->Deliver_shipment;
                        let origin = shipment.origin;
                        let sent_in = shipment.request.term;
                        let split = lemma_deliver_shape(cluster, action);
                        assert(cluster.shipment_sound(shipment));
                        assert(cluster.shipment_grown(shipment));
                        if split < index {
                            let base = cluster.election_log(sent_in);
                            if sent_in > term {
                                assert(next.kept_by(sent_in, index, term));
                                assert(cluster.election_logs.contains_key(sent_in));
                                assert(cluster.election_log_sound(sent_in));
                                assert(log_matching(before.log, base));
                                assert(same_term_at(before.log, base, index - 1));
                                assert(agree_through(before.log, base, index - 1));
                                assert(origin[split] == base[split]);
                            } else {
                                assert(cluster.grown_at(before.log, index - 1));
                                assert(starts_with(before.log, base));
                                if split < base.len() {
                                    assert(origin[split] == base[split]);
                                } else {
                                    assert(origin[split].term == term);
                                    assert(before.log[split].term == term);
                                }
                            }
                            assert(false);
                        }
                        assert(before.log[index - 1] == origin[index - 1]);
                    } else {
                        assert(after.log.drop_last()[index - 1] == after.log[index - 1]);
                    }
                }
            } else if cluster.takes_in(action) {
                let shipment = action->Deliver_shipment;
                let split = lemma_deliver_shape(cluster, action);
                assert(cluster.shipment_sound(shipment));
                assert(cluster.shipment_grown(shipment));
                assert(after.log[index - 1] == shipment.origin[index - 1]);
            } else {
                assert(after.log.last().term == term);
            }
        }
    }
}

/// After an orderly action it still holds of every recorded log of a voter
/// that the voter held what it had taken in before.
proof fn lemma_votes_stay_held(cluster: Cluster, action: Action)
    requires
        cluster.steady(action),
    ensures
        forall|holding: Holding, term: u64|
            cluster.after(action).holdings.contains(holding) ==> #[trigger] cluster.after(
                action,
            ).held_when_voting(holding, term),
{
    let node = action.node();
    let before = cluster.nodes[node];
    let after = cluster.node_after(action);
    let next = cluster.after(action);
    lemma_action_keeps_terms_inv(cluster, action);
    lemma_log_origin(cluster, action);
    lemma_records_stay_sound(cluster, action);
    lemma_holdings_stay_sound(cluster, action);
    assert forall|holding: Holding, term: u64|
        next.holdings.contains(holding) implies #[trigger] next.held_when_voting(
        holding,
        term,
    ) by {
        let key = (holding.node, term);
        if next.ballot_logs.contains_key(key) && holding.term < term && next.kept_until(
            term as int,
            holding.index,
            holding.term,
        ) {
            lemma_kept_before(cluster, action, term as int, holding.index, holding.term);
            assert(next.ballot_log_sound(holding.node, term));
            assert(next.holding_sound(holding));
            if cluster.holdings.contains(holding) {
                if cluster.ballot_logs.contains_key(key) {
                    assert(cluster.held_when_voting(holding, term));
                } else {
                    // The node votes now, with the log that it has.
                    assert(holding.node == node);
                    assert(cluster.holding_kept(holding));
                    assert(cluster.kept_until(
                        before.current_term + 1,
                        holding.index,
                        holding.term,
                    )) by {
                        assert forall|later: u64|
                            holding.term < later < before.current_term
                                + 1 implies #[trigger] cluster.kept_by(
                            later,
                            holding.index,
                            holding.term,
                        ) by {
                            if later < term {
                            } else {
                                assert(!cluster.elected.contains_key(term));
                            }
                        }
                    }
                }
            } else {
                // An entry taken in now is of the term that the node is in.
                if cluster.takes_in(action) {
                    let split = lemma_deliver_shape(cluster, action);
                }
                assert(false);
            }
        }
    }
}

/// After an orderly action it still holds of every leader that it had,
/// when elected, what its electors had taken in before.
proof fn lemma_leaders_stay_complete(cluster: Cluster, action: Action)
    requires
        cluster.steady(action),
    ensures
        forall|holding: Holding, term: u64|
            cluster.after(action).holdings.contains(holding) ==> #[trigger] cluster.after(
                action,
            ).held_when_elected(holding, term),
{
    let node = action.node();
    let before = cluster.nodes[node];
    let after = cluster.node_after(action);
    let next = cluster.after(action);
    lemma_action_keeps_terms_inv(cluster, action);
    lemma_log_origin(cluster, action);
    lemma_fresh_leader(cluster, action);
    lemma_records_stay_sound(cluster, action);
    lemma_holdings_stay_sound(cluster, action);
    lemma_electors_stay_sound(cluster, action);
    lemma_votes_stay_held(cluster, action);
    assert forall|holding: Holding, term: u64|
        next.holdings.contains(holding) implies #[trigger] next.held_when_elected(
        holding,
        term,
    ) by {
        if next.elected.contains_key(term) && next.electors[term].contains(holding.node)
            && holding.term < term && next.kept_until(
            term as int,
            holding.index,
            holding.term,
        ) {
            lemma_kept_before(cluster, action, term as int, holding.index, holding.term);
            assert(next.electors_sound(term));
            assert(next.elector_sound(term, holding.node));
            assert(next.holding_sound(holding));
            let ballot = Ballot {
                voter: holding.node,
                candidate: next.ids[next.elected[term]],
                term,
            };
            assert(next.ballot_stands(ballot));
            if cluster.elected.contains_key(term) {
                assert(cluster.electors_sound(term));
                if cluster.holdings.contains(holding) {
                    assert(cluster.held_when_elected(holding, term));
                } else {
                    // An entry taken in now is of the term that the node is in.
                    if cluster.takes_in(action) {
                        let split = lemma_deliver_shape(cluster, action);
                    }
                    assert(false);
                }
            } else {
                // The leader of the term is elected now.
                let key = (holding.node, term);
                let voter_log = next.ballot_logs[key];
                let leader_log = next.election_log(term);
                assert(next.held_when_voting(holding, term));
                assert(next.ballot_log_sound(holding.node, term));
                assert(next.election_logs.contains_key(term));
                assert(next.election_log_sound(term));
                assert(next.nodes[node].wf());
                assert(next.nodes[holding.node].wf());
                assert(leader_log == after.log);
                assert(next.logs.contains(voter_log));
                assert(next.logs.contains(leader_log));
                lemma_up_to_date_holds(
                    next,
                    leader_log,
                    voter_log,
                    term,
                    holding.index,
                    holding.term,
                );
            }
        }
    }
}

/// An orderly action keeps the invariants of the cluster.
pub proof fn lemma_action_keeps_leaders_inv(cluster: Cluster, action: Action)
    requires
        cluster.steady(action),
    ensures
        cluster.after(action).inv(),
        cluster.after(action).logs_inv(),
        cluster.after(action).terms_inv(),
        cluster.after(action).leaders_inv(),
{
    lemma_action_keeps_terms_inv(cluster, action);
    lemma_electors_stay_sound(cluster, action);
    lemma_ballots_stay_recorded(cluster, action);
    lemma_records_stay_sound(cluster, action);
    lemma_holdings_stay_sound(cluster, action);
    lemma_holdings_stay_kept(cluster, action);
    lemma_votes_stay_held(cluster, action);
    lemma_leaders_stay_complete(cluster, action);
}

/// A cluster at its start has the invariants.
pub proof fn lemma_initial_leaders_inv(cluster: Cluster)
    requires
        cluster.initial(),
    ensures
        cluster.inv(),
        cluster.logs_inv(),
        cluster.terms_inv(),
        cluster.leaders_inv(),
{
    lemma_initial_terms_inv(cluster);
    assert forall|node: int| 0 <= node < cluster.nodes.len() implies #[trigger] cluster.candidate_canvassed(
        node,
    ) by {
        assert(cluster.nodes[node] == NodeView::initial());
    }
}

} // verus!
