//! Commit safety in a cluster: an entry that a node counts as committed is
//! never replaced, on that node or on any other, and the committed entries
//! of any two nodes agree.
//!
//! This holds in every cluster whose network keeps order.

use vstd::prelude::*;

use super::append_entries::{first_conflict, lemma_first_conflict, lower};
use super::cluster::{peer_node, peers_before, Ack, Action, Cluster, Holding, Shipment};
use super::cluster_leaders::{
    holds_at, lemma_action_keeps_leaders_inv, lemma_deliver_shape, lemma_initial_leaders_inv,
    lemma_leader_completeness, lemma_sealed_entry_in_later_logs,
};
use super::cluster_logs::{lemma_fresh_leader, lemma_log_origin};
use super::cluster_terms::starts_with;
use super::log_safety::{agree_through, lemma_apply_once, log_matching, reflects, same_term_at};
use super::quorum::{count, lemma_count_grows, majority};
use super::replication::{lemma_highest_committable, replicas};
use super::safety::{lemma_step_forward, Event, Input};
use super::state::{LogEntryView, NodeView};
use crate::log::mem_table::TableView;

verus! {

/// An entry that a majority has taken in, in a log that holds it.
pub struct Witness {
    pub index: int,
    pub term: u64,
    pub log: Seq<LogEntryView>,
}

impl Cluster {
    /// Whether the witness vouches for the first `upto` entries of `log`:
    /// its entry is at `upto` or beyond, a majority has taken it in, and
    /// its log, a kept one, starts with those entries. The entry is of a
    /// term up to `bound`.
    pub open spec fn covers(
        self,
        witness: Witness,
        log: Seq<LogEntryView>,
        upto: int,
        bound: u64,
    ) -> bool {
        &&& upto <= witness.index
        &&& upto <= log.len()
        &&& witness.term <= bound
        &&& self.sealed(witness.index, witness.term)
        &&& self.logs.contains(witness.log)
        &&& holds_at(witness.log, witness.index, witness.term)
        &&& forall|p: int| 0 <= p < upto ==> #[trigger] log[p] == witness.log[p]
    }

    /// Whether the first `upto` entries of `log` are settled: there are
    /// none, or a witness vouches for them.
    pub open spec fn settled(self, log: Seq<LogEntryView>, upto: int, bound: u64) -> bool {
        upto == 0 || exists|witness: Witness| #[trigger] self.covers(witness, log, upto, bound)
    }

    /// Whether what `node` counts as committed is in its log, and settled.
    pub open spec fn node_settled(self, node: int) -> bool {
        let state = self.nodes[node];
        &&& state.commit_index <= state.log.len()
        &&& self.settled(state.log, state.commit_index as int, state.current_term)
    }

    /// Whether what a shipment gives out as committed is settled.
    pub open spec fn shipment_settled(self, shipment: Shipment) -> bool {
        self.settled(
            shipment.origin,
            lower(shipment.request.leader_commit_index as int, shipment.origin.len() as int),
            shipment.request.term,
        )
    }

    /// What an answer rests on: it goes to the leader of its term, and its
    /// sender has taken in every entry of that term up to the last one
    /// that it answers for.
    pub open spec fn ack_sound(self, ack: Ack) -> bool {
        &&& self.has(ack.from)
        &&& self.elected.contains_key(ack.term)
        &&& self.elected[ack.term] == ack.to
        &&& forall|index: int|
            self.election_log(ack.term).len() < index <= ack.prev + ack.sent
                ==> #[trigger] self.holdings.contains(
                Holding { node: ack.from, term: ack.term, index },
            )
    }

    /// What a leader knows of its peers is true: the leader has taken in
    /// every entry that it has appended, and each peer every such entry up
    /// to its match index.
    pub open spec fn leader_matched(self, leader: int) -> bool {
        let state = self.nodes[leader];
        let term = state.current_term;
        let base = self.election_log(term);
        state.role is Leader ==> {
            &&& forall|index: int|
                base.len() < index <= state.log.len() ==> #[trigger] self.holdings.contains(
                    Holding { node: leader, term, index },
                )
            &&& forall|peer: int, index: int|
                0 <= peer < state.role->Leader_match_index.len() && base.len() < index
                    <= state.role->Leader_match_index[peer] ==> #[trigger] self.holdings.contains(
                    Holding { node: peer_node(leader, peer), term, index },
                )
        }
    }

    /// The invariant from which commit safety follows.
    pub open spec fn commit_inv(self) -> bool {
        &&& forall|ack: Ack| #[trigger] self.acks.contains(ack) ==> self.ack_sound(ack)
        &&& forall|node: int| 0 <= node < self.nodes.len() ==> #[trigger] self.leader_matched(node)
        &&& forall|node: int| 0 <= node < self.nodes.len() ==> #[trigger] self.node_settled(node)
        &&& forall|shipment: Shipment| #[trigger]
            self.shipments.contains(shipment) ==> self.shipment_settled(shipment)
    }

    /// Everything that an orderly action starts from, commit safety
    /// included.
    pub open spec fn safe(self) -> bool {
        &&& self.inv()
        &&& self.logs_inv()
        &&& self.terms_inv()
        &&& self.leaders_inv()
        &&& self.commit_inv()
    }
}

/// A log that starts like the log of a witness does not differ, below the
/// witness's entry, from the origin of a shipment of the witness's term or
/// a later one.
proof fn lemma_origin_agrees(
    cluster: Cluster,
    witness: Witness,
    shipment: Shipment,
    at: int,
)
    requires
        cluster.inv(),
        cluster.logs_inv(),
        cluster.terms_inv(),
        cluster.leaders_inv(),
        cluster.shipments.contains(shipment),
        cluster.sealed(witness.index, witness.term),
        cluster.logs.contains(witness.log),
        holds_at(witness.log, witness.index, witness.term),
        witness.term <= shipment.request.term,
        0 <= at < witness.index,
        at < shipment.origin.len(),
    ensures
        shipment.origin[at].term == witness.log[at].term,
{
    let sent_in = shipment.request.term;
    let origin = shipment.origin;
    assert(cluster.shipment_sound(shipment));
    assert(cluster.shipment_grown(shipment));
    assert(cluster.election_logs.contains_key(sent_in));
    assert(cluster.election_log_sound(sent_in));
    let base = cluster.election_log(sent_in);
    if sent_in > witness.term {
        lemma_leader_completeness(cluster, witness.index, witness.term, sent_in);
        assert(log_matching(witness.log, base));
        assert(same_term_at(witness.log, base, witness.index - 1));
        assert(agree_through(witness.log, base, witness.index - 1));
        assert(origin[at] == base[at]);
    } else {
        assert(cluster.grown_at(witness.log, witness.index - 1));
        assert(starts_with(witness.log, base));
        if at < base.len() {
            assert(origin[at] == base[at]);
        } else {
            assert(origin[at].term == sent_in);
            assert(witness.log[at].term == sent_in);
        }
    }
}

/// Commit safety, one step: in a safe cluster no shipment makes the node
/// that it reaches replace an entry that the node counts as committed.
pub proof fn lemma_shipment_spares_committed(cluster: Cluster, shipment: Shipment)
    requires
        cluster.safe(),
        cluster.shipments.contains(shipment),
    ensures
        !cluster.nodes[shipment.to].overwrites_committed(shipment.request),
{
    let node = cluster.nodes[shipment.to];
    let req = shipment.request;
    let prev = req.prev_log_index as int;
    let origin = shipment.origin;
    assert(cluster.shipment_sound(shipment));
    assert(cluster.node_settled(shipment.to));
    if node.overwrites_committed(req) {
        let action = Action::Deliver { shipment, persisted: true };
        let split = lemma_deliver_shape(cluster, action);
        let held = first_conflict(node.log, prev, req.entries, 0);
        lemma_first_conflict(node.log, prev, req.entries, 0);
        let at = prev + held;
        assert(at < node.commit_index);
        let witness = choose|witness: Witness| #[trigger]
            cluster.covers(witness, node.log, node.commit_index as int, node.current_term);
        assert(node.log[at] == witness.log[at]);
        assert(origin.subrange(prev, prev + req.entries.len())[held] == origin[prev + held]);
        lemma_origin_agrees(cluster, witness, shipment, at);
        assert(false);
    }
}

/// Everything that an orderly action starts from in a safe cluster.
pub open spec fn ready(cluster: Cluster, action: Action) -> bool {
    &&& cluster.safe()
    &&& cluster.allows(action)
    &&& cluster.orderly(action)
}

/// A leader and the peers that it knows to hold an entry are counted
/// among the nodes that have taken it in.
proof fn lemma_replicas_counted(cluster: Cluster, leader: int, index: int, upto: int)
    requires
        cluster.has(leader),
        cluster.nodes[leader].role is Leader,
        cluster.nodes[leader].role->Leader_match_index.len() == cluster.size() - 1,
        cluster.holdings.contains(
            Holding { node: leader, term: cluster.nodes[leader].current_term, index },
        ),
        forall|peer: int|
            0 <= peer < cluster.nodes[leader].role->Leader_match_index.len()
                && cluster.nodes[leader].role->Leader_match_index[peer] >= index
                ==> #[trigger] cluster.holdings.contains(
                Holding {
                    node: peer_node(leader, peer),
                    term: cluster.nodes[leader].current_term,
                    index,
                },
            ),
        0 <= upto <= cluster.size(),
    ensures
        count(cluster.taken_in_by(index, cluster.nodes[leader].current_term), upto) >= replicas(
            cluster.nodes[leader].role->Leader_match_index.take(peers_before(leader, upto)),
            index,
        ) + if upto > leader {
            1nat
        } else {
            0nat
        },
    decreases upto,
{
    if upto > 0 {
        lemma_replicas_counted(cluster, leader, index, upto - 1);
        let matched = cluster.nodes[leader].role->Leader_match_index;
        let node = upto - 1;
        if node != leader {
            let peer = peers_before(leader, node);
            assert(peer_node(leader, peer) == node);
            assert(matched.take(peer + 1).drop_last() =~= matched.take(peer));
            assert(matched.take(peer + 1).last() == matched[peer]);
        }
    }
}

/// What a witness vouches for before an action it vouches for after it.
proof fn lemma_covers_carried(
    cluster: Cluster,
    action: Action,
    witness: Witness,
    log: Seq<LogEntryView>,
    upto: int,
    bound: u64,
)
    requires
        cluster.allows(action),
        cluster.covers(witness, log, upto, bound),
    ensures
        cluster.after(action).covers(witness, log, upto, bound),
{
    let next = cluster.after(action);
    assert(cluster.holdings.subset_of(next.holdings));
    assert(cluster.logs.subset_of(next.logs));
    assert(next.size() == cluster.size());
    lemma_count_grows(
        cluster.taken_in_by(witness.index, witness.term),
        next.taken_in_by(witness.index, witness.term),
        cluster.size(),
    );
}

/// What is settled before an action is settled after it.
proof fn lemma_settled_carried(
    cluster: Cluster,
    action: Action,
    log: Seq<LogEntryView>,
    upto: int,
    bound: u64,
)
    requires
        cluster.allows(action),
        cluster.settled(log, upto, bound),
    ensures
        cluster.after(action).settled(log, upto, bound),
{
    if upto != 0 {
        let witness = choose|witness: Witness| #[trigger] cluster.covers(witness, log, upto, bound);
        lemma_covers_carried(cluster, action, witness, log, upto, bound);
    }
}

/// Entries that are settled in one log before an action are settled
/// after it in every log that starts with them.
proof fn lemma_prefix_settled(
    cluster: Cluster,
    action: Action,
    log: Seq<LogEntryView>,
    later: Seq<LogEntryView>,
    upto: int,
    bound: u64,
    wider: u64,
)
    requires
        cluster.allows(action),
        cluster.settled(log, upto, bound),
        bound <= wider,
        upto <= later.len(),
        forall|p: int| 0 <= p < upto ==> #[trigger] later[p] == log[p],
    ensures
        cluster.after(action).settled(later, upto, wider),
{
    if upto != 0 {
        let witness = choose|witness: Witness| #[trigger] cluster.covers(witness, log, upto, bound);
        assert forall|p: int| 0 <= p < upto implies #[trigger] later[p] == witness.log[p] by {
            assert(log[p] == witness.log[p]);
        }
        assert(cluster.covers(witness, later, upto, wider));
        lemma_covers_carried(cluster, action, witness, later, upto, wider);
    }
}

/// After an orderly action every answer is sound, and what every leader
/// knows of its peers is true.
proof fn lemma_matches_stay_true(cluster: Cluster, action: Action)
    requires
        ready(cluster, action),
    ensures
        forall|ack: Ack| #[trigger]
            cluster.after(action).acks.contains(ack) ==> cluster.after(action).ack_sound(ack),
        forall|node: int|
            0 <= node < cluster.nodes.len() ==> #[trigger] cluster.after(action).leader_matched(
                node,
            ),
{
    let node = action.node();
    let before = cluster.nodes[node];
    let after = cluster.node_after(action);
    let next = cluster.after(action);
    lemma_action_keeps_leaders_inv(cluster, action);
    lemma_log_origin(cluster, action);
    lemma_fresh_leader(cluster, action);
    assert(cluster.role_founded(node));
    assert(next.role_founded(node));
    assert(before.wf());
    assert(cluster.holdings.subset_of(next.holdings));
    assert forall|ack: Ack| #[trigger] next.acks.contains(ack) implies next.ack_sound(ack) by {
        if cluster.acks.contains(ack) {
            assert(cluster.ack_sound(ack));
        } else {
            let shipment = action->Deliver_shipment;
            assert(cluster.shipment_sound(shipment));
        }
    }
    assert forall|leader: int| 0 <= leader < cluster.nodes.len() implies #[trigger] next.leader_matched(
        leader,
    ) by {
        assert(cluster.leader_matched(leader));
        assert(cluster.role_founded(leader));
        let state = next.nodes[leader];
        if leader == node && state.role is Leader {
            let term = state.current_term;
            if !(before.role is Leader && before.current_term == term) {
                assert(next.election_log(term) == after.log);
            } else {
                let base = cluster.election_log(term);
                assert(next.election_log(term) == base);
                match action {
                    Action::Replication { event, .. } => {
                        match event.input {
                            Input::AppendResponse { peer, sent, resp } => {
                                let seen = before.observe_term(resp.term);
                                if seen.heeds(peer, resp) && resp.success {
                                    let ack = Ack {
                                        from: peer_node(node, peer),
                                        to: node,
                                        term: resp.term,
                                        prev: (seen.role->Leader_next_index[peer] - 1) as u64,
                                        sent,
                                    };
                                    assert(cluster.acks.contains(ack));
                                    assert(cluster.ack_sound(ack));
                                }
                            },
                            _ => {},
                        }
                    },
                    _ => {},
                }
            }
        }
    }
}

/// After an orderly action what every shipment gives out as committed is
/// settled.
proof fn lemma_shipments_stay_settled(cluster: Cluster, action: Action)
    requires
        ready(cluster, action),
    ensures
        forall|shipment: Shipment| #[trigger]
            cluster.after(action).shipments.contains(shipment) ==> cluster.after(
                action,
            ).shipment_settled(shipment),
{
    let node = action.node();
    let sender = cluster.nodes[node];
    let next = cluster.after(action);
    assert forall|shipment: Shipment| #[trigger]
        next.shipments.contains(shipment) implies next.shipment_settled(shipment) by {
        let upto = lower(
            shipment.request.leader_commit_index as int,
            shipment.origin.len() as int,
        );
        if cluster.shipments.contains(shipment) {
            assert(cluster.shipment_settled(shipment));
            lemma_settled_carried(
                cluster,
                action,
                shipment.origin,
                upto,
                shipment.request.term,
            );
        } else if upto != 0 {
            assert(cluster.node_settled(node));
            let witness = choose|witness: Witness| #[trigger]
                cluster.covers(
                    witness,
                    sender.log,
                    sender.commit_index as int,
                    sender.current_term,
                );
            assert(cluster.covers(witness, shipment.origin, upto, shipment.request.term));
            lemma_covers_carried(
                cluster,
                action,
                witness,
                shipment.origin,
                upto,
                shipment.request.term,
            );
        }
    }
}

/// After an orderly action what every node counts as committed is in its
/// log, and settled.
proof fn lemma_nodes_stay_settled(cluster: Cluster, action: Action)
    requires
        ready(cluster, action),
    ensures
        forall|node: int|
            0 <= node < cluster.nodes.len() ==> #[trigger] cluster.after(action).node_settled(
                node,
            ),
{
    let node = action.node();
    let before = cluster.nodes[node];
    let after = cluster.node_after(action);
    let next = cluster.after(action);
    lemma_action_keeps_leaders_inv(cluster, action);
    lemma_matches_stay_true(cluster, action);
    lemma_log_origin(cluster, action);
    assert(before.wf());
    assert(cluster.node_settled(node));
    assert(next.logs.contains(after.log));
    assert forall|other: int| 0 <= other < cluster.nodes.len() implies #[trigger] next.node_settled(
        other,
    ) by {
        let old = cluster.nodes[other];
        assert(cluster.node_settled(other));
        if other != node {
            lemma_settled_carried(
                cluster,
                action,
                old.log,
                old.commit_index as int,
                old.current_term,
            );
        } else if after.commit_index == 0 {
        } else if action is Deliver {
            lemma_delivery_settled(cluster, action);
        } else if after.commit_index == before.commit_index {
            // The log has at most grown at its end.
            assert forall|p: int| 0 <= p < before.commit_index implies #[trigger] after.log[p]
                == before.log[p] by {
                if after.log != before.log {
                    assert(after.log.drop_last()[p] == after.log[p]);
                }
            }
            lemma_prefix_settled(
                cluster,
                action,
                before.log,
                after.log,
                before.commit_index as int,
                before.current_term,
                after.current_term,
            );
        } else {
            // A leader has advanced its commit index.
            lemma_advance_settled(cluster, action);
        }
    }
}

/// A node that has taken a shipment in, or has not, counts as committed
/// only what is settled.
proof fn lemma_delivery_settled(cluster: Cluster, action: Action)
    requires
        ready(cluster, action),
        action is Deliver,
    ensures
        cluster.after(action).node_settled(action.node()),
{
    let shipment = action->Deliver_shipment;
    let node = shipment.to;
    let before = cluster.nodes[node];
    let after = cluster.node_after(action);
    let next = cluster.after(action);
    let req = shipment.request;
    let origin = shipment.origin;
    lemma_step_forward(
        before,
        Event { input: Input::AppendEntries { append: req }, persisted: action->Deliver_persisted },
    );
    assert(before.wf());
    assert(cluster.node_settled(node));
    assert(cluster.shipment_sound(shipment));
    assert(cluster.shipment_settled(shipment));
    lemma_shipment_spares_committed(cluster, shipment);
    let split = lemma_deliver_shape(cluster, action);
    if cluster.takes_in(action) {
        lemma_first_conflict(before.log, req.prev_log_index as int, req.entries, 0);
        let held = first_conflict(before.log, req.prev_log_index as int, req.entries, 0);
        if after.commit_index == before.commit_index {
            if before.commit_index != 0 {
                if after.log != before.log {
                    assert(split == req.prev_log_index + held) by {
                        if split < req.prev_log_index + held {
                        } else if split > req.prev_log_index + held {
                            assert(before.log[req.prev_log_index + held] == origin[req.prev_log_index + held]);
                            assert(origin.subrange(
                                req.prev_log_index as int,
                                req.prev_log_index + req.entries.len(),
                            )[held] == origin[req.prev_log_index + held]);
                        }
                    }
                    assert(split >= before.commit_index);
                }
                assert forall|p: int| 0 <= p < before.commit_index implies #[trigger] after.log[p]
                    == before.log[p] by {}
                lemma_prefix_settled(
                    cluster,
                    action,
                    before.log,
                    after.log,
                    before.commit_index as int,
                    before.current_term,
                    after.current_term,
                );
            }
        } else {
            // The commit index follows the leader's.
            let upto = lower(req.leader_commit_index as int, origin.len() as int);
            assert(after.commit_index == upto);
            lemma_prefix_settled(
                cluster,
                action,
                origin,
                after.log,
                upto,
                req.term,
                after.current_term,
            );
        }
    } else {
        assert(after.log == before.log);
        assert(after.commit_index == before.commit_index);
        lemma_prefix_settled(
            cluster,
            action,
            before.log,
            after.log,
            before.commit_index as int,
            before.current_term,
            after.current_term,
        );
    }
}

/// A leader that has advanced its commit index counts as committed only
/// what is settled.
proof fn lemma_advance_settled(cluster: Cluster, action: Action)
    requires
        ready(cluster, action),
        action is Replication,
        cluster.node_after(action).commit_index != cluster.nodes[action.node()].commit_index,
    ensures
        cluster.after(action).node_settled(action.node()),
{
    let node = action.node();
    let before = cluster.nodes[node];
    let after = cluster.node_after(action);
    let next = cluster.after(action);
    let event = action->Replication_event;
    lemma_action_keeps_leaders_inv(cluster, action);
    lemma_matches_stay_true(cluster, action);
    lemma_step_forward(before, event);
    assert(before.wf());
    assert(next.leader_matched(node));
    assert(next.logs.contains(after.log));
    // The state in which the leader looked for the index to commit.
    let searched = match event.input {
        Input::AppendResponse { peer, sent, resp } => before.observe_term(
            resp.term,
        ).after_success(peer, sent),
        Input::Proposal { records } => NodeView {
            log: before.log.push(LogEntryView { term: before.current_term, records }),
            ..before
        },
        _ => before,
    };
    lemma_highest_committable(searched, searched.log.len() as int);
    let index = after.commit_index as int;
    assert(searched.committable(index));
    lemma_committable_sealed_at(next, node, searched, index);
    let witness = Witness { index, term: after.current_term, log: after.log };
    assert(next.covers(witness, after.log, index, after.current_term));
}

/// An entry that a leader may commit has been taken in by a majority;
/// `state` is the leader as it looks for the index to commit.
proof fn lemma_committable_sealed_at(
    cluster: Cluster,
    leader: int,
    state: NodeView,
    index: int,
)
    requires
        cluster.inv(),
        cluster.terms_inv(),
        cluster.has(leader),
        cluster.leader_matched(leader),
        cluster.nodes[leader].role is Leader,
        state.committable(index),
        state.role == cluster.nodes[leader].role,
        state.log == cluster.nodes[leader].log,
        state.current_term == cluster.nodes[leader].current_term,
    ensures
        cluster.sealed(index, state.current_term),
        holds_at(state.log, index, state.current_term),
{
    let term = state.current_term;
    let matched = state.role->Leader_match_index;
    assert(cluster.role_founded(leader));
    assert(cluster.nodes[leader].wf());
    assert(cluster.election_logs.contains_key(term));
    assert(cluster.election_log_sound(term));
    assert(cluster.leader_grown(leader));
    let base = cluster.election_log(term);
    if index <= base.len() {
        assert(state.log[index - 1] == base[index - 1]);
        assert(false);
    }
    lemma_replicas_counted(cluster, leader, index, cluster.size());
    assert(matched.take(cluster.size() - 1) =~= matched);
}

/// An orderly action keeps a cluster safe.
pub proof fn lemma_action_keeps_safe(cluster: Cluster, action: Action)
    requires
        ready(cluster, action),
    ensures
        cluster.after(action).safe(),
        cluster.after(action).size() == cluster.size(),
{
    lemma_action_keeps_leaders_inv(cluster, action);
    lemma_matches_stay_true(cluster, action);
    lemma_nodes_stay_settled(cluster, action);
    lemma_shipments_stay_settled(cluster, action);
}

/// A cluster at its start is safe.
pub proof fn lemma_initial_safe(cluster: Cluster)
    requires
        cluster.initial(),
    ensures
        cluster.safe(),
{
    lemma_initial_leaders_inv(cluster);
    assert forall|node: int| 0 <= node < cluster.nodes.len() implies #[trigger] cluster.leader_matched(
        node,
    ) by {
        assert(cluster.nodes[node] == NodeView::initial());
    }
    assert forall|node: int| 0 <= node < cluster.nodes.len() implies #[trigger] cluster.node_settled(
        node,
    ) by {
        assert(cluster.nodes[node] == NodeView::initial());
    }
}

/// A run of orderly actions keeps a cluster safe.
pub proof fn lemma_run_keeps_safe(cluster: Cluster, actions: Seq<Action>)
    requires
        cluster.safe(),
        cluster.allows_all(actions),
        cluster.orderly_all(actions),
    ensures
        cluster.run(actions).safe(),
        cluster.run(actions).size() == cluster.size(),
    decreases actions.len(),
{
    if actions.len() > 0 {
        lemma_run_keeps_safe(cluster, actions.drop_last());
        lemma_action_keeps_safe(cluster.run(actions.drop_last()), actions.last());
    }
}

/// What a witness vouches for in the log of a node it vouches for after
/// an orderly action: the action leaves those entries as they are.
proof fn lemma_witnessed_entries_stay(
    cluster: Cluster,
    action: Action,
    witness: Witness,
    node: int,
    upto: int,
)
    requires
        ready(cluster, action),
        cluster.has(node),
        cluster.covers(witness, cluster.nodes[node].log, upto, cluster.nodes[node].current_term),
    ensures
        cluster.after(action).covers(
            witness,
            cluster.after(action).nodes[node].log,
            upto,
            cluster.after(action).nodes[node].current_term,
        ),
        forall|p: int|
            0 <= p < upto ==> #[trigger] cluster.after(action).nodes[node].log[p]
                == cluster.nodes[node].log[p],
{
    let before = cluster.nodes[node];
    let next = cluster.after(action);
    let after = next.nodes[node];
    lemma_log_origin(cluster, action);
    if node == action.node() && after.log != before.log {
        if action is Deliver {
            let shipment = action->Deliver_shipment;
            let split = lemma_deliver_shape(cluster, action);
            if split < upto {
                assert(before.log[split] == witness.log[split]);
                lemma_origin_agrees(cluster, witness, shipment, split);
                assert(false);
            }
        } else {
            assert forall|p: int| 0 <= p < upto implies #[trigger] after.log[p]
                == before.log[p] by {
                assert(after.log.drop_last()[p] == after.log[p]);
            }
        }
    }
    assert forall|p: int| 0 <= p < upto implies #[trigger] after.log[p] == witness.log[p] by {
        assert(before.log[p] == witness.log[p]);
    }
    assert(cluster.covers(witness, after.log, upto, after.current_term));
    lemma_covers_carried(cluster, action, witness, after.log, upto, after.current_term);
}

/// What a witness vouches for in the log of a node stays in that log
/// through any run of orderly actions.
proof fn lemma_witnessed_entries_stay_on(
    cluster: Cluster,
    actions: Seq<Action>,
    witness: Witness,
    node: int,
    upto: int,
)
    requires
        cluster.safe(),
        cluster.allows_all(actions),
        cluster.orderly_all(actions),
        cluster.has(node),
        cluster.covers(witness, cluster.nodes[node].log, upto, cluster.nodes[node].current_term),
    ensures
        cluster.run(actions).covers(
            witness,
            cluster.run(actions).nodes[node].log,
            upto,
            cluster.run(actions).nodes[node].current_term,
        ),
        forall|p: int|
            0 <= p < upto ==> #[trigger] cluster.run(actions).nodes[node].log[p]
                == cluster.nodes[node].log[p],
    decreases actions.len(),
{
    if actions.len() > 0 {
        let earlier = cluster.run(actions.drop_last());
        lemma_run_keeps_safe(cluster, actions.drop_last());
        lemma_witnessed_entries_stay_on(cluster, actions.drop_last(), witness, node, upto);
        lemma_witnessed_entries_stay(earlier, actions.last(), witness, node, upto);
        assert forall|p: int| 0 <= p < upto implies #[trigger] cluster.run(
            actions,
        ).nodes[node].log[p] == cluster.nodes[node].log[p] by {
            assert(earlier.nodes[node].log[p] == cluster.nodes[node].log[p]);
        }
    }
}

/// Commit safety: once the commit index of a node has passed an entry, the
/// entry is never replaced. Through any run of orderly actions in a safe
/// cluster, restarts of the node among them, the entries that the node
/// counted as committed at the start of the run stay in its log, at their
/// places, as they were.
pub proof fn lemma_committed_entries_stay_in_cluster(
    cluster: Cluster,
    actions: Seq<Action>,
    node: int,
)
    requires
        cluster.safe(),
        cluster.allows_all(actions),
        cluster.orderly_all(actions),
        cluster.has(node),
    ensures
        cluster.nodes[node].commit_index <= cluster.run(actions).nodes[node].log.len(),
        cluster.run(actions).nodes[node].log.take(cluster.nodes[node].commit_index as int)
            == cluster.nodes[node].log.take(cluster.nodes[node].commit_index as int),
{
    let state = cluster.nodes[node];
    let upto = state.commit_index as int;
    assert(cluster.node_settled(node));
    if upto != 0 {
        let witness = choose|witness: Witness| #[trigger]
            cluster.covers(witness, state.log, upto, state.current_term);
        lemma_witnessed_entries_stay_on(cluster, actions, witness, node, upto);
    }
    assert(cluster.run(actions).nodes[node].log.take(upto) =~= state.log.take(upto));
}

/// The logs of two witnesses agree up to the entry of the one whose entry
/// is of the earlier term or, in the same term, comes first.
proof fn lemma_witnesses_agree(cluster: Cluster, first: Witness, second: Witness, at: int)
    requires
        cluster.safe(),
        cluster.sealed(first.index, first.term),
        cluster.sealed(second.index, second.term),
        cluster.logs.contains(first.log),
        cluster.logs.contains(second.log),
        holds_at(first.log, first.index, first.term),
        holds_at(second.log, second.index, second.term),
        0 <= at < first.index,
        at < second.index,
    ensures
        first.log[at] == second.log[at],
{
    assert(log_matching(first.log, second.log));
    assert(log_matching(second.log, first.log));
    if first.term < second.term {
        lemma_sealed_entry_in_later_logs(
            cluster,
            first.index,
            first.term,
            second.log,
            second.index - 1,
        );
        assert(same_term_at(first.log, second.log, first.index - 1));
        assert(agree_through(first.log, second.log, first.index - 1));
    } else if second.term < first.term {
        lemma_sealed_entry_in_later_logs(
            cluster,
            second.index,
            second.term,
            first.log,
            first.index - 1,
        );
        assert(same_term_at(first.log, second.log, second.index - 1));
        assert(agree_through(first.log, second.log, second.index - 1));
    } else {
        assert(cluster.grown_at(first.log, first.index - 1));
        assert(cluster.grown_at(second.log, second.index - 1));
        let base = cluster.election_log(first.term);
        if first.index <= second.index {
            assert(second.log[first.index - 1].term == first.term);
            assert(same_term_at(first.log, second.log, first.index - 1));
            assert(agree_through(first.log, second.log, first.index - 1));
        } else {
            assert(first.log[second.index - 1].term == first.term);
            assert(same_term_at(first.log, second.log, second.index - 1));
            assert(agree_through(first.log, second.log, second.index - 1));
        }
    }
}

/// Agreement: in a safe cluster the entries that two nodes count as
/// committed are the same, as far as both count.
pub proof fn lemma_committed_entries_agree(cluster: Cluster, first: int, second: int)
    requires
        cluster.safe(),
        cluster.has(first),
        cluster.has(second),
        cluster.nodes[first].commit_index <= cluster.nodes[second].commit_index,
    ensures
        cluster.nodes[first].commit_index <= cluster.nodes[first].log.len(),
        cluster.nodes[first].commit_index <= cluster.nodes[second].log.len(),
        cluster.nodes[first].log.take(cluster.nodes[first].commit_index as int)
            == cluster.nodes[second].log.take(cluster.nodes[first].commit_index as int),
{
    let a = cluster.nodes[first];
    let b = cluster.nodes[second];
    let upto = a.commit_index as int;
    assert(cluster.node_settled(first));
    assert(cluster.node_settled(second));
    if upto != 0 {
        let wa = choose|witness: Witness| #[trigger]
            cluster.covers(witness, a.log, a.commit_index as int, a.current_term);
        let wb = choose|witness: Witness| #[trigger]
            cluster.covers(witness, b.log, b.commit_index as int, b.current_term);
        assert forall|p: int| 0 <= p < upto implies a.log[p] == b.log[p] by {
            lemma_witnesses_agree(cluster, wa, wb, p);
            assert(a.log[p] == wa.log[p]);
            assert(b.log[p] == wb.log[p]);
        }
    }
    assert(a.log.take(upto) =~= b.log.take(upto));
}

/// Apply once, in a cluster: a MemTable that reflects the applied part of
/// the log of a node still does so after any shipment has reached the
/// node and the entries that it makes the node apply have been applied.
/// However often a request is delivered, every committed entry is applied
/// once, in log order.
pub proof fn lemma_delivery_applies_once(
    cluster: Cluster,
    shipment: Shipment,
    persisted: bool,
    table: TableView,
)
    requires
        cluster.safe(),
        cluster.shipments.contains(shipment),
        reflects(table, cluster.nodes[shipment.to]),
    ensures
        ({
            let node = cluster.nodes[shipment.to];
            let event = Event {
                input: Input::AppendEntries { append: shipment.request },
                persisted,
            };
            reflects(table.apply_entries(node.applied_by(event)), node.step(event))
        }),
{
    let node = cluster.nodes[shipment.to];
    let event = Event { input: Input::AppendEntries { append: shipment.request }, persisted };
    assert(cluster.shipment_sound(shipment));
    assert(node.wf());
    lemma_shipment_spares_committed(cluster, shipment);
    lemma_apply_once(table, node, event);
}

} // verus!
