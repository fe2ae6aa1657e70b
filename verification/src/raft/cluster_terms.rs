//! How the terms lie in the logs of a cluster: along a log the terms never
//! decrease, no node holds an entry of a term that it has not reached, and
//! every entry of a term stands in a log that grew out of the log that the
//! leader of the term had when it was elected.

use vstd::prelude::*;

use super::cluster::{Action, Cluster, Shipment};
use super::cluster_logs::{
    lemma_action_keeps_logs_inv, lemma_fresh_leader, lemma_initial_logs_inv, lemma_log_origin,
};
use super::state::{LogEntryView, NodeView};

verus! {

/// Whether the terms never decrease from an entry to the next.
pub open spec fn nondecreasing(log: Seq<LogEntryView>) -> bool {
    forall|a: int, b: int|
        0 <= a <= b < log.len() ==> (#[trigger] log[a]).term <= (#[trigger] log[b]).term
}

/// Whether `log` starts with all of `base`.
pub open spec fn starts_with(log: Seq<LogEntryView>, base: Seq<LogEntryView>) -> bool {
    &&& base.len() <= log.len()
    &&& forall|p: int| 0 <= p < base.len() ==> log[p] == #[trigger] base[p]
}

impl Cluster {
    /// The log that the leader of `term` had when it was elected.
    pub open spec fn election_log(self, term: u64) -> Seq<LogEntryView> {
        self.election_logs[term]
    }

    /// Whether the entry at position `at` of `log` stands where the leader
    /// of its term put it: the log starts with the election log of the
    /// term, and from there to `at` every entry is of the term.
    pub open spec fn grown_at(self, log: Seq<LogEntryView>, at: int) -> bool {
        let term = log[at].term;
        let base = self.election_log(term);
        &&& self.election_logs.contains_key(term)
        &&& base.len() <= at
        &&& starts_with(log, base)
        &&& forall|q: int| base.len() <= q <= at ==> (#[trigger] log[q]).term == term
    }

    /// Whether the log of a leader has grown out of its election log by
    /// entries of its term alone.
    pub open spec fn leader_grown(self, leader: int) -> bool {
        let state = self.nodes[leader];
        let base = self.election_log(state.current_term);
        state.role is Leader ==> {
            &&& starts_with(state.log, base)
            &&& forall|q: int|
                base.len() <= q < state.log.len() ==> (#[trigger] state.log[q]).term
                    == state.current_term
        }
    }

    /// Whether the origin of a shipment is part of a log that has grown
    /// out of the election log of the shipment's term: where both reach,
    /// they agree, and beyond the election log the origin holds entries of
    /// the term alone. No entry of the origin is of a later term.
    pub open spec fn shipment_grown(self, shipment: Shipment) -> bool {
        let term = shipment.request.term;
        let base = self.election_log(term);
        let origin = shipment.origin;
        &&& forall|p: int| 0 <= p < origin.len() && p < base.len() ==> #[trigger] origin[p] == base[p]
        &&& forall|q: int| base.len() <= q < origin.len() ==> (#[trigger] origin[q]).term == term
        &&& forall|at: int| 0 <= at < origin.len() ==> (#[trigger] origin[at]).term <= term
    }

    /// Whether the election log of `term` is a log that is kept, with
    /// entries of earlier terms alone.
    pub open spec fn election_log_sound(self, term: u64) -> bool {
        let base = self.election_log(term);
        &&& self.logs.contains(base)
        &&& forall|at: int| 0 <= at < base.len() ==> (#[trigger] base[at]).term < term
    }

    /// Whether no entry in the log of `node` is of a term that the node
    /// has not reached.
    pub open spec fn terms_reached(self, node: int) -> bool {
        let state = self.nodes[node];
        forall|at: int| 0 <= at < state.log.len() ==> (#[trigger] state.log[at]).term
            <= state.current_term
    }

    /// The invariant of the terms in the logs of a cluster.
    pub open spec fn terms_inv(self) -> bool {
        &&& forall|term: u64|
            self.elected.contains_key(term) <==> #[trigger] self.election_logs.contains_key(term)
        &&& forall|term: u64| #[trigger]
            self.election_logs.contains_key(term) ==> self.election_log_sound(term)
        &&& forall|node: int| 0 <= node < self.nodes.len() ==> #[trigger] self.terms_reached(node)
        &&& forall|node: int| 0 <= node < self.nodes.len() ==> #[trigger] self.leader_grown(node)
        &&& forall|shipment: Shipment| #[trigger]
            self.shipments.contains(shipment) ==> self.shipment_grown(shipment)
        &&& forall|log: Seq<LogEntryView>| #[trigger] self.logs.contains(log) ==> nondecreasing(log)
        &&& forall|log: Seq<LogEntryView>| #[trigger]
            self.logs.contains(log) ==> log.len() < u64::MAX
        &&& forall|log: Seq<LogEntryView>, at: int|
            self.logs.contains(log) && 0 <= at < log.len() ==> #[trigger] self.grown_at(log, at)
    }
}

/// What is asked of a log that an action adds to those kept.
proof fn lemma_new_log_terms(cluster: Cluster, action: Action, new_log: Seq<LogEntryView>)
    requires
        cluster.inv(),
        cluster.logs_inv(),
        cluster.terms_inv(),
        cluster.allows(action),
        Cluster::faithful(action),
        new_log == match cluster.shipped(action) {
            Some(shipment) => shipment.origin,
            None => cluster.node_after(action).log,
        },
    ensures
        nondecreasing(new_log),
        forall|at: int| 0 <= at < new_log.len() ==> #[trigger] cluster.grown_at(new_log, at),
{
    let node = action.node();
    let before = cluster.nodes[node];
    let after = cluster.node_after(action);
    lemma_log_origin(cluster, action);
    assert(cluster.logs.contains(before.log));
    assert(nondecreasing(before.log));
    assert(cluster.terms_reached(node));
    assert(cluster.leader_grown(node));
    assert(cluster.role_founded(node));
    match cluster.shipped(action) {
        Some(shipment) => {
            assert forall|at: int| 0 <= at < new_log.len() implies #[trigger] cluster.grown_at(
                new_log,
                at,
            ) by {
                assert(cluster.grown_at(before.log, at));
                assert(new_log[at] == before.log[at]);
                let base = cluster.election_log(new_log[at].term);
                assert forall|q: int| base.len() <= q <= at implies (#[trigger] new_log[q]).term
                    == new_log[at].term by {
                    assert(new_log[q] == before.log[q]);
                }
            }
        },
        None => {
            if after.log == before.log {
                assert forall|at: int| 0 <= at < new_log.len() implies #[trigger] cluster.grown_at(
                    new_log,
                    at,
                ) by {
                    assert(cluster.grown_at(before.log, at));
                }
            } else if action is Deliver {
                let shipment = action->Deliver_shipment;
                assert(cluster.shipment_sound(shipment));
                assert(nondecreasing(shipment.origin));
                assert forall|at: int| 0 <= at < new_log.len() implies #[trigger] cluster.grown_at(
                    new_log,
                    at,
                ) by {
                    assert(cluster.grown_at(shipment.origin, at));
                }
            } else {
                // A leader has appended an entry of its term.
                let last = before.log.len() as int;
                let term = before.current_term;
                assert forall|p: int| 0 <= p < last implies new_log[p] == before.log[p] by {
                    assert(new_log[p] == new_log.drop_last()[p]);
                }
                assert forall|a: int, b: int| 0 <= a <= b < new_log.len() implies (
                #[trigger] new_log[a]).term <= (#[trigger] new_log[b]).term by {
                    if b < last {
                        assert(before.log[a].term <= before.log[b].term);
                    } else if a < last {
                        assert(before.log[a].term <= term);
                    }
                }
                assert forall|at: int| 0 <= at < new_log.len() implies #[trigger] cluster.grown_at(
                    new_log,
                    at,
                ) by {
                    if at < last {
                        assert(cluster.grown_at(before.log, at));
                        let base = cluster.election_log(new_log[at].term);
                        assert forall|q: int| base.len() <= q <= at implies (
                        #[trigger] new_log[q]).term == new_log[at].term by {
                            assert(new_log[q] == before.log[q]);
                        }
                    } else {
                        let base = cluster.election_log(term);
                        assert forall|q: int| base.len() <= q <= at implies (
                        #[trigger] new_log[q]).term == term by {
                            if q < last {
                                assert(new_log[q] == before.log[q]);
                                assert(before.log[q].term == term);
                            }
                        }
                    }
                }
            }
        },
    }
}

/// A faithful action keeps the invariant of the terms.
pub proof fn lemma_action_keeps_terms_inv(cluster: Cluster, action: Action)
    requires
        cluster.inv(),
        cluster.logs_inv(),
        cluster.terms_inv(),
        cluster.allows(action),
        Cluster::faithful(action),
    ensures
        cluster.after(action).inv(),
        cluster.after(action).logs_inv(),
        cluster.after(action).terms_inv(),
{
    let node = action.node();
    let before = cluster.nodes[node];
    let after = cluster.node_after(action);
    let next = cluster.after(action);
    lemma_action_keeps_logs_inv(cluster, action);
    lemma_log_origin(cluster, action);
    lemma_fresh_leader(cluster, action);
    assert(cluster.role_founded(node));
    assert(next.role_founded(node));
    assert(cluster.logs.contains(before.log));
    assert(cluster.terms_reached(node));
    assert(cluster.leader_grown(node));
    assert(cluster.terms_elected(before.log));
    let new_log = match cluster.shipped(action) {
        Some(shipment) => shipment.origin,
        None => after.log,
    };
    assert(next.logs =~= cluster.logs.insert(new_log));
    lemma_new_log_terms(cluster, action, new_log);
    let fresh = after.role is Leader && !cluster.elected.contains_key(after.current_term);

    assert forall|term: u64| #[trigger] next.election_logs.contains_key(term) implies next.election_log_sound(
        term,
    ) by {
        if cluster.election_logs.contains_key(term) {
            assert(cluster.election_log_sound(term));
        } else {
            assert forall|at: int| 0 <= at < after.log.len() implies (#[trigger] after.log[at]).term
                < term by {
                assert(cluster.elected.contains_key(before.log[at].term));
            }
        }
    }
    assert forall|other: int| 0 <= other < next.nodes.len() implies #[trigger] next.terms_reached(
        other,
    ) by {
        assert(cluster.terms_reached(other));
        if other == node && after.log != before.log && action is Deliver {
            let shipment = action->Deliver_shipment;
            assert(cluster.shipment_grown(shipment));
        }
        if other == node && after.log != before.log && !(action is Deliver) {
            assert forall|at: int| 0 <= at < after.log.len() implies (#[trigger] after.log[at]).term
                <= after.current_term by {
                if at < before.log.len() {
                    assert(after.log[at] == after.log.drop_last()[at]);
                }
            }
        }
    }
    assert forall|other: int| 0 <= other < next.nodes.len() implies #[trigger] next.leader_grown(
        other,
    ) by {
        assert(cluster.leader_grown(other));
        assert(cluster.role_founded(other));
        if other == node && after.role is Leader {
            if fresh {
                assert(next.election_log(after.current_term) == after.log);
            } else if after.log != before.log {
                let base = cluster.election_log(after.current_term);
                assert forall|p: int| 0 <= p < before.log.len() implies after.log[p]
                    == before.log[p] by {
                    assert(after.log[p] == after.log.drop_last()[p]);
                }
                assert forall|q: int| base.len() <= q < after.log.len() implies (
                #[trigger] after.log[q]).term == after.current_term by {
                    if q < before.log.len() {
                        assert(before.log[q].term == after.current_term);
                    }
                }
            }
        }
    }
    assert forall|shipment: Shipment| #[trigger]
        next.shipments.contains(shipment) implies next.shipment_grown(shipment) by {
        if cluster.shipments.contains(shipment) {
            assert(cluster.shipment_grown(shipment));
            assert(cluster.shipment_sound(shipment));
        } else {
            let origin = shipment.origin;
            let base = cluster.election_log(shipment.request.term);
            assert forall|p: int| 0 <= p < origin.len() implies origin[p] == before.log[p] by {}
            assert forall|q: int| base.len() <= q < origin.len() implies (#[trigger] origin[q]).term
                == shipment.request.term by {
                assert(before.log[q].term == before.current_term);
            }
            assert forall|at: int| 0 <= at < origin.len() implies (#[trigger] origin[at]).term
                <= shipment.request.term by {
                assert(before.log[at].term <= before.current_term);
            }
        }
    }
    assert forall|log: Seq<LogEntryView>, at: int|
        next.logs.contains(log) && 0 <= at < log.len() implies #[trigger] next.grown_at(
        log,
        at,
    ) by {
        assert(cluster.grown_at(log, at));
        if fresh {
            if cluster.logs.contains(log) {
                assert(cluster.terms_elected(log));
            }
            assert(cluster.elected.contains_key(log[at].term));
        }
    }
}

/// A cluster at its start has the invariant of the terms.
pub proof fn lemma_initial_terms_inv(cluster: Cluster)
    requires
        cluster.initial(),
    ensures
        cluster.inv(),
        cluster.logs_inv(),
        cluster.terms_inv(),
{
    lemma_initial_logs_inv(cluster);
    assert forall|node: int| 0 <= node < cluster.nodes.len() implies #[trigger] cluster.terms_reached(
        node,
    ) by {
        assert(cluster.nodes[node] == NodeView::initial());
    }
    assert forall|node: int| 0 <= node < cluster.nodes.len() implies #[trigger] cluster.leader_grown(
        node,
    ) by {
        assert(cluster.nodes[node] == NodeView::initial());
    }
}

} // verus!
