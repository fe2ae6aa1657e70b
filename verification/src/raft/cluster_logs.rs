//! Log matching in a cluster: wherever the logs of two nodes hold an entry
//! of the same term at the same index, they hold the same entries up to
//! that index.
//!
//! This holds in every cluster whose network makes nothing up: a request
//! to append entries reaches a node only if a leader has sent it.

use vstd::prelude::*;

use super::cluster::{
    lemma_action_keeps_inv, lemma_election_safety, lemma_initial_inv, Action, Cluster, Shipment,
};
use super::log_safety::{
    agree_through, drawn_from, lemma_append_entries_keeps_log_matching, log_matching,
    same_term_at,
};
use super::replication::lemma_highest_committable;
use super::safety::{lemma_step_forward, Event, Input};
use super::state::{LogEntryView, NodeView};

verus! {

impl Cluster {
    /// What a shipment rests on: it goes to a node of the cluster, its
    /// request carries the last entries of its origin, a log that is kept,
    /// and the leader recorded for the request's term is not the node it
    /// goes to.
    pub open spec fn shipment_sound(self, shipment: Shipment) -> bool {
        &&& self.has(shipment.to)
        &&& self.logs.contains(shipment.origin)
        &&& drawn_from(shipment.request, shipment.origin)
        &&& shipment.origin.len() == shipment.request.prev_log_index
            + shipment.request.entries.len()
        &&& self.elected.contains_key(shipment.request.term)
        &&& self.elected[shipment.request.term] != shipment.to
    }

    /// While `leader` is leader, its log holds an entry of its term at
    /// every index at which `log` holds one.
    pub open spec fn leader_holds(self, leader: int, log: Seq<LogEntryView>) -> bool {
        let state = self.nodes[leader];
        state.role is Leader ==> forall|at: int|
            0 <= at < log.len() && (#[trigger] log[at]).term == state.current_term ==> at
                < state.log.len() && state.log[at].term == state.current_term
    }

    /// Every entry of the log is of a term in which a leader was elected.
    pub open spec fn terms_elected(self, log: Seq<LogEntryView>) -> bool {
        forall|at: int| 0 <= at < log.len() ==> self.elected.contains_key((#[trigger] log[at]).term)
    }

    /// The node recorded as leader of `term` has reached the term, and
    /// while it is in it, it is not a candidate.
    pub open spec fn elected_sound(self, term: u64) -> bool {
        let state = self.nodes[self.elected[term]];
        &&& term <= state.current_term
        &&& term == state.current_term ==> !(state.role is Candidate)
    }

    /// The invariant of the logs of a cluster.
    pub open spec fn logs_inv(self) -> bool {
        &&& forall|node: int|
            0 <= node < self.nodes.len() ==> self.logs.contains((#[trigger] self.nodes[node]).log)
        &&& forall|shipment: Shipment| #[trigger]
            self.shipments.contains(shipment) ==> self.shipment_sound(shipment)
        &&& forall|a: Seq<LogEntryView>, b: Seq<LogEntryView>|
            #[trigger] self.logs.contains(a) && #[trigger] self.logs.contains(b) ==> log_matching(
                a,
                b,
            )
        &&& forall|leader: int, log: Seq<LogEntryView>|
            0 <= leader < self.nodes.len() && self.logs.contains(log)
                ==> #[trigger] self.leader_holds(leader, log)
        &&& forall|log: Seq<LogEntryView>| #[trigger]
            self.logs.contains(log) ==> self.terms_elected(log)
        &&& forall|term: u64| #[trigger]
            self.elected.contains_key(term) ==> self.elected_sound(term)
    }
}

/// A log that matches another still matches it when it is cut short.
proof fn lemma_prefix_matches(log: Seq<LogEntryView>, len: int, other: Seq<LogEntryView>)
    requires
        0 <= len <= log.len(),
        log_matching(log, other),
        log_matching(other, log),
    ensures
        log_matching(log.take(len), other),
        log_matching(other, log.take(len)),
{
    let cut = log.take(len);
    assert forall|at: int| #[trigger] same_term_at(cut, other, at) implies agree_through(
        cut,
        other,
        at,
    ) by {
        assert(same_term_at(log, other, at));
    }
    assert forall|at: int| #[trigger] same_term_at(other, cut, at) implies agree_through(
        other,
        cut,
        at,
    ) by {
        assert(same_term_at(other, log, at));
    }
}

/// Every log matches itself.
proof fn lemma_matches_itself(log: Seq<LogEntryView>)
    ensures
        log_matching(log, log),
{
}

/// What an action does to the log of its node, and to its role, in a
/// faithful network: the log stays, or grows by an entry of the term of
/// the leader that the node is, or becomes the origin of the shipment
/// that is delivered; and the node is leader or candidate of an unchanged
/// term only if it was before, unless it has just won or started an
/// election.
pub proof fn lemma_log_origin(cluster: Cluster, action: Action)
    requires
        cluster.inv(),
        cluster.logs_inv(),
        cluster.allows(action),
        Cluster::faithful(action),
    ensures
        ({
            let node = action.node();
            let before = cluster.nodes[node];
            let after = cluster.node_after(action);
            &&& after.wf()
            &&& before.current_term <= after.current_term
            &&& {
                ||| after.log == before.log
                ||| {
                    &&& action is Replication
                    &&& before.role is Leader
                    &&& after.role is Leader
                    &&& after.current_term == before.current_term
                    &&& after.log.len() == before.log.len() + 1
                    &&& after.log.drop_last() == before.log
                    &&& after.log.last().term == before.current_term
                }
                ||| {
                    &&& action is Deliver
                    &&& after.log == action->Deliver_shipment.origin
                    &&& !(after.role is Leader)
                }
            }
            &&& (after.role is Candidate && after.current_term == before.current_term)
                ==> before.role is Candidate
            &&& (after.role is Leader && !(action is Timeout) && !(action is VoteResponse)) ==> (
            before.role is Leader && after.current_term == before.current_term)
        }),
{
    let node = action.node();
    let before = cluster.nodes[node];
    let after = cluster.node_after(action);
    assert(before.wf());
    match action {
        Action::Timeout { persisted, .. } => {
            lemma_step_forward(
                before,
                Event {
                    input: Input::ElectionTimeout {
                        id: cluster.ids[node],
                        peers: (cluster.size() - 1) as nat,
                    },
                    persisted,
                },
            );
        },
        Action::VoteRequest { vote, persisted, .. } => {
            lemma_step_forward(before, Event { input: Input::VoteRequest { vote }, persisted });
        },
        Action::VoteResponse { peer, answer, persisted, .. } => {
            lemma_step_forward(
                before,
                Event { input: Input::VoteResponse { voter: peer, answer }, persisted },
            );
        },
        Action::Send { .. } => {},
        Action::Deliver { shipment, persisted } => {
            let req = shipment.request;
            lemma_step_forward(
                before,
                Event { input: Input::AppendEntries { append: req }, persisted },
            );
            assert(cluster.shipment_sound(shipment));
            assert(cluster.logs.contains(before.log));
            lemma_append_entries_keeps_log_matching(
                before,
                req,
                shipment.origin,
                shipment.origin,
            );
            assert(shipment.origin.take(req.prev_log_index + req.entries.len())
                =~= shipment.origin);
            if after.log != before.log {
                assert(before.accepts(req));
                assert(cluster.role_founded(node));
            }
        },
        Action::Replication { event, .. } => {
            lemma_step_forward(before, event);
            match event.input {
                Input::AppendResponse { peer, sent, resp } => {
                    let seen = before.observe_term(resp.term);
                    if seen.heeds(peer, resp) && resp.success {
                        lemma_highest_committable(
                            seen.after_success(peer, sent),
                            seen.log.len() as int,
                        );
                    }
                },
                Input::Proposal { records } => {
                    if before.takes_proposal() && event.persisted {
                        let entry = LogEntryView { term: before.current_term, records };
                        assert(after.log == before.log.push(entry));
                        assert(after.log.drop_last() =~= before.log);
                    }
                },
                _ => {},
            }
        },
        Action::Restart { .. } => {},
    }
}

/// A node that an action has just made leader is the first leader of its
/// term, and the action has left its log as it was.
pub proof fn lemma_fresh_leader(cluster: Cluster, action: Action)
    requires
        cluster.inv(),
        cluster.logs_inv(),
        cluster.allows(action),
        Cluster::faithful(action),
    ensures
        ({
            let before = cluster.nodes[action.node()];
            let after = cluster.node_after(action);
            (after.role is Leader && !(before.role is Leader && before.current_term
                == after.current_term)) ==> {
                &&& !cluster.elected.contains_key(after.current_term)
                &&& after.log == before.log
                &&& (action is Timeout || action is VoteResponse)
            }
        }),
{
    let node = action.node();
    let before = cluster.nodes[node];
    let after = cluster.node_after(action);
    lemma_action_keeps_inv(cluster, action);
    lemma_log_origin(cluster, action);
    assert(cluster.role_founded(node));
    assert(cluster.after(action).role_founded(node));
    if after.role is Leader && !(before.role is Leader && before.current_term
        == after.current_term) {
        if cluster.elected.contains_key(after.current_term) {
            assert(cluster.elected_sound(after.current_term));
            assert(false);
        }
    }
}

/// A faithful action keeps the invariant of the logs.
pub proof fn lemma_action_keeps_logs_inv(cluster: Cluster, action: Action)
    requires
        cluster.inv(),
        cluster.logs_inv(),
        cluster.allows(action),
        Cluster::faithful(action),
    ensures
        cluster.after(action).inv(),
        cluster.after(action).logs_inv(),
{
    let node = action.node();
    let before = cluster.nodes[node];
    let after = cluster.node_after(action);
    let next = cluster.after(action);
    lemma_action_keeps_inv(cluster, action);
    lemma_log_origin(cluster, action);
    assert(cluster.role_founded(node));
    assert(next.role_founded(node));
    assert(cluster.logs.contains(before.log));
    assert(cluster.logs.subset_of(next.logs));
    let shipped = cluster.shipped(action);

    // The one log that may be new.
    let new_log = match shipped {
        Some(shipment) => shipment.origin,
        None => after.log,
    };
    assert(next.logs =~= cluster.logs.insert(new_log));

    // A node that has just become leader is the first of its term, and no
    // log holds an entry of that term.
    let fresh = after.role is Leader && !(before.role is Leader && before.current_term
        == after.current_term);
    if fresh {
        if cluster.elected.contains_key(after.current_term) {
            assert(cluster.elected_sound(after.current_term));
            assert(false);
        }
    }
    // The new log matches every log, and each leader holds its entries.
    lemma_new_log(cluster, action, new_log);

    assert forall|other: int| 0 <= other < next.nodes.len() implies next.logs.contains(
        (#[trigger] next.nodes[other]).log,
    ) by {
        if other != node {
            assert(cluster.logs.contains(cluster.nodes[other].log));
        }
    }
    assert forall|shipment: Shipment| #[trigger]
        next.shipments.contains(shipment) implies next.shipment_sound(shipment) by {
        if cluster.shipments.contains(shipment) {
            assert(cluster.shipment_sound(shipment));
        } else {
            let sender = cluster.nodes[node];
            let request = shipment.request;
            let len = request.prev_log_index + request.entries.len();
            assert(shipment.origin =~= sender.log.take(len));
            assert(request.entries =~= shipment.origin.subrange(
                request.prev_log_index as int,
                len,
            ));
        }
    }
    assert forall|a: Seq<LogEntryView>, b: Seq<LogEntryView>|
        #[trigger] next.logs.contains(a) && #[trigger] next.logs.contains(b) implies log_matching(
        a,
        b,
    ) by {
        if a == new_log && b == new_log {
            lemma_matches_itself(a);
        }
    }
    assert forall|leader: int, log: Seq<LogEntryView>|
        0 <= leader < next.nodes.len() && next.logs.contains(
            log,
        ) implies #[trigger] next.leader_holds(leader, log) by {
        lemma_leader_still_holds(cluster, action, new_log, leader, log);
    }
    assert forall|log: Seq<LogEntryView>| #[trigger] next.logs.contains(log) implies next.terms_elected(
        log,
    ) by {
        if cluster.logs.contains(log) {
            assert(cluster.terms_elected(log));
        }
    }
    assert forall|term: u64| #[trigger] next.elected.contains_key(term) implies next.elected_sound(
        term,
    ) by {
        if cluster.elected.contains_key(term) {
            assert(cluster.elected_sound(term));
        }
    }
}

/// The log that an action may add matches every log that is kept, and
/// holds only entries of terms in which a leader was elected.
proof fn lemma_new_log(cluster: Cluster, action: Action, new_log: Seq<LogEntryView>)
    requires
        cluster.inv(),
        cluster.logs_inv(),
        cluster.allows(action),
        Cluster::faithful(action),
        new_log == match cluster.shipped(action) {
            Some(shipment) => shipment.origin,
            None => cluster.node_after(action).log,
        },
    ensures
        cluster.after(action).terms_elected(new_log),
        forall|log: Seq<LogEntryView>| #[trigger]
            cluster.logs.contains(log) ==> log_matching(new_log, log) && log_matching(
                log,
                new_log,
            ),
{
    let node = action.node();
    let before = cluster.nodes[node];
    let after = cluster.node_after(action);
    let next = cluster.after(action);
    lemma_action_keeps_inv(cluster, action);
    lemma_log_origin(cluster, action);
    assert(cluster.role_founded(node));
    assert(cluster.logs.contains(before.log));
    assert(cluster.terms_elected(before.log));
    match cluster.shipped(action) {
        Some(shipment) => {
            let len = shipment.request.prev_log_index + shipment.request.entries.len();
            assert forall|log: Seq<LogEntryView>| #[trigger]
                cluster.logs.contains(log) implies log_matching(new_log, log) && log_matching(
                log,
                new_log,
            ) by {
                lemma_prefix_matches(before.log, len, log);
            }
            assert forall|at: int| 0 <= at < new_log.len() implies next.elected.contains_key(
                (#[trigger] new_log[at]).term,
            ) by {
                assert(new_log[at] == before.log[at]);
            }
        },
        None => {
            if after.log == before.log {
            } else if action is Deliver {
                let shipment = action->Deliver_shipment;
                assert(cluster.shipment_sound(shipment));
                assert(cluster.terms_elected(shipment.origin));
            } else {
                // A leader has appended an entry of its term.
                let last = before.log.len() as int;
                assert forall|log: Seq<LogEntryView>| #[trigger]
                    cluster.logs.contains(log) implies log_matching(new_log, log)
                    && log_matching(log, new_log) by {
                    assert(cluster.leader_holds(node, log));
                    assert forall|at: int| #[trigger]
                        same_term_at(new_log, log, at) implies agree_through(new_log, log, at) by {
                        if at < last {
                            assert(new_log[at] == new_log.drop_last()[at]);
                            assert(same_term_at(before.log, log, at));
                            assert forall|j: int| 0 <= j <= at implies new_log[j] == log[j] by {
                                assert(new_log[j] == new_log.drop_last()[j]);
                            }
                        } else {
                            assert(log[at].term == before.current_term);
                        }
                    }
                    assert forall|at: int| #[trigger]
                        same_term_at(log, new_log, at) implies agree_through(log, new_log, at) by {
                        if at < last {
                            assert(new_log[at] == new_log.drop_last()[at]);
                            assert(same_term_at(log, before.log, at));
                            assert forall|j: int| 0 <= j <= at implies log[j] == new_log[j] by {
                                assert(new_log[j] == new_log.drop_last()[j]);
                            }
                        } else {
                            assert(log[at].term == before.current_term);
                        }
                    }
                }
                assert forall|at: int| 0 <= at < new_log.len() implies next.elected.contains_key(
                    (#[trigger] new_log[at]).term,
                ) by {
                    if at < last {
                        assert(new_log[at] == new_log.drop_last()[at]);
                    }
                }
            }
        },
    }
}

/// After an action every leader holds an entry of its term wherever a
/// kept log holds one.
proof fn lemma_leader_still_holds(
    cluster: Cluster,
    action: Action,
    new_log: Seq<LogEntryView>,
    leader: int,
    log: Seq<LogEntryView>,
)
    requires
        cluster.inv(),
        cluster.logs_inv(),
        cluster.allows(action),
        Cluster::faithful(action),
        new_log == match cluster.shipped(action) {
            Some(shipment) => shipment.origin,
            None => cluster.node_after(action).log,
        },
        cluster.has(leader),
        cluster.logs.contains(log) || log == new_log,
    ensures
        cluster.after(action).leader_holds(leader, log),
{
    let node = action.node();
    let before = cluster.nodes[node];
    let after = cluster.node_after(action);
    let next = cluster.after(action);
    lemma_action_keeps_inv(cluster, action);
    lemma_log_origin(cluster, action);
    assert(cluster.role_founded(node));
    assert(next.role_founded(node));
    assert(cluster.role_founded(leader));
    assert(next.role_founded(leader));
    assert(cluster.logs.contains(before.log));
    let state = next.nodes[leader];
    if state.role is Leader {
        let term = state.current_term;
        let fresh = leader == node && !(before.role is Leader && before.current_term == term);
        if fresh {
            // No log holds an entry of the term of a leader just elected.
            if cluster.elected.contains_key(term) {
                assert(cluster.elected_sound(term));
                assert(false);
            }
            assert(after.log == before.log);
            if cluster.logs.contains(log) {
                assert(cluster.terms_elected(log));
            } else {
                assert(cluster.terms_elected(before.log));
            }
            assert forall|at: int|
                0 <= at < log.len() && (#[trigger] log[at]).term == term implies false by {
                assert(cluster.elected.contains_key(log[at].term));
            }
        } else {
            // The leader was leader of this term before; its log has at most grown.
            let old = cluster.nodes[leader];
            assert(old.role is Leader && old.current_term == term);
            assert(state.log.len() >= old.log.len());
            assert forall|at: int| 0 <= at < old.log.len() implies state.log[at]
                == #[trigger] old.log[at] by {
                if state.log != old.log {
                    assert(state.log.drop_last()[at] == state.log[at]);
                }
            }
            if cluster.logs.contains(log) {
                assert(cluster.leader_holds(leader, log));
                assert forall|at: int|
                    0 <= at < log.len() && (#[trigger] log[at]).term == term implies at
                    < state.log.len() && state.log[at].term == term by {
                    assert(old.log[at].term == term);
                }
            } else {
                // The new log: a part of a kept log, or the log of a leader
                // that has grown by an entry of that leader's term.
                match cluster.shipped(action) {
                    Some(shipment) => {
                        assert(cluster.leader_holds(leader, before.log));
                        assert forall|at: int|
                            0 <= at < log.len() && (#[trigger] log[at]).term == term implies at
                            < state.log.len() && state.log[at].term == term by {
                            assert(log[at] == before.log[at]);
                            assert(old.log[at].term == term);
                        }
                    },
                    None => {
                        if action is Deliver {
                            let shipment = action->Deliver_shipment;
                            assert(cluster.shipment_sound(shipment));
                            assert(cluster.leader_holds(leader, shipment.origin));
                            assert forall|at: int|
                                0 <= at < log.len() && (#[trigger] log[at]).term
                                    == term implies at < state.log.len() && state.log[at].term
                                == term by {
                                assert(old.log[at].term == term);
                            }
                        } else {
                            assert(cluster.leader_holds(leader, before.log));
                            if leader != node && after.current_term == term {
                                lemma_election_safety(next, leader, node);
                            }
                            assert forall|at: int|
                                0 <= at < log.len() && (#[trigger] log[at]).term
                                    == term implies at < state.log.len() && state.log[at].term
                                == term by {
                                if at < before.log.len() {
                                    assert(log.drop_last()[at] == log[at]);
                                    assert(before.log[at].term == term);
                                    assert(old.log[at].term == term);
                                }
                            }
                        }
                    },
                }
            }
        }
    }
}

/// A cluster at its start has the invariant of the logs.
pub proof fn lemma_initial_logs_inv(cluster: Cluster)
    requires
        cluster.initial(),
    ensures
        cluster.inv(),
        cluster.logs_inv(),
{
    lemma_initial_inv(cluster);
    assert forall|node: int| 0 <= node < cluster.nodes.len() implies cluster.logs.contains(
        (#[trigger] cluster.nodes[node]).log,
    ) by {
        assert(cluster.nodes[node] == NodeView::initial());
    }
    assert forall|leader: int, log: Seq<LogEntryView>|
        0 <= leader < cluster.nodes.len() && cluster.logs.contains(
            log,
        ) implies #[trigger] cluster.leader_holds(leader, log) by {
        assert(cluster.nodes[leader] == NodeView::initial());
    }
}

/// Whether every action of a run is faithful.
pub open spec fn all_faithful(actions: Seq<Action>) -> bool {
    forall|at: int| 0 <= at < actions.len() ==> Cluster::faithful(#[trigger] actions[at])
}

/// A run of faithful actions keeps the invariants of the cluster.
pub proof fn lemma_run_keeps_logs_inv(cluster: Cluster, actions: Seq<Action>)
    requires
        cluster.inv(),
        cluster.logs_inv(),
        cluster.allows_all(actions),
        all_faithful(actions),
    ensures
        cluster.run(actions).inv(),
        cluster.run(actions).logs_inv(),
        cluster.run(actions).size() == cluster.size(),
    decreases actions.len(),
{
    if actions.len() > 0 {
        assert(all_faithful(actions.drop_last())) by {
            assert forall|at: int| 0 <= at < actions.drop_last().len() implies Cluster::faithful(
                #[trigger] actions.drop_last()[at],
            ) by {
                assert(actions.drop_last()[at] == actions[at]);
            }
        }
        assert(Cluster::faithful(actions[actions.len() - 1]));
        lemma_run_keeps_logs_inv(cluster, actions.drop_last());
        lemma_action_keeps_logs_inv(cluster.run(actions.drop_last()), actions.last());
    }
}

/// Log matching: after any run of faithful actions from the start of a
/// cluster, if the logs of two nodes hold an entry of the same term at the
/// same index, all entries up to that index are the same in both.
pub proof fn lemma_log_matching(
    cluster: Cluster,
    actions: Seq<Action>,
    first: int,
    second: int,
    at: int,
)
    requires
        cluster.initial(),
        cluster.allows_all(actions),
        all_faithful(actions),
        cluster.has(first),
        cluster.has(second),
        same_term_at(
            cluster.run(actions).nodes[first].log,
            cluster.run(actions).nodes[second].log,
            at,
        ),
    ensures
        cluster.run(actions).nodes[first].log.take(at + 1) == cluster.run(
            actions,
        ).nodes[second].log.take(at + 1),
{
    lemma_initial_logs_inv(cluster);
    lemma_run_keeps_logs_inv(cluster, actions);
    let end = cluster.run(actions);
    let a = end.nodes[first].log;
    let b = end.nodes[second].log;
    assert(end.logs.contains(a));
    assert(end.logs.contains(b));
    assert(log_matching(a, b));
    assert(agree_through(a, b, at));
    assert(a.take(at + 1) =~= b.take(at + 1));
}

} // verus!
