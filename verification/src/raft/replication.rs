//! The leader's side of replication: the requests it sends to each peer,
//! what it does with the answers, and how far it lets the commit index
//! advance.

use bytes::Bytes;
use vstd::prelude::*;

use super::append_entries::{entries_between, higher, lower};
use super::durability::RaftError;
use super::election::is_majority;
use super::messages::{AppendEntriesRequest, AppendEntriesResponse, AppendEntriesView};
use super::state::{
    entry_views, record_views, term_at, LogEntry, LogEntryView, NodeState, NodeView, RoleView,
};
use crate::log::mem_table::MemTable;

verus! {

/// Number of peers known to hold the entry at index `n`.
pub open spec fn replicas(match_index: Seq<u64>, n: int) -> nat
    decreases match_index.len(),
{
    if match_index.len() == 0 {
        0
    } else {
        replicas(match_index.drop_last(), n) + if match_index.last() >= n {
            1nat
        } else {
            0nat
        }
    }
}

/// Counts the peers known to hold the entry at index `n`.
fn count_replicas(match_index: &Vec<u64>, n: u64) -> (count: usize)
    ensures
        count == replicas(match_index@, n as int),
        count <= match_index@.len(),
{
    let mut count: usize = 0;
    let mut at: usize = 0;
    while at < match_index.len()
        invariant
            at <= match_index.len(),
            count == replicas(match_index@.take(at as int), n as int),
            count <= at,
        decreases match_index.len() - at,
    {
        if match_index[at] >= n {
            count += 1;
        }
        at += 1;
        assert(match_index@.take(at as int).drop_last() =~= match_index@.take(at - 1));
    }
    assert(match_index@.take(at as int) =~= match_index@);
    count
}

impl NodeView {
    /// Whether a leader may commit the entry at index `n`: the index is
    /// beyond the commit index, the entry is of the leader's own term, and
    /// the leader and the peers known to hold it are a strict majority.
    pub open spec fn committable(self, n: int) -> bool {
        &&& self.role is Leader
        &&& self.commit_index < n <= self.log.len()
        &&& term_at(self.log, n) == self.current_term
        &&& is_majority(
            replicas(self.role->Leader_match_index, n) + 1,
            self.role->Leader_match_index.len(),
        )
    }

    /// The highest index up to `from` that the leader may commit; the
    /// commit index where there is none.
    pub open spec fn highest_committable(self, from: int) -> int
        decreases from,
    {
        if from <= self.commit_index {
            self.commit_index as int
        } else if self.committable(from) {
            from
        } else {
            self.highest_committable(from - 1)
        }
    }

    /// The node after it has advanced its commit index as far as a leader
    /// may, with every committed entry that the log holds applied.
    pub open spec fn after_commit_advance(self) -> NodeView {
        let commit_index = self.highest_committable(self.log.len() as int) as u64;
        NodeView {
            commit_index,
            last_applied: higher(
                self.last_applied as int,
                lower(commit_index as int, self.log.len() as int),
            ) as u64,
            ..self
        }
    }

    /// Whether the node is a leader with a peer number `peer`.
    pub open spec fn leads(self, peer: int) -> bool {
        self.role is Leader && 0 <= peer < self.role->Leader_next_index.len()
    }

    /// The index before the first entry to send to `peer`.
    pub open spec fn prev_index_for(self, peer: int) -> int {
        lower(self.role->Leader_next_index[peer] - 1, self.log.len() as int)
    }

    /// The request that a leader sends to `peer`: the entries from the
    /// peer's next index on, at most `limit` of them, after the entry that
    /// precedes them. With a limit of 0 it is a heartbeat.
    pub open spec fn append_request(self, peer: int, leader_id: Seq<char>, limit: nat) -> Option<
        AppendEntriesView,
    > {
        if self.leads(peer) {
            let prev = self.prev_index_for(peer);
            Some(
                AppendEntriesView {
                    term: self.current_term,
                    leader_id,
                    prev_log_index: prev as u64,
                    prev_log_term: term_at(self.log, prev),
                    entries: self.log.subrange(prev, lower(prev + limit, self.log.len() as int)),
                    leader_commit_index: self.commit_index,
                },
            )
        } else {
            None
        }
    }

    /// Whether the answer of `peer` is one to a request of the node's
    /// present leadership: the node leads the peer, and the answer is of
    /// its term.
    pub open spec fn heeds(self, peer: int, resp: AppendEntriesResponse) -> bool {
        self.leads(peer) && resp.term == self.current_term
    }

    /// The leader after `peer` has taken `sent` entries: the peer's next
    /// index moves past them, and its match index to the last of them.
    /// Nothing changes where the new next index would not be a `u64`.
    pub open spec fn after_success(self, peer: int, sent: u64) -> NodeView {
        let next_index = self.role->Leader_next_index;
        let match_index = self.role->Leader_match_index;
        let next = next_index[peer];
        if next + sent <= u64::MAX {
            NodeView {
                role: RoleView::Leader {
                    next_index: next_index.update(peer, (next + sent) as u64),
                    match_index: match_index.update(peer, (next + sent - 1) as u64),
                },
                ..self
            }
        } else {
            self
        }
    }

    /// The leader after `peer` has refused its entries: the peer's next
    /// index goes back by one, but not below 1.
    pub open spec fn after_refusal(self, peer: int) -> NodeView {
        let next_index = self.role->Leader_next_index;
        let next = next_index[peer];
        NodeView {
            role: RoleView::Leader {
                next_index: next_index.update(
                    peer,
                    if next > 1 {
                        (next - 1) as u64
                    } else {
                        1u64
                    },
                ),
                match_index: self.role->Leader_match_index,
            },
            ..self
        }
    }

    /// The node after the answer of `peer` to a request with `sent`
    /// entries. A higher term in the answer makes the node a follower of
    /// that term. An answer that the node heeds moves the peer's indices,
    /// and after a success the commit index advances as far as it may.
    pub open spec fn after_append_response(
        self,
        peer: int,
        sent: u64,
        resp: AppendEntriesResponse,
    ) -> NodeView {
        let seen = self.observe_term(resp.term);
        if !seen.heeds(peer, resp) {
            seen
        } else if resp.success {
            seen.after_success(peer, sent).after_commit_advance()
        } else {
            seen.after_refusal(peer)
        }
    }

    /// Whether the node takes a proposal: it is leader, and its log has
    /// room for one more entry.
    pub open spec fn takes_proposal(self) -> bool {
        self.role is Leader && self.log.len() + 1 < u64::MAX
    }

    /// The node after records have been proposed to it: a leader appends
    /// an entry of its term with them, and commits what it then may.
    pub open spec fn after_proposal(self, records: Seq<Seq<u8>>) -> NodeView {
        if self.takes_proposal() {
            (NodeView {
                log: self.log.push(LogEntryView { term: self.current_term, records }),
                ..self
            }).after_commit_advance()
        } else {
            self
        }
    }
}

/// The highest committable index is the commit index or an index that may
/// be committed, and no higher index up to `from` may be.
pub proof fn lemma_highest_committable(node: NodeView, from: int)
    ensures
        ({
            let highest = node.highest_committable(from);
            &&& highest >= node.commit_index
            &&& highest == node.commit_index || (node.committable(highest) && highest <= from)
            &&& forall|n: int| highest < n <= from ==> !node.committable(n)
        }),
    decreases from,
{
    if from > node.commit_index && !node.committable(from) {
        lemma_highest_committable(node, from - 1);
    }
}

impl NodeState {
    /// Advances the commit index of a leader to the highest index that it
    /// may commit, and applies the entries that became committed to the
    /// MemTable. On any other node only the application happens.
    pub fn advance_commit(&mut self, table: &mut MemTable)
        requires
            old(self).wf(),
            old(table).wf(),
        ensures
            final(self).wf(),
            final(table).wf(),
            final(table).settings() == old(table).settings(),
            final(self)@ == old(self)@.after_commit_advance(),
            final(table)@ == old(table)@.apply_entries(
                entries_between(
                    old(self)@.log,
                    old(self)@.last_applied as int,
                    final(self)@.last_applied as int,
                ),
            ),
    {
        let len = self.persistent_state.log.len() as u64;
        let commit_index = self.volatile_member_state.commit_index;
        let current_term = self.persistent_state.current_term;
        let mut n = len;
        let mut found: Option<u64> = None;
        if let Some(leader) = &self.volatile_leader_state {
            while n > commit_index
                invariant_except_break
                    found is None,
                    self@.highest_committable(len as int) == self@.highest_committable(n as int),
                invariant
                    n <= len,
                    len == self@.log.len(),
                    commit_index == self@.commit_index,
                    current_term == self@.current_term,
                    self.volatile_leader_state == Some(*leader),
                ensures
                    match found {
                        Some(index) => index == self@.highest_committable(len as int) && index
                            > commit_index && index <= len,
                        None => self@.highest_committable(len as int) == commit_index,
                    },
                decreases n,
            {
                if self.term_at(n) == current_term {
                    let count = count_replicas(&leader.match_index, n);
                    if count >= leader.match_index.len() - count {
                        found = Some(n);
                        break;
                    }
                }
                n = n - 1;
            }
        } else {
            proof {
                lemma_not_leader_commits_nothing(self@, len as int);
            }
        }
        if let Some(index) = found {
            self.volatile_member_state.commit_index = index;
        }
        self.apply_committed(table);
    }
}

/// Whether `request` is what the model sends.
pub open spec fn request_is(
    request: Option<AppendEntriesRequest>,
    expected: Option<AppendEntriesView>,
) -> bool {
    match expected {
        Some(view) => request is Some && request->Some_0@ == view,
        None => request is None,
    }
}

impl NodeState {
    /// Builds the request that the leader `leader_id` sends to `peer`, with
    /// at most `limit` entries; a node that does not lead the peer builds
    /// none.
    pub fn append_request(&self, peer: usize, leader_id: &String, limit: usize) -> (request:
        Option<AppendEntriesRequest>)
        requires
            self.wf(),
        ensures
            request_is(request, self@.append_request(peer as int, leader_id@, limit as nat)),
    {
        let leader = match &self.volatile_leader_state {
            Some(leader) => leader,
            None => {
                return None;
            },
        };
        if peer >= leader.members_next_index.len() {
            return None;
        }
        let len = self.persistent_state.log.len();
        let next = leader.members_next_index[peer];
        let prev: usize = if next - 1 <= len as u64 {
            (next - 1) as usize
        } else {
            len
        };
        let end: usize = if limit <= len - prev {
            prev + limit
        } else {
            len
        };
        let mut entries: Vec<LogEntry> = Vec::with_capacity(end - prev);
        let mut at = prev;
        while at < end
            invariant
                prev <= at <= end <= self.persistent_state.log.len(),
                entries@.len() == at - prev,
                forall|j: int|
                    0 <= j < at - prev ==> (#[trigger] entries@[j])@
                        == self.persistent_state.log@[prev + j]@,
            decreases end - at,
        {
            entries.push(self.persistent_state.log[at].duplicate());
            at += 1;
        }
        assert(entry_views(entries@) =~= self@.log.subrange(prev as int, end as int));
        Some(
            AppendEntriesRequest {
                term: self.persistent_state.current_term,
                leader_id: leader_id.clone(),
                prev_log_index: prev as u64,
                prev_log_term: self.term_at(prev as u64),
                entries,
                leader_commit_index: self.volatile_member_state.commit_index,
            },
        )
    }

    /// Handles the answer of `peer` to a request that carried `sent`
    /// entries. `persisted` says whether the state that
    /// [`NodeState::plan_term`] planned for the answer's term has been
    /// written to stable storage.
    ///
    /// The peer's indices move on from its next index by `sent`, so the
    /// answer has to belong to the request that was built from that next
    /// index: a peer is sent one request at a time, and each answer is
    /// handed over before the next request is built.
    ///
    /// The entries that the answer lets the leader commit are applied to
    /// the MemTable. After a failed write the node and the MemTable stay as
    /// they were, and the call fails.
    pub fn append_response(
        &mut self,
        table: &mut MemTable,
        peer: usize,
        sent: u64,
        resp: &AppendEntriesResponse,
        persisted: bool,
    ) -> (result: Result<(), RaftError>)
        requires
            old(self).wf(),
            old(table).wf(),
        ensures
            final(self).wf(),
            final(table).wf(),
            final(table).settings() == old(table).settings(),
            final(self)@ == old(self)@.settle(
                old(self)@.after_append_response(peer as int, sent, *resp),
                persisted,
            ),
            final(table)@ == old(table)@.apply_entries(
                entries_between(
                    old(self)@.log,
                    old(self)@.last_applied as int,
                    final(self)@.last_applied as int,
                ),
            ),
            result is Ok <==> old(self)@.settles(
                old(self)@.after_append_response(peer as int, sent, *resp),
                persisted,
            ),
    {
        assert(entries_between(
            self@.log,
            self@.last_applied as int,
            self@.last_applied as int,
        ) =~= Seq::<LogEntryView>::empty());
        if !persisted && resp.term > self.persistent_state.current_term {
            return Err(RaftError::NotPersisted);
        }
        self.adopt_term(resp.term);
        if resp.term != self.persistent_state.current_term {
            return Ok(());
        }
        let mut succeeded = false;
        match &mut self.volatile_leader_state {
            Some(leader) => {
                if peer < leader.members_next_index.len() {
                    let next = leader.members_next_index[peer];
                    if resp.success {
                        if sent <= u64::MAX - next {
                            leader.members_next_index[peer] = next + sent;
                            leader.match_index[peer] = next + sent - 1;
                        }
                        succeeded = true;
                    } else if next > 1 {
                        leader.members_next_index[peer] = next - 1;
                    } else {
                        leader.members_next_index[peer] = 1;
                    }
                }
            },
            None => {},
        }
        if succeeded {
            self.advance_commit(table);
        }
        Ok(())
    }

    /// Whether the node takes a proposal: then the new entry has to be
    /// written to stable storage before [`NodeState::propose`] is called.
    pub fn takes_proposal(&self) -> (takes: bool)
        requires
            self.wf(),
        ensures
            takes == self@.takes_proposal(),
    {
        self.volatile_leader_state.is_some() && self.persistent_state.log.len() as u64 + 1
            < u64::MAX
    }

    /// Proposes records to the node. A leader appends an entry with them to
    /// its log, commits and applies what it then may, and returns the index
    /// of the entry; any other node returns nothing. `persisted` says
    /// whether the entry has been written to stable storage; after a failed
    /// write the node stays as it was, and the call fails.
    pub fn propose(&mut self, table: &mut MemTable, records: Vec<Bytes>, persisted: bool) -> (result:
        Result<Option<u64>, RaftError>)
        requires
            old(self).wf(),
            old(table).wf(),
        ensures
            final(self).wf(),
            final(table).wf(),
            final(table).settings() == old(table).settings(),
            final(self)@ == old(self)@.settle(
                old(self)@.after_proposal(record_views(records@)),
                persisted,
            ),
            !old(self)@.takes_proposal() ==> {
                &&& final(self)@ == old(self)@
                &&& final(table)@ == old(table)@
                &&& result == Ok::<Option<u64>, RaftError>(None)
            },
            old(self)@.takes_proposal() && !persisted ==> {
                &&& final(self)@ == old(self)@
                &&& final(table)@ == old(table)@
                &&& result == Err::<Option<u64>, RaftError>(RaftError::NotPersisted)
            },
            old(self)@.takes_proposal() && persisted ==> {
                &&& final(self)@ == old(self)@.after_proposal(record_views(records@))
                &&& final(table)@ == old(table)@.apply_entries(
                    entries_between(
                        final(self)@.log,
                        old(self)@.last_applied as int,
                        final(self)@.last_applied as int,
                    ),
                )
                &&& result == Ok::<Option<u64>, RaftError>(
                    Some((old(self)@.log.len() + 1) as u64),
                )
            },
    {
        if !self.takes_proposal() {
            return Ok(None);
        }
        if !persisted {
            return Err(RaftError::NotPersisted);
        }
        let entry = LogEntry { term: self.persistent_state.current_term, records };
        self.persistent_state.log.push(entry);
        assert(self@.log =~= old(self)@.log.push(entry@));
        let index = self.persistent_state.log.len() as u64;
        self.advance_commit(table);
        Ok(Some(index))
    }
}

/// A node that is not leader may commit nothing.
proof fn lemma_not_leader_commits_nothing(node: NodeView, from: int)
    requires
        !(node.role is Leader),
    ensures
        node.highest_committable(from) == node.commit_index,
    decreases from,
{
    if from > node.commit_index {
        lemma_not_leader_commits_nothing(node, from - 1);
    }
}

} // verus!
