//! The state of one cluster member and its mathematical view.

use bytes::Bytes;
use vstd::prelude::*;

use crate::byte_string::contents;

verus! {

/// One entry of the replicated log: the records written together, and the
/// term in which a leader appended them.
#[derive(Clone, Debug, PartialEq, Eq)]
pub struct LogEntry {
    pub term: u64,
    pub records: Vec<Bytes>,
}

pub struct LogEntryView {
    pub term: u64,
    pub records: Seq<Seq<u8>>,
}

/// The bytes of each record, in order.
pub open spec fn record_views(records: Seq<Bytes>) -> Seq<Seq<u8>> {
    records.map_values(|record: Bytes| contents(record))
}

impl View for LogEntry {
    type V = LogEntryView;

    open spec fn view(&self) -> LogEntryView {
        LogEntryView { term: self.term, records: record_views(self.records@) }
    }
}

impl LogEntry {
    /// A second entry with the same term and the same records.
    pub fn duplicate(&self) -> (copy: LogEntry)
        ensures
            copy@ == self@,
    {
        let mut records: Vec<Bytes> = Vec::with_capacity(self.records.len());
        let mut at: usize = 0;
        while at < self.records.len()
            invariant
                at <= self.records.len(),
                records@.len() == at,
                forall|j: int|
                    0 <= j < at ==> contents(#[trigger] records@[j]) == contents(self.records@[j]),
            decreases self.records.len() - at,
        {
            records.push(self.records[at].clone());
            at += 1;
        }
        assert(record_views(records@) =~= record_views(self.records@));
        LogEntry { term: self.term, records }
    }
}

/// The view of each entry, in order.
pub open spec fn entry_views(entries: Seq<LogEntry>) -> Seq<LogEntryView> {
    entries.map_values(|entry: LogEntry| entry@)
}

/// State that must survive a restart.
#[derive(Clone, Debug, PartialEq, Eq)]
pub struct PersistentState {
    /// The latest term that the node has seen; it never decreases.
    pub current_term: u64,
    /// The candidate that got this node's vote in `current_term`.
    pub voted_for: Option<String>,
    pub log: Vec<LogEntry>,
}

impl Default for PersistentState {
    fn default() -> (state: Self)
        ensures
            state.current_term == 0,
            state.voted_for is None,
            state.log@.len() == 0,
    {
        PersistentState { current_term: 0, voted_for: None, log: Vec::new() }
    }
}

/// State that every member rebuilds after a restart.
#[derive(Clone, Copy, Debug, PartialEq, Eq, Structural)]
pub struct VolatileMemberState {
    /// Highest log index known to be committed.
    pub commit_index: u64,
    /// Highest log index applied to the MemTable.
    pub last_applied: u64,
}

impl Default for VolatileMemberState {
    fn default() -> (state: Self)
        ensures
            state.commit_index == 0,
            state.last_applied == 0,
    {
        VolatileMemberState { commit_index: 0, last_applied: 0 }
    }
}

/// State that exists only while the node is leader, one slot per peer.
#[derive(Clone, Debug, PartialEq, Eq)]
pub struct VolatileLeaderState {
    /// Next log index to send to each peer.
    pub members_next_index: Vec<u64>,
    /// Highest log index known to be replicated on each peer.
    pub match_index: Vec<u64>,
}

impl Default for VolatileLeaderState {
    fn default() -> (state: Self)
        ensures
            state.members_next_index@.len() == 0,
            state.match_index@.len() == 0,
    {
        VolatileLeaderState { members_next_index: Vec::new(), match_index: Vec::new() }
    }
}

/// State that exists only while the node is a candidate: which peers have
/// granted their vote in the current term.
#[derive(Clone, Debug, PartialEq, Eq)]
pub struct VolatileCandidateState {
    pub votes_granted: Vec<bool>,
}

/// The state of one cluster member. The leader state is present exactly
/// while the node is leader, the candidate state exactly while it is a
/// candidate; with neither, the node is a follower.
#[derive(Clone, Debug, PartialEq, Eq)]
pub struct NodeState {
    pub persistent_state: PersistentState,
    pub volatile_member_state: VolatileMemberState,
    pub volatile_leader_state: Option<VolatileLeaderState>,
    pub volatile_candidate_state: Option<VolatileCandidateState>,
}

/// The three roles of the consensus state machine.
#[derive(Clone, Copy, Debug, PartialEq, Eq, Structural)]
pub enum Role {
    Follower,
    Candidate,
    Leader,
}

/// A role together with the state that belongs to it.
pub enum RoleView {
    Follower,
    Candidate { votes: Seq<bool> },
    Leader { next_index: Seq<u64>, match_index: Seq<u64> },
}

impl RoleView {
    pub open spec fn role(self) -> Role {
        match self {
            RoleView::Follower => Role::Follower,
            RoleView::Candidate { .. } => Role::Candidate,
            RoleView::Leader { .. } => Role::Leader,
        }
    }
}

/// The mathematical view of a node's state.
pub struct NodeView {
    pub current_term: u64,
    pub voted_for: Option<Seq<char>>,
    pub log: Seq<LogEntryView>,
    pub commit_index: u64,
    pub last_applied: u64,
    pub role: RoleView,
}

/// The characters of an optional node identifier.
pub open spec fn id_view(id: Option<String>) -> Option<Seq<char>> {
    match id {
        Some(name) => Some(name@),
        None => None,
    }
}

/// The term of the entry at a log index; index 0 has term 0.
pub open spec fn term_at(log: Seq<LogEntryView>, index: int) -> u64 {
    if 1 <= index <= log.len() {
        log[index - 1].term
    } else {
        0
    }
}

impl NodeView {
    /// The index of the last entry: the length of the log.
    pub open spec fn last_log_index(self) -> u64 {
        self.log.len() as u64
    }

    /// The term of the last entry, 0 for an empty log.
    pub open spec fn last_log_term(self) -> u64 {
        term_at(self.log, self.log.len() as int)
    }

    /// The state of a node that starts from nothing.
    pub open spec fn initial() -> NodeView {
        NodeView {
            current_term: 0,
            voted_for: None,
            log: Seq::empty(),
            commit_index: 0,
            last_applied: 0,
            role: RoleView::Follower,
        }
    }

    /// What the invariant of a node's state asks for.
    pub open spec fn wf(self) -> bool {
        &&& self.last_applied <= self.commit_index
        &&& self.log.len() < u64::MAX
        &&& match self.role {
            RoleView::Leader { next_index, match_index } => {
                &&& next_index.len() == match_index.len()
                &&& forall|peer: int| 0 <= peer < next_index.len() ==> next_index[peer] >= 1
            },
            _ => true,
        }
    }

    /// The node after a restart: what is persistent stays, nothing counts
    /// as committed or applied, and the node is a follower.
    pub open spec fn restarted(self) -> NodeView {
        NodeView { commit_index: 0, last_applied: 0, role: RoleView::Follower, ..self }
    }

    /// The node after it has seen `term`: a higher term is adopted, the
    /// vote cleared and the node made a follower; any other term changes
    /// nothing.
    pub open spec fn observe_term(self, term: u64) -> NodeView {
        if term > self.current_term {
            NodeView { current_term: term, voted_for: None, role: RoleView::Follower, ..self }
        } else {
            self
        }
    }
}

impl View for NodeState {
    type V = NodeView;

    open spec fn view(&self) -> NodeView {
        NodeView {
            current_term: self.persistent_state.current_term,
            voted_for: id_view(self.persistent_state.voted_for),
            log: entry_views(self.persistent_state.log@),
            commit_index: self.volatile_member_state.commit_index,
            last_applied: self.volatile_member_state.last_applied,
            role: match (self.volatile_leader_state, self.volatile_candidate_state) {
                (Some(leader), _) => RoleView::Leader {
                    next_index: leader.members_next_index@,
                    match_index: leader.match_index@,
                },
                (None, Some(candidate)) => RoleView::Candidate { votes: candidate.votes_granted@ },
                (None, None) => RoleView::Follower,
            },
        }
    }
}

impl NodeState {
    /// The invariant of a node's state: what its view asks for, and that
    /// the node is not leader and candidate at once.
    pub open spec fn wf(&self) -> bool {
        &&& self@.wf()
        &&& !(self.volatile_leader_state is Some && self.volatile_candidate_state is Some)
    }

    /// The state of a node that starts from nothing: term 0, no vote, an
    /// empty log, nothing committed, follower.
    pub fn new() -> (state: Self)
        ensures
            state.wf(),
            state@ == NodeView::initial(),
    {
        let state = NodeState {
            persistent_state: PersistentState::default(),
            volatile_member_state: VolatileMemberState::default(),
            volatile_leader_state: None,
            volatile_candidate_state: None,
        };
        assert(state@.log =~= Seq::<LogEntryView>::empty());
        state
    }

    /// The state of a node that starts again from what it had stored: term,
    /// vote and log are those of `persistent_state`, nothing counts as
    /// committed or applied, and the node is a follower. Without a log that
    /// a node can hold there is no such state.
    pub fn restart(persistent_state: PersistentState) -> (state: Option<Self>)
        ensures
            state is Some <==> persistent_state.log@.len() < u64::MAX,
            state is Some ==> {
                &&& state->Some_0.wf()
                &&& state->Some_0.persistent_state == persistent_state
                &&& state->Some_0@ == state->Some_0@.restarted()
            },
    {
        if persistent_state.log.len() as u64 == u64::MAX {
            return None;
        }
        Some(
            NodeState {
                persistent_state,
                volatile_member_state: VolatileMemberState::default(),
                volatile_leader_state: None,
                volatile_candidate_state: None,
            },
        )
    }

    /// Tests the invariant. Every function of this library keeps it; a
    /// state put together by hand may lack it.
    pub fn is_wf(&self) -> (ok: bool)
        ensures
            ok == self.wf(),
    {
        if self.volatile_member_state.last_applied > self.volatile_member_state.commit_index {
            return false;
        }
        if self.persistent_state.log.len() as u64 == u64::MAX {
            return false;
        }
        match &self.volatile_leader_state {
            Some(leader) => {
                if self.volatile_candidate_state.is_some() {
                    return false;
                }
                if leader.members_next_index.len() != leader.match_index.len() {
                    return false;
                }
                let mut peer: usize = 0;
                while peer < leader.members_next_index.len()
                    invariant
                        self.volatile_leader_state == Some(*leader),
                        peer <= leader.members_next_index.len(),
                        forall|at: int| 0 <= at < peer ==> leader.members_next_index@[at] >= 1,
                    decreases leader.members_next_index.len() - peer,
                {
                    if leader.members_next_index[peer] < 1 {
                        assert(self@.role->Leader_next_index[peer as int] < 1);
                        return false;
                    }
                    peer += 1;
                }
                true
            },
            None => true,
        }
    }

    /// The node's current role.
    pub fn role(&self) -> (role: Role)
        ensures
            role == self@.role.role(),
    {
        if self.volatile_leader_state.is_some() {
            Role::Leader
        } else if self.volatile_candidate_state.is_some() {
            Role::Candidate
        } else {
            Role::Follower
        }
    }

    /// The index of the last log entry, 0 for an empty log.
    pub fn last_log_index(&self) -> (index: u64)
        requires
            self.wf(),
        ensures
            index == self@.last_log_index(),
            index == self@.log.len(),
    {
        self.persistent_state.log.len() as u64
    }

    /// The term of the entry at `index`, 0 where the log has none.
    pub fn term_at(&self, index: u64) -> (term: u64)
        ensures
            term == term_at(self@.log, index as int),
    {
        if 1 <= index && index <= self.persistent_state.log.len() as u64 {
            self.persistent_state.log[(index - 1) as usize].term
        } else {
            0
        }
    }

    /// The term of the last log entry, 0 for an empty log.
    pub fn last_log_term(&self) -> (term: u64)
        requires
            self.wf(),
        ensures
            term == self@.last_log_term(),
    {
        self.term_at(self.persistent_state.log.len() as u64)
    }
}

} // verus!
