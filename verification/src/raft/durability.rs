//! Durability before acknowledgment: what has to reach stable storage
//! before a change of the persistent state takes effect.

use vstd::prelude::*;

use super::state::{id_view, NodeState, NodeView};

verus! {

/// Why a transition did not happen.
#[derive(Clone, Copy, Debug, PartialEq, Eq, Structural)]
pub enum RaftError {
    /// The planned state could not be written to stable storage. Nothing
    /// was changed in memory, and nothing may be acknowledged.
    NotPersisted,
}

/// The term and the vote: the persistent state apart from the log.
#[derive(Clone, Debug, PartialEq, Eq)]
pub struct HardState {
    pub current_term: u64,
    pub voted_for: Option<String>,
}

pub struct HardStateView {
    pub current_term: u64,
    pub voted_for: Option<Seq<char>>,
}

impl View for HardState {
    type V = HardStateView;

    open spec fn view(&self) -> HardStateView {
        HardStateView { current_term: self.current_term, voted_for: id_view(self.voted_for) }
    }
}

impl NodeView {
    /// The term and the vote of a node.
    pub open spec fn hard_state(self) -> HardStateView {
        HardStateView { current_term: self.current_term, voted_for: self.voted_for }
    }

    /// Whether `next` has the persistent state of `self`: then nothing
    /// needs to be written on the way from one to the other.
    pub open spec fn same_persistent(self, next: NodeView) -> bool {
        self.hard_state() == next.hard_state() && self.log == next.log
    }

    /// Where a transition from `self` to `next` ends: at `next` if the
    /// persistent state is unchanged or its write succeeded, else at `self`.
    pub open spec fn settle(self, next: NodeView, persisted: bool) -> NodeView {
        if persisted || self.same_persistent(next) {
            next
        } else {
            self
        }
    }

    /// Whether a transition from `self` to `next` takes effect.
    pub open spec fn settles(self, next: NodeView, persisted: bool) -> bool {
        persisted || self.same_persistent(next)
    }
}

impl NodeState {
    /// What has to be written before the node may adopt `term`: the new
    /// term with no vote if `term` is higher than the current one.
    pub fn plan_term(&self, term: u64) -> (plan: Option<HardState>)
        ensures
            plan is Some <==> term > self@.current_term,
            plan is Some ==> plan->Some_0@ == self@.observe_term(term).hard_state(),
    {
        if term > self.persistent_state.current_term {
            Some(HardState { current_term: term, voted_for: None })
        } else {
            None
        }
    }

    /// Adopts a higher term: the vote is cleared and the node becomes a
    /// follower.
    pub(crate) fn adopt_term(&mut self, term: u64)
        requires
            old(self).wf(),
        ensures
            final(self).wf(),
            final(self)@ == old(self)@.observe_term(term),
    {
        if term > self.persistent_state.current_term {
            self.persistent_state.current_term = term;
            self.persistent_state.voted_for = None;
            self.volatile_leader_state = None;
            self.volatile_candidate_state = None;
        }
    }
}

} // verus!
