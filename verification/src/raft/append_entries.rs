//! The AppendEntries handler, and the application of committed entries to
//! the MemTable.

use vstd::prelude::*;

use super::durability::{HardState, RaftError};
use super::messages::{AppendEntriesRequest, AppendEntriesResponse, AppendEntriesView};
use super::state::{entry_views, term_at, LogEntry, LogEntryView, NodeState, NodeView};
use crate::log::mem_table::{MemTable, TableView};

verus! {

/// The smaller of two numbers.
pub open spec fn lower(a: int, b: int) -> int {
    if a <= b {
        a
    } else {
        b
    }
}

/// The larger of two numbers.
pub open spec fn higher(a: int, b: int) -> int {
    if a >= b {
        a
    } else {
        b
    }
}

/// Number of entries, counted from `from`, that the log already holds: the
/// first offset at which `entries` runs past the end of the log or meets an
/// entry of another term at its index. The entries follow position `prev`.
pub open spec fn first_conflict(
    log: Seq<LogEntryView>,
    prev: int,
    entries: Seq<LogEntryView>,
    from: int,
) -> int
    decreases entries.len() - from,
{
    if 0 <= from < entries.len() && 0 <= prev + from < log.len() && log[prev + from].term
        == entries[from].term {
        first_conflict(log, prev, entries, from + 1)
    } else {
        from
    }
}

/// The log after the entries that follow index `prev` have been taken in.
/// If the log holds them all, it stays as it is. Otherwise it is cut at the
/// first entry that is missing or conflicts, and the entries from there on
/// are appended.
pub open spec fn merge(log: Seq<LogEntryView>, prev: int, entries: Seq<LogEntryView>) -> Seq<
    LogEntryView,
> {
    let held = first_conflict(log, prev, entries, 0);
    if held >= entries.len() {
        log
    } else {
        log.take(prev + held) + entries.skip(held)
    }
}

/// The entries at the indices after `from` up to `to`; none where the log
/// does not hold them all.
pub open spec fn entries_between(log: Seq<LogEntryView>, from: int, to: int) -> Seq<
    LogEntryView,
> {
    if 0 <= from <= to <= log.len() {
        log.subrange(from, to)
    } else {
        Seq::empty()
    }
}

/// What a handled request to append entries leaves behind.
#[derive(Clone, Copy, Debug, PartialEq, Eq, Structural)]
pub struct AppendOutcome {
    pub reply: AppendEntriesResponse,
    /// Set for every request that is not stale, a heartbeat too: it shows
    /// a live leader, and the election timer starts anew.
    pub reset_election_timer: bool,
}

/// What has to reach stable storage before a request to append entries is
/// answered.
#[derive(Clone, Debug, PartialEq, Eq)]
pub struct LogWrite {
    /// The term and the vote to store.
    pub hard_state: HardState,
    /// Number of entries of the stored log that stay.
    pub keep: u64,
    /// Number of the request's entries that the log already holds; the
    /// entries after them are appended.
    pub skip: u64,
}

impl TableView {
    /// The buffer after the records of a run of log entries, in log order.
    pub open spec fn apply_entries(self, entries: Seq<LogEntryView>) -> TableView
        decreases entries.len(),
    {
        if entries.len() == 0 {
            self
        } else {
            self.apply_entries(entries.drop_last()).apply_records(entries.last().records)
        }
    }
}

impl NodeView {
    /// Whether the request is not stale: it carries the node's term or a
    /// later one.
    pub open spec fn current(self, req: AppendEntriesView) -> bool {
        req.term >= self.current_term
    }

    /// Whether the node takes the entries of a request: the request is not
    /// stale, the log has an entry of the given term at the previous index,
    /// and the index of the last entry stays below the largest `u64`.
    pub open spec fn accepts(self, req: AppendEntriesView) -> bool {
        &&& self.current(req)
        &&& req.prev_log_index <= self.log.len()
        &&& term_at(self.log, req.prev_log_index as int) == req.prev_log_term
        &&& req.prev_log_index + req.entries.len() < u64::MAX
    }

    /// The commit index after an accepted request: the leader's, but not
    /// beyond the last entry of the request, and never lower than before.
    pub open spec fn commit_after(self, req: AppendEntriesView) -> u64 {
        higher(
            self.commit_index as int,
            lower(req.leader_commit_index as int, req.prev_log_index + req.entries.len()),
        ) as u64
    }

    /// The node after a request to append entries. A stale request changes
    /// nothing. Any other makes the node adopt the request's term; if the
    /// node accepts the entries, the log takes them in, the commit index
    /// follows the leader's, and every committed entry that the log holds
    /// counts as applied.
    pub open spec fn after_append_entries(self, req: AppendEntriesView) -> NodeView {
        let seen = self.observe_term(req.term);
        if self.accepts(req) {
            let log = merge(seen.log, req.prev_log_index as int, req.entries);
            let commit_index = seen.commit_after(req);
            let last_applied = higher(
                seen.last_applied as int,
                lower(commit_index as int, log.len() as int),
            ) as u64;
            NodeView { log, commit_index, last_applied, ..seen }
        } else {
            seen
        }
    }

    /// Number of the request's entries that the node does not append: those
    /// that its log holds already, or all of them if the node does not
    /// accept the request.
    pub open spec fn skipped(self, req: AppendEntriesView) -> int {
        if self.accepts(req) {
            first_conflict(self.log, req.prev_log_index as int, req.entries, 0)
        } else {
            req.entries.len() as int
        }
    }

    /// Number of entries of the log that a request leaves in place: all of
    /// them if nothing is appended, else those before the first entry that
    /// is appended.
    pub open spec fn kept(self, req: AppendEntriesView) -> int {
        if self.skipped(req) < req.entries.len() {
            req.prev_log_index + self.skipped(req)
        } else {
            self.log.len() as int
        }
    }

    /// The entries that a request makes the node apply: those of the new
    /// log after the last one applied before, up to the last one applied
    /// after.
    pub open spec fn newly_applied(self, req: AppendEntriesView) -> Seq<LogEntryView> {
        let next = self.after_append_entries(req);
        entries_between(next.log, self.last_applied as int, next.last_applied as int)
    }

    /// The reply to a request to append entries.
    pub open spec fn append_reply(self, req: AppendEntriesView) -> AppendEntriesResponse {
        AppendEntriesResponse {
            term: self.observe_term(req.term).current_term,
            success: self.accepts(req),
        }
    }
}

/// Writes the records of one log entry to the MemTable, in order.
fn apply_entry(table: &mut MemTable, entry: &LogEntry)
    requires
        old(table).wf(),
    ensures
        final(table).wf(),
        final(table)@ == old(table)@.apply_records(entry@.records),
        final(table).settings() == old(table).settings(),
{
    let ghost start = table@;
    let ghost records = entry@.records;
    let mut at: usize = 0;
    while at < entry.records.len()
        invariant
            table.wf(),
            table.settings() == old(table).settings(),
            records == entry@.records,
            at <= entry.records.len(),
            table@ == start.apply_records(records.take(at as int)),
        decreases entry.records.len() - at,
    {
        let record: &[u8] = entry.records[at].as_ref();
        table.apply_record(record);
        at += 1;
        assert(records.take(at as int).drop_last() =~= records.take(at - 1));
    }
    assert(records.take(at as int) =~= records);
}

/// Counts the request's entries that the log already holds after
/// position `prev`.
fn count_held(log: &Vec<LogEntry>, prev: usize, entries: &Vec<LogEntry>) -> (held: usize)
    requires
        prev <= log@.len(),
    ensures
        held == first_conflict(entry_views(log@), prev as int, entry_views(entries@), 0),
        held <= entries@.len(),
        prev + held <= log.len(),
{
    let ghost old_log = entry_views(log@);
    let ghost new = entry_views(entries@);
    let mut held: usize = 0;
    while held < entries.len() && held < log.len() - prev && log[prev + held].term
        == entries[held].term
        invariant
            prev + held <= log@.len(),
            held <= entries@.len(),
            old_log == entry_views(log@),
            new == entry_views(entries@),
            first_conflict(old_log, prev as int, new, 0) == first_conflict(
                old_log,
                prev as int,
                new,
                held as int,
            ),
        decreases entries@.len() - held,
    {
        held += 1;
    }
    held
}

/// Takes the entries that follow position `prev` into the log.
fn merge_entries(log: &mut Vec<LogEntry>, prev: usize, entries: Vec<LogEntry>)
    requires
        prev <= old(log)@.len(),
    ensures
        entry_views(final(log)@) == merge(
            entry_views(old(log)@),
            prev as int,
            entry_views(entries@),
        ),
{
    let ghost old_log = entry_views(log@);
    let ghost new = entry_views(entries@);
    let mut entries = entries;
    let held = count_held(log, prev, &entries);
    if held < entries.len() {
        let ghost kept = log@.take(prev + held);
        let mut tail = entries.split_off(held);
        let ghost moved = tail@;
        log.truncate(prev + held);
        log.append(&mut tail);
        assert(log@ =~= kept + moved);
        assert(entry_views(kept + moved) =~= old_log.take(prev + held) + new.skip(held as int));
    }
}

/// Where the merged log differs from the log it started from: exactly
/// where the request holds an entry that the log does not.
pub proof fn lemma_merge_changes(log: Seq<LogEntryView>, prev: int, entries: Seq<LogEntryView>)
    requires
        0 <= prev <= log.len(),
    ensures
        merge(log, prev, entries) == log <==> first_conflict(log, prev, entries, 0)
            >= entries.len(),
        merge(log, prev, entries).len() >= log.len() || merge(log, prev, entries).len() == prev
            + entries.len(),
        merge(log, prev, entries).len() <= higher(log.len() as int, prev + entries.len()),
        prev + entries.len() <= merge(log, prev, entries).len(),
{
    lemma_first_conflict(log, prev, entries, 0);
    let held = first_conflict(log, prev, entries, 0);
    if held < entries.len() {
        let merged = merge(log, prev, entries);
        if prev + held < log.len() {
            assert(merged[prev + held] == entries[held]);
        }
    }
}

/// Up to the first conflict the log holds the request's entries, term for
/// term, and at the first conflict it does not.
pub proof fn lemma_first_conflict(
    log: Seq<LogEntryView>,
    prev: int,
    entries: Seq<LogEntryView>,
    from: int,
)
    requires
        0 <= prev <= log.len(),
        0 <= from <= entries.len(),
        prev + from <= log.len(),
        forall|j: int| 0 <= j < from ==> log[prev + j].term == entries[j].term,
    ensures
        ({
            let held = first_conflict(log, prev, entries, from);
            &&& from <= held <= entries.len()
            &&& prev + held <= log.len()
            &&& forall|j: int| 0 <= j < held ==> log[prev + j].term == entries[j].term
            &&& held < entries.len() && prev + held < log.len() ==> log[prev + held].term
                != entries[held].term
        }),
    decreases entries.len() - from,
{
    if from < entries.len() && prev + from < log.len() && log[prev + from].term
        == entries[from].term {
        lemma_first_conflict(log, prev, entries, from + 1);
    }
}

impl NodeState {
    /// Whether the node takes the entries of the request.
    fn accepts(&self, req: &AppendEntriesRequest) -> (accepted: bool)
        requires
            self.wf(),
        ensures
            accepted == self@.accepts(req@),
    {
        req.term >= self.persistent_state.current_term && req.prev_log_index
            <= self.persistent_state.log.len() as u64 && self.term_at(req.prev_log_index)
            == req.prev_log_term && (req.entries.len() as u64) < u64::MAX - req.prev_log_index
    }

    /// What has to be written to stable storage before the request is
    /// answered: nothing if the request leaves term, vote and log as they
    /// are.
    pub fn plan_append(&self, req: &AppendEntriesRequest) -> (plan: Option<LogWrite>)
        requires
            self.wf(),
        ensures
            plan is Some <==> !self@.same_persistent(self@.after_append_entries(req@)),
            plan is Some ==> ({
                let write = plan->Some_0;
                let next = self@.after_append_entries(req@);
                &&& write.hard_state@ == next.hard_state()
                &&& write.keep == self@.kept(req@)
                &&& write.skip == self@.skipped(req@)
                &&& write.keep <= self@.log.len()
                &&& write.skip <= req@.entries.len()
                &&& next.log == self@.log.take(write.keep as int) + req@.entries.skip(
                    write.skip as int,
                )
            }),
    {
        let len = self.persistent_state.log.len() as u64;
        let higher_term = req.term > self.persistent_state.current_term;
        let mut keep = len;
        let mut skip = req.entries.len() as u64;
        if self.accepts(req) {
            assert(req.prev_log_index <= self.persistent_state.log.len());
            let prev = req.prev_log_index as usize;
            let held = count_held(&self.persistent_state.log, prev, &req.entries);
            proof {
                lemma_merge_changes(self@.log, prev as int, req@.entries);
            }
            if held < req.entries.len() {
                keep = (prev + held) as u64;
                skip = held as u64;
            }
        }
        assert(self@.log.take(len as int) =~= self@.log);
        assert(self@.log + req@.entries.skip(req@.entries.len() as int) =~= self@.log);
        if higher_term || skip < req.entries.len() as u64 {
            let hard_state = if higher_term {
                HardState { current_term: req.term, voted_for: None }
            } else {
                HardState {
                    current_term: self.persistent_state.current_term,
                    voted_for: self.persistent_state.voted_for.clone(),
                }
            };
            Some(LogWrite { hard_state, keep, skip })
        } else {
            None
        }
    }

    /// Handles a request to append entries. `persisted` says whether the
    /// state that [`NodeState::plan_append`] planned has been written to
    /// stable storage.
    ///
    /// Where nothing had to be written, or the write succeeded, the node
    /// takes the new state, the entries that became committed are applied
    /// to the MemTable, and the reply is returned. After a failed write the
    /// node and the MemTable stay as they were and the request fails.
    pub fn append_entries(
        &mut self,
        table: &mut MemTable,
        req: AppendEntriesRequest,
        persisted: bool,
    ) -> (result: Result<AppendOutcome, RaftError>)
        requires
            old(self).wf(),
            old(table).wf(),
        ensures
            final(self).wf(),
            final(table).wf(),
            final(table).settings() == old(table).settings(),
            final(self)@ == old(self)@.settle(old(self)@.after_append_entries(req@), persisted),
            old(self)@.settles(old(self)@.after_append_entries(req@), persisted) ==> {
                &&& result == Ok::<AppendOutcome, RaftError>(
                    AppendOutcome {
                        reply: old(self)@.append_reply(req@),
                        reset_election_timer: old(self)@.current(req@),
                    },
                )
                &&& final(table)@ == old(table)@.apply_entries(old(self)@.newly_applied(req@))
            },
            !old(self)@.settles(old(self)@.after_append_entries(req@), persisted) ==> {
                &&& result == Err::<AppendOutcome, RaftError>(RaftError::NotPersisted)
                &&& final(table)@ == old(table)@
            },
    {
        let current = req.term >= self.persistent_state.current_term;
        let accepted = self.accepts(&req);
        if !persisted {
            let plan = self.plan_append(&req);
            if plan.is_some() {
                return Err(RaftError::NotPersisted);
            }
        }
        let ghost seen = self@.observe_term(req.term);
        self.adopt_term(req.term);
        if accepted {
            assert(req.prev_log_index <= self.persistent_state.log.len());
            let prev = req.prev_log_index as usize;
            let last_new = req.prev_log_index + req.entries.len() as u64;
            let bound = if req.leader_commit_index <= last_new {
                req.leader_commit_index
            } else {
                last_new
            };
            proof {
                lemma_merge_changes(seen.log, prev as int, req@.entries);
            }
            merge_entries(&mut self.persistent_state.log, prev, req.entries);
            if bound > self.volatile_member_state.commit_index {
                self.volatile_member_state.commit_index = bound;
            }
            self.apply_committed(table);
        } else {
            assert(entries_between(seen.log, seen.last_applied as int, seen.last_applied as int)
                =~= Seq::<LogEntryView>::empty());
        }
        Ok(
            AppendOutcome {
                reply: AppendEntriesResponse {
                    term: self.persistent_state.current_term,
                    success: accepted,
                },
                reset_election_timer: current,
            },
        )
    }

    /// Writes every committed entry that the log holds and that has not
    /// been applied yet to the MemTable, in log order, each one once.
    pub fn apply_committed(&mut self, table: &mut MemTable)
        requires
            old(self).wf(),
            old(table).wf(),
        ensures
            final(self).wf(),
            final(table).wf(),
            final(table).settings() == old(table).settings(),
            final(self)@ == (NodeView {
                last_applied: higher(
                    old(self)@.last_applied as int,
                    lower(old(self)@.commit_index as int, old(self)@.log.len() as int),
                ) as u64,
                ..old(self)@
            }),
            final(table)@ == old(table)@.apply_entries(
                entries_between(
                    old(self)@.log,
                    old(self)@.last_applied as int,
                    final(self)@.last_applied as int,
                ),
            ),
    {
        let ghost log = self@.log;
        let ghost first = self@.last_applied as int;
        let ghost start = table@;
        let len = self.persistent_state.log.len() as u64;
        let commit_index = self.volatile_member_state.commit_index;
        let target = if commit_index <= len {
            commit_index
        } else {
            len
        };
        assert(entries_between(log, first, first) =~= Seq::<LogEntryView>::empty());
        while self.volatile_member_state.last_applied < target
            invariant
                self.wf(),
                table.wf(),
                table.settings() == old(table).settings(),
                target <= self.persistent_state.log.len(),
                target <= self@.commit_index,
                first <= self@.last_applied,
                first == old(self)@.last_applied,
                log == self@.log,
                log.len() == self.persistent_state.log.len(),
                self@ == (NodeView { last_applied: self@.last_applied, ..old(self)@ }),
                first < target ==> self@.last_applied <= target,
                first >= target ==> self@.last_applied == first,
                target == lower(old(self)@.commit_index as int, log.len() as int),
                table@ == start.apply_entries(
                    entries_between(log, first, self@.last_applied as int),
                ),
            decreases target - self.volatile_member_state.last_applied,
        {
            let at = self.volatile_member_state.last_applied as usize;
            apply_entry(table, &self.persistent_state.log[at]);
            self.volatile_member_state.last_applied = self.volatile_member_state.last_applied + 1;
            assert(log.subrange(first, at + 1).drop_last() =~= log.subrange(first, at as int));
        }
    }
}

} // verus!
