//! What holds of a node's log and of the MemTable behind it: accepted
//! entries keep logs matching, committed entries stay, and every committed
//! entry is applied once, in log order.

use vstd::prelude::*;

use super::append_entries::{
    entries_between, first_conflict, lemma_first_conflict, lemma_merge_changes, lower, merge,
};
use super::messages::AppendEntriesView;
use super::replication::lemma_highest_committable;
use super::safety::{Event, Input};
use super::state::{term_at, LogEntryView, NodeView};
use crate::log::mem_table::TableView;

verus! {

/// Whether both logs have an entry at position `at`, of the same term.
pub open spec fn same_term_at(a: Seq<LogEntryView>, b: Seq<LogEntryView>, at: int) -> bool {
    0 <= at < a.len() && at < b.len() && a[at].term == b[at].term
}

/// Whether the logs hold the same entries at every position up to `at`.
pub open spec fn agree_through(a: Seq<LogEntryView>, b: Seq<LogEntryView>, at: int) -> bool {
    forall|j: int| 0 <= j <= at ==> a[j] == b[j]
}

/// Log matching: wherever two logs hold an entry of the same term at the
/// same index, they hold the same entries up to and including that index.
pub open spec fn log_matching(a: Seq<LogEntryView>, b: Seq<LogEntryView>) -> bool {
    forall|at: int| #[trigger] same_term_at(a, b, at) ==> agree_through(a, b, at)
}

/// Whether a request carries entries of the log `source`: the entries
/// that follow the previous index there, and the term that the entry at
/// the previous index has there.
pub open spec fn drawn_from(req: AppendEntriesView, source: Seq<LogEntryView>) -> bool {
    &&& req.prev_log_index + req.entries.len() <= source.len()
    &&& req.prev_log_term == term_at(source, req.prev_log_index as int)
    &&& req.entries == source.subrange(
        req.prev_log_index as int,
        req.prev_log_index + req.entries.len(),
    )
}

/// A log that holds an entry of each given term at its place holds them
/// all: no conflict is found.
pub proof fn lemma_no_conflict(
    log: Seq<LogEntryView>,
    prev: int,
    entries: Seq<LogEntryView>,
    from: int,
)
    requires
        0 <= prev,
        0 <= from <= entries.len(),
        prev + entries.len() <= log.len(),
        forall|j: int| from <= j < entries.len() ==> log[prev + j].term == entries[j].term,
    ensures
        first_conflict(log, prev, entries, from) == entries.len(),
    decreases entries.len() - from,
{
    if from < entries.len() {
        lemma_no_conflict(log, prev, entries, from + 1);
    }
}

/// Log matching is kept by the AppendEntries handler. Let a node's log
/// match the log `source`, and let a request carry entries of `source`.
/// Then the node's log after the request still matches `source`; it
/// matches every log that matched both before; and if the node accepted
/// the request, its log agrees with `source` up to the request's last
/// entry.
pub proof fn lemma_append_entries_keeps_log_matching(
    node: NodeView,
    req: AppendEntriesView,
    source: Seq<LogEntryView>,
    other: Seq<LogEntryView>,
)
    requires
        node.wf(),
        drawn_from(req, source),
        log_matching(node.log, source),
        log_matching(other, source),
        log_matching(other, node.log),
    ensures
        log_matching(node.after_append_entries(req).log, source),
        log_matching(other, node.after_append_entries(req).log),
        node.accepts(req) ==> node.after_append_entries(req).log.take(
            req.prev_log_index + req.entries.len(),
        ) == source.take(req.prev_log_index + req.entries.len()),
        node.accepts(req) ==> {
            ||| node.after_append_entries(req).log == node.log
            ||| node.after_append_entries(req).log == source.take(
                req.prev_log_index + req.entries.len(),
            )
        },
{
    if node.accepts(req) {
        let log = node.log;
        let prev = req.prev_log_index as int;
        let entries = req.entries;
        let last = prev + entries.len();
        let held = first_conflict(log, prev, entries, 0);
        let next = node.after_append_entries(req).log;
        lemma_first_conflict(log, prev, entries, 0);
        assert(next == merge(log, prev, entries));
        // Up to the previous index the two logs are the same.
        assert forall|j: int| 0 <= j < prev implies log[j] == source[j] by {
            assert(same_term_at(log, source, prev - 1));
        }
        // Every entry that the log holds is the one that the request carries.
        assert forall|j: int| 0 <= j < entries.len() implies entries[j] == source[prev + j] by {
            assert(source.subrange(prev, last)[j] == source[prev + j]);
        }
        assert forall|j: int| 0 <= j < held implies log[prev + j] == entries[j] by {
            assert(entries[j] == source[prev + j]);
            assert(same_term_at(log, source, prev + j));
        }
        assert forall|j: int| 0 <= j < prev + held implies log[j] == source[j] by {
            if j >= prev {
                assert(log[prev + (j - prev)] == entries[j - prev]);
            }
        }
        if held >= entries.len() {
            assert(next == log);
            assert(next.take(last) =~= source.take(last));
        } else {
            assert forall|j: int| 0 <= j < last implies next[j] == source[j] by {
                if j >= prev + held {
                    assert(next[j] == entries.skip(held)[j - prev - held]);
                    assert(entries[j - prev] == source[prev + (j - prev)]);
                }
            }
            assert(next =~= source.take(last));
            assert forall|at: int| #[trigger] same_term_at(next, source, at) implies agree_through(
                next,
                source,
                at,
            ) by {}
            assert forall|at: int| #[trigger] same_term_at(other, next, at) implies agree_through(
                other,
                next,
                at,
            ) by {
                assert(same_term_at(other, source, at));
            }
        }
    }
}

impl NodeView {
    /// Number of entries that are committed: those up to the commit index
    /// that the log holds.
    pub open spec fn committed_len(self) -> int {
        lower(self.commit_index as int, self.log.len() as int)
    }

    /// The committed entries.
    pub open spec fn committed(self) -> Seq<LogEntryView> {
        self.log.take(self.committed_len())
    }

    /// Whether a request makes the node replace a committed entry: the
    /// node accepts it, and the first entry of the request that the log
    /// does not hold has the index of a committed entry.
    pub open spec fn overwrites_committed(self, req: AppendEntriesView) -> bool {
        let held = first_conflict(self.log, req.prev_log_index as int, req.entries, 0);
        &&& self.accepts(req)
        &&& held < req.entries.len()
        &&& req.prev_log_index + held < self.committed_len()
    }

    /// Whether an event leaves the committed entries alone, and the node
    /// running. A request to append entries that conflicts with a
    /// committed entry does not; a leader whose log holds every committed
    /// entry sends none. A restart does not: the node forgets what was
    /// committed.
    pub open spec fn spared_by(self, event: Event) -> bool {
        match event.input {
            Input::AppendEntries { append: req } => !self.overwrites_committed(req),
            Input::Restart => false,
            _ => true,
        }
    }

    /// Whether every event of a run leaves the entries alone that are
    /// committed when it happens.
    pub open spec fn spared_by_all(self, events: Seq<Event>) -> bool
        decreases events.len(),
    {
        events.len() > 0 ==> {
            &&& self.spared_by_all(events.drop_last())
            &&& self.run(events.drop_last()).spared_by(events.last())
        }
    }

    /// The entries that an event makes the node apply: those of the log
    /// after the event, from the one after the last applied before up to
    /// the last applied after.
    pub open spec fn applied_by(self, event: Event) -> Seq<LogEntryView> {
        entries_between(
            self.step(event).log,
            self.last_applied as int,
            self.step(event).last_applied as int,
        )
    }
}

/// An event that spares the committed entries changes the log only after
/// them.
pub proof fn lemma_step_keeps_committed(node: NodeView, event: Event)
    requires
        node.wf(),
        node.spared_by(event),
    ensures
        node.step(event).committed_len() >= node.committed_len(),
        node.step(event).log.take(node.committed_len()) == node.committed(),
{
    let next = node.step(event);
    match event.input {
        Input::AppendEntries { append: req } => {
            if node.accepts(req) {
                let prev = req.prev_log_index as int;
                lemma_merge_changes(node.log, prev, req.entries);
                lemma_first_conflict(node.log, prev, req.entries, 0);
                assert(next.log.take(node.committed_len()) =~= node.committed());
            }
        },
        Input::AppendResponse { peer, sent, resp } => {
            let seen = node.observe_term(resp.term);
            if seen.heeds(peer, resp) && resp.success {
                lemma_highest_committable(
                    seen.after_success(peer, sent),
                    seen.log.len() as int,
                );
            }
        },
        Input::Proposal { records } => {
            if node.takes_proposal() {
                let grown = NodeView {
                    log: node.log.push(LogEntryView { term: node.current_term, records }),
                    ..node
                };
                lemma_highest_committable(grown, grown.log.len() as int);
                assert(grown.log.take(node.committed_len()) =~= node.committed());
            }
        },
        Input::CommitAdvance => {
            lemma_highest_committable(node, node.log.len() as int);
        },
        _ => {},
    }
}

/// Commit safety: once the commit index has passed an entry, the entry is
/// never replaced. Through any run of events that spare the committed
/// entries, the entries committed at the start stay in the log, at their
/// places, as they were.
pub proof fn lemma_committed_entries_stay(node: NodeView, events: Seq<Event>)
    requires
        node.wf(),
        node.spared_by_all(events),
    ensures
        node.run(events).wf(),
        node.run(events).committed_len() >= node.committed_len(),
        node.run(events).log.take(node.committed_len()) == node.committed(),
    decreases events.len(),
{
    if events.len() == 0 {
    } else {
        let before = node.run(events.drop_last());
        lemma_committed_entries_stay(node, events.drop_last());
        super::safety::lemma_step_forward(before, events.last());
        lemma_step_keeps_committed(before, events.last());
        let after = before.step(events.last());
        assert(after.log.take(node.committed_len()) =~= before.log.take(
            before.committed_len(),
        ).take(node.committed_len()));
        assert(before.log.take(node.committed_len()) =~= before.log.take(
            before.committed_len(),
        ).take(node.committed_len()));
    }
}

/// Applying one run of entries after another is applying them all.
pub proof fn lemma_apply_entries_concat(
    table: TableView,
    first: Seq<LogEntryView>,
    second: Seq<LogEntryView>,
)
    ensures
        table.apply_entries(first + second) == table.apply_entries(first).apply_entries(second),
    decreases second.len(),
{
    if second.len() == 0 {
        assert(first + second =~= first);
    } else {
        lemma_apply_entries_concat(table, first, second.drop_last());
        assert((first + second).drop_last() =~= first + second.drop_last());
    }
}

/// Whether the MemTable holds exactly what the applied part of the log
/// says: the result of applying the entries up to the last applied index
/// to an empty MemTable, each entry once, in log order.
pub open spec fn reflects(table: TableView, node: NodeView) -> bool {
    &&& node.last_applied <= node.log.len()
    &&& table == TableView::empty().apply_entries(node.log.take(node.last_applied as int))
}

/// Apply once: every committed entry is applied to the MemTable exactly
/// once, in ascending order of the indices. If the MemTable reflects the
/// applied part of the log before an event that spares the committed
/// entries, then after the event, with the entries applied that the event
/// makes the node apply, it reflects the applied part of the new log.
pub proof fn lemma_apply_once(table: TableView, node: NodeView, event: Event)
    requires
        node.wf(),
        reflects(table, node),
        node.spared_by(event),
    ensures
        reflects(table.apply_entries(node.applied_by(event)), node.step(event)),
{
    let next = node.step(event);
    super::safety::lemma_step_forward(node, event);
    lemma_step_keeps_committed(node, event);
    lemma_step_applies_held(node, event);
    let done = node.log.take(node.last_applied as int);
    assert(next.log.take(node.last_applied as int) =~= next.log.take(node.committed_len()).take(
        node.last_applied as int,
    ));
    assert(done =~= node.log.take(node.committed_len()).take(node.last_applied as int));
    lemma_apply_entries_concat(TableView::empty(), done, node.applied_by(event));
    assert(next.log.take(next.last_applied as int) =~= done + node.applied_by(event));
}

/// After an event, a node whose applied entries were in its log has
/// applied only entries that are in its log.
proof fn lemma_step_applies_held(node: NodeView, event: Event)
    requires
        node.wf(),
        node.last_applied <= node.log.len(),
        node.spared_by(event),
    ensures
        node.step(event).last_applied <= node.step(event).log.len(),
{
    lemma_step_keeps_committed(node, event);
    match event.input {
        Input::AppendEntries { append: req } => {
            if node.accepts(req) {
                lemma_merge_changes(node.log, req.prev_log_index as int, req.entries);
            }
        },
        Input::AppendResponse { peer, sent, resp } => {
            let seen = node.observe_term(resp.term);
            if seen.heeds(peer, resp) && resp.success {
                lemma_highest_committable(
                    seen.after_success(peer, sent),
                    seen.log.len() as int,
                );
            }
        },
        Input::Proposal { records } => {
            if node.takes_proposal() {
                let grown = NodeView {
                    log: node.log.push(LogEntryView { term: node.current_term, records }),
                    ..node
                };
                lemma_highest_committable(grown, grown.log.len() as int);
            }
        },
        Input::CommitAdvance => {
            lemma_highest_committable(node, node.log.len() as int);
        },
        _ => {},
    }
}

/// A request to append entries that is delivered a second time changes
/// nothing: the node stays as the first delivery left it, and no entry is
/// applied again.
pub proof fn lemma_duplicate_append_entries(node: NodeView, req: AppendEntriesView)
    requires
        node.wf(),
    ensures
        node.after_append_entries(req).after_append_entries(req) == node.after_append_entries(
            req,
        ),
        node.after_append_entries(req).newly_applied(req).len() == 0,
{
    let once = node.after_append_entries(req);
    if node.accepts(req) {
        let prev = req.prev_log_index as int;
        lemma_first_conflict(node.log, prev, req.entries, 0);
        lemma_merge_changes(node.log, prev, req.entries);
        let held = first_conflict(node.log, prev, req.entries, 0);
        assert forall|j: int| 0 <= j < req.entries.len() implies once.log[prev + j].term
            == req.entries[j].term by {
            if j < held {
                assert(once.log[prev + j] == node.log[prev + j]);
            }
        }
        lemma_no_conflict(once.log, prev, req.entries, 0);
        assert(term_at(once.log, prev) == term_at(node.log, prev));
        assert(once.accepts(req));
    }
}

} // verus!
