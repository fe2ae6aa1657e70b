use bytes::Bytes;
use saloon::config::MemTableSettings;
use saloon::log::mem_table::MemTable;
use saloon::log::record::{encode_delete, encode_put};
use saloon::raft::append_entries::{AppendOutcome, LogWrite};
use saloon::raft::durability::{HardState, RaftError};
use saloon::raft::messages::{AppendEntriesRequest, AppendEntriesResponse};
use saloon::raft::state::{LogEntry, NodeState, Role, VolatileCandidateState};

fn put(term: u64, key: &[u8], value: &[u8]) -> LogEntry {
    LogEntry { term, records: vec![Bytes::from(encode_put(key, value).unwrap())] }
}

fn delete(term: u64, key: &[u8]) -> LogEntry {
    LogEntry { term, records: vec![Bytes::from(encode_delete(key).unwrap())] }
}

fn table() -> MemTable {
    MemTable::new(MemTableSettings::default())
}

fn node(term: u64, log: Vec<LogEntry>) -> NodeState {
    let mut state = NodeState::new();
    state.persistent_state.current_term = term;
    state.persistent_state.log = log;
    state
}

fn request(
    term: u64,
    prev_index: u64,
    prev_term: u64,
    entries: Vec<LogEntry>,
    commit: u64,
) -> AppendEntriesRequest {
    AppendEntriesRequest {
        term,
        leader_id: "leader".to_string(),
        prev_log_index: prev_index,
        prev_log_term: prev_term,
        entries,
        leader_commit_index: commit,
    }
}

fn reply(term: u64, success: bool, reset: bool) -> Result<AppendOutcome, RaftError> {
    Ok(AppendOutcome {
        reply: AppendEntriesResponse { term, success },
        reset_election_timer: reset,
    })
}

fn three_entries() -> Vec<LogEntry> {
    vec![put(1, b"a", b"1"), put(1, b"b", b"2"), put(2, b"c", b"3")]
}

#[test]
fn previous_index_past_the_end_is_refused() {
    let mut state = node(2, three_entries());
    let mut table = table();
    let before = state.clone();
    let result = state.append_entries(&mut table, request(2, 4, 2, vec![], 0), true);
    assert_eq!(result, reply(2, false, true));
    assert_eq!(state, before);
    let result = state.append_entries(&mut table, request(2, 7, 2, vec![put(2, b"x", b"y")], 3), true);
    assert_eq!(result, reply(2, false, true));
    assert_eq!(state, before);
}

#[test]
fn stale_leader_is_rejected() {
    let mut state = node(5, three_entries());
    let mut table = table();
    let before = state.clone();
    let result = state.append_entries(&mut table, request(4, 3, 2, vec![put(4, b"x", b"y")], 3), true);
    assert_eq!(result, reply(5, false, false));
    assert_eq!(state, before);
    assert_eq!(table.approximate_size(), 0);
}

#[test]
fn previous_term_mismatch_is_refused() {
    let mut state = node(2, three_entries());
    let mut table = table();
    let result = state.append_entries(&mut table, request(2, 3, 1, vec![], 0), true);
    assert_eq!(result, reply(2, false, true));
    assert_eq!(state.persistent_state.log, three_entries());
    let result = state.append_entries(&mut table, request(2, 0, 1, vec![], 0), true);
    assert_eq!(result, reply(2, false, true));
}

#[test]
fn entries_are_appended_to_an_empty_log() {
    let mut state = node(0, vec![]);
    let mut table = table();
    let result = state.append_entries(&mut table, request(1, 0, 0, three_entries(), 0), true);
    assert_eq!(result, reply(1, true, true));
    assert_eq!(state.persistent_state.log, three_entries());
    assert_eq!(state.persistent_state.current_term, 1);
    assert_eq!(state.volatile_member_state.commit_index, 0);
    assert_eq!(state.volatile_member_state.last_applied, 0);
    assert_eq!(table.get(b"a"), None);
}

#[test]
fn entries_are_appended_after_the_previous_entry() {
    let mut state = node(2, three_entries());
    let mut table = table();
    let result = state.append_entries(
        &mut table,
        request(2, 3, 2, vec![put(2, b"d", b"4"), put(2, b"e", b"5")], 0),
        true,
    );
    assert_eq!(result, reply(2, true, true));
    let mut expected = three_entries();
    expected.push(put(2, b"d", b"4"));
    expected.push(put(2, b"e", b"5"));
    assert_eq!(state.persistent_state.log, expected);
}

#[test]
fn conflicting_entry_truncates_the_log() {
    let mut state = node(3, three_entries());
    let mut table = table();
    let result = state.append_entries(
        &mut table,
        request(3, 1, 1, vec![put(1, b"b", b"2"), put(3, b"x", b"9")], 0),
        true,
    );
    assert_eq!(result, reply(3, true, true));
    assert_eq!(
        state.persistent_state.log,
        vec![put(1, b"a", b"1"), put(1, b"b", b"2"), put(3, b"x", b"9")]
    );
}

#[test]
fn conflict_in_the_middle_drops_everything_after_it() {
    let mut state = node(3, three_entries());
    let mut table = table();
    let result =
        state.append_entries(&mut table, request(3, 1, 1, vec![put(3, b"x", b"9")], 0), true);
    assert_eq!(result, reply(3, true, true));
    assert_eq!(state.persistent_state.log, vec![put(1, b"a", b"1"), put(3, b"x", b"9")]);
}

#[test]
fn entries_already_held_leave_a_longer_log_alone() {
    let mut state = node(2, three_entries());
    let mut table = table();
    let result = state.append_entries(
        &mut table,
        request(2, 0, 0, vec![put(1, b"a", b"1"), put(1, b"b", b"2")], 0),
        true,
    );
    assert_eq!(result, reply(2, true, true));
    assert_eq!(state.persistent_state.log, three_entries());
}

#[test]
fn commit_index_follows_the_leader_up_to_the_last_new_entry() {
    let mut state = node(2, vec![]);
    let mut table = table();
    let result = state.append_entries(&mut table, request(2, 0, 0, three_entries(), 9), true);
    assert_eq!(result, reply(2, true, true));
    assert_eq!(state.volatile_member_state.commit_index, 3);
    assert_eq!(state.volatile_member_state.last_applied, 3);

    let mut state = node(2, vec![]);
    let result = state.append_entries(&mut table, request(2, 0, 0, three_entries(), 2), true);
    assert_eq!(result, reply(2, true, true));
    assert_eq!(state.volatile_member_state.commit_index, 2);
    assert_eq!(state.volatile_member_state.last_applied, 2);
}

#[test]
fn commit_index_stops_at_the_last_entry_of_the_request() {
    let mut state = node(2, three_entries());
    let mut table = table();
    // a heartbeat that vouches for the first entry only
    let result = state.append_entries(&mut table, request(2, 1, 1, vec![], 3), true);
    assert_eq!(result, reply(2, true, true));
    assert_eq!(state.volatile_member_state.commit_index, 1);
    assert_eq!(state.volatile_member_state.last_applied, 1);
    assert_eq!(table.get(b"a"), Some(Bytes::from_static(b"1")));
    assert_eq!(table.get(b"b"), None);
}

#[test]
fn commit_index_never_goes_back() {
    let mut state = node(2, three_entries());
    let mut table = table();
    state.append_entries(&mut table, request(2, 3, 2, vec![], 3), true).unwrap();
    assert_eq!(state.volatile_member_state.commit_index, 3);
    state.append_entries(&mut table, request(2, 1, 1, vec![], 3), true).unwrap();
    assert_eq!(state.volatile_member_state.commit_index, 3);
    state.append_entries(&mut table, request(2, 3, 2, vec![], 1), true).unwrap();
    assert_eq!(state.volatile_member_state.commit_index, 3);
    assert_eq!(state.volatile_member_state.last_applied, 3);
}

#[test]
fn committed_entries_are_applied_in_log_order() {
    let mut state = node(1, vec![]);
    let mut table = table();
    let entries = vec![
        put(1, b"k", b"first"),
        put(1, b"k", b"second"),
        delete(1, b"gone"),
        put(1, b"gone", b"x"),
        delete(1, b"gone"),
        LogEntry {
            term: 1,
            records: vec![
                Bytes::from(encode_put(b"m", b"1").unwrap()),
                Bytes::from_static(b"no record"),
                Bytes::from(encode_put(b"m", b"2").unwrap()),
            ],
        },
    ];
    let result = state.append_entries(&mut table, request(1, 0, 0, entries, 6), true);
    assert_eq!(result, reply(1, true, true));
    assert_eq!(state.volatile_member_state.last_applied, 6);
    assert_eq!(table.get(b"k"), Some(Bytes::from_static(b"second")));
    assert_eq!(table.get(b"gone"), None);
    assert_eq!(table.get(b"m"), Some(Bytes::from_static(b"2")));
}

#[test]
fn duplicate_delivery_applies_nothing_twice() {
    let mut state = node(1, vec![]);
    let mut table = table();
    let entries = vec![put(1, b"a", b"1"), delete(1, b"a"), put(1, b"b", b"2")];
    let first = request(1, 0, 0, entries, 2);
    assert_eq!(state.append_entries(&mut table, first.clone(), true), reply(1, true, true));
    assert_eq!(state.volatile_member_state.last_applied, 2);
    assert_eq!(table.get(b"a"), None);
    let size = table.approximate_size();
    let after_first = state.clone();
    assert_eq!(state.append_entries(&mut table, first.clone(), true), reply(1, true, true));
    assert_eq!(state, after_first);
    assert_eq!(table.approximate_size(), size);
    assert_eq!(table.get(b"a"), None);
    assert_eq!(table.get(b"b"), None);
    // nothing has to be written for the duplicate
    assert_eq!(state.plan_append(&first), None);
    assert_eq!(state.append_entries(&mut table, first, false), reply(1, true, true));
}

#[test]
fn later_commit_applies_only_the_new_entries() {
    let mut state = node(1, vec![]);
    let mut table = table();
    let entries = vec![put(1, b"n", b"1"), put(1, b"n", b"22"), put(1, b"n", b"333")];
    state.append_entries(&mut table, request(1, 0, 0, entries, 1), true).unwrap();
    assert_eq!(table.get(b"n"), Some(Bytes::from_static(b"1")));
    state.append_entries(&mut table, request(1, 3, 1, vec![], 2), true).unwrap();
    assert_eq!(table.get(b"n"), Some(Bytes::from_static(b"22")));
    state.append_entries(&mut table, request(1, 3, 1, vec![], 3), true).unwrap();
    assert_eq!(table.get(b"n"), Some(Bytes::from_static(b"333")));
    assert_eq!(state.volatile_member_state.last_applied, 3);
}

#[test]
fn higher_term_is_adopted_by_append_entries() {
    let mut state = node(2, three_entries());
    state.persistent_state.voted_for = Some("old".to_string());
    state.volatile_candidate_state = Some(VolatileCandidateState { votes_granted: vec![false] });
    let mut table = table();
    let result = state.append_entries(&mut table, request(4, 9, 9, vec![], 0), true);
    assert_eq!(result, reply(4, false, true));
    assert_eq!(state.persistent_state.current_term, 4);
    assert_eq!(state.persistent_state.voted_for, None);
    assert_eq!(state.role(), Role::Follower);
}

#[test]
fn append_plan_names_what_to_write() {
    let state = node(2, three_entries());
    let hard = HardState { current_term: 2, voted_for: None };
    assert_eq!(
        state.plan_append(&request(2, 3, 2, vec![put(2, b"d", b"4")], 0)),
        Some(LogWrite { hard_state: hard.clone(), keep: 3, skip: 0 })
    );
    assert_eq!(
        state.plan_append(&request(
            2,
            1,
            1,
            vec![put(1, b"b", b"2"), put(3, b"x", b"9"), put(3, b"y", b"9")],
            0
        )),
        Some(LogWrite { hard_state: hard, keep: 2, skip: 1 })
    );
    assert_eq!(state.plan_append(&request(2, 3, 2, vec![], 3)), None);
    assert_eq!(state.plan_append(&request(1, 3, 2, vec![put(1, b"d", b"4")], 3)), None);
    assert_eq!(
        state.plan_append(&request(6, 3, 2, vec![], 3)),
        Some(LogWrite {
            hard_state: HardState { current_term: 6, voted_for: None },
            keep: 3,
            skip: 0
        })
    );
}

#[test]
fn nothing_changes_when_entries_cannot_be_stored() {
    let mut state = node(2, three_entries());
    let mut table = table();
    let before = state.clone();
    let result =
        state.append_entries(&mut table, request(2, 3, 2, vec![put(2, b"d", b"4")], 4), false);
    assert_eq!(result, Err(RaftError::NotPersisted));
    assert_eq!(state, before);
    assert_eq!(table.approximate_size(), 0);
    // a heartbeat changes nothing that is stored
    let result = state.append_entries(&mut table, request(2, 3, 2, vec![], 3), false);
    assert_eq!(result, reply(2, true, true));
    assert_eq!(state.volatile_member_state.commit_index, 3);
    assert_eq!(table.get(b"c"), Some(Bytes::from_static(b"3")));
}

#[test]
fn apply_committed_writes_pending_entries_once() {
    let mut state = node(2, three_entries());
    let mut table = table();
    state.volatile_member_state.commit_index = 2;
    state.apply_committed(&mut table);
    assert_eq!(state.volatile_member_state.last_applied, 2);
    assert_eq!(table.get(b"a"), Some(Bytes::from_static(b"1")));
    assert_eq!(table.get(b"b"), Some(Bytes::from_static(b"2")));
    assert_eq!(table.get(b"c"), None);
    table.put(b"a", b"changed");
    state.apply_committed(&mut table);
    assert_eq!(table.get(b"a"), Some(Bytes::from_static(b"changed")));
    // a commit index beyond the log applies what the log holds
    state.volatile_member_state.commit_index = 9;
    state.apply_committed(&mut table);
    assert_eq!(state.volatile_member_state.last_applied, 3);
    assert_eq!(table.get(b"c"), Some(Bytes::from_static(b"3")));
}

#[test]
fn request_that_nobody_should_send_replaces_what_it_conflicts_with() {
    // The handler cuts the log at the first conflict wherever that is; only a
    // leader that lacks a committed entry could send such a request.
    let mut state = node(2, three_entries());
    let mut table = table();
    state.append_entries(&mut table, request(2, 3, 2, vec![], 3), true).unwrap();
    assert_eq!(state.volatile_member_state.commit_index, 3);
    let result = state.append_entries(&mut table, request(5, 0, 0, vec![put(5, b"z", b"9")], 0), true);
    assert_eq!(result, reply(5, true, true));
    assert_eq!(state.persistent_state.log, vec![put(5, b"z", b"9")]);
    assert_eq!(state.volatile_member_state.commit_index, 3);
    assert_eq!(state.volatile_member_state.last_applied, 3);
    assert!(state.is_wf());
}

#[test]
fn well_formed_states_are_recognised() {
    let mut state = node(2, three_entries());
    assert!(state.is_wf());
    state.volatile_member_state.last_applied = 1;
    assert!(!state.is_wf());
    state.volatile_member_state.commit_index = 1;
    assert!(state.is_wf());
    state.volatile_leader_state = Some(saloon::raft::state::VolatileLeaderState {
        members_next_index: vec![1, 0],
        match_index: vec![0, 0],
    });
    assert!(!state.is_wf());
    state.volatile_leader_state = Some(saloon::raft::state::VolatileLeaderState {
        members_next_index: vec![1, 2],
        match_index: vec![0],
    });
    assert!(!state.is_wf());
    state.volatile_leader_state = Some(saloon::raft::state::VolatileLeaderState {
        members_next_index: vec![1, 2],
        match_index: vec![0, 1],
    });
    assert!(state.is_wf());
    state.volatile_candidate_state = Some(VolatileCandidateState { votes_granted: vec![] });
    assert!(!state.is_wf());
}
