use bytes::Bytes;
use saloon::config::MemTableSettings;
use saloon::log::mem_table::MemTable;
use saloon::log::record::encode_put;
use saloon::raft::durability::RaftError;
use saloon::raft::messages::{AppendEntriesRequest, AppendEntriesResponse};
use saloon::raft::state::{LogEntry, NodeState, Role, VolatileLeaderState};

fn put(term: u64, key: &[u8], value: &[u8]) -> LogEntry {
    LogEntry { term, records: vec![Bytes::from(encode_put(key, value).unwrap())] }
}

fn table() -> MemTable {
    MemTable::new(MemTableSettings::default())
}

fn log() -> Vec<LogEntry> {
    vec![put(1, b"a", b"1"), put(1, b"b", b"2"), put(3, b"c", b"3"), put(3, b"d", b"4")]
}

fn leader(term: u64, log: Vec<LogEntry>, next: Vec<u64>, matched: Vec<u64>) -> NodeState {
    let mut state = NodeState::new();
    state.persistent_state.current_term = term;
    state.persistent_state.voted_for = Some("me".to_string());
    state.persistent_state.log = log;
    state.volatile_leader_state =
        Some(VolatileLeaderState { members_next_index: next, match_index: matched });
    state
}

fn ok(term: u64) -> AppendEntriesResponse {
    AppendEntriesResponse { term, success: true }
}

fn failed(term: u64) -> AppendEntriesResponse {
    AppendEntriesResponse { term, success: false }
}

fn indices(state: &NodeState) -> (Vec<u64>, Vec<u64>) {
    let leader = state.volatile_leader_state.as_ref().unwrap();
    (leader.members_next_index.clone(), leader.match_index.clone())
}

#[test]
fn request_carries_entries_from_next_index() {
    let mut state = leader(3, log(), vec![3, 5], vec![0, 0]);
    state.volatile_member_state.commit_index = 2;
    let request = state.append_request(0, &"me".to_string(), 10);
    assert_eq!(
        request,
        Some(AppendEntriesRequest {
            term: 3,
            leader_id: "me".to_string(),
            prev_log_index: 2,
            prev_log_term: 1,
            entries: vec![put(3, b"c", b"3"), put(3, b"d", b"4")],
            leader_commit_index: 2,
        })
    );
}

#[test]
fn request_from_the_start_has_no_previous_entry() {
    let state = leader(3, log(), vec![1], vec![0]);
    let request = state.append_request(0, &"me".to_string(), 1).unwrap();
    assert_eq!(request.prev_log_index, 0);
    assert_eq!(request.prev_log_term, 0);
    assert_eq!(request.entries, vec![put(1, b"a", b"1")]);
}

#[test]
fn heartbeat_carries_no_entries() {
    let state = leader(3, log(), vec![3, 5], vec![0, 0]);
    let request = state.append_request(0, &"me".to_string(), 0).unwrap();
    assert_eq!(request.prev_log_index, 2);
    assert_eq!(request.prev_log_term, 1);
    assert!(request.entries.is_empty());
    let request = state.append_request(1, &"me".to_string(), 10).unwrap();
    assert_eq!(request.prev_log_index, 4);
    assert_eq!(request.prev_log_term, 3);
    assert!(request.entries.is_empty());
}

#[test]
fn request_for_a_next_index_past_the_log_starts_at_its_end() {
    let state = leader(3, log(), vec![9], vec![0]);
    let request = state.append_request(0, &"me".to_string(), 10).unwrap();
    assert_eq!(request.prev_log_index, 4);
    assert!(request.entries.is_empty());
}

#[test]
fn only_a_leader_builds_requests_for_its_peers() {
    let state = leader(3, log(), vec![1, 1], vec![0, 0]);
    assert_eq!(state.append_request(2, &"me".to_string(), 10), None);
    let mut follower = NodeState::new();
    follower.persistent_state.log = log();
    assert_eq!(follower.append_request(0, &"me".to_string(), 10), None);
}

#[test]
fn success_moves_the_peer_indices() {
    let mut state = leader(3, log(), vec![3, 1], vec![0, 0]);
    let mut table = table();
    assert_eq!(state.append_response(&mut table, 0, 2, &ok(3), true), Ok(()));
    assert_eq!(indices(&state), (vec![5, 1], vec![4, 0]));
}

#[test]
fn success_of_a_heartbeat_confirms_the_previous_entry() {
    let mut state = leader(3, log(), vec![3, 1], vec![0, 0]);
    let mut table = table();
    assert_eq!(state.append_response(&mut table, 0, 0, &ok(3), true), Ok(()));
    assert_eq!(indices(&state), (vec![3, 1], vec![2, 0]));
}

#[test]
fn refusal_moves_next_index_back_but_not_below_one() {
    let mut state = leader(3, log(), vec![3, 1], vec![0, 0]);
    let mut table = table();
    assert_eq!(state.append_response(&mut table, 0, 2, &failed(3), true), Ok(()));
    assert_eq!(indices(&state), (vec![2, 1], vec![0, 0]));
    assert_eq!(state.append_response(&mut table, 1, 0, &failed(3), true), Ok(()));
    assert_eq!(indices(&state), (vec![2, 1], vec![0, 0]));
}

#[test]
fn majority_commits_an_entry_of_the_current_term() {
    // five nodes: the leader and two peers hold entry 4
    let mut state = leader(3, log(), vec![5, 3, 1, 1], vec![4, 0, 0, 0]);
    let mut table = table();
    assert_eq!(state.append_response(&mut table, 1, 2, &ok(3), true), Ok(()));
    assert_eq!(indices(&state), (vec![5, 5, 1, 1], vec![4, 4, 0, 0]));
    assert_eq!(state.volatile_member_state.commit_index, 4);
    assert_eq!(state.volatile_member_state.last_applied, 4);
    assert_eq!(table.get(b"a"), Some(Bytes::from_static(b"1")));
    assert_eq!(table.get(b"d"), Some(Bytes::from_static(b"4")));
}

#[test]
fn minority_commits_nothing() {
    let mut state = leader(3, log(), vec![1, 1, 1, 1], vec![0, 0, 0, 0]);
    let mut table = table();
    assert_eq!(state.append_response(&mut table, 0, 4, &ok(3), true), Ok(()));
    assert_eq!(state.volatile_member_state.commit_index, 0);
    assert_eq!(table.approximate_size(), 0);
}

#[test]
fn entries_of_earlier_terms_are_not_committed_by_counting() {
    // entries 1 and 2 are of term 1, the leader is in term 3
    let mut state = leader(3, log(), vec![1, 1], vec![0, 0]);
    let mut table = table();
    assert_eq!(state.append_response(&mut table, 0, 2, &ok(3), true), Ok(()));
    assert_eq!(indices(&state), (vec![3, 1], vec![2, 0]));
    assert_eq!(state.volatile_member_state.commit_index, 0);
    // once an entry of term 3 is on a majority, everything before it is committed too
    assert_eq!(state.append_response(&mut table, 0, 1, &ok(3), true), Ok(()));
    assert_eq!(state.volatile_member_state.commit_index, 3);
    assert_eq!(state.volatile_member_state.last_applied, 3);
    assert_eq!(table.get(b"c"), Some(Bytes::from_static(b"3")));
    assert_eq!(table.get(b"d"), None);
}

#[test]
fn commit_index_is_the_highest_index_on_a_majority() {
    let mut state = leader(3, log(), vec![5, 4], vec![4, 3]);
    let mut table = table();
    state.advance_commit(&mut table);
    assert_eq!(state.volatile_member_state.commit_index, 4);
    let mut state = leader(3, log(), vec![4, 4, 1, 1], vec![3, 4, 0, 0]);
    state.advance_commit(&mut table);
    assert_eq!(state.volatile_member_state.commit_index, 3);
}

#[test]
fn answers_of_another_term_are_ignored() {
    let mut state = leader(3, log(), vec![3, 1], vec![0, 0]);
    let mut table = table();
    let before = state.clone();
    assert_eq!(state.append_response(&mut table, 0, 2, &ok(2), true), Ok(()));
    assert_eq!(state, before);
    assert_eq!(state.append_response(&mut table, 5, 2, &ok(3), true), Ok(()));
    assert_eq!(state, before);
}

#[test]
fn higher_term_in_an_answer_ends_leadership() {
    let mut state = leader(3, log(), vec![3, 1], vec![0, 0]);
    let mut table = table();
    let before = state.clone();
    assert_eq!(
        state.append_response(&mut table, 0, 2, &failed(4), false),
        Err(RaftError::NotPersisted)
    );
    assert_eq!(state, before);
    assert_eq!(state.append_response(&mut table, 0, 2, &failed(4), true), Ok(()));
    assert_eq!(state.role(), Role::Follower);
    assert_eq!(state.persistent_state.current_term, 4);
    assert_eq!(state.persistent_state.voted_for, None);
    assert_eq!(state.volatile_leader_state, None);
}

#[test]
fn proposal_appends_an_entry_of_the_current_term() {
    let mut state = leader(3, log(), vec![5, 5], vec![0, 0]);
    let mut table = table();
    assert!(state.takes_proposal());
    let records = vec![Bytes::from(encode_put(b"e", b"5").unwrap())];
    assert_eq!(state.propose(&mut table, records, true), Ok(Some(5)));
    assert_eq!(state.persistent_state.log.len(), 5);
    assert_eq!(state.persistent_state.log[4], put(3, b"e", b"5"));
    assert_eq!(state.volatile_member_state.commit_index, 0);
}

#[test]
fn proposal_on_a_single_node_is_committed_at_once() {
    let mut state = leader(3, vec![], vec![], vec![]);
    let mut table = table();
    let records = vec![Bytes::from(encode_put(b"e", b"5").unwrap())];
    assert_eq!(state.propose(&mut table, records, true), Ok(Some(1)));
    assert_eq!(state.volatile_member_state.commit_index, 1);
    assert_eq!(state.volatile_member_state.last_applied, 1);
    assert_eq!(table.get(b"e"), Some(Bytes::from_static(b"5")));
}

#[test]
fn proposal_needs_a_leader_and_storage() {
    let mut follower = NodeState::new();
    let mut table = table();
    assert!(!follower.takes_proposal());
    assert_eq!(follower.propose(&mut table, vec![], true), Ok(None));
    assert!(follower.persistent_state.log.is_empty());
    let mut state = leader(3, log(), vec![5], vec![0]);
    let before = state.clone();
    assert_eq!(state.propose(&mut table, vec![], false), Err(RaftError::NotPersisted));
    assert_eq!(state, before);
}

#[test]
fn log_entry_duplicate_is_equal() {
    let entry = put(3, b"k", b"v");
    assert_eq!(entry.duplicate(), entry);
    let empty = LogEntry { term: 0, records: vec![] };
    assert_eq!(empty.duplicate(), empty);
}
