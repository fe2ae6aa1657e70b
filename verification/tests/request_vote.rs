use bytes::Bytes;
use saloon::raft::durability::{HardState, RaftError};
use saloon::raft::messages::{RequestVoteRequest, RequestVoteResponse};
use saloon::raft::request_votes::VoteOutcome;
use saloon::raft::state::{LogEntry, NodeState, Role, VolatileLeaderState};

fn entry(term: u64) -> LogEntry {
    LogEntry { term, records: vec![Bytes::from_static(b"r")] }
}

fn node(term: u64, voted_for: Option<&str>, log_terms: &[u64]) -> NodeState {
    let mut state = NodeState::new();
    state.persistent_state.current_term = term;
    state.persistent_state.voted_for = voted_for.map(|s| s.to_string());
    state.persistent_state.log = log_terms.iter().map(|t| entry(*t)).collect();
    state
}

fn request(term: u64, candidate: &str, last_index: u64, last_term: u64) -> RequestVoteRequest {
    RequestVoteRequest {
        term,
        candidate_id: candidate.to_string(),
        last_log_index: last_index,
        last_log_term: last_term,
    }
}

fn granted(term: u64) -> Result<VoteOutcome, RaftError> {
    Ok(VoteOutcome {
        reply: RequestVoteResponse { term, granted: true },
        reset_election_timer: true,
    })
}

fn refused(term: u64) -> Result<VoteOutcome, RaftError> {
    Ok(VoteOutcome {
        reply: RequestVoteResponse { term, granted: false },
        reset_election_timer: false,
    })
}

#[test]
fn vote_granted_then_refused_to_another_candidate() {
    let mut state = node(5, None, &[1, 2]);
    assert_eq!(state.request_vote(&request(5, "a", 2, 2), true), granted(5));
    assert_eq!(state.persistent_state.voted_for, Some("a".to_string()));
    assert_eq!(state.request_vote(&request(5, "b", 2, 2), true), refused(5));
    assert_eq!(state.persistent_state.voted_for, Some("a".to_string()));
    assert_eq!(state.persistent_state.current_term, 5);
}

#[test]
fn vote_granted_again_to_the_same_candidate() {
    let mut state = node(5, None, &[]);
    assert_eq!(state.request_vote(&request(5, "a", 0, 0), true), granted(5));
    assert_eq!(state.request_vote(&request(5, "a", 0, 0), true), granted(5));
    // nothing has to be written for the repeated vote
    assert_eq!(state.plan_vote(&request(5, "a", 0, 0)), None);
    assert_eq!(state.request_vote(&request(5, "a", 0, 0), false), granted(5));
}

#[test]
fn stale_vote_request_is_rejected() {
    let mut state = node(5, None, &[]);
    let before = state.clone();
    assert_eq!(state.request_vote(&request(4, "a", 9, 9), true), refused(5));
    assert_eq!(state, before);
    assert_eq!(state.plan_vote(&request(4, "a", 9, 9)), None);
}

#[test]
fn candidate_with_older_last_term_is_refused() {
    let mut state = node(5, None, &[1, 3]);
    assert_eq!(state.request_vote(&request(5, "a", 7, 2), true), refused(5));
    assert_eq!(state.persistent_state.voted_for, None);
}

#[test]
fn candidate_with_shorter_log_of_same_term_is_refused() {
    let mut state = node(5, None, &[1, 3, 3]);
    assert_eq!(state.request_vote(&request(5, "a", 2, 3), true), refused(5));
    assert_eq!(state.request_vote(&request(5, "a", 3, 3), true), granted(5));
}

#[test]
fn candidate_with_newer_last_term_wins_over_longer_log() {
    let mut state = node(5, None, &[1, 3, 3]);
    assert_eq!(state.request_vote(&request(5, "a", 1, 4), true), granted(5));
}

#[test]
fn higher_term_is_adopted_and_vote_cleared() {
    let mut state = node(5, Some("a"), &[1]);
    assert_eq!(state.request_vote(&request(7, "b", 1, 1), true), granted(7));
    assert_eq!(state.persistent_state.current_term, 7);
    assert_eq!(state.persistent_state.voted_for, Some("b".to_string()));
}

#[test]
fn higher_term_is_adopted_even_when_vote_is_refused() {
    let mut state = node(5, Some("a"), &[1, 5]);
    assert_eq!(state.request_vote(&request(7, "b", 1, 1), true), refused(7));
    assert_eq!(state.persistent_state.current_term, 7);
    assert_eq!(state.persistent_state.voted_for, None);
}

#[test]
fn higher_term_makes_a_leader_step_down() {
    let mut state = node(5, Some("me"), &[]);
    state.volatile_leader_state =
        Some(VolatileLeaderState { members_next_index: vec![1, 1], match_index: vec![0, 0] });
    assert_eq!(state.role(), Role::Leader);
    assert_eq!(state.request_vote(&request(6, "b", 0, 0), true), granted(6));
    assert_eq!(state.role(), Role::Follower);
    assert_eq!(state.volatile_leader_state, None);
}

#[test]
fn vote_plan_names_what_to_write() {
    let state = node(5, None, &[]);
    assert_eq!(
        state.plan_vote(&request(5, "a", 0, 0)),
        Some(HardState { current_term: 5, voted_for: Some("a".to_string()) })
    );
    assert_eq!(
        state.plan_vote(&request(8, "a", 0, 0)),
        Some(HardState { current_term: 8, voted_for: Some("a".to_string()) })
    );
    let state = node(5, Some("a"), &[2]);
    assert_eq!(state.plan_vote(&request(5, "b", 1, 2)), None);
    assert_eq!(
        state.plan_vote(&request(6, "b", 0, 0)),
        Some(HardState { current_term: 6, voted_for: None })
    );
}

#[test]
fn vote_is_not_granted_when_it_cannot_be_stored() {
    let mut state = node(5, None, &[]);
    let before = state.clone();
    assert_eq!(state.request_vote(&request(5, "a", 0, 0), false), Err(RaftError::NotPersisted));
    assert_eq!(state, before);
    assert_eq!(state.request_vote(&request(9, "a", 0, 0), false), Err(RaftError::NotPersisted));
    assert_eq!(state, before);
    // a refusal that changes nothing needs no write
    let mut voted = node(5, Some("a"), &[]);
    assert_eq!(voted.request_vote(&request(5, "b", 0, 0), false), refused(5));
}

#[test]
fn vote_survives_a_restart() {
    let mut state = node(5, None, &[1]);
    assert_eq!(state.request_vote(&request(5, "a", 1, 1), true), granted(5));
    let stored = state.persistent_state.clone();
    let mut again = NodeState::restart(stored).unwrap();
    assert_eq!(again.role(), Role::Follower);
    assert_eq!(again.volatile_member_state.commit_index, 0);
    assert_eq!(again.request_vote(&request(5, "b", 1, 1), true), refused(5));
    assert_eq!(again.request_vote(&request(5, "a", 1, 1), true), granted(5));
}

#[test]
fn new_node_starts_from_nothing() {
    let state = NodeState::new();
    assert_eq!(state.persistent_state.current_term, 0);
    assert_eq!(state.persistent_state.voted_for, None);
    assert!(state.persistent_state.log.is_empty());
    assert_eq!(state.volatile_member_state.commit_index, 0);
    assert_eq!(state.volatile_member_state.last_applied, 0);
    assert_eq!(state.role(), Role::Follower);
    assert_eq!(state.last_log_index(), 0);
    assert_eq!(state.last_log_term(), 0);
}

#[test]
fn log_terms_by_index() {
    let state = node(5, None, &[1, 3, 4]);
    assert_eq!(state.term_at(0), 0);
    assert_eq!(state.term_at(1), 1);
    assert_eq!(state.term_at(3), 4);
    assert_eq!(state.term_at(4), 0);
    assert_eq!(state.last_log_index(), 3);
    assert_eq!(state.last_log_term(), 4);
}
