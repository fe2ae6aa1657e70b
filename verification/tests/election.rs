use bytes::Bytes;
use saloon::raft::durability::{HardState, RaftError};
use saloon::raft::messages::{RequestVoteRequest, RequestVoteResponse};
use saloon::raft::state::{
    LogEntry, NodeState, Role, VolatileCandidateState, VolatileLeaderState,
};

fn entry(term: u64) -> LogEntry {
    LogEntry { term, records: vec![Bytes::from_static(b"r")] }
}

fn follower(term: u64, log_terms: &[u64]) -> NodeState {
    let mut state = NodeState::new();
    state.persistent_state.current_term = term;
    state.persistent_state.log = log_terms.iter().map(|t| entry(*t)).collect();
    state
}

fn yes(term: u64) -> RequestVoteResponse {
    RequestVoteResponse { term, granted: true }
}

fn no(term: u64) -> RequestVoteResponse {
    RequestVoteResponse { term, granted: false }
}

#[test]
fn election_timeout_starts_an_election() {
    let mut state = follower(3, &[1, 2]);
    let id = "n1".to_string();
    let request = state.election_timeout(&id, 4, true).unwrap();
    assert_eq!(
        request,
        Some(RequestVoteRequest {
            term: 4,
            candidate_id: "n1".to_string(),
            last_log_index: 2,
            last_log_term: 2
        })
    );
    assert_eq!(state.role(), Role::Candidate);
    assert_eq!(state.persistent_state.current_term, 4);
    assert_eq!(state.persistent_state.voted_for, Some("n1".to_string()));
    assert_eq!(
        state.volatile_candidate_state,
        Some(VolatileCandidateState { votes_granted: vec![false; 4] })
    );
}

#[test]
fn election_plan_names_what_to_write() {
    let state = follower(3, &[]);
    assert_eq!(
        state.plan_election(&"n1".to_string()),
        Some(HardState { current_term: 4, voted_for: Some("n1".to_string()) })
    );
    let last = follower(u64::MAX, &[]);
    assert_eq!(last.plan_election(&"n1".to_string()), None);
}

#[test]
fn election_does_not_start_when_it_cannot_be_stored() {
    let mut state = follower(3, &[]);
    let before = state.clone();
    assert_eq!(
        state.election_timeout(&"n1".to_string(), 2, false),
        Err(RaftError::NotPersisted)
    );
    assert_eq!(state, before);
}

#[test]
fn candidate_starts_a_new_election_on_timeout() {
    let mut state = follower(3, &[]);
    let id = "n1".to_string();
    state.election_timeout(&id, 2, true).unwrap();
    state.vote_response(0, &no(4), true).unwrap();
    let request = state.election_timeout(&id, 2, true).unwrap().unwrap();
    assert_eq!(request.term, 5);
    assert_eq!(state.role(), Role::Candidate);
    assert_eq!(
        state.volatile_candidate_state,
        Some(VolatileCandidateState { votes_granted: vec![false; 2] })
    );
}

#[test]
fn leader_ignores_election_timeout() {
    let mut state = follower(3, &[]);
    let id = "n1".to_string();
    state.election_timeout(&id, 0, true).unwrap();
    assert_eq!(state.role(), Role::Leader);
    let before = state.clone();
    assert_eq!(state.election_timeout(&id, 0, true), Ok(None));
    assert_eq!(state.election_timeout(&id, 0, false), Ok(None));
    assert_eq!(state, before);
}

#[test]
fn no_election_after_the_last_term() {
    let mut state = follower(u64::MAX, &[]);
    let before = state.clone();
    assert_eq!(state.election_timeout(&"n1".to_string(), 2, true), Ok(None));
    assert_eq!(state, before);
}

#[test]
fn single_node_is_leader_at_once() {
    let mut state = follower(0, &[1]);
    let request = state.election_timeout(&"n1".to_string(), 0, true).unwrap();
    assert!(request.is_some());
    assert_eq!(state.role(), Role::Leader);
    assert_eq!(state.persistent_state.current_term, 1);
    assert_eq!(
        state.volatile_leader_state,
        Some(VolatileLeaderState { members_next_index: vec![], match_index: vec![] })
    );
}

#[test]
fn majority_of_five_makes_a_leader() {
    let mut state = follower(1, &[1, 1, 1]);
    state.election_timeout(&"n1".to_string(), 4, true).unwrap();
    assert_eq!(state.vote_response(2, &yes(2), true), Ok(Role::Candidate));
    // the same peer again does not count twice
    assert_eq!(state.vote_response(2, &yes(2), true), Ok(Role::Candidate));
    assert_eq!(state.vote_response(1, &no(2), true), Ok(Role::Candidate));
    assert_eq!(state.vote_response(0, &yes(2), true), Ok(Role::Leader));
    assert_eq!(
        state.volatile_leader_state,
        Some(VolatileLeaderState { members_next_index: vec![4; 4], match_index: vec![0; 4] })
    );
    assert_eq!(state.volatile_candidate_state, None);
}

#[test]
fn half_of_the_cluster_is_no_majority() {
    // four nodes: two votes are not enough, three are
    let mut state = follower(1, &[]);
    state.election_timeout(&"n1".to_string(), 3, true).unwrap();
    assert_eq!(state.vote_response(0, &yes(2), true), Ok(Role::Candidate));
    assert_eq!(state.vote_response(1, &yes(2), true), Ok(Role::Leader));
}

#[test]
fn two_of_three_is_a_majority() {
    let mut state = follower(1, &[]);
    state.election_timeout(&"n1".to_string(), 2, true).unwrap();
    assert_eq!(state.vote_response(1, &yes(2), true), Ok(Role::Leader));
}

#[test]
fn votes_of_another_term_do_not_count() {
    let mut state = follower(1, &[]);
    state.election_timeout(&"n1".to_string(), 2, true).unwrap();
    assert_eq!(state.vote_response(0, &yes(1), true), Ok(Role::Candidate));
    assert_eq!(
        state.volatile_candidate_state,
        Some(VolatileCandidateState { votes_granted: vec![false, false] })
    );
}

#[test]
fn votes_of_unknown_peers_do_not_count() {
    let mut state = follower(1, &[]);
    state.election_timeout(&"n1".to_string(), 2, true).unwrap();
    assert_eq!(state.vote_response(2, &yes(2), true), Ok(Role::Candidate));
    assert_eq!(state.vote_response(usize::MAX, &yes(2), true), Ok(Role::Candidate));
}

#[test]
fn higher_term_in_an_answer_makes_a_follower() {
    let mut state = follower(1, &[]);
    state.election_timeout(&"n1".to_string(), 2, true).unwrap();
    assert_eq!(state.vote_response(0, &no(7), true), Ok(Role::Follower));
    assert_eq!(state.persistent_state.current_term, 7);
    assert_eq!(state.persistent_state.voted_for, None);
    assert_eq!(state.volatile_candidate_state, None);
}

#[test]
fn higher_term_in_an_answer_is_not_adopted_unstored() {
    let mut state = follower(1, &[]);
    state.election_timeout(&"n1".to_string(), 2, true).unwrap();
    let before = state.clone();
    assert_eq!(state.vote_response(0, &no(7), false), Err(RaftError::NotPersisted));
    assert_eq!(state, before);
    assert_eq!(state.plan_term(7), Some(HardState { current_term: 7, voted_for: None }));
    assert_eq!(state.plan_term(2), None);
    // a vote changes nothing that is stored
    assert_eq!(state.vote_response(0, &yes(2), false), Ok(Role::Leader));
}

#[test]
fn follower_ignores_votes() {
    let mut state = follower(2, &[]);
    let before = state.clone();
    assert_eq!(state.vote_response(0, &yes(2), true), Ok(Role::Follower));
    assert_eq!(state, before);
}
