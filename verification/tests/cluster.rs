use bytes::Bytes;
use saloon::config::MemTableSettings;
use saloon::log::mem_table::MemTable;
use saloon::log::record::encode_put;
use saloon::raft::state::{NodeState, Role};

struct Member {
    id: String,
    state: NodeState,
    table: MemTable,
}

struct Cluster {
    members: Vec<Member>,
    /// every (term, node) that was ever leader
    leaders: Vec<(u64, usize)>,
}

fn peer_node(node: usize, peer: usize) -> usize {
    if peer < node {
        peer
    } else {
        peer + 1
    }
}

impl Cluster {
    fn new(size: usize) -> Cluster {
        let members = (0..size)
            .map(|i| Member {
                id: format!("node-{}", i),
                state: NodeState::new(),
                table: MemTable::new(MemTableSettings::default()),
            })
            .collect();
        Cluster { members, leaders: Vec::new() }
    }

    fn note_leaders(&mut self) {
        for (i, member) in self.members.iter().enumerate() {
            if member.state.role() == Role::Leader {
                let term = member.state.persistent_state.current_term;
                if !self.leaders.contains(&(term, i)) {
                    self.leaders.push((term, i));
                }
            }
        }
        for (term, node) in self.leaders.iter() {
            for (other_term, other) in self.leaders.iter() {
                if term == other_term {
                    assert_eq!(node, other);
                }
            }
        }
    }

    /// `node` times out and asks every peer whose turn comes up in `reach`.
    fn campaign(&mut self, node: usize, reach: &[bool]) {
        let peers = self.members.len() - 1;
        let id = self.members[node].id.clone();
        let request = match self.members[node].state.election_timeout(&id, peers, true).unwrap() {
            Some(request) => request,
            None => return,
        };
        self.note_leaders();
        for peer in 0..peers {
            if !reach[peer % reach.len()] {
                continue;
            }
            let voter = peer_node(node, peer);
            let outcome = self.members[voter].state.request_vote(&request, true).unwrap();
            self.members[node].state.vote_response(peer, &outcome.reply, true).unwrap();
            self.note_leaders();
        }
    }

    /// `node`, if it is leader, sends each peer what it lacks.
    fn replicate(&mut self, node: usize, limit: usize) {
        let peers = self.members.len() - 1;
        let id = self.members[node].id.clone();
        for peer in 0..peers {
            let request = match self.members[node].state.append_request(peer, &id, limit) {
                Some(request) => request,
                None => return,
            };
            let sent = request.entries.len() as u64;
            let follower = peer_node(node, peer);
            let member = &mut self.members[follower];
            let outcome = member.state.append_entries(&mut member.table, request, true).unwrap();
            let member = &mut self.members[node];
            member.state.append_response(&mut member.table, peer, sent, &outcome.reply, true).unwrap();
            self.note_leaders();
        }
    }

    fn propose(&mut self, node: usize, key: &[u8], value: &[u8]) {
        let member = &mut self.members[node];
        let records = vec![Bytes::from(encode_put(key, value).unwrap())];
        member.state.propose(&mut member.table, records, true).unwrap();
    }

    fn assert_logs_match(&self) {
        for a in self.members.iter() {
            for b in self.members.iter() {
                let (la, lb) = (&a.state.persistent_state.log, &b.state.persistent_state.log);
                for i in 0..la.len().min(lb.len()) {
                    if la[i].term == lb[i].term {
                        assert_eq!(&la[..=i], &lb[..=i]);
                    }
                }
            }
        }
    }
}

/// A small deterministic generator, so that runs repeat.
struct Dice(u64);

impl Dice {
    fn roll(&mut self, sides: u64) -> u64 {
        self.0 = self.0.wrapping_mul(6364136223846793005).wrapping_add(1442695040888963407);
        (self.0 >> 33) % sides
    }
}

#[test]
fn three_nodes_elect_one_leader() {
    let mut cluster = Cluster::new(3);
    cluster.campaign(0, &[true]);
    assert_eq!(cluster.members[0].state.role(), Role::Leader);
    assert_eq!(cluster.members[1].state.role(), Role::Follower);
    assert_eq!(cluster.members[2].state.role(), Role::Follower);
    assert_eq!(cluster.leaders, vec![(1, 0)]);
}

#[test]
fn split_vote_elects_nobody() {
    let mut cluster = Cluster::new(4);
    // two candidates in term 1, each reaches one other node
    let id0 = cluster.members[0].id.clone();
    let id1 = cluster.members[1].id.clone();
    let r0 = cluster.members[0].state.election_timeout(&id0, 3, true).unwrap().unwrap();
    let r1 = cluster.members[1].state.election_timeout(&id1, 3, true).unwrap().unwrap();
    let v2 = cluster.members[2].state.request_vote(&r0, true).unwrap();
    let v3 = cluster.members[3].state.request_vote(&r1, true).unwrap();
    assert!(v2.reply.granted && v3.reply.granted);
    // each asks the other's voter too, and is refused
    let x3 = cluster.members[3].state.request_vote(&r0, true).unwrap();
    let x2 = cluster.members[2].state.request_vote(&r1, true).unwrap();
    assert!(!x3.reply.granted && !x2.reply.granted);
    cluster.members[0].state.vote_response(1, &v2.reply, true).unwrap();
    cluster.members[0].state.vote_response(2, &x3.reply, true).unwrap();
    cluster.members[1].state.vote_response(2, &v3.reply, true).unwrap();
    cluster.members[1].state.vote_response(1, &x2.reply, true).unwrap();
    assert_eq!(cluster.members[0].state.role(), Role::Candidate);
    assert_eq!(cluster.members[1].state.role(), Role::Candidate);
    cluster.note_leaders();
    assert!(cluster.leaders.is_empty());
}

#[test]
fn replication_brings_followers_up_to_date() {
    let mut cluster = Cluster::new(3);
    cluster.campaign(0, &[true]);
    cluster.propose(0, b"a", b"1");
    cluster.propose(0, b"b", b"2");
    cluster.replicate(0, 10);
    // the leader has committed both entries; followers learn of it with the next request
    assert_eq!(cluster.members[0].state.volatile_member_state.commit_index, 2);
    assert_eq!(cluster.members[0].table.get(b"b"), Some(Bytes::from_static(b"2")));
    cluster.replicate(0, 10);
    for member in cluster.members.iter() {
        assert_eq!(member.state.persistent_state.log.len(), 2);
        assert_eq!(member.state.volatile_member_state.commit_index, 2);
        assert_eq!(member.state.volatile_member_state.last_applied, 2);
        assert_eq!(member.table.get(b"a"), Some(Bytes::from_static(b"1")));
        assert_eq!(member.table.get(b"b"), Some(Bytes::from_static(b"2")));
        assert_eq!(member.table.approximate_size(), 4);
    }
    cluster.assert_logs_match();
}

#[test]
fn new_leader_overwrites_entries_that_were_not_committed() {
    let mut cluster = Cluster::new(3);
    cluster.campaign(0, &[true]);
    cluster.propose(0, b"a", b"1");
    cluster.replicate(0, 10);
    // entries that reach nobody
    cluster.propose(0, b"lost", b"x");
    cluster.propose(0, b"lost", b"y");
    // node 1 takes over in term 2 with the vote of node 2
    cluster.campaign(1, &[false, true]);
    assert_eq!(cluster.members[1].state.role(), Role::Leader);
    cluster.propose(1, b"b", b"2");
    cluster.replicate(1, 10);
    cluster.replicate(1, 10);
    assert_eq!(cluster.members[0].state.role(), Role::Follower);
    for member in cluster.members.iter() {
        let terms: Vec<u64> = member.state.persistent_state.log.iter().map(|e| e.term).collect();
        assert_eq!(terms, vec![1, 2]);
        assert_eq!(member.table.get(b"a"), Some(Bytes::from_static(b"1")));
        assert_eq!(member.table.get(b"b"), Some(Bytes::from_static(b"2")));
        assert_eq!(member.table.get(b"lost"), None);
    }
    cluster.assert_logs_match();
}

#[test]
fn random_runs_keep_one_leader_per_term_and_matching_logs() {
    for seed in 0..40u64 {
        let mut dice = Dice(seed);
        let size = 3 + (seed % 3) as usize;
        let mut cluster = Cluster::new(size);
        let mut committed: Vec<Vec<saloon::raft::state::LogEntry>> = vec![Vec::new(); size];
        for step in 0..120u64 {
            let node = dice.roll(size as u64) as usize;
            match dice.roll(4) {
                0 => {
                    let reach: Vec<bool> = (0..size).map(|_| dice.roll(3) != 0).collect();
                    cluster.campaign(node, &reach);
                }
                1 => {
                    if cluster.members[node].state.role() == Role::Leader {
                        cluster.propose(node, &[b'k', (step % 5) as u8], &step.to_be_bytes());
                    }
                }
                _ => {
                    let limit = dice.roll(3) as usize;
                    cluster.replicate(node, limit);
                }
            }
            cluster.note_leaders();
            cluster.assert_logs_match();
            for (i, member) in cluster.members.iter().enumerate() {
                let volatile = member.state.volatile_member_state;
                let log = &member.state.persistent_state.log;
                assert!(volatile.last_applied <= volatile.commit_index);
                assert!(volatile.commit_index as usize <= log.len());
                // what was committed before is still there, unchanged
                assert!(committed[i].len() <= volatile.commit_index as usize);
                assert_eq!(&log[..committed[i].len()], &committed[i][..]);
                committed[i] = log[..volatile.commit_index as usize].to_vec();
            }
        }
        // what is committed is the same everywhere
        for a in cluster.members.iter() {
            for b in cluster.members.iter() {
                let upto = a
                    .state
                    .volatile_member_state
                    .commit_index
                    .min(b.state.volatile_member_state.commit_index) as usize;
                assert_eq!(
                    &a.state.persistent_state.log[..upto],
                    &b.state.persistent_state.log[..upto]
                );
            }
        }
    }
}

#[test]
fn memtable_reflects_the_applied_log_after_random_runs() {
    for seed in 100..120u64 {
        let mut dice = Dice(seed);
        let mut cluster = Cluster::new(3);
        for step in 0..80u64 {
            let node = dice.roll(3) as usize;
            match dice.roll(3) {
                0 => cluster.campaign(node, &[dice.roll(2) == 0, true]),
                1 => {
                    if cluster.members[node].state.role() == Role::Leader {
                        cluster.propose(node, &[(step % 4) as u8], &step.to_be_bytes());
                    }
                }
                _ => cluster.replicate(node, 2),
            }
        }
        for member in cluster.members.iter() {
            let mut replay = MemTable::new(MemTableSettings::default());
            let applied = member.state.volatile_member_state.last_applied as usize;
            for entry in &member.state.persistent_state.log[..applied] {
                for record in entry.records.iter() {
                    replay.apply_record(record);
                }
            }
            for key in 0..4u8 {
                assert_eq!(member.table.get(&[key]), replay.get(&[key]));
            }
            assert_eq!(member.table.approximate_size(), replay.approximate_size());
        }
    }
}
