use interactive_raft::lists::{contains, fill, position, sort};
use interactive_raft::message::{LogEntry, LogEntryValue, Message, MessageData};
use interactive_raft::network::Network;
use interactive_raft::node::{NodeState, RaftNode};
use interactive_raft::quorum::majority_value;

fn entry(term: i32, index: i32) -> LogEntryValue {
    LogEntryValue { ent: LogEntry { term, index }, val: 100 + index }
}

fn message(from: i32, to: i32, data: MessageData) -> Message {
    Message { from, to, data }
}

#[test]
fn fresh_nodes_are_numbered() {
    let nodes = RaftNode::new(3);
    assert_eq!(nodes.len(), 3);
    for (i, node) in nodes.iter().enumerate() {
        assert_eq!(node.id, i as i32);
        assert_eq!(node.network_size, 3);
        assert_eq!(node.current_term, 0);
        assert_eq!(node.voted_for, None);
        assert_eq!(node.log, vec![LogEntryValue { ent: LogEntry { term: 0, index: 0 }, val: 0 }]);
        assert_eq!(node.commit_index, 0);
        assert_eq!(node.last_applied, 0);
        assert_eq!(node.next_index, vec![-1, -1, -1]);
        assert_eq!(node.match_index, vec![-1, -1, -1]);
        assert_eq!(node.state, NodeState::Follower);
        assert!(node.votes_received.is_empty());
        assert!(node.well_formed());
    }
}

#[test]
fn one_letter_for_each_state() {
    assert_eq!(NodeState::Follower.one_letter(), "F");
    assert_eq!(NodeState::Candidate.one_letter(), "C");
    assert_eq!(NodeState::Leader.one_letter(), "L");
}

#[test]
fn well_formed_looks_at_every_index() {
    let mut node = RaftNode::new_follower(0, 1);
    node.log.push(entry(1, 1));
    assert!(node.well_formed());
    node.log.push(entry(1, 1));
    assert!(!node.well_formed());
}

#[test]
fn entries_are_ordered_by_term_then_index() {
    let e = |term: i32, index: i32| LogEntry { term, index };
    assert!(e(2, 0) > e(1, 9));
    assert!(e(1, 2) > e(1, 1));
    assert!(e(1, 1) >= e(1, 1));
    assert!(e(0, 5) < e(1, 0));
    let mut list = vec![e(2, 1), e(1, 3), e(1, 2)];
    list.sort();
    assert_eq!(list, vec![e(1, 2), e(1, 3), e(2, 1)]);
}

#[test]
fn timeout_starts_an_election() {
    let mut node = RaftNode::new_follower(2, 5);
    node.current_term = 6;
    node.votes_received = vec![1, 3];
    assert!(node.heartbeat_timeout_cond());
    node.heartbeat_timeout();
    assert_eq!(node.state, NodeState::Candidate);
    assert_eq!(node.current_term, 7);
    assert_eq!(node.voted_for, Some(2));
    assert_eq!(node.votes_received, vec![2]);
    assert!(node.heartbeat_timeout_cond());
    node.state = NodeState::Leader;
    assert!(!node.heartbeat_timeout_cond());
}

#[test]
fn conditions_follow_the_state() {
    let mut node = RaftNode::new_follower(0, 3);
    assert!(!node.client_request_cond());
    assert!(!node.send_request_vote_cond(1));
    assert!(!node.send_append_entries_cond(1));
    node.state = NodeState::Candidate;
    assert!(node.send_request_vote_cond(1));
    assert!(!node.send_request_vote_cond(0));
    assert!(!node.send_append_entries_cond(1));
    node.state = NodeState::Leader;
    assert!(node.client_request_cond());
    assert!(node.send_append_entries_cond(2));
    assert!(!node.send_append_entries_cond(0));
    assert!(!node.send_request_vote_cond(1));
}

#[test]
fn receive_conditions_look_at_kind_and_destination() {
    let node = RaftNode::new_follower(1, 3);
    let ask = message(0, 1, MessageData::RequestVoteRequest { term: 1, cand_id: 0, last: LogEntry { term: 0, index: 0 } });
    assert!(node.recv_request_vote_request_cond(&ask));
    assert!(!node.recv_request_vote_response_cond(&ask));
    assert!(!node.recv_append_entries_request_cond(&ask));
    assert!(!node.recv_append_entries_response_cond(&ask));
    let reply = message(0, 1, MessageData::RequestVoteResponse { term: 1, granted: false });
    assert!(node.recv_request_vote_response_cond(&reply));
    assert!(!node.recv_request_vote_request_cond(&reply));
    let other = message(0, 2, MessageData::RequestVoteResponse { term: 1, granted: false });
    assert!(!node.recv_request_vote_response_cond(&other));
}

#[test]
fn becoming_leader_resets_the_indices() {
    let mut node = RaftNode::new_follower(0, 3);
    node.log.push(entry(1, 1));
    node.become_leader();
    assert_eq!(node.state, NodeState::Leader);
    assert_eq!(node.next_index, vec![2, 2, 2]);
    assert_eq!(node.match_index, vec![0, 0, 0]);
}

#[test]
fn converting_forgets_the_vote() {
    let mut node = RaftNode::new_follower(0, 3);
    node.heartbeat_timeout();
    node.convert_to_follower(5);
    assert_eq!(node.current_term, 5);
    assert_eq!(node.state, NodeState::Follower);
    assert_eq!(node.voted_for, None);
    assert!(node.votes_received.is_empty());
}

#[test]
fn client_requests_extend_the_log() {
    let mut node = RaftNode::new_follower(0, 3);
    node.state = NodeState::Leader;
    node.current_term = 3;
    node.client_request(77);
    assert_eq!(node.log[1], LogEntryValue { ent: LogEntry { term: 3, index: 1 }, val: 77 });
    assert_eq!(node.log.len(), 2);
}

#[test]
fn requests_carry_the_senders_state() {
    let mut network = Network::new();
    let mut node = RaftNode::new_follower(1, 3);
    node.log.push(entry(1, 1));
    node.log.push(entry(2, 2));
    node.current_term = 2;
    node.commit_index = 1;
    node.state = NodeState::Candidate;
    node.send_request_vote(2, &mut network);
    assert_eq!(
        network.msgs[0],
        message(1, 2, MessageData::RequestVoteRequest { term: 2, cand_id: 1, last: LogEntry { term: 2, index: 2 } })
    );
    node.state = NodeState::Leader;
    node.next_index = vec![3, 3, 2];
    assert!(node.append_is_ready(2));
    node.send_append_entries(2, &mut network);
    assert_eq!(
        network.msgs[1],
        message(1, 2, MessageData::AppendEntriesRequest {
            term: 2,
            leader_id: 1,
            prev: LogEntry { term: 1, index: 1 },
            entries: vec![entry(2, 2)],
            leader_commit: 1,
        })
    );
    assert!(node.append_is_ready(0));
    node.next_index[0] = 4;
    assert!(!node.append_is_ready(0));
    node.next_index[0] = 0;
    assert!(!node.append_is_ready(0));
    assert!(!node.append_is_ready(3));
}

#[test]
fn votes_go_to_the_first_candidate_with_a_good_log() {
    let mut network = Network::new();
    let mut node = RaftNode::new_follower(1, 3);
    node.current_term = 2;
    node.log.push(entry(1, 1));
    let ask = |from: i32, term: i32, last: LogEntry| message(from, 1, MessageData::RequestVoteRequest { term, cand_id: from, last });
    let granted = |network: &mut Network| match network.msgs.remove(0).data {
        MessageData::RequestVoteResponse { granted, .. } => granted,
        other => panic!("{:?}", other),
    };
    // a stale request
    node.recv_request_vote_request(ask(0, 1, LogEntry { term: 1, index: 1 }), &mut network);
    assert!(!granted(&mut network));
    // a shorter log
    node.recv_request_vote_request(ask(0, 2, LogEntry { term: 1, index: 0 }), &mut network);
    assert!(!granted(&mut network));
    assert_eq!(node.voted_for, None);
    node.recv_request_vote_request(ask(0, 2, LogEntry { term: 1, index: 1 }), &mut network);
    assert!(granted(&mut network));
    assert_eq!(node.voted_for, Some(0));
    node.recv_request_vote_request(ask(2, 2, LogEntry { term: 2, index: 5 }), &mut network);
    assert!(!granted(&mut network));
    node.recv_request_vote_request(ask(0, 2, LogEntry { term: 1, index: 1 }), &mut network);
    assert!(granted(&mut network));
    // a later term is only taken note of
    node.recv_request_vote_request(ask(2, 3, LogEntry { term: 2, index: 5 }), &mut network);
    assert!(network.msgs.is_empty());
    assert_eq!(node.current_term, 3);
    assert_eq!(node.voted_for, None);
}

#[test]
fn vote_responses_are_counted_in_their_term() {
    let mut node = RaftNode::new_follower(0, 3);
    node.heartbeat_timeout();
    let reply = |from: i32, term: i32, granted: bool| message(from, 0, MessageData::RequestVoteResponse { term, granted });
    node.recv_request_vote_response(reply(1, 0, true));
    assert_eq!(node.votes_received, vec![0]);
    node.recv_request_vote_response(reply(1, 1, false));
    assert_eq!(node.votes_received, vec![0]);
    assert_eq!(node.state, NodeState::Candidate);
    node.recv_request_vote_response(reply(1, 1, true));
    assert_eq!(node.votes_received, vec![0, 1]);
    assert_eq!(node.state, NodeState::Leader);
    node.recv_request_vote_response(reply(2, 2, false));
    assert_eq!(node.state, NodeState::Follower);
    assert_eq!(node.current_term, 2);
}

#[test]
fn entries_with_an_unknown_predecessor_are_refused() {
    let mut network = Network::new();
    let mut node = RaftNode::new_follower(1, 3);
    node.current_term = 2;
    let append = |term: i32, prev: LogEntry| message(0, 1, MessageData::AppendEntriesRequest {
        term,
        leader_id: 0,
        prev,
        entries: vec![],
        leader_commit: 0,
    });
    for (term, prev) in [
        (1, LogEntry { term: 0, index: 0 }),
        (2, LogEntry { term: 0, index: 1 }),
        (2, LogEntry { term: 1, index: 0 }),
        (2, LogEntry { term: 0, index: -1 }),
    ] {
        let m = append(term, prev);
        assert!(node.append_request_is_ready(&m));
        node.recv_append_entries_request(m, &mut network);
        assert_eq!(
            network.msgs.remove(0),
            message(1, 0, MessageData::AppendEntriesResponse { term: 2, success: false, last: None })
        );
    }
    node.recv_append_entries_request(append(3, LogEntry { term: 0, index: 0 }), &mut network);
    assert!(network.msgs.is_empty());
    assert_eq!(node.current_term, 3);
}

#[test]
fn append_responses_move_the_indices() {
    let mut node = RaftNode::new_follower(0, 3);
    node.state = NodeState::Leader;
    node.current_term = 1;
    node.log.push(entry(1, 1));
    node.log.push(entry(1, 2));
    node.next_index = vec![3, 3, 3];
    node.match_index = vec![0, 0, 0];
    let reply = |from: i32, success: bool, last: Option<LogEntry>| message(from, 0, MessageData::AppendEntriesResponse { term: 1, success, last });
    node.recv_append_entries_response(reply(1, false, None));
    assert_eq!(node.next_index, vec![3, 2, 3]);
    assert_eq!(node.match_index, vec![0, 0, 0]);
    node.recv_append_entries_response(reply(2, true, Some(LogEntry { term: 1, index: 2 })));
    assert_eq!(node.next_index, vec![3, 2, 3]);
    assert_eq!(node.match_index, vec![0, 0, 2]);
    assert_eq!(node.commit_index, 2);
}

#[test]
fn the_commit_index_is_what_a_majority_reached() {
    assert_eq!(majority_value(&vec![7]), 7);
    assert_eq!(majority_value(&vec![7, 3]), 3);
    assert_eq!(majority_value(&vec![9, 1, 5]), 5);
    assert_eq!(majority_value(&vec![4, 8, 2, 6]), 4);
    assert_eq!(majority_value(&vec![-1, 5, 5, -1, 0]), 0);
    let mut node = RaftNode::new_follower(2, 5);
    node.match_index = vec![0, 1, 0, 3, 2];
    for i in 1..4 {
        node.log.push(entry(1, i));
    }
    node.maybe_advance_commit_index();
    assert_eq!(node.commit_index, 2);
}

#[test]
fn replies_carry_the_term() {
    let mut network = Network::new();
    let mut node = RaftNode::new_follower(4, 5);
    node.current_term = 9;
    node.reply_request_vote(1, true, &mut network);
    node.reply_append_entries(2, false, None, &mut network);
    assert_eq!(network.msgs[0], message(4, 1, MessageData::RequestVoteResponse { term: 9, granted: true }));
    assert_eq!(
        network.msgs[1],
        message(4, 2, MessageData::AppendEntriesResponse { term: 9, success: false, last: None })
    );
}

#[test]
fn list_operations() {
    let mut v = vec![3, -1, 7, 3];
    assert_eq!(position(&v, 3), Some(0));
    assert_eq!(position(&v, 7), Some(2));
    assert_eq!(position(&v, 8), None);
    assert!(contains(&v, -1));
    assert!(!contains(&v, 0));
    sort(&mut v);
    assert_eq!(v, vec![-1, 3, 3, 7]);
    fill(&mut v, 5);
    assert_eq!(v, vec![5, 5, 5, 5]);
}
