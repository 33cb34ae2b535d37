use interactive_raft::message::{LogEntry, LogEntryValue, Message, MessageData};
use interactive_raft::node::NodeState;
use interactive_raft::step::WorldStep;
use interactive_raft::world::World;

/// Takes a step that must be among the candidates.
fn take(world: &mut World, step: WorldStep) {
    let cands = world.begin_step();
    let mut sorted = cands.clone();
    sorted.sort();
    assert_eq!(sorted, cands);
    assert!(cands.contains(&step), "{:?} is not among {:?}", step, cands);
    assert!(world.is_ready(&step));
    world.execute_step(&step);
}

/// Receives the oldest message from one node to another.
fn deliver(world: &mut World, from: i32, to: i32) {
    let k = world
        .network
        .peek_idx(|m: &Message| m.from == from && m.to == to)
        .unwrap();
    let step = match world.network.msgs[k].data {
        MessageData::RequestVoteRequest { .. } => WorldStep::RecvRequestVoteRequest { id: to, msg_idx: k },
        MessageData::RequestVoteResponse { .. } => WorldStep::RecvRequestVoteResponse { id: to, msg_idx: k },
        MessageData::AppendEntriesRequest { .. } => WorldStep::RecvAppendEntriesRequest { id: to, msg_idx: k },
        MessageData::AppendEntriesResponse { .. } => WorldStep::RecvAppendEntriesResponse { id: to, msg_idx: k },
    };
    take(world, step);
}

/// Brings `voter` into the candidate's term, then has it vote.
fn vote(world: &mut World, candidate: i32, voter: i32) {
    let term = world.nodes[candidate as usize].current_term;
    while world.nodes[voter as usize].current_term < term {
        take(world, WorldStep::SendRequestVote { id: candidate, dest: voter });
        deliver(world, candidate, voter);
    }
    take(world, WorldStep::SendRequestVote { id: candidate, dest: voter });
    deliver(world, candidate, voter);
    deliver(world, voter, candidate);
}

/// Sends entries until the follower has taken them.
fn replicate(world: &mut World, leader: i32, follower: i32) {
    loop {
        take(world, WorldStep::SendAppendEntries { id: leader, dest: follower });
        deliver(world, leader, follower);
        deliver(world, follower, leader);
        let len = world.nodes[leader as usize].log.len();
        if world.nodes[leader as usize].next_index[follower as usize] == len as i32
            && world.nodes[follower as usize].log == world.nodes[leader as usize].log
        {
            return;
        }
    }
}

fn leaders(world: &World) -> Vec<i32> {
    let mut ids = vec![];
    for node in &world.nodes {
        if node.state == NodeState::Leader {
            ids.push(node.id);
        }
    }
    ids
}

fn terms(world: &World, id: usize) -> Vec<i32> {
    world.nodes[id].log.iter().map(|e| e.ent.term).collect()
}

#[test]
fn a_new_world_can_crash_or_time_out() {
    let world = World::new(2);
    assert_eq!(world.nodes.len(), 2);
    assert_eq!(world.n_steps, 0);
    assert_eq!(world.n_nodes, 2);
    assert!(world.crashed.is_empty());
    assert!(world.network.msgs.is_empty());
    assert_eq!(
        world.candidate_steps(),
        vec![
            WorldStep::Crash { id: 0 },
            WorldStep::Crash { id: 1 },
            WorldStep::HeartBeatTimeout { id: 0 },
            WorldStep::HeartBeatTimeout { id: 1 },
        ]
    );
}

#[test]
fn an_empty_world_has_no_steps() {
    assert!(World::new(0).candidate_steps().is_empty());
}

#[test]
fn candidates_of_candidates_and_leaders() {
    let mut world = World::new(3);
    take(&mut world, WorldStep::HeartBeatTimeout { id: 1 });
    take(&mut world, WorldStep::SendRequestVote { id: 1, dest: 0 });
    assert_eq!(
        world.candidate_steps(),
        vec![
            WorldStep::Crash { id: 0 },
            WorldStep::Crash { id: 1 },
            WorldStep::Crash { id: 2 },
            WorldStep::HeartBeatTimeout { id: 0 },
            WorldStep::HeartBeatTimeout { id: 1 },
            WorldStep::HeartBeatTimeout { id: 2 },
            WorldStep::SendRequestVote { id: 1, dest: 0 },
            WorldStep::SendRequestVote { id: 1, dest: 2 },
            WorldStep::RecvRequestVoteRequest { id: 0, msg_idx: 0 },
        ]
    );
    deliver(&mut world, 1, 0);
    vote(&mut world, 1, 0);
    assert_eq!(leaders(&world), vec![1]);
    take(&mut world, WorldStep::Crash { id: 0 });
    world.n_steps = 40;
    assert_eq!(
        world.candidate_steps(),
        vec![
            WorldStep::Crash { id: 1 },
            WorldStep::Crash { id: 2 },
            WorldStep::Restart { id: 0 },
            WorldStep::HeartBeatTimeout { id: 2 },
            WorldStep::ClientRequest { id: 1, value: 40 },
            WorldStep::SendAppendEntries { id: 1, dest: 0 },
            WorldStep::SendAppendEntries { id: 1, dest: 2 },
        ]
    );
}

#[test]
fn crashed_nodes_take_no_step_but_a_restart() {
    let mut world = World::new(3);
    take(&mut world, WorldStep::HeartBeatTimeout { id: 0 });
    take(&mut world, WorldStep::SendRequestVote { id: 0, dest: 1 });
    take(&mut world, WorldStep::Crash { id: 0 });
    take(&mut world, WorldStep::Crash { id: 1 });
    for step in world.candidate_steps() {
        match step {
            WorldStep::Restart { id } => assert!(id == 0 || id == 1),
            WorldStep::Crash { id } => assert_eq!(id, 2),
            WorldStep::HeartBeatTimeout { id } => assert_eq!(id, 2),
            other => panic!("{:?}", other),
        }
    }
    take(&mut world, WorldStep::Restart { id: 1 });
    assert_eq!(world.crashed, vec![0]);
    assert!(world
        .candidate_steps()
        .contains(&WorldStep::RecvRequestVoteRequest { id: 1, msg_idx: 0 }));
}

#[test]
fn a_restart_keeps_term_vote_and_log() {
    let mut world = World::new(3);
    take(&mut world, WorldStep::HeartBeatTimeout { id: 0 });
    vote(&mut world, 0, 1);
    let value = world_value(&world);
    take(&mut world, WorldStep::ClientRequest { id: 0, value });
    let log = world.nodes[0].log.clone();
    assert_eq!(world.nodes[0].next_index, vec![1, 1, 1]);
    assert_eq!(world.nodes[0].match_index, vec![0, 0, 0]);
    take(&mut world, WorldStep::Crash { id: 0 });
    take(&mut world, WorldStep::Restart { id: 0 });
    let node = &world.nodes[0];
    assert_eq!(node.current_term, 1);
    assert_eq!(node.voted_for, Some(0));
    assert_eq!(node.log, log);
    assert_eq!(node.state, NodeState::Follower);
    assert_eq!(node.next_index, vec![-1, -1, -1]);
    assert_eq!(node.match_index, vec![-1, -1, -1]);
    assert_eq!(node.commit_index, 0);
    assert!(node.votes_received.is_empty());
    assert!(world.crashed.is_empty());
}

/// The value of a client's request is the number of the step.
fn world_value(world: &World) -> i32 {
    world.n_steps as i32 + 1
}

#[test]
fn a_majority_elects_one_leader() {
    let mut world = World::new(5);
    take(&mut world, WorldStep::HeartBeatTimeout { id: 0 });
    take(&mut world, WorldStep::HeartBeatTimeout { id: 4 });
    vote(&mut world, 0, 1);
    assert!(leaders(&world).is_empty());
    vote(&mut world, 4, 1);
    assert_eq!(world.nodes[4].votes_received, vec![4]);
    assert_eq!(world.nodes[1].voted_for, Some(0));
    vote(&mut world, 4, 3);
    vote(&mut world, 0, 2);
    assert_eq!(leaders(&world), vec![0]);
    assert_eq!(world.nodes[0].votes_received, vec![0, 1, 2]);
    vote(&mut world, 4, 2);
    assert_eq!(leaders(&world), vec![0]);
}

#[test]
fn a_vote_counts_once() {
    let mut world = World::new(5);
    take(&mut world, WorldStep::HeartBeatTimeout { id: 0 });
    vote(&mut world, 0, 1);
    vote(&mut world, 0, 1);
    vote(&mut world, 0, 1);
    assert_eq!(world.nodes[0].votes_received, vec![0, 1]);
    assert_eq!(world.nodes[0].state, NodeState::Candidate);
}

#[test]
fn logs_with_the_same_term_at_an_index_agree() {
    let mut world = World::new(3);
    take(&mut world, WorldStep::HeartBeatTimeout { id: 0 });
    vote(&mut world, 0, 1);
    for _ in 0..3 {
        let value = world_value(&world);
        take(&mut world, WorldStep::ClientRequest { id: 0, value });
    }
    replicate(&mut world, 0, 1);
    take(&mut world, WorldStep::HeartBeatTimeout { id: 1 });
    vote(&mut world, 1, 2);
    assert_eq!(world.nodes[1].state, NodeState::Leader);
    replicate(&mut world, 1, 2);
    assert_eq!(world.nodes[2].log, world.nodes[0].log);
    assert!(world.nodes.iter().all(|n| n.well_formed()));
    assert_eq!(world.nodes[2].log[3].ent, LogEntry { term: 1, index: 3 });
}

#[test]
fn an_old_log_gets_no_vote() {
    let mut world = World::new(3);
    take(&mut world, WorldStep::HeartBeatTimeout { id: 0 });
    vote(&mut world, 0, 1);
    let value = world_value(&world);
    take(&mut world, WorldStep::ClientRequest { id: 0, value });
    replicate(&mut world, 0, 1);
    take(&mut world, WorldStep::HeartBeatTimeout { id: 2 });
    take(&mut world, WorldStep::HeartBeatTimeout { id: 2 });
    vote(&mut world, 2, 1);
    assert_eq!(world.nodes[2].votes_received, vec![2]);
    assert_eq!(world.nodes[1].voted_for, None);
    assert_eq!(world.nodes[1].current_term, 2);
}

#[test]
fn an_entry_on_a_majority_can_be_overwritten() {
    let mut world = World::new(5);
    // node 0 leads term 1, and gets an entry to node 1
    take(&mut world, WorldStep::HeartBeatTimeout { id: 0 });
    vote(&mut world, 0, 1);
    vote(&mut world, 0, 2);
    let value = world_value(&world);
    take(&mut world, WorldStep::ClientRequest { id: 0, value });
    replicate(&mut world, 0, 1);
    take(&mut world, WorldStep::Crash { id: 0 });
    // node 4 leads term 2, and takes another entry at the same index
    take(&mut world, WorldStep::HeartBeatTimeout { id: 4 });
    take(&mut world, WorldStep::HeartBeatTimeout { id: 4 });
    vote(&mut world, 4, 2);
    vote(&mut world, 4, 3);
    assert_eq!(world.nodes[4].state, NodeState::Leader);
    let value = world_value(&world);
    take(&mut world, WorldStep::ClientRequest { id: 4, value });
    take(&mut world, WorldStep::Crash { id: 4 });
    // node 0 leads term 3, and gets its entry to a majority
    take(&mut world, WorldStep::Restart { id: 0 });
    take(&mut world, WorldStep::HeartBeatTimeout { id: 0 });
    take(&mut world, WorldStep::HeartBeatTimeout { id: 0 });
    vote(&mut world, 0, 1);
    vote(&mut world, 0, 2);
    assert_eq!(leaders(&world), vec![0, 4]);
    assert_eq!(world.nodes[0].current_term, 3);
    replicate(&mut world, 0, 2);
    assert_eq!(world.nodes[0].match_index, vec![0, 0, 1, 0, 0]);
    assert_eq!(world.nodes[0].commit_index, 0);
    for id in [0, 1, 2] {
        assert_eq!(terms(&world, id), vec![0, 1]);
    }
    replicate(&mut world, 0, 1);
    assert_eq!(world.nodes[0].commit_index, 1);
    take(&mut world, WorldStep::Crash { id: 0 });
    // node 4 leads term 4, and overwrites the entry
    take(&mut world, WorldStep::Restart { id: 4 });
    take(&mut world, WorldStep::HeartBeatTimeout { id: 4 });
    take(&mut world, WorldStep::HeartBeatTimeout { id: 4 });
    vote(&mut world, 4, 1);
    vote(&mut world, 4, 2);
    assert_eq!(world.nodes[4].state, NodeState::Leader);
    assert_eq!(world.nodes[4].current_term, 4);
    replicate(&mut world, 4, 1);
    replicate(&mut world, 4, 2);
    assert_eq!(terms(&world, 1), vec![0, 2]);
    assert_eq!(terms(&world, 2), vec![0, 2]);
    assert_eq!(terms(&world, 0), vec![0, 1]);
}

#[test]
fn a_leader_that_stepped_back_too_far_is_not_ready() {
    let mut world = World::new(3);
    take(&mut world, WorldStep::HeartBeatTimeout { id: 0 });
    vote(&mut world, 0, 1);
    let value = world_value(&world);
    take(&mut world, WorldStep::ClientRequest { id: 0, value });
    replicate(&mut world, 0, 1);
    take(&mut world, WorldStep::Crash { id: 0 });
    take(&mut world, WorldStep::Restart { id: 0 });
    take(&mut world, WorldStep::HeartBeatTimeout { id: 0 });
    vote(&mut world, 0, 2);
    assert_eq!(world.nodes[0].next_index, vec![2, 2, 2]);
    for _ in 0..2 {
        take(&mut world, WorldStep::SendAppendEntries { id: 0, dest: 2 });
    }
    for _ in 0..2 {
        deliver(&mut world, 0, 2);
        deliver(&mut world, 2, 0);
    }
    assert_eq!(world.nodes[0].next_index[2], 0);
    let step = WorldStep::SendAppendEntries { id: 0, dest: 2 };
    assert!(world.candidate_steps().contains(&step));
    assert!(!world.is_ready(&step));
}

#[test]
fn steps_that_do_not_fit_are_not_ready() {
    let mut world = World::new(2);
    assert!(world.is_ready(&WorldStep::Crash { id: 9 }));
    assert!(!world.is_ready(&WorldStep::Restart { id: 0 }));
    assert!(!world.is_ready(&WorldStep::HeartBeatTimeout { id: 2 }));
    assert!(!world.is_ready(&WorldStep::HeartBeatTimeout { id: -1 }));
    assert!(!world.is_ready(&WorldStep::ClientRequest { id: 0, value: 1 }));
    assert!(!world.is_ready(&WorldStep::SendRequestVote { id: 0, dest: 1 }));
    assert!(!world.is_ready(&WorldStep::SendAppendEntries { id: 0, dest: 1 }));
    assert!(!world.is_ready(&WorldStep::RecvRequestVoteRequest { id: 0, msg_idx: 0 }));
    assert!(!world.is_ready(&WorldStep::RecvRequestVoteResponse { id: 0, msg_idx: 0 }));
    assert!(!world.is_ready(&WorldStep::RecvAppendEntriesRequest { id: 0, msg_idx: 0 }));
    assert!(!world.is_ready(&WorldStep::RecvAppendEntriesResponse { id: 0, msg_idx: 0 }));
    world.nodes[1].current_term = i32::MAX;
    assert!(!world.is_ready(&WorldStep::HeartBeatTimeout { id: 1 }));
    let data = MessageData::AppendEntriesResponse { term: 0, success: true, last: None };
    world.network.send(Message { from: 1, to: 0, data }).unwrap();
    assert!(!world.is_ready(&WorldStep::RecvAppendEntriesResponse { id: 0, msg_idx: 0 }));
    let last = Some(LogEntry { term: 0, index: i32::MAX });
    let data = MessageData::AppendEntriesResponse { term: 0, success: true, last };
    world.network.send(Message { from: 1, to: 0, data }).unwrap();
    assert!(!world.is_ready(&WorldStep::RecvAppendEntriesResponse { id: 0, msg_idx: 1 }));
    let data = MessageData::AppendEntriesResponse { term: 1, success: false, last: None };
    world.network.send(Message { from: 7, to: 0, data }).unwrap();
    assert!(world.is_ready(&WorldStep::RecvAppendEntriesResponse { id: 0, msg_idx: 2 }));
}

#[test]
fn an_answer_is_put_behind_the_messages_in_flight() {
    let mut world = World::new(3);
    take(&mut world, WorldStep::HeartBeatTimeout { id: 0 });
    take(&mut world, WorldStep::SendRequestVote { id: 0, dest: 1 });
    take(&mut world, WorldStep::SendRequestVote { id: 0, dest: 1 });
    take(&mut world, WorldStep::SendRequestVote { id: 0, dest: 2 });
    deliver(&mut world, 0, 1);
    assert_eq!(world.network.msgs.len(), 2);
    deliver(&mut world, 0, 1);
    assert_eq!(world.network.msgs.len(), 2);
    assert_eq!(world.network.msgs[0].to, 2);
    assert_eq!(
        world.network.msgs[1],
        Message { from: 1, to: 0, data: MessageData::RequestVoteResponse { term: 1, granted: true } }
    );
}

#[test]
fn entries_replace_what_follows_their_predecessor() {
    let mut world = World::new(2);
    let entry = |term: i32, index: i32, val: i32| LogEntryValue { ent: LogEntry { term, index }, val };
    let node = &mut world.nodes[1];
    node.current_term = 4;
    node.log = vec![entry(0, 0, 0), entry(1, 1, 10), entry(2, 2, 20), entry(2, 3, 30)];
    let data = MessageData::AppendEntriesRequest {
        term: 4,
        leader_id: 0,
        prev: LogEntry { term: 1, index: 1 },
        entries: vec![entry(3, 2, 21)],
        leader_commit: 9,
    };
    world.network.send(Message { from: 0, to: 1, data }).unwrap();
    take(&mut world, WorldStep::RecvAppendEntriesRequest { id: 1, msg_idx: 0 });
    assert_eq!(world.nodes[1].log, vec![entry(0, 0, 0), entry(1, 1, 10), entry(3, 2, 21)]);
    assert_eq!(world.nodes[1].commit_index, 2);
    assert_eq!(
        world.network.msgs[0].data,
        MessageData::AppendEntriesResponse {
            term: 4,
            success: true,
            last: Some(LogEntry { term: 3, index: 2 })
        }
    );
}
