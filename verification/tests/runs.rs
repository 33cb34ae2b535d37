use interactive_raft::message::{LogEntryValue, MessageData};
use interactive_raft::node::NodeState;
use interactive_raft::step::WorldStep;
use interactive_raft::world::World;

/// A small generator of numbers, the same in every run.
fn next_number(state: &mut u64) -> usize {
    *state = state.wrapping_mul(6364136223846793005).wrapping_add(1442695040888963407);
    (*state >> 33) as usize
}

/// Whether an enabled step leads out of range.
fn stuck(world: &World, step: &WorldStep) -> bool {
    match *step {
        WorldStep::SendAppendEntries { id, dest } => {
            world.nodes[id as usize].next_index[dest as usize] < 1
        }
        _ => false,
    }
}

fn actor(step: &WorldStep) -> i32 {
    match *step {
        WorldStep::Crash { id } => id,
        WorldStep::Restart { id } => id,
        WorldStep::HeartBeatTimeout { id } => id,
        WorldStep::ClientRequest { id, .. } => id,
        WorldStep::SendAppendEntries { id, .. } => id,
        WorldStep::SendRequestVote { id, .. } => id,
        WorldStep::RecvRequestVoteRequest { id, .. } => id,
        WorldStep::RecvRequestVoteResponse { id, .. } => id,
        WorldStep::RecvAppendEntriesRequest { id, .. } => id,
        WorldStep::RecvAppendEntriesResponse { id, .. } => id,
    }
}

/// Walks through a run, and holds every world to what is promised of runs.
fn walk(n: usize, steps: usize, seed: u64) -> (usize, usize) {
    let mut world = World::new(n);
    let mut state = seed;
    let mut led: Vec<(i32, i32)> = vec![];
    let mut longest = 0;
    for _ in 0..steps {
        let cands = world.begin_step();
        assert!(!cands.is_empty());
        // crashes and timeouts are picked less often
        let mut step = cands[next_number(&mut state) % cands.len()];
        for _ in 0..4 {
            if matches!(step, WorldStep::Crash { .. } | WorldStep::HeartBeatTimeout { .. }) {
                step = cands[next_number(&mut state) % cands.len()];
            }
        }
        assert_eq!(world.is_ready(&step), !stuck(&world, &step), "{:?}", step);
        if !world.is_ready(&step) {
            continue;
        }
        let before: Vec<(i32, Option<i32>, NodeState, Vec<LogEntryValue>)> = world
            .nodes
            .iter()
            .map(|node| (node.current_term, node.voted_for, node.state, node.log.clone()))
            .collect();
        let in_flight = world.network.msgs.len();
        let down = world.crashed.contains(&actor(&step));
        assert_eq!(down, matches!(step, WorldStep::Restart { .. }));
        let receives = step > WorldStep::RecvRequestVoteRequest { id: i32::MIN, msg_idx: 0 };
        world.execute_step(&step);
        let kept = in_flight - if receives { 1 } else { 0 };
        assert!(world.network.msgs.len() == kept || world.network.msgs.len() == kept + 1);
        for (node, (term, vote, role, log)) in world.nodes.iter().zip(&before) {
            assert!(node.current_term >= *term);
            if node.current_term == *term && vote.is_some() {
                assert_eq!(node.voted_for, *vote);
            }
            if *role == NodeState::Leader && node.current_term == *term {
                assert_eq!(&node.log[..log.len()], &log[..]);
            }
            if node.id != actor(&step) {
                assert_eq!(node.state, *role);
                assert_eq!(&node.log, log);
            }
            assert!(node.well_formed());
            longest = std::cmp::max(longest, node.log.len());
            if node.state == NodeState::Leader {
                assert!(node.votes_received.len() > n / 2);
                match led.iter().find(|(t, _)| *t == node.current_term) {
                    Some((_, id)) => assert_eq!(*id, node.id),
                    None => led.push((node.current_term, node.id)),
                }
            }
        }
        for a in &world.nodes {
            for b in &world.nodes {
                for k in 0..std::cmp::min(a.log.len(), b.log.len()) {
                    if a.log[k].ent.term == b.log[k].ent.term {
                        assert_eq!(a.log[..k + 1], b.log[..k + 1]);
                    }
                }
            }
        }
        for m in &world.network.msgs {
            assert!(m.from != m.to);
            if let MessageData::AppendEntriesRequest { term, .. } = m.data {
                assert!(led.contains(&(term, m.from)));
            }
        }
    }
    (led.len(), longest)
}

#[test]
fn runs_keep_what_is_promised() {
    let mut terms = 0;
    let mut longest = 0;
    for seed in 0..6 {
        let (led, len) = walk(3, 700, seed);
        terms += led;
        longest = std::cmp::max(longest, len);
    }
    assert!(terms > 5, "{}", terms);
    assert!(longest > 3, "{}", longest);
}

#[test]
fn larger_runs_keep_what_is_promised() {
    let mut terms = 0;
    for seed in 10..13 {
        terms += walk(5, 900, seed).0;
    }
    assert!(terms > 0);
}
