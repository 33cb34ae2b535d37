use interactive_raft::message::{Message, MessageData};
use interactive_raft::network::{Network, NetworkError};

fn note(from: i32, to: i32) -> Message {
    Message { from, to, data: MessageData::RequestVoteResponse { term: 1, granted: true } }
}

fn filled() -> Network {
    let mut network = Network::new();
    for (from, to) in [(0, 1), (1, 2), (2, 1), (3, 0)] {
        assert_eq!(network.send(note(from, to)), Ok(()));
    }
    network
}

#[test]
fn receive_takes_the_oldest_message_for_the_node() {
    let mut network = filled();
    assert_eq!(network.recv(1), Ok(note(0, 1)));
    assert_eq!(network.recv(1), Ok(note(2, 1)));
    assert_eq!(network.recv(1), Err(NetworkError::NoMessage));
    assert_eq!(network.msgs, vec![note(1, 2), note(3, 0)]);
}

#[test]
fn receive_undoes_send() {
    let mut network = filled();
    network.send(note(5, 9)).unwrap();
    assert_eq!(network.recv(9), Ok(note(5, 9)));
    assert_eq!(network.msgs, filled().msgs);
}

#[test]
fn later_messages_wait() {
    let mut network = filled();
    network.send(note(7, 2)).unwrap();
    assert_eq!(network.recv(2), Ok(note(1, 2)));
    assert_eq!(network.recv(2), Ok(note(7, 2)));
}

#[test]
fn pull_takes_what_is_accepted() {
    let mut network = filled();
    assert_eq!(network.pull(|m: &Message| m.from >= 2), Some(note(2, 1)));
    assert_eq!(network.pull(|m: &Message| m.from == 9), None);
    assert_eq!(network.msgs, vec![note(0, 1), note(1, 2), note(3, 0)]);
}

#[test]
fn peek_leaves_the_message() {
    let network = filled();
    assert_eq!(network.peek_idx(|m: &Message| m.to == 0), Some(3));
    assert_eq!(network.peek_idx(|m: &Message| m.to == 7), None);
    assert_eq!(network.msgs.len(), 4);
}

#[test]
fn pull_ith_takes_by_position() {
    let mut network = filled();
    assert_eq!(network.pull_ith(1), note(1, 2));
    assert_eq!(network.msgs, vec![note(0, 1), note(2, 1), note(3, 0)]);
}

#[test]
fn the_drawn_number_selects_the_lost_message() {
    let mut network = filled();
    network.lose_drawn(6);
    assert_eq!(network.msgs, vec![note(0, 1), note(1, 2), note(3, 0)]);
    network.lose_drawn(usize::MAX);
    assert_eq!(network.msgs.len(), 2);
    let mut empty = Network::new();
    empty.lose_drawn(3);
    assert!(empty.msgs.is_empty());
}

#[test]
fn one_message_is_lost_at_random() {
    let mut lost = vec![0; 4];
    for _ in 0..400 {
        let mut network = filled();
        network.lose_package();
        assert_eq!(network.msgs.len(), 3);
        let gone = filled().msgs.iter().position(|m| !network.msgs.contains(m)).unwrap();
        lost[gone] += 1;
        let mut rest = filled().msgs;
        rest.remove(gone);
        assert_eq!(network.msgs, rest);
    }
    assert!(lost.iter().all(|&n| n > 0), "{:?}", lost);
    let mut empty = Network::new();
    empty.lose_package();
    assert!(empty.msgs.is_empty());
}
