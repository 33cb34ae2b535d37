use interactive_raft::command::{blank, chars_of, is_word, parse_i32, parse_usize, split_words, trim, ChoiceError};
use interactive_raft::message::{LogEntry, LogEntryValue, Message, MessageData};
use interactive_raft::step::{position_of, sort_steps, WorldStep};
use interactive_raft::text::{put_aligned, put_int, put_message, put_node, put_step, put_usize, render_choices};
use interactive_raft::world::World;

fn all_steps() -> Vec<WorldStep> {
    vec![
        WorldStep::Crash { id: 0 },
        WorldStep::Crash { id: 3 },
        WorldStep::Restart { id: 1 },
        WorldStep::HeartBeatTimeout { id: 2 },
        WorldStep::ClientRequest { id: 0, value: -17 },
        WorldStep::ClientRequest { id: 0, value: 4 },
        WorldStep::SendAppendEntries { id: 4, dest: 0 },
        WorldStep::SendRequestVote { id: 1, dest: 0 },
        WorldStep::SendRequestVote { id: 1, dest: 2 },
        WorldStep::RecvRequestVoteRequest { id: 0, msg_idx: 12 },
        WorldStep::RecvRequestVoteResponse { id: 0, msg_idx: 0 },
        WorldStep::RecvAppendEntriesRequest { id: 0, msg_idx: usize::MAX },
        WorldStep::RecvAppendEntriesResponse { id: 1, msg_idx: 3 },
    ]
}

#[test]
fn steps_are_listed_in_order() {
    let steps = all_steps();
    let mut shuffled = vec![];
    for k in [5, 0, 12, 7, 3, 9, 1, 11, 2, 10, 4, 8, 6] {
        shuffled.push(steps[k]);
    }
    assert_eq!(sort_steps(&shuffled), steps);
    shuffled.sort();
    assert_eq!(shuffled, steps);
    for a in &steps {
        for b in &steps {
            assert_eq!(a.comes_before(b), a < b);
        }
    }
    assert_eq!(position_of(&steps, steps[4]), Some(4));
    assert_eq!(position_of(&steps, WorldStep::Crash { id: 8 }), None);
}

#[test]
fn steps_are_shown_with_their_fields() {
    for step in all_steps() {
        let mut out = String::new();
        put_step(&mut out, &step);
        assert_eq!(out, format!("{:?}", step));
    }
}

#[test]
fn choices_are_numbered() {
    let steps = vec![WorldStep::Crash { id: 0 }, WorldStep::ClientRequest { id: 1, value: 5 }];
    assert_eq!(
        render_choices(&steps),
        "[CHOICE 0]: Crash { id: 0 }\n[CHOICE 1]: ClientRequest { id: 1, value: 5 }\n"
    );
    assert_eq!(render_choices(&vec![]), "");
}

#[test]
fn messages_are_shown_with_their_fields() {
    let last = LogEntry { term: 2, index: 7 };
    let value = |index: i32| LogEntryValue { ent: LogEntry { term: 1, index }, val: 40 - index };
    for data in [
        MessageData::RequestVoteRequest { term: 3, cand_id: 4, last },
        MessageData::RequestVoteResponse { term: 3, granted: true },
        MessageData::RequestVoteResponse { term: 3, granted: false },
        MessageData::AppendEntriesRequest { term: 1, leader_id: 0, prev: last, entries: vec![], leader_commit: 0 },
        MessageData::AppendEntriesRequest { term: 1, leader_id: 0, prev: last, entries: vec![value(1)], leader_commit: 0 },
        MessageData::AppendEntriesRequest {
            term: 1,
            leader_id: 0,
            prev: last,
            entries: vec![value(1), value(2), value(50)],
            leader_commit: -3,
        },
        MessageData::AppendEntriesResponse { term: 9, success: true, last: Some(last) },
        MessageData::AppendEntriesResponse { term: 9, success: false, last: None },
    ] {
        let m = Message { from: 0, to: 12, data };
        let mut out = String::new();
        put_message(&mut out, &m);
        assert_eq!(out, format!("{:?}", m));
    }
}

#[test]
fn numbers_are_shown_in_decimal() {
    for x in [0, 1, 9, 10, 99, 100, 12345, -1, -10, i32::MAX, i32::MIN] {
        let mut out = String::from("x");
        put_int(&mut out, x);
        assert_eq!(out, format!("x{}", x));
        for width in [0, 1, 2, 3, 12] {
            let mut out = String::new();
            put_aligned(&mut out, x, width);
            assert_eq!(out, format!("{:>1$}", x, width));
        }
        assert_eq!(parse_i32(&chars_of(&x.to_string())), Some(x));
    }
    let mut out = String::new();
    put_usize(&mut out, usize::MAX);
    assert_eq!(out, usize::MAX.to_string());
}

#[test]
fn nodes_are_shown_with_log_and_commit_index() {
    let mut world = World::new(2);
    let node = &mut world.nodes[1];
    node.current_term = 3;
    node.voted_for = Some(0);
    node.votes_received = vec![1, 0];
    node.commit_index = 1;
    for index in 1..3 {
        node.log.push(LogEntryValue { ent: LogEntry { term: index * 5, index }, val: 0 });
    }
    let mut out = String::new();
    put_node(&mut out, &world.nodes[1], false);
    assert_eq!(out, "1 :: F at 3\n    voted_for: Some(0), votes_received: [1, 0]\n    logs:[   0  5C  10]\n");
    let mut out = String::new();
    put_node(&mut out, &world.nodes[0], true);
    assert_eq!(out, "0 :: X at 0\n    voted_for: None, votes_received: []\n    logs:[  0C]\n");
}

#[test]
fn the_dump_shows_nodes_and_messages() {
    let mut world = World::new(2);
    world.execute_step(&WorldStep::HeartBeatTimeout { id: 0 });
    world.execute_step(&WorldStep::SendRequestVote { id: 0, dest: 1 });
    world.execute_step(&WorldStep::Crash { id: 1 });
    assert_eq!(
        world.dump_text(),
        "[dump nodes] ==========\n\
         0 :: C at 1\n    voted_for: Some(0), votes_received: [0]\n    logs:[  0C]\n\
         1 :: X at 0\n    voted_for: None, votes_received: []\n    logs:[  0C]\n\
         [dump network] ==========\n\
         Message { from: 0, to: 1, data: RequestVoteRequest { term: 1, cand_id: 0, last: LogEntry { term: 0, index: 0 } } }\n\
         [end of dump] ==========\n"
    );
    world.begin_step();
    assert_eq!(world.heading(), "\n[next step is 1] ==========\n");
}

#[test]
fn words_are_split_at_ascii_white_space() {
    for line in ["", "  ", "crash 1\n", " a\tb \u{c} c\r\n", "a\u{b}b c", "\u{a0}x y\u{3000}", "one"] {
        let words: Vec<String> =
            split_words(&chars_of(line)).iter().map(|w| w.iter().collect()).collect();
        let expected: Vec<String> = line.split_ascii_whitespace().map(|w| w.to_string()).collect();
        assert_eq!(words, expected);
    }
}

#[test]
fn white_space_is_that_of_unicode() {
    for code in 0..0x110000u32 {
        if let Some(c) = char::from_u32(code) {
            assert_eq!(blank(c), c.is_whitespace(), "{:?}", c);
        }
    }
}

#[test]
fn lines_are_trimmed_at_both_ends() {
    for line in ["", " ", "\t 12 \r\n", "\u{2003}7\u{a0}", "x y", " x y ", "\u{200b}5"] {
        let text: String = trim(&chars_of(line)).iter().collect();
        assert_eq!(text, line.trim());
    }
}

#[test]
fn numbers_are_read_with_sign_and_range() {
    for word in [
        "", "0", "7", "+7", "-7", "+", "-", "--1", "+-1", "007", "2147483647", "2147483648",
        "-2147483648", "-2147483649", "99999999999999999999999", "18446744073709551615",
        "18446744073709551616", "1x", "x1", "1 ", "-0", "+0", "\u{661}",
        "000000000000000000000000000000005",
    ] {
        let chars = chars_of(word);
        assert_eq!(parse_i32(&chars), word.parse::<i32>().ok(), "{:?}", word);
        assert_eq!(parse_usize(&chars), word.parse::<usize>().ok(), "{:?}", word);
    }
    assert!(is_word(&chars_of("recv"), "recv"));
    assert!(!is_word(&chars_of("recv"), "rec"));
    assert!(!is_word(&chars_of("Recv"), "recv"));
}

#[test]
fn commands_name_steps() {
    let mut world = World::new(3);
    world.n_steps = 21;
    assert_eq!(world.parse_choice("crash 1\n"), Some(WorldStep::Crash { id: 1 }));
    assert_eq!(world.parse_choice(" restart\t+2"), Some(WorldStep::Restart { id: 2 }));
    assert_eq!(world.parse_choice("timeout 0 and more"), Some(WorldStep::HeartBeatTimeout { id: 0 }));
    assert_eq!(world.parse_choice("client 2"), Some(WorldStep::ClientRequest { id: 2, value: 21 }));
    for word in ["ae", "appendentries"] {
        let line = format!("{} 1 -5", word);
        assert_eq!(world.parse_choice(&line), Some(WorldStep::SendAppendEntries { id: 1, dest: -5 }));
    }
    for word in ["rv", "requestvote"] {
        let line = format!("{} 0 2", word);
        assert_eq!(world.parse_choice(&line), Some(WorldStep::SendRequestVote { id: 0, dest: 2 }));
    }
    assert_eq!(world.parse_choice("jump 1"), None);
    assert_eq!(world.parse_choice("Crash 1"), None);
    let last = LogEntry { term: 0, index: 0 };
    for data in [
        MessageData::RequestVoteRequest { term: 1, cand_id: 0, last },
        MessageData::RequestVoteResponse { term: 1, granted: true },
        MessageData::AppendEntriesRequest { term: 1, leader_id: 0, prev: last, entries: vec![], leader_commit: 0 },
        MessageData::AppendEntriesResponse { term: 1, success: false, last: None },
    ] {
        world.network.send(Message { from: 0, to: 2, data }).unwrap();
    }
    assert_eq!(world.parse_choice("recv 0"), Some(WorldStep::RecvRequestVoteRequest { id: 2, msg_idx: 0 }));
    assert_eq!(world.parse_choice("recv 1"), Some(WorldStep::RecvRequestVoteResponse { id: 2, msg_idx: 1 }));
    assert_eq!(world.parse_choice("recv 2"), Some(WorldStep::RecvAppendEntriesRequest { id: 2, msg_idx: 2 }));
    assert_eq!(world.parse_choice("recv 3"), Some(WorldStep::RecvAppendEntriesResponse { id: 2, msg_idx: 3 }));
}

#[test]
fn what_cannot_be_read_is_an_error() {
    let world = World::new(3);
    assert_eq!(world.read_choice("\n"), Err(ChoiceError::NoCommand));
    assert_eq!(world.read_choice("crash"), Err(ChoiceError::MissingArgument));
    assert_eq!(world.read_choice("ae 1"), Err(ChoiceError::MissingArgument));
    assert_eq!(world.read_choice("crash one"), Err(ChoiceError::BadNumber));
    assert_eq!(world.read_choice("rv one"), Err(ChoiceError::BadNumber));
    assert_eq!(world.read_choice("rv 1 2147483648"), Err(ChoiceError::BadNumber));
    assert_eq!(world.read_choice("recv 0"), Err(ChoiceError::NoSuchMessage));
    assert_eq!(world.read_choice("recv -1"), Err(ChoiceError::NoSuchMessage));
    assert_eq!(world.read_choice("help"), Ok(None));
    assert_eq!(world.resolve_choice(&vec![], "help"), Err(ChoiceError::UnknownCommand));
    assert_eq!(world.resolve_choice(&vec![], "0"), Err(ChoiceError::UnknownCommand));
    assert_eq!(world.resolve_choice(&vec![], ""), Err(ChoiceError::NoCommand));
}

#[test]
fn a_line_picks_by_number_or_by_command() {
    let mut world = World::new(2);
    let cands = world.begin_step();
    assert_eq!(cands.len(), 4);
    for k in 0..4 {
        assert_eq!(world.resolve_choice(&cands, &format!(" {}\n", k)), Ok(Some(k)));
    }
    assert_eq!(world.resolve_choice(&cands, "4\n"), Err(ChoiceError::UnknownCommand));
    assert_eq!(world.resolve_choice(&cands, "timeout 1\n"), Ok(Some(3)));
    assert_eq!(world.resolve_choice(&cands, "timeout 2\n"), Ok(None));
    assert_eq!(world.resolve_choice(&cands, "restart 0\n"), Ok(None));
}
