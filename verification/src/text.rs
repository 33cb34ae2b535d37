//! The text that is shown to the user: numbers, log entries, messages, steps and nodes.

use vstd::prelude::*;

use crate::message::{LogEntry, LogEntryValue, Message, MessageData, MessageDataView, MessageView};
use crate::node::RaftNode;
use crate::node_model::NodeView;
use crate::step::WorldStep;
use crate::world_model::WorldView;

verus! {

/// A decimal digit.
pub open spec fn digit_text(d: u64) -> Seq<char> {
    match d {
        0 => "0"@,
        1 => "1"@,
        2 => "2"@,
        3 => "3"@,
        4 => "4"@,
        5 => "5"@,
        6 => "6"@,
        7 => "7"@,
        8 => "8"@,
        _ => "9"@,
    }
}

/// A natural number in decimal digits.
pub open spec fn nat_text(x: nat) -> Seq<char>
    decreases x,
{
    if x < 10 {
        digit_text(x as u64)
    } else {
        nat_text(x / 10) + digit_text((x % 10) as u64)
    }
}

/// An integer in decimal digits, with a minus in front of a negative one.
pub open spec fn int_text(x: int) -> Seq<char> {
    if x < 0 {
        "-"@ + nat_text((-x) as nat)
    } else {
        nat_text(x as nat)
    }
}

pub open spec fn bool_text(b: bool) -> Seq<char> {
    if b {
        "true"@
    } else {
        "false"@
    }
}

/// `n` spaces.
pub open spec fn spaces(n: nat) -> Seq<char>
    decreases n,
{
    if n == 0 {
        Seq::empty()
    } else {
        spaces((n - 1) as nat) + " "@
    }
}

/// An integer, moved to the right so that it takes at least `width` characters.
pub open spec fn aligned_text(x: int, width: nat) -> Seq<char> {
    if int_text(x).len() >= width {
        int_text(x)
    } else {
        spaces((width - int_text(x).len()) as nat) + int_text(x)
    }
}

/// The integers, separated by commas.
pub open spec fn ints_text(s: Seq<i32>) -> Seq<char>
    decreases s.len(),
{
    if s.len() == 0 {
        Seq::empty()
    } else if s.len() == 1 {
        int_text(s[0] as int)
    } else {
        ints_text(s.drop_last()) + ", "@ + int_text(s.last() as int)
    }
}

pub open spec fn vote_text(v: Option<i32>) -> Seq<char> {
    match v {
        Some(x) => "Some("@ + int_text(x as int) + ")"@,
        None => "None"@,
    }
}

pub open spec fn entry_text(e: LogEntry) -> Seq<char> {
    "LogEntry { term: "@ + int_text(e.term as int) + ", index: "@ + int_text(e.index as int)
        + " }"@
}

pub open spec fn entry_value_text(e: LogEntryValue) -> Seq<char> {
    "LogEntryValue { ent: "@ + entry_text(e.ent) + ", val: "@ + int_text(e.val as int) + " }"@
}

/// The entries, separated by commas.
pub open spec fn entries_text(s: Seq<LogEntryValue>) -> Seq<char>
    decreases s.len(),
{
    if s.len() == 0 {
        Seq::empty()
    } else if s.len() == 1 {
        entry_value_text(s[0])
    } else {
        entries_text(s.drop_last()) + ", "@ + entry_value_text(s.last())
    }
}

pub open spec fn last_text(last: Option<LogEntry>) -> Seq<char> {
    match last {
        Some(e) => "Some("@ + entry_text(e) + ")"@,
        None => "None"@,
    }
}

pub open spec fn data_text(data: MessageDataView) -> Seq<char> {
    match data {
        MessageDataView::RequestVoteRequest { term, cand_id, last } =>
            "RequestVoteRequest { term: "@ + int_text(term as int) + ", cand_id: "@ + int_text(
                cand_id as int,
            ) + ", last: "@ + entry_text(last) + " }"@,
        MessageDataView::RequestVoteResponse { term, granted } =>
            "RequestVoteResponse { term: "@ + int_text(term as int) + ", granted: "@ + bool_text(
                granted,
            ) + " }"@,
        MessageDataView::AppendEntriesRequest { term, leader_id, prev, entries, leader_commit } =>
            "AppendEntriesRequest { term: "@ + int_text(term as int) + ", leader_id: "@ + int_text(
                leader_id as int,
            ) + ", prev: "@ + entry_text(prev) + ", entries: ["@ + entries_text(entries)
                + "], leader_commit: "@ + int_text(leader_commit as int) + " }"@,
        MessageDataView::AppendEntriesResponse { term, success, last } =>
            "AppendEntriesResponse { term: "@ + int_text(term as int) + ", success: "@ + bool_text(
                success,
            ) + ", last: "@ + last_text(last) + " }"@,
    }
}

pub open spec fn message_text(m: MessageView) -> Seq<char> {
    "Message { from: "@ + int_text(m.from as int) + ", to: "@ + int_text(m.to as int) + ", data: "@
        + data_text(m.data) + " }"@
}

/// The name of a kind of step, up to the node that takes it.
pub open spec fn kind_text(step: WorldStep) -> Seq<char> {
    match step {
        WorldStep::Crash { .. } => "Crash { id: "@,
        WorldStep::Restart { .. } => "Restart { id: "@,
        WorldStep::HeartBeatTimeout { .. } => "HeartBeatTimeout { id: "@,
        WorldStep::ClientRequest { .. } => "ClientRequest { id: "@,
        WorldStep::SendAppendEntries { .. } => "SendAppendEntries { id: "@,
        WorldStep::SendRequestVote { .. } => "SendRequestVote { id: "@,
        WorldStep::RecvRequestVoteRequest { .. } => "RecvRequestVoteRequest { id: "@,
        WorldStep::RecvRequestVoteResponse { .. } => "RecvRequestVoteResponse { id: "@,
        WorldStep::RecvAppendEntriesRequest { .. } => "RecvAppendEntriesRequest { id: "@,
        WorldStep::RecvAppendEntriesResponse { .. } => "RecvAppendEntriesResponse { id: "@,
    }
}

/// What a step names besides the node.
pub open spec fn detail_text(step: WorldStep) -> Seq<char> {
    match step {
        WorldStep::ClientRequest { value, .. } => ", value: "@ + int_text(value as int),
        WorldStep::SendAppendEntries { dest, .. } => ", dest: "@ + int_text(dest as int),
        WorldStep::SendRequestVote { dest, .. } => ", dest: "@ + int_text(dest as int),
        WorldStep::RecvRequestVoteRequest { msg_idx, .. } => ", msg_idx: "@ + int_text(
            msg_idx as int,
        ),
        WorldStep::RecvRequestVoteResponse { msg_idx, .. } => ", msg_idx: "@ + int_text(
            msg_idx as int,
        ),
        WorldStep::RecvAppendEntriesRequest { msg_idx, .. } => ", msg_idx: "@ + int_text(
            msg_idx as int,
        ),
        WorldStep::RecvAppendEntriesResponse { msg_idx, .. } => ", msg_idx: "@ + int_text(
            msg_idx as int,
        ),
        _ => Seq::empty(),
    }
}

pub open spec fn step_text(step: WorldStep) -> Seq<char> {
    kind_text(step) + int_text(step.actor() as int) + detail_text(step) + " }"@
}

/// One line for each step, numbered from zero.
pub open spec fn choices_text(steps: Seq<WorldStep>) -> Seq<char>
    decreases steps.len(),
{
    if steps.len() == 0 {
        Seq::empty()
    } else {
        choices_text(steps.drop_last()) + ("[CHOICE "@ + int_text(steps.len() - 1) + "]: "@
            + step_text(steps.last()) + "\n"@)
    }
}

/// The terms of the entries; the one at the commit index is marked with a C.
pub open spec fn terms_text(log: Seq<LogEntryValue>, commit_index: i32) -> Seq<char>
    decreases log.len(),
{
    if log.len() == 0 {
        Seq::empty()
    } else {
        let term = log.last().ent.term as int;
        terms_text(log.drop_last(), commit_index) + if (log.len() - 1) as i32 == commit_index {
            " "@ + aligned_text(term, 2) + "C"@
        } else {
            " "@ + aligned_text(term, 3)
        }
    }
}

/// The three lines that show a node; a crashed one is shown with an X for its state.
pub open spec fn node_text(node: NodeView, crashed: bool) -> Seq<char> {
    int_text(node.id as int) + " :: "@ + (if crashed {
        "X"@
    } else {
        node.state.letter()
    }) + " at "@ + int_text(node.current_term as int) + "\n    voted_for: "@ + vote_text(
        node.voted_for,
    ) + ", votes_received: ["@ + ints_text(node.votes_received) + "]\n    logs:["@ + terms_text(
        node.log,
        node.commit_index,
    ) + "]\n"@
}

/// The lines that show the nodes.
pub open spec fn nodes_text(nodes: Seq<NodeView>, crashed: Seq<i32>) -> Seq<char>
    decreases nodes.len(),
{
    if nodes.len() == 0 {
        Seq::empty()
    } else {
        nodes_text(nodes.drop_last(), crashed) + node_text(
            nodes.last(),
            crashed.contains(nodes.last().id),
        )
    }
}

/// One line for each message.
pub open spec fn messages_text(msgs: Seq<MessageView>) -> Seq<char>
    decreases msgs.len(),
{
    if msgs.len() == 0 {
        Seq::empty()
    } else {
        messages_text(msgs.drop_last()) + (message_text(msgs.last()) + "\n"@)
    }
}

/// The lines that show the world.
pub open spec fn world_text(w: WorldView) -> Seq<char> {
    "[dump nodes] ==========\n"@ + nodes_text(w.nodes, w.crashed) + "[dump network] ==========\n"@
        + messages_text(w.msgs) + "[end of dump] ==========\n"@
}

/// The line that announces the next step, after an empty one.
pub open spec fn heading_text(n_steps: nat) -> Seq<char> {
    "\n[next step is "@ + int_text(n_steps as int) + "] ==========\n"@
}

fn put_digit(out: &mut String, d: u64)
    requires
        d < 10,
    ensures
        final(out)@ == old(out)@ + digit_text(d),
{
    match d {
        0 => out.append("0"),
        1 => out.append("1"),
        2 => out.append("2"),
        3 => out.append("3"),
        4 => out.append("4"),
        5 => out.append("5"),
        6 => out.append("6"),
        7 => out.append("7"),
        8 => out.append("8"),
        _ => out.append("9"),
    }
}

fn put_nat(out: &mut String, x: u64)
    ensures
        final(out)@ == old(out)@ + nat_text(x as nat),
    decreases x,
{
    if x < 10 {
        put_digit(out, x);
    } else {
        put_nat(out, x / 10);
        put_digit(out, x % 10);
        assert(out@ =~= old(out)@ + nat_text(x as nat));
    }
}

/// Appends an integer.
pub fn put_int(out: &mut String, x: i32)
    ensures
        final(out)@ == old(out)@ + int_text(x as int),
{
    if x < 0 {
        out.append("-");
        put_nat(out, (0 - x as i64) as u64);
        assert(out@ =~= old(out)@ + int_text(x as int));
    } else {
        put_nat(out, x as u64);
    }
}

/// Appends a count.
pub fn put_usize(out: &mut String, x: usize)
    ensures
        final(out)@ == old(out)@ + int_text(x as int),
{
    put_nat(out, x as u64);
}

fn put_bool(out: &mut String, b: bool)
    ensures
        final(out)@ == old(out)@ + bool_text(b),
{
    if b {
        out.append("true");
    } else {
        out.append("false");
    }
}

/// Appends an integer, moved to the right.
pub fn put_aligned(out: &mut String, x: i32, width: usize)
    ensures
        final(out)@ == old(out)@ + aligned_text(x as int, width as nat),
{
    let mut text = String::new();
    put_int(&mut text, x);
    assert(text@ =~= int_text(x as int));
    let len: usize = text.as_str().unicode_len();
    let missing: usize = if len >= width {
        0
    } else {
        width - len
    };
    let mut k: usize = 0;
    assert(out@ =~= old(out)@ + spaces(0));
    while k < missing
        invariant
            k <= missing,
            out@ == old(out)@ + spaces(k as nat),
        decreases missing - k,
    {
        out.append(" ");
        k = k + 1;
        assert(out@ =~= old(out)@ + spaces(k as nat));
    }
    out.append(text.as_str());
    assert(out@ =~= old(out)@ + aligned_text(x as int, width as nat));
}

fn put_ints(out: &mut String, v: &Vec<i32>)
    ensures
        final(out)@ == old(out)@ + ints_text(v@),
{
    let mut i: usize = 0;
    assert(out@ =~= old(out)@ + ints_text(v@.take(0)));
    while i < v.len()
        invariant
            i <= v@.len(),
            out@ == old(out)@ + ints_text(v@.take(i as int)),
        decreases v@.len() - i,
    {
        if i > 0 {
            out.append(", ");
        }
        put_int(out, v[i]);
        proof {
            let now = v@.take(i + 1);
            assert(now.drop_last() =~= v@.take(i as int));
            assert(now.last() == v@[i as int]);
            assert(out@ =~= old(out)@ + ints_text(now));
        }
        i = i + 1;
    }
    assert(v@.take(v@.len() as int) =~= v@);
}

fn put_vote(out: &mut String, v: Option<i32>)
    ensures
        final(out)@ == old(out)@ + vote_text(v),
{
    match v {
        Some(x) => {
            out.append("Some(");
            put_int(out, x);
            out.append(")");
        },
        None => {
            out.append("None");
        },
    }
    assert(out@ =~= old(out)@ + vote_text(v));
}

fn put_entry(out: &mut String, e: LogEntry)
    ensures
        final(out)@ == old(out)@ + entry_text(e),
{
    out.append("LogEntry { term: ");
    put_int(out, e.term);
    out.append(", index: ");
    put_int(out, e.index);
    out.append(" }");
    assert(out@ =~= old(out)@ + entry_text(e));
}

fn put_entry_value(out: &mut String, e: LogEntryValue)
    ensures
        final(out)@ == old(out)@ + entry_value_text(e),
{
    out.append("LogEntryValue { ent: ");
    put_entry(out, e.ent);
    out.append(", val: ");
    put_int(out, e.val);
    out.append(" }");
    assert(out@ =~= old(out)@ + entry_value_text(e));
}

fn put_entries(out: &mut String, v: &Vec<LogEntryValue>)
    ensures
        final(out)@ == old(out)@ + entries_text(v@),
{
    let mut i: usize = 0;
    assert(out@ =~= old(out)@ + entries_text(v@.take(0)));
    while i < v.len()
        invariant
            i <= v@.len(),
            out@ == old(out)@ + entries_text(v@.take(i as int)),
        decreases v@.len() - i,
    {
        if i > 0 {
            out.append(", ");
        }
        put_entry_value(out, v[i]);
        proof {
            let now = v@.take(i + 1);
            assert(now.drop_last() =~= v@.take(i as int));
            assert(now.last() == v@[i as int]);
            assert(out@ =~= old(out)@ + entries_text(now));
        }
        i = i + 1;
    }
    assert(v@.take(v@.len() as int) =~= v@);
}

fn put_last(out: &mut String, last: Option<LogEntry>)
    ensures
        final(out)@ == old(out)@ + last_text(last),
{
    match last {
        Some(e) => {
            out.append("Some(");
            put_entry(out, e);
            out.append(")");
        },
        None => {
            out.append("None");
        },
    }
    assert(out@ =~= old(out)@ + last_text(last));
}

fn put_data(out: &mut String, data: &MessageData)
    ensures
        final(out)@ == old(out)@ + data_text(data@),
{
    match data {
        MessageData::RequestVoteRequest { term, cand_id, last } => {
            out.append("RequestVoteRequest { term: ");
            put_int(out, *term);
            out.append(", cand_id: ");
            put_int(out, *cand_id);
            out.append(", last: ");
            put_entry(out, *last);
            out.append(" }");
        },
        MessageData::RequestVoteResponse { term, granted } => {
            out.append("RequestVoteResponse { term: ");
            put_int(out, *term);
            out.append(", granted: ");
            put_bool(out, *granted);
            out.append(" }");
        },
        MessageData::AppendEntriesRequest { term, leader_id, prev, entries, leader_commit } => {
            out.append("AppendEntriesRequest { term: ");
            put_int(out, *term);
            out.append(", leader_id: ");
            put_int(out, *leader_id);
            out.append(", prev: ");
            put_entry(out, *prev);
            out.append(", entries: [");
            put_entries(out, entries);
            out.append("], leader_commit: ");
            put_int(out, *leader_commit);
            out.append(" }");
        },
        MessageData::AppendEntriesResponse { term, success, last } => {
            out.append("AppendEntriesResponse { term: ");
            put_int(out, *term);
            out.append(", success: ");
            put_bool(out, *success);
            out.append(", last: ");
            put_last(out, *last);
            out.append(" }");
        },
    }
    assert(out@ =~= old(out)@ + data_text(data@));
}

/// Appends a message.
pub fn put_message(out: &mut String, m: &Message)
    ensures
        final(out)@ == old(out)@ + message_text(m@),
{
    out.append("Message { from: ");
    put_int(out, m.from);
    out.append(", to: ");
    put_int(out, m.to);
    out.append(", data: ");
    put_data(out, &m.data);
    out.append(" }");
    assert(out@ =~= old(out)@ + message_text(m@));
}

/// Appends a step.
pub fn put_step(out: &mut String, step: &WorldStep)
    ensures
        final(out)@ == old(out)@ + step_text(*step),
{
    match *step {
        WorldStep::Crash { id } => {
            out.append("Crash { id: ");
            put_int(out, id);
        },
        WorldStep::Restart { id } => {
            out.append("Restart { id: ");
            put_int(out, id);
        },
        WorldStep::HeartBeatTimeout { id } => {
            out.append("HeartBeatTimeout { id: ");
            put_int(out, id);
        },
        WorldStep::ClientRequest { id, value } => {
            out.append("ClientRequest { id: ");
            put_int(out, id);
            out.append(", value: ");
            put_int(out, value);
        },
        WorldStep::SendAppendEntries { id, dest } => {
            out.append("SendAppendEntries { id: ");
            put_int(out, id);
            out.append(", dest: ");
            put_int(out, dest);
        },
        WorldStep::SendRequestVote { id, dest } => {
            out.append("SendRequestVote { id: ");
            put_int(out, id);
            out.append(", dest: ");
            put_int(out, dest);
        },
        WorldStep::RecvRequestVoteRequest { id, msg_idx } => {
            out.append("RecvRequestVoteRequest { id: ");
            put_int(out, id);
            out.append(", msg_idx: ");
            put_usize(out, msg_idx);
        },
        WorldStep::RecvRequestVoteResponse { id, msg_idx } => {
            out.append("RecvRequestVoteResponse { id: ");
            put_int(out, id);
            out.append(", msg_idx: ");
            put_usize(out, msg_idx);
        },
        WorldStep::RecvAppendEntriesRequest { id, msg_idx } => {
            out.append("RecvAppendEntriesRequest { id: ");
            put_int(out, id);
            out.append(", msg_idx: ");
            put_usize(out, msg_idx);
        },
        WorldStep::RecvAppendEntriesResponse { id, msg_idx } => {
            out.append("RecvAppendEntriesResponse { id: ");
            put_int(out, id);
            out.append(", msg_idx: ");
            put_usize(out, msg_idx);
        },
    }
    out.append(" }");
    assert(out@ =~= old(out)@ + step_text(*step));
}

/// The steps to choose from, one to a line.
pub fn render_choices(steps: &Vec<WorldStep>) -> (out: String)
    ensures
        out@ == choices_text(steps@),
{
    let mut out = String::new();
    let mut i: usize = 0;
    assert(out@ =~= choices_text(steps@.take(0)));
    while i < steps.len()
        invariant
            i <= steps@.len(),
            out@ == choices_text(steps@.take(i as int)),
        decreases steps@.len() - i,
    {
        out.append("[CHOICE ");
        put_usize(&mut out, i);
        out.append("]: ");
        put_step(&mut out, &steps[i]);
        out.append("\n");
        proof {
            let now = steps@.take(i + 1);
            assert(now.drop_last() =~= steps@.take(i as int));
            assert(now.last() == steps@[i as int]);
            assert(out@ =~= choices_text(now));
        }
        i = i + 1;
    }
    assert(steps@.take(steps@.len() as int) =~= steps@);
    out
}

fn put_terms(out: &mut String, log: &Vec<LogEntryValue>, commit_index: i32)
    ensures
        final(out)@ == old(out)@ + terms_text(log@, commit_index),
{
    let mut i: usize = 0;
    assert(out@ =~= old(out)@ + terms_text(log@.take(0), commit_index));
    while i < log.len()
        invariant
            i <= log@.len(),
            out@ == old(out)@ + terms_text(log@.take(i as int), commit_index),
        decreases log@.len() - i,
    {
        let term: i32 = log[i].ent.term;
        out.append(" ");
        if i as i32 == commit_index {
            put_aligned(out, term, 2);
            out.append("C");
        } else {
            put_aligned(out, term, 3);
        }
        proof {
            let now = log@.take(i + 1);
            assert(now.drop_last() =~= log@.take(i as int));
            assert(now.last() == log@[i as int]);
            assert(out@ =~= old(out)@ + terms_text(now, commit_index));
        }
        i = i + 1;
    }
    assert(log@.take(log@.len() as int) =~= log@);
}

/// Appends the lines that show a node.
pub fn put_node(out: &mut String, node: &RaftNode, crashed: bool)
    ensures
        final(out)@ == old(out)@ + node_text(node@, crashed),
{
    put_int(out, node.id);
    out.append(" :: ");
    if crashed {
        out.append("X");
    } else {
        out.append(node.state.one_letter());
    }
    out.append(" at ");
    put_int(out, node.current_term);
    out.append("\n    voted_for: ");
    put_vote(out, node.voted_for);
    out.append(", votes_received: [");
    put_ints(out, &node.votes_received);
    out.append("]\n    logs:[");
    put_terms(out, &node.log, node.commit_index);
    out.append("]\n");
    assert(out@ =~= old(out)@ + node_text(node@, crashed));
}

} // verus!
