//! How numbers, entries, messages, steps, nodes and the world are shown, and that what is shown
//! tells them apart.

use vstd::prelude::*;

use crate::command::is_digit;
use crate::message::{LogEntry, LogEntryValue, MessageDataView, MessageView};
use crate::node::NodeState;
use crate::node_model::NodeView;
use crate::step::WorldStep;
use crate::text::{
    aligned_text, bool_text, choices_text, data_text, digit_text, entries_text, entry_text,
    entry_value_text, heading_text, int_text, ints_text, last_text, message_text, messages_text,
    nat_text, node_text, nodes_text, spaces, step_text, terms_text, vote_text, world_text,
};
use crate::text_laws::nat_text_reads_back;
use crate::world_model::WorldView;

verus! {

proof fn lemma_digit_shown(d: nat)
    requires
        d < 10,
    ensures
        digit_text(d as u64).len() == 1,
        digit_text(d as u64)[0] as u32 == 48 + d,
{
    reveal_strlit("0");
    reveal_strlit("1");
    reveal_strlit("2");
    reveal_strlit("3");
    reveal_strlit("4");
    reveal_strlit("5");
    reveal_strlit("6");
    reveal_strlit("7");
    reveal_strlit("8");
    reveal_strlit("9");
}

/// Numbers are shown in decimal: a digit by its character, ten times a number plus a digit by
/// what shows the number and then the digit, and a negative number behind a minus.
pub proof fn numbers_are_shown_in_decimal(x: nat, d: nat)
    requires
        d < 10,
    ensures
        nat_text(d).len() == 1,
        nat_text(d)[0] as u32 == 48 + d,
        x > 0 ==> nat_text(10 * x + d) == nat_text(x) + nat_text(d),
        int_text(x as int) == nat_text(x),
        x > 0 ==> int_text(-(x as int)) == seq!['-'] + nat_text(x),
{
    lemma_digit_shown(d);
    if x > 0 {
        let y = 10 * x + d;
        assert(y / 10 == x);
        assert(y % 10 == d);
        assert(nat_text(y) == nat_text(x) + digit_text(d as u64));
        reveal_strlit("-");
        assert("-"@ =~= seq!['-']);
    }
}

/// Numbers are shown without leading zeros: only zero starts with one.
pub proof fn numbers_have_no_leading_zeros(x: nat)
    requires
        x > 0,
    ensures
        nat_text(x)[0] != '0',
    decreases x,
{
    nat_text_reads_back(x);
    lemma_digit_shown(x % 10);
    if x >= 10 {
        nat_text_reads_back(x / 10);
        numbers_have_no_leading_zeros(x / 10);
        assert(nat_text(x)[0] == nat_text(x / 10)[0]);
    }
}

/// What shows an integer holds digits only, but for a minus in front.
pub proof fn lemma_int_chars(x: int)
    ensures
        int_text(x).len() > 0,
        forall|i: int| 0 <= i < int_text(x).len() ==> is_digit(#[trigger] int_text(x)[i]) || int_text(x)[i] == '-',
        is_digit(int_text(x).last()),
        x >= 0 ==> is_digit(int_text(x)[0]),
        x < 0 ==> int_text(x)[0] == '-',
{
    reveal_strlit("-");
    let s = int_text(x);
    if x < 0 {
        let digits = nat_text((-x) as nat);
        nat_text_reads_back((-x) as nat);
        assert(s =~= seq!['-'] + digits);
        assert forall|i: int| 0 <= i < s.len() implies is_digit(#[trigger] s[i]) || s[i] == '-' by {
            if i > 0 {
                assert(is_digit(digits[i - 1]));
            }
        }
        assert(s.last() == digits[digits.len() - 1]);
        assert(is_digit(digits[digits.len() - 1]));
    } else {
        nat_text_reads_back(x as nat);
        assert(is_digit(s[0]));
        assert(is_digit(s[s.len() - 1]));
    }
}

/// Different integers are shown differently.
pub proof fn different_numbers_look_different(x: int, y: int)
    ensures
        int_text(x) == int_text(y) ==> x == y,
{
    if int_text(x) == int_text(y) {
        lemma_int_chars(x);
        lemma_int_chars(y);
        reveal_strlit("-");
        if x < 0 {
            let a = nat_text((-x) as nat);
            let b = nat_text((-y) as nat);
            nat_text_reads_back((-x) as nat);
            nat_text_reads_back((-y) as nat);
            assert(int_text(x).skip(1) =~= a);
            assert(int_text(y).skip(1) =~= b);
        } else {
            nat_text_reads_back(x as nat);
            nat_text_reads_back(y as nat);
        }
    }
}

/// Truth values are shown by their names.
pub proof fn truth_values_are_shown_by_name(b: bool)
    ensures
        bool_text(true) == "true"@,
        bool_text(false) == "false"@,
        bool_text(b) == "true"@ <==> b,
{
    reveal_strlit("true");
    reveal_strlit("false");
}

/// Space is made of spaces, as many as asked for.
pub proof fn spaces_are_spaces(n: nat)
    ensures
        spaces(n).len() == n,
        forall|i: int| 0 <= i < n ==> #[trigger] spaces(n)[i] == ' ',
    decreases n,
{
    reveal_strlit(" ");
    if n > 0 {
        spaces_are_spaces((n - 1) as nat);
        let before = spaces((n - 1) as nat);
        assert forall|i: int| 0 <= i < n implies #[trigger] spaces(n)[i] == ' ' by {
            if i < n - 1 {
                assert(spaces(n)[i] == before[i]);
            }
        }
    }
}

/// An aligned number ends in the number, has nothing but spaces before it, and is as wide as
/// asked for, or as wide as the number where that is wider.
pub proof fn aligned_numbers_end_in_the_number(x: int, width: nat)
    ensures
        ({
            let s = aligned_text(x, width);
            let digits = int_text(x);
            let pad = s.len() - digits.len();
            &&& s.len() == (if digits.len() >= width {
                digits.len()
            } else {
                width
            })
            &&& s.skip(pad) == digits
            &&& forall|i: int| 0 <= i < pad ==> #[trigger] s[i] == ' '
        }),
{
    let s = aligned_text(x, width);
    let digits = int_text(x);
    let pad = s.len() - digits.len();
    if digits.len() < width {
        spaces_are_spaces((width - digits.len()) as nat);
        let front = spaces((width - digits.len()) as nat);
        assert(s == front + digits);
        assert forall|i: int| 0 <= i < pad implies #[trigger] s[i] == ' ' by {
            assert(s[i] == front[i]);
        }
    }
    assert(s.skip(pad) =~= digits);
}

/// A list of integers shows them in order, with a comma and a space between two.
pub proof fn lists_of_numbers_are_joined_by_commas(s: Seq<i32>, x: i32)
    ensures
        ints_text(Seq::empty()) == Seq::<char>::empty(),
        ints_text(seq![x]) == int_text(x as int),
        s.len() > 0 ==> ints_text(s.push(x)) == ints_text(s) + seq![',', ' '] + int_text(x as int),
{
    reveal_strlit(", ");
    assert(", "@ =~= seq![',', ' ']);
    assert(s.push(x).drop_last() =~= s);
    assert(s.push(x).last() == x);
}

/// A list of entries shows them in order, with a comma and a space between two.
pub proof fn lists_of_entries_are_joined_by_commas(s: Seq<LogEntryValue>, e: LogEntryValue)
    ensures
        entries_text(Seq::empty()) == Seq::<char>::empty(),
        entries_text(seq![e]) == entry_value_text(e),
        s.len() > 0 ==> entries_text(s.push(e)) == entries_text(s) + seq![',', ' ']
            + entry_value_text(e),
{
    reveal_strlit(", ");
    assert(", "@ =~= seq![',', ' ']);
    assert(s.push(e).drop_last() =~= s);
    assert(s.push(e).last() == e);
}

/// A vote is shown by the candidate's number, and a missing one as such.
pub proof fn votes_are_shown_by_candidate(x: i32)
    ensures
        vote_text(None) == "None"@,
        vote_text(Some(x)) == "Some("@ + int_text(x as int) + ")"@,
{
}

/// An entry is shown by term and index, in this order, and with its value behind them where it
/// has one.
pub proof fn entries_are_shown_by_term_and_index(e: LogEntry, val: i32)
    ensures
        entry_text(e) == "LogEntry { term: "@ + int_text(e.term as int) + ", index: "@ + int_text(
            e.index as int,
        ) + " }"@,
        entry_value_text(LogEntryValue { ent: e, val }) == "LogEntryValue { ent: "@ + (
        "LogEntry { term: "@ + int_text(e.term as int) + ", index: "@ + int_text(e.index as int)
            + " }"@) + ", val: "@ + int_text(val as int) + " }"@,
        last_text(Some(e)) == "Some("@ + ("LogEntry { term: "@ + int_text(e.term as int)
            + ", index: "@ + int_text(e.index as int) + " }"@) + ")"@,
        last_text(None) == "None"@,
{
}

/// A message is shown by sender, destination and contents, each under its name and in the order
/// in which they are declared.
pub proof fn messages_are_shown_field_by_field(
    from: i32,
    to: i32,
    term: i32,
    id: i32,
    e: LogEntry,
    yes: bool,
    entries: Seq<LogEntryValue>,
    commit: i32,
    last: Option<LogEntry>,
    data: MessageDataView,
)
    ensures
        message_text(MessageView { from, to, data }) == "Message { from: "@ + int_text(from as int)
            + ", to: "@ + int_text(to as int) + ", data: "@ + data_text(data) + " }"@,
        data_text(MessageDataView::RequestVoteRequest { term, cand_id: id, last: e })
            == "RequestVoteRequest { term: "@ + int_text(term as int) + ", cand_id: "@ + int_text(
            id as int,
        ) + ", last: "@ + entry_text(e) + " }"@,
        data_text(MessageDataView::RequestVoteResponse { term, granted: yes })
            == "RequestVoteResponse { term: "@ + int_text(term as int) + ", granted: "@ + bool_text(
            yes,
        ) + " }"@,
        data_text(
            MessageDataView::AppendEntriesRequest {
                term,
                leader_id: id,
                prev: e,
                entries,
                leader_commit: commit,
            },
        ) == "AppendEntriesRequest { term: "@ + int_text(term as int) + ", leader_id: "@ + int_text(
            id as int,
        ) + ", prev: "@ + entry_text(e) + ", entries: ["@ + entries_text(entries)
            + "], leader_commit: "@ + int_text(commit as int) + " }"@,
        data_text(MessageDataView::AppendEntriesResponse { term, success: yes, last })
            == "AppendEntriesResponse { term: "@ + int_text(term as int) + ", success: "@
            + bool_text(yes) + ", last: "@ + last_text(last) + " }"@,
{
}

/// A step is shown by its kind and its node, and by the value, destination or message that it
/// names besides.
pub proof fn steps_are_shown_field_by_field(id: i32, x: i32, m: usize)
    ensures
        step_text(WorldStep::Crash { id }) == "Crash { id: "@ + int_text(id as int) + " }"@,
        step_text(WorldStep::Restart { id }) == "Restart { id: "@ + int_text(id as int) + " }"@,
        step_text(WorldStep::HeartBeatTimeout { id }) == "HeartBeatTimeout { id: "@ + int_text(
            id as int,
        ) + " }"@,
        step_text(WorldStep::ClientRequest { id, value: x }) == "ClientRequest { id: "@ + int_text(
            id as int,
        ) + ", value: "@ + int_text(x as int) + " }"@,
        step_text(WorldStep::SendAppendEntries { id, dest: x }) == "SendAppendEntries { id: "@
            + int_text(id as int) + ", dest: "@ + int_text(x as int) + " }"@,
        step_text(WorldStep::SendRequestVote { id, dest: x }) == "SendRequestVote { id: "@
            + int_text(id as int) + ", dest: "@ + int_text(x as int) + " }"@,
        step_text(WorldStep::RecvRequestVoteRequest { id, msg_idx: m })
            == "RecvRequestVoteRequest { id: "@ + int_text(id as int) + ", msg_idx: "@ + int_text(
            m as int,
        ) + " }"@,
        step_text(WorldStep::RecvRequestVoteResponse { id, msg_idx: m })
            == "RecvRequestVoteResponse { id: "@ + int_text(id as int) + ", msg_idx: "@ + int_text(
            m as int,
        ) + " }"@,
        step_text(WorldStep::RecvAppendEntriesRequest { id, msg_idx: m })
            == "RecvAppendEntriesRequest { id: "@ + int_text(id as int) + ", msg_idx: "@ + int_text(
            m as int,
        ) + " }"@,
        step_text(WorldStep::RecvAppendEntriesResponse { id, msg_idx: m })
            == "RecvAppendEntriesResponse { id: "@ + int_text(id as int) + ", msg_idx: "@ + int_text(
            m as int,
        ) + " }"@,
{
    assert(step_text(WorldStep::Crash { id }) =~= "Crash { id: "@ + int_text(id as int) + " }"@);
    assert(step_text(WorldStep::Restart { id }) =~= "Restart { id: "@ + int_text(id as int) + " }"@);
    assert(step_text(WorldStep::HeartBeatTimeout { id }) =~= "HeartBeatTimeout { id: "@ + int_text(
        id as int,
    ) + " }"@);
    assert(step_text(WorldStep::ClientRequest { id, value: x }) =~= "ClientRequest { id: "@
        + int_text(id as int) + ", value: "@ + int_text(x as int) + " }"@);
    assert(step_text(WorldStep::SendAppendEntries { id, dest: x }) =~= "SendAppendEntries { id: "@
        + int_text(id as int) + ", dest: "@ + int_text(x as int) + " }"@);
    assert(step_text(WorldStep::SendRequestVote { id, dest: x }) =~= "SendRequestVote { id: "@
        + int_text(id as int) + ", dest: "@ + int_text(x as int) + " }"@);
    assert(step_text(WorldStep::RecvRequestVoteRequest { id, msg_idx: m })
        =~= "RecvRequestVoteRequest { id: "@ + int_text(id as int) + ", msg_idx: "@ + int_text(
        m as int,
    ) + " }"@);
    assert(step_text(WorldStep::RecvRequestVoteResponse { id, msg_idx: m })
        =~= "RecvRequestVoteResponse { id: "@ + int_text(id as int) + ", msg_idx: "@ + int_text(
        m as int,
    ) + " }"@);
    assert(step_text(WorldStep::RecvAppendEntriesRequest { id, msg_idx: m })
        =~= "RecvAppendEntriesRequest { id: "@ + int_text(id as int) + ", msg_idx: "@ + int_text(
        m as int,
    ) + " }"@);
    assert(step_text(WorldStep::RecvAppendEntriesResponse { id, msg_idx: m })
        =~= "RecvAppendEntriesResponse { id: "@ + int_text(id as int) + ", msg_idx: "@ + int_text(
        m as int,
    ) + " }"@);
}

/// The choices are shown one to a line, each behind its position in the list.
pub proof fn choices_are_numbered_lines(steps: Seq<WorldStep>, step: WorldStep)
    ensures
        choices_text(Seq::empty()) == Seq::<char>::empty(),
        choices_text(steps.push(step)) == choices_text(steps) + ("[CHOICE "@ + int_text(
            steps.len() as int,
        ) + "]: "@ + step_text(step) + "\n"@),
{
    assert(steps.push(step).drop_last() =~= steps);
    assert(steps.push(step).last() == step);
}

/// A log is shown by the terms of its entries, in order, each four characters wide or wider;
/// the last of these is a C for the entry at the commit index, and a digit for any other.
pub proof fn logs_are_shown_by_terms(log: Seq<LogEntryValue>, e: LogEntryValue, commit_index: i32)
    requires
        log.len() <= i32::MAX,
    ensures
        terms_text(Seq::empty(), commit_index) == Seq::<char>::empty(),
        ({
            let term = int_text(e.ent.term as int);
            let marked = commit_index == log.len();
            let before = terms_text(log, commit_index);
            let shown = terms_text(log.push(e), commit_index);
            let cell = shown.skip(before.len() as int);
            let width = if marked {
                term.len() + 1
            } else {
                term.len()
            };
            &&& shown == before + cell
            &&& cell.len() == (if width < 3 {
                4
            } else {
                width + 1
            })
            &&& marked ==> cell.last() == 'C' && cell.drop_last().skip(cell.len() - width) == term
            &&& !marked ==> cell.skip(cell.len() - width) == term
            &&& forall|i: int| 0 <= i < cell.len() - width ==> #[trigger] cell[i] == ' '
        }),
{
    reveal_strlit(" ");
    reveal_strlit("C");
    let t = e.ent.term as int;
    let term = int_text(t);
    let before = terms_text(log, commit_index);
    let shown = terms_text(log.push(e), commit_index);
    let cell = shown.skip(before.len() as int);
    assert(log.push(e).drop_last() =~= log);
    assert(log.push(e).last() == e);
    aligned_numbers_end_in_the_number(t, 2);
    aligned_numbers_end_in_the_number(t, 3);
    if commit_index == log.len() {
        let a = aligned_text(t, 2);
        assert(cell =~= " "@ + a + "C"@);
        assert(cell.last() == 'C');
        let width = term.len() + 1;
        assert(cell.drop_last().skip(cell.len() - width) =~= a.skip(a.len() - term.len()));
        assert forall|i: int| 0 <= i < cell.len() - width implies #[trigger] cell[i] == ' ' by {
            if i > 0 {
                assert(cell[i] == a[i - 1]);
            }
        }
    } else {
        let a = aligned_text(t, 3);
        assert(cell =~= " "@ + a);
        let width = term.len();
        assert(cell.skip(cell.len() - width) =~= a.skip(a.len() - term.len()));
        assert forall|i: int| 0 <= i < cell.len() - width implies #[trigger] cell[i] == ' ' by {
            if i > 0 {
                assert(cell[i] == a[i - 1]);
            }
        }
    }
    assert(shown =~= before + cell);
}

/// A node is shown by its number, its state and its term, then by its vote and the votes that it
/// counts, then by its log.
pub proof fn nodes_are_shown_in_three_lines(node: NodeView, crashed: bool)
    ensures
        node_text(node, crashed) == int_text(node.id as int) + " :: "@ + (if crashed {
            "X"@
        } else {
            match node.state {
                NodeState::Follower => "F"@,
                NodeState::Candidate => "C"@,
                NodeState::Leader => "L"@,
            }
        }) + " at "@ + int_text(node.current_term as int) + "\n    voted_for: "@ + vote_text(
            node.voted_for,
        ) + ", votes_received: ["@ + ints_text(node.votes_received) + "]\n    logs:["@ + terms_text(
            node.log,
            node.commit_index,
        ) + "]\n"@,
{
}

/// The nodes are shown one after the other, each as crashed if and only if it is among those
/// that are down, and the messages one to a line, in the order in which they were sent.
pub proof fn nodes_and_messages_are_shown_in_order(
    nodes: Seq<NodeView>,
    node: NodeView,
    crashed: Seq<i32>,
    msgs: Seq<MessageView>,
    m: MessageView,
)
    ensures
        nodes_text(Seq::empty(), crashed) == Seq::<char>::empty(),
        nodes_text(nodes.push(node), crashed) == nodes_text(nodes, crashed) + node_text(
            node,
            exists|k: int| 0 <= k < crashed.len() && crashed[k] == node.id,
        ),
        messages_text(Seq::empty()) == Seq::<char>::empty(),
        messages_text(msgs.push(m)) == messages_text(msgs) + message_text(m) + "\n"@,
{
    assert(nodes.push(node).drop_last() =~= nodes);
    assert(nodes.push(node).last() == node);
    assert(msgs.push(m).drop_last() =~= msgs);
    assert(msgs.push(m).last() == m);
    assert(messages_text(msgs.push(m)) =~= messages_text(msgs) + message_text(m) + "\n"@);
    assert(crashed.contains(node.id) <==> exists|k: int|
        0 <= k < crashed.len() && crashed[k] == node.id);
}

/// The world is shown by its nodes and by the messages in flight, between three headings; the
/// next step is announced by its number.
pub proof fn the_world_is_shown_between_headings(w: WorldView, n_steps: nat)
    ensures
        world_text(w) == "[dump nodes] ==========\n"@ + nodes_text(w.nodes, w.crashed)
            + "[dump network] ==========\n"@ + messages_text(w.msgs)
            + "[end of dump] ==========\n"@,
        heading_text(n_steps) == "\n[next step is "@ + int_text(n_steps as int) + "] ==========\n"@,
{
}

} // verus!
