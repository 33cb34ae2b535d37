//! What is shown can be read back: different nodes, messages and steps look different.

use vstd::prelude::*;

use crate::command::is_digit;
use crate::format_laws::{
    aligned_numbers_end_in_the_number, different_numbers_look_different, lemma_int_chars,
};
use crate::message::{LogEntry, LogEntryValue, MessageDataView, MessageView};
use crate::node::NodeState;
use crate::node_model::NodeView;
use crate::step::WorldStep;
use crate::text::{
    aligned_text, bool_text, data_text, detail_text, entries_text, entry_text, entry_value_text,
    int_text, ints_text, kind_text, last_text, message_text, node_text, step_text, terms_text,
    vote_text,
};

verus! {

/// The character does not occur.
spec fn without(s: Seq<char>, c: char) -> bool {
    forall|i: int| 0 <= i < s.len() ==> #[trigger] s[i] != c
}

/// The text starts with the character.
spec fn starts(s: Seq<char>, c: char) -> bool {
    s.len() > 0 && s[0] == c
}

/// Texts that go on with the same character, which they do not hold before, agree before it
/// and behind it.
proof fn lemma_part_at(p: Seq<char>, r: Seq<char>, q: Seq<char>, t: Seq<char>, c: char)
    requires
        p + r == q + t,
        without(p, c),
        without(q, c),
        starts(r, c),
        starts(t, c),
    ensures
        p == q,
        r == t,
{
    if p.len() < q.len() {
        assert((p + r)[p.len() as int] == c);
        assert((q + t)[p.len() as int] == q[p.len() as int]);
    }
    if q.len() < p.len() {
        assert((q + t)[q.len() as int] == c);
        assert((p + r)[q.len() as int] == p[q.len() as int]);
    }
    lemma_part_even(p, r, q, t);
}

/// Texts whose first parts are equally long agree in both parts.
proof fn lemma_part_even(p: Seq<char>, r: Seq<char>, q: Seq<char>, t: Seq<char>)
    requires
        p + r == q + t,
        p.len() == q.len(),
    ensures
        p == q,
        r == t,
{
    assert(p =~= (p + r).take(p.len() as int));
    assert(q =~= (q + t).take(q.len() as int));
    assert(r =~= (p + r).skip(p.len() as int));
    assert(t =~= (q + t).skip(q.len() as int));
}

/// It does not matter how three parts of a text are grouped.
proof fn lemma_regroup(p: Seq<char>, q: Seq<char>, r: Seq<char>)
    ensures
        (p + q) + r == p + (q + r),
{
    assert((p + q) + r =~= p + (q + r));
}

proof fn lemma_int_without(x: int, c: char)
    requires
        !is_digit(c),
        c != '-',
    ensures
        without(int_text(x), c),
{
    lemma_int_chars(x);
}

/// A number that goes on with a character which is not part of it can be read off the front.
proof fn lemma_read_int(x: int, r: Seq<char>, y: int, t: Seq<char>, c: char)
    requires
        int_text(x) + r == int_text(y) + t,
        starts(r, c),
        starts(t, c),
        !is_digit(c),
        c != '-',
    ensures
        x == y,
        r == t,
{
    lemma_int_without(x, c);
    lemma_int_without(y, c);
    lemma_part_at(int_text(x), r, int_text(y), t, c);
    different_numbers_look_different(x, y);
}

proof fn lemma_read_vote(v: Option<i32>, r: Seq<char>, u: Option<i32>, t: Seq<char>)
    requires
        vote_text(v) + r == vote_text(u) + t,
    ensures
        v == u,
        r == t,
{
    reveal_strlit("None");
    reveal_strlit("Some(");
    reveal_strlit(")");
    assert((vote_text(v) + r)[0] == vote_text(v)[0]);
    assert((vote_text(u) + t)[0] == vote_text(u)[0]);
    match (v, u) {
        (Some(x), Some(y)) => {
            let a = int_text(x as int) + (")"@ + r);
            let b = int_text(y as int) + (")"@ + t);
            assert(vote_text(v) + r =~= "Some("@ + a);
            assert(vote_text(u) + t =~= "Some("@ + b);
            lemma_part_even("Some("@, a, "Some("@, b);
            lemma_read_int(x as int, ")"@ + r, y as int, ")"@ + t, ')');
            lemma_part_even(")"@, r, ")"@, t);
        },
        (None, None) => {
            lemma_part_even("None"@, r, "None"@, t);
        },
        _ => {
            assert(vote_text(v)[0] != vote_text(u)[0]);
        },
    }
}

proof fn lemma_ints_chars(s: Seq<i32>)
    ensures
        without(ints_text(s), ']'),
        s.len() > 0 ==> ints_text(s).len() > 0,
        s.len() == 1 ==> without(ints_text(s), ' '),
        s.len() > 1 ==> exists|i: int| 0 <= i < ints_text(s).len() && ints_text(s)[i] == ' ',
    decreases s.len(),
{
    reveal_strlit(", ");
    if s.len() == 1 {
        lemma_int_chars(s[0] as int);
    } else if s.len() > 1 {
        let front = ints_text(s.drop_last());
        let last = int_text(s.last() as int);
        lemma_ints_chars(s.drop_last());
        lemma_int_chars(s.last() as int);
        let all = ints_text(s);
        assert(all == front + ", "@ + last);
        assert(all[front.len() as int + 1] == ' ');
        assert forall|i: int| 0 <= i < all.len() implies #[trigger] all[i] != ']' by {
            if i < front.len() {
                assert(all[i] == front[i]);
            } else if i >= front.len() + 2 {
                assert(all[i] == last[i - front.len() - 2]);
            }
        }
    }
}

/// Texts that end in a part without the character that stands before it agree in that part
/// and before it.
proof fn lemma_part_from_behind(p: Seq<char>, r: Seq<char>, q: Seq<char>, t: Seq<char>, c: char)
    requires
        p + r == q + t,
        p.len() > 0,
        q.len() > 0,
        p.last() == c,
        q.last() == c,
        without(r, c),
        without(t, c),
    ensures
        p == q,
        r == t,
{
    assert((p + r).len() == p.len() + r.len());
    assert((q + t).len() == q.len() + t.len());
    if p.len() < q.len() {
        assert((q + t)[q.len() - 1] == c);
        assert((p + r)[q.len() - 1] == r[q.len() - 1 - p.len()]);
    }
    if q.len() < p.len() {
        assert((p + r)[p.len() - 1] == c);
        assert((q + t)[p.len() - 1] == t[p.len() - 1 - q.len()]);
    }
    lemma_part_even(p, r, q, t);
}

/// Different lists of numbers look different.
pub proof fn different_lists_look_different(a: Seq<i32>, b: Seq<i32>)
    requires
        ints_text(a) == ints_text(b),
    ensures
        a == b,
    decreases a.len(),
{
    reveal_strlit(", ");
    lemma_ints_chars(a);
    lemma_ints_chars(b);
    if a.len() == 0 || b.len() == 0 {
        assert(a =~= b);
    } else if a.len() == 1 || b.len() == 1 {
        assert(a.len() == 1 && b.len() == 1);
        different_numbers_look_different(a[0] as int, b[0] as int);
        assert(a =~= b);
    } else {
        let x = a.last() as int;
        let y = b.last() as int;
        let p = ints_text(a.drop_last());
        let q = ints_text(b.drop_last());
        lemma_int_without(x, ' ');
        lemma_int_without(y, ' ');
        lemma_part_from_behind(p + ", "@, int_text(x), q + ", "@, int_text(y), ' ');
        different_numbers_look_different(x, y);
        assert(p =~= (p + ", "@).take(p.len() as int));
        assert(q =~= (q + ", "@).take(q.len() as int));
        different_lists_look_different(a.drop_last(), b.drop_last());
        assert(a =~= a.drop_last().push(a.last()));
        assert(b =~= b.drop_last().push(b.last()));
    }
}

/// One entry of a log as it is shown: spaces, the term, and perhaps a mark.
proof fn lemma_term_shown(log: Seq<LogEntryValue>, commit_index: i32) -> (r: (Seq<char>, Seq<char>))
    requires
        log.len() > 0,
    ensures
        ({
            let term = int_text(log.last().ent.term as int);
            let marked = (log.len() - 1) as i32 == commit_index;
            &&& terms_text(log, commit_index) == r.0 + r.1
            &&& r.1 == (if marked {
                term.push('C')
            } else {
                term
            })
            &&& r.0.len() > 0
            &&& r.0.last() == ' '
            &&& without(r.1, ' ')
            &&& without(r.1, ']')
            &&& r.0.len() == terms_text(log.drop_last(), commit_index).len() + (if marked {
                if term.len() < 2 {
                    3 - term.len()
                } else {
                    1int
                }
            } else {
                if term.len() < 3 {
                    4 - term.len()
                } else {
                    1int
                }
            })
            &&& r.0.take(terms_text(log.drop_last(), commit_index).len() as int) == terms_text(
                log.drop_last(),
                commit_index,
            )
            &&& forall|i: int|
                terms_text(log.drop_last(), commit_index).len() <= i < r.0.len() ==> #[trigger] r.0[i]
                    == ' '
        }),
{
    reveal_strlit(" ");
    reveal_strlit("C");
    let t = log.last().ent.term as int;
    let term = int_text(t);
    let marked = (log.len() - 1) as i32 == commit_index;
    let before = terms_text(log.drop_last(), commit_index);
    let all = terms_text(log, commit_index);
    lemma_int_chars(t);
    let width: nat = if marked {
        2
    } else {
        3
    };
    aligned_numbers_end_in_the_number(t, width);
    let a = aligned_text(t, width);
    let pad = a.len() - term.len();
    let p = before + " "@ + a.take(pad);
    let q = if marked {
        term.push('C')
    } else {
        term
    };
    assert(a =~= a.take(pad) + a.skip(pad));
    assert(all =~= p + q);
    assert(p.take(before.len() as int) =~= before);
    assert forall|i: int| before.len() <= i < p.len() implies #[trigger] p[i] == ' ' by {
        if i > before.len() {
            assert(p[i] == a[i - before.len() - 1]);
        }
    }
    (p, q)
}

proof fn lemma_terms_chars(log: Seq<LogEntryValue>, commit_index: i32)
    ensures
        without(terms_text(log, commit_index), ']'),
        log.len() > 0 ==> terms_text(log, commit_index).len() > 0,
    decreases log.len(),
{
    if log.len() > 0 {
        let (p, q) = lemma_term_shown(log, commit_index);
        lemma_terms_chars(log.drop_last(), commit_index);
        let before = terms_text(log.drop_last(), commit_index);
        let all = terms_text(log, commit_index);
        assert forall|i: int| 0 <= i < all.len() implies #[trigger] all[i] != ']' by {
            if i < before.len() {
                assert(all[i] == p[i]);
                assert(p[i] == p.take(before.len() as int)[i]);
            } else if i < p.len() {
                assert(all[i] == p[i]);
            } else {
                assert(all[i] == q[i - p.len()]);
            }
        }
    }
}

/// Logs that look the same have entries of the same terms, and the same entry marked.
pub proof fn different_logs_look_different(
    a: Seq<LogEntryValue>,
    ca: i32,
    b: Seq<LogEntryValue>,
    cb: i32,
)
    requires
        terms_text(a, ca) == terms_text(b, cb),
    ensures
        a.len() == b.len(),
        forall|k: int| 0 <= k < a.len() ==> (#[trigger] a[k]).ent.term == b[k].ent.term,
        forall|k: int| 0 <= k < a.len() ==> (#[trigger] (k as i32) == ca <==> k as i32 == cb),
    decreases a.len(),
{
    lemma_terms_chars(a, ca);
    lemma_terms_chars(b, cb);
    if a.len() > 0 && b.len() > 0 {
        let (p, q) = lemma_term_shown(a, ca);
        let (r, t) = lemma_term_shown(b, cb);
        lemma_part_from_behind(p, q, r, t, ' ');
        let x = a.last().ent.term as int;
        let y = b.last().ent.term as int;
        lemma_int_chars(x);
        lemma_int_chars(y);
        let ma = (a.len() - 1) as i32 == ca;
        let mb = (b.len() - 1) as i32 == cb;
        assert(ma == (q.last() == 'C'));
        assert(mb == (t.last() == 'C'));
        if ma {
            assert(int_text(x) =~= q.drop_last());
            assert(int_text(y) =~= t.drop_last());
        }
        assert(int_text(x) == int_text(y));
        different_numbers_look_different(x, y);
        assert(terms_text(a.drop_last(), ca).len() == terms_text(b.drop_last(), cb).len());
        different_logs_look_different(a.drop_last(), ca, b.drop_last(), cb);
        assert forall|k: int| 0 <= k < a.len() implies (#[trigger] a[k]).ent.term == b[k].ent.term by {
            if k < a.len() - 1 {
                assert(a.drop_last()[k] == a[k]);
                assert(b.drop_last()[k] == b[k]);
            }
        }
    }
}

/// The text of a node from behind its state on.
spec fn text_behind_state(node: NodeView) -> Seq<char> {
    " at "@ + (int_text(node.current_term as int) + ("\n    voted_for: "@ + (vote_text(
        node.voted_for,
    ) + (", votes_received: ["@ + (ints_text(node.votes_received) + ("]\n    logs:["@ + (terms_text(
        node.log,
        node.commit_index,
    ) + "]\n"@)))))))
}

spec fn state_shown(node: NodeView, crashed: bool) -> Seq<char> {
    if crashed {
        "X"@
    } else {
        node.state.letter()
    }
}

proof fn lemma_node_text(node: NodeView, crashed: bool)
    ensures
        node_text(node, crashed) == int_text(node.id as int) + (" :: "@ + (state_shown(node, crashed)
            + text_behind_state(node))),
{
    let id = int_text(node.id as int);
    let state = state_shown(node, crashed);
    let term = int_text(node.current_term as int);
    let vote = vote_text(node.voted_for);
    let votes = ints_text(node.votes_received);
    let log = terms_text(node.log, node.commit_index);
    let p1 = id + " :: "@;
    let p2 = p1 + state;
    let p3 = p2 + " at "@;
    let p4 = p3 + term;
    let p5 = p4 + "\n    voted_for: "@;
    let p6 = p5 + vote;
    let p7 = p6 + ", votes_received: ["@;
    let p8 = p7 + votes;
    let p9 = p8 + "]\n    logs:["@;
    let q9 = log + "]\n"@;
    let q8 = "]\n    logs:["@ + q9;
    let q7 = votes + q8;
    let q6 = ", votes_received: ["@ + q7;
    let q5 = vote + q6;
    let q4 = "\n    voted_for: "@ + q5;
    let q3 = term + q4;
    let q2 = " at "@ + q3;
    assert(node_text(node, crashed) == (p9 + log) + "]\n"@);
    lemma_regroup(p9, log, "]\n"@);
    lemma_regroup(p8, "]\n    logs:["@, q9);
    lemma_regroup(p7, votes, q8);
    lemma_regroup(p6, ", votes_received: ["@, q7);
    lemma_regroup(p5, vote, q6);
    lemma_regroup(p4, "\n    voted_for: "@, q5);
    lemma_regroup(p3, term, q4);
    lemma_regroup(p2, " at "@, q3);
    lemma_regroup(p1, state, q2);
    lemma_regroup(id, " :: "@, state + q2);
}

proof fn lemma_state_shown(node: NodeView, crashed: bool)
    ensures
        state_shown(node, crashed).len() == 1,
        state_shown(node, crashed)[0] == (if crashed {
            'X'
        } else {
            match node.state {
                NodeState::Follower => 'F',
                NodeState::Candidate => 'C',
                NodeState::Leader => 'L',
            }
        }),
{
    reveal_strlit("X");
    reveal_strlit("F");
    reveal_strlit("C");
    reveal_strlit("L");
}

/// A crash changes one character of what shows a node: the letter of its state becomes an X.
/// Its number, its term, its vote, the votes that it counts and its log stay in sight.
pub proof fn crashes_change_one_letter(node: NodeView)
    ensures
        ({
            let up = node_text(node, false);
            let down = node_text(node, true);
            let at = int_text(node.id as int).len() as int + 4;
            &&& up.len() == down.len()
            &&& 0 <= at < up.len()
            &&& forall|i: int| 0 <= i < up.len() && i != at ==> #[trigger] up[i] == down[i]
            &&& down[at] == 'X'
            &&& up[at] == (match node.state {
                NodeState::Follower => 'F',
                NodeState::Candidate => 'C',
                NodeState::Leader => 'L',
            })
        }),
{
    reveal_strlit(" :: ");
    lemma_state_shown(node, false);
    lemma_state_shown(node, true);
    lemma_node_text(node, false);
    lemma_node_text(node, true);
}

/// Nodes that look the same are the same in all that is shown: number, state, term, vote, votes,
/// the terms of the log's entries, and which of these is marked as committed.
pub proof fn different_nodes_look_different(
    a: NodeView,
    a_crashed: bool,
    b: NodeView,
    b_crashed: bool,
)
    requires
        node_text(a, a_crashed) == node_text(b, b_crashed),
    ensures
        a.id == b.id,
        a_crashed == b_crashed,
        !a_crashed ==> a.state == b.state,
        a.current_term == b.current_term,
        a.voted_for == b.voted_for,
        a.votes_received == b.votes_received,
        a.log.len() == b.log.len(),
        forall|k: int| 0 <= k < a.log.len() ==> (#[trigger] a.log[k]).ent.term == b.log[k].ent.term,
        forall|k: int|
            0 <= k < a.log.len() ==> (#[trigger] (k as i32) == a.commit_index <==> k as i32
                == b.commit_index),
{
    lemma_state_shown(a, a_crashed);
    lemma_state_shown(b, b_crashed);
    reveal_strlit(" :: ");
    reveal_strlit(" at ");
    reveal_strlit("\n    voted_for: ");
    reveal_strlit(", votes_received: [");
    reveal_strlit("]\n    logs:[");
    reveal_strlit("]\n");
    lemma_node_text(a, a_crashed);
    lemma_node_text(b, b_crashed);
    let a6 = terms_text(a.log, a.commit_index) + "]\n"@;
    let b6 = terms_text(b.log, b.commit_index) + "]\n"@;
    let a5 = ints_text(a.votes_received) + ("]\n    logs:["@ + a6);
    let b5 = ints_text(b.votes_received) + ("]\n    logs:["@ + b6);
    let a4 = vote_text(a.voted_for) + (", votes_received: ["@ + a5);
    let b4 = vote_text(b.voted_for) + (", votes_received: ["@ + b5);
    let a3 = int_text(a.current_term as int) + ("\n    voted_for: "@ + a4);
    let b3 = int_text(b.current_term as int) + ("\n    voted_for: "@ + b4);
    let a2 = state_shown(a, a_crashed) + (" at "@ + a3);
    let b2 = state_shown(b, b_crashed) + (" at "@ + b3);
    lemma_read_int(a.id as int, " :: "@ + a2, b.id as int, " :: "@ + b2, ' ');
    lemma_part_even(" :: "@, a2, " :: "@, b2);
    lemma_part_even(state_shown(a, a_crashed), " at "@ + a3, state_shown(b, b_crashed), " at "@ + b3);
    assert(state_shown(a, a_crashed)[0] == state_shown(b, b_crashed)[0]);
    lemma_part_even(" at "@, a3, " at "@, b3);
    lemma_read_int(
        a.current_term as int,
        "\n    voted_for: "@ + a4,
        b.current_term as int,
        "\n    voted_for: "@ + b4,
        '\n',
    );
    lemma_part_even("\n    voted_for: "@, a4, "\n    voted_for: "@, b4);
    lemma_read_vote(a.voted_for, ", votes_received: ["@ + a5, b.voted_for, ", votes_received: ["@ + b5);
    lemma_part_even(", votes_received: ["@, a5, ", votes_received: ["@, b5);
    lemma_ints_chars(a.votes_received);
    lemma_ints_chars(b.votes_received);
    lemma_part_at(
        ints_text(a.votes_received),
        "]\n    logs:["@ + a6,
        ints_text(b.votes_received),
        "]\n    logs:["@ + b6,
        ']',
    );
    different_lists_look_different(a.votes_received, b.votes_received);
    lemma_part_even("]\n    logs:["@, a6, "]\n    logs:["@, b6);
    lemma_terms_chars(a.log, a.commit_index);
    lemma_terms_chars(b.log, b.commit_index);
    lemma_part_at(
        terms_text(a.log, a.commit_index),
        "]\n"@,
        terms_text(b.log, b.commit_index),
        "]\n"@,
        ']',
    );
    different_logs_look_different(a.log, a.commit_index, b.log, b.commit_index);
}

/// Where the name of a kind of step ends.
spec fn name_len(step: WorldStep) -> int {
    match step {
        WorldStep::Crash { .. } => 5,
        WorldStep::Restart { .. } => 7,
        WorldStep::HeartBeatTimeout { .. } => 16,
        WorldStep::ClientRequest { .. } => 13,
        WorldStep::SendAppendEntries { .. } => 17,
        WorldStep::SendRequestVote { .. } => 15,
        WorldStep::RecvRequestVoteRequest { .. } => 22,
        WorldStep::RecvRequestVoteResponse { .. } => 23,
        WorldStep::RecvAppendEntriesRequest { .. } => 24,
        WorldStep::RecvAppendEntriesResponse { .. } => 25,
    }
}

proof fn lemma_kind_text(step: WorldStep)
    ensures
        kind_text(step).len() == name_len(step) + 7,
        kind_text(step)[name_len(step)] == ' ',
        forall|i: int| 0 <= i < name_len(step) ==> #[trigger] kind_text(step)[i] != ' ',
{
    reveal_strlit("Crash { id: ");
    reveal_strlit("Restart { id: ");
    reveal_strlit("HeartBeatTimeout { id: ");
    reveal_strlit("ClientRequest { id: ");
    reveal_strlit("SendAppendEntries { id: ");
    reveal_strlit("SendRequestVote { id: ");
    reveal_strlit("RecvRequestVoteRequest { id: ");
    reveal_strlit("RecvRequestVoteResponse { id: ");
    reveal_strlit("RecvAppendEntriesRequest { id: ");
    reveal_strlit("RecvAppendEntriesResponse { id: ");
}

/// What a step names besides its node, behind a label.
proof fn lemma_detail_text(step: WorldStep) -> (label: Seq<char>)
    ensures
        starts(detail_text(step) + " }"@, ' ') || starts(detail_text(step) + " }"@, ','),
        name_len(step) <= 7 || name_len(step) == 16 <==> starts(detail_text(step) + " }"@, ' '),
        !(name_len(step) <= 7 || name_len(step) == 16) ==> detail_text(step) == label + int_text(
            step.detail(),
        ),
        label == (if step is ClientRequest {
            ", value: "@
        } else if step is SendAppendEntries || step is SendRequestVote {
            ", dest: "@
        } else {
            ", msg_idx: "@
        }),
{
    reveal_strlit(", value: ");
    reveal_strlit(", dest: ");
    reveal_strlit(", msg_idx: ");
    reveal_strlit(" }");
    let label = if step is ClientRequest {
        ", value: "@
    } else if step is SendAppendEntries || step is SendRequestVote {
        ", dest: "@
    } else {
        ", msg_idx: "@
    };
    assert(Seq::<char>::empty() + " }"@ =~= " }"@);
    label
}

/// Different steps look different.
pub proof fn different_steps_look_different(a: WorldStep, b: WorldStep)
    requires
        step_text(a) == step_text(b),
    ensures
        a == b,
{
    lemma_kind_text(a);
    lemma_kind_text(b);
    let ra = int_text(a.actor() as int) + (detail_text(a) + " }"@);
    let rb = int_text(b.actor() as int) + (detail_text(b) + " }"@);
    assert(step_text(a) =~= kind_text(a) + ra);
    assert(step_text(b) =~= kind_text(b) + rb);
    let la = name_len(a);
    let lb = name_len(b);
    if la < lb {
        assert(step_text(a)[la] == kind_text(a)[la]);
        assert(step_text(b)[la] == kind_text(b)[la]);
    }
    if lb < la {
        assert(step_text(a)[lb] == kind_text(a)[lb]);
        assert(step_text(b)[lb] == kind_text(b)[lb]);
    }
    assert(la == lb);
    lemma_part_even(kind_text(a), ra, kind_text(b), rb);
    let da = detail_text(a) + " }"@;
    let db = detail_text(b) + " }"@;
    let label = lemma_detail_text(a);
    let same = lemma_detail_text(b);
    assert(label == same);
    if starts(da, ' ') {
        lemma_read_int(a.actor() as int, da, b.actor() as int, db, ' ');
    } else {
        lemma_read_int(a.actor() as int, da, b.actor() as int, db, ',');
        reveal_strlit(" }");
        assert(da =~= label + (int_text(a.detail()) + " }"@));
        assert(db =~= label + (int_text(b.detail()) + " }"@));
        lemma_part_even(
            label,
            int_text(a.detail()) + " }"@,
            label,
            int_text(b.detail()) + " }"@,
        );
        lemma_read_int(a.detail(), " }"@, b.detail(), " }"@, ' ');
    }
}

proof fn lemma_read_entry(a: LogEntry, r: Seq<char>, b: LogEntry, t: Seq<char>)
    requires
        entry_text(a) + r == entry_text(b) + t,
    ensures
        a == b,
        r == t,
{
    reveal_strlit("LogEntry { term: ");
    reveal_strlit(", index: ");
    reveal_strlit(" }");
    let a2 = int_text(a.index as int) + (" }"@ + r);
    let b2 = int_text(b.index as int) + (" }"@ + t);
    let a1 = int_text(a.term as int) + (", index: "@ + a2);
    let b1 = int_text(b.term as int) + (", index: "@ + b2);
    assert(entry_text(a) + r =~= "LogEntry { term: "@ + a1);
    assert(entry_text(b) + t =~= "LogEntry { term: "@ + b1);
    lemma_part_even("LogEntry { term: "@, a1, "LogEntry { term: "@, b1);
    lemma_read_int(a.term as int, ", index: "@ + a2, b.term as int, ", index: "@ + b2, ',');
    lemma_part_even(", index: "@, a2, ", index: "@, b2);
    lemma_read_int(a.index as int, " }"@ + r, b.index as int, " }"@ + t, ' ');
    lemma_part_even(" }"@, r, " }"@, t);
}

proof fn lemma_read_entry_value(a: LogEntryValue, r: Seq<char>, b: LogEntryValue, t: Seq<char>)
    requires
        entry_value_text(a) + r == entry_value_text(b) + t,
    ensures
        a == b,
        r == t,
{
    reveal_strlit("LogEntryValue { ent: ");
    reveal_strlit(", val: ");
    reveal_strlit(" }");
    let a2 = int_text(a.val as int) + (" }"@ + r);
    let b2 = int_text(b.val as int) + (" }"@ + t);
    let a1 = entry_text(a.ent) + (", val: "@ + a2);
    let b1 = entry_text(b.ent) + (", val: "@ + b2);
    assert(entry_value_text(a) + r =~= "LogEntryValue { ent: "@ + a1);
    assert(entry_value_text(b) + t =~= "LogEntryValue { ent: "@ + b1);
    lemma_part_even("LogEntryValue { ent: "@, a1, "LogEntryValue { ent: "@, b1);
    lemma_read_entry(a.ent, ", val: "@ + a2, b.ent, ", val: "@ + b2);
    lemma_part_even(", val: "@, a2, ", val: "@, b2);
    lemma_read_int(a.val as int, " }"@ + r, b.val as int, " }"@ + t, ' ');
    lemma_part_even(" }"@, r, " }"@, t);
}

/// The first of several entries, and the rest.
proof fn lemma_first_entry(s: Seq<LogEntryValue>)
    requires
        s.len() > 1,
    ensures
        entries_text(s) == entry_value_text(s[0]) + (", "@ + entries_text(s.skip(1))),
    decreases s.len(),
{
    let front = s.drop_last();
    if s.len() == 2 {
        assert(front.len() == 1);
        assert(entries_text(front) == entry_value_text(s[0]));
        assert(s.skip(1).len() == 1);
        assert(s.skip(1)[0] == s.last());
        assert(entries_text(s.skip(1)) == entry_value_text(s.last()));
        assert(entries_text(s) =~= entry_value_text(s[0]) + (", "@ + entries_text(s.skip(1))));
    } else {
        lemma_first_entry(front);
        assert(s.skip(1).drop_last() =~= front.skip(1));
        assert(s.skip(1).last() == s.last());
        assert(entries_text(s) =~= entry_value_text(s[0]) + (", "@ + entries_text(s.skip(1))));
    }
}

proof fn lemma_entries_start(s: Seq<LogEntryValue>)
    requires
        s.len() > 0,
    ensures
        starts(entries_text(s), 'L'),
{
    reveal_strlit("LogEntryValue { ent: ");
    assert(starts(entry_value_text(s[0]), 'L'));
    if s.len() > 1 {
        lemma_first_entry(s);
    }
}

/// The entries behind the first one, and what follows them.
spec fn entries_behind(s: Seq<LogEntryValue>, r: Seq<char>) -> Seq<char> {
    if s.len() == 1 {
        r
    } else {
        ", "@ + (entries_text(s.skip(1)) + r)
    }
}

proof fn lemma_entries_behind(s: Seq<LogEntryValue>, r: Seq<char>)
    requires
        s.len() > 0,
        starts(r, ']'),
    ensures
        entries_text(s) + r == entry_value_text(s[0]) + entries_behind(s, r),
        s.len() == 1 ==> starts(entries_behind(s, r), ']'),
        s.len() > 1 ==> starts(entries_behind(s, r), ','),
{
    if s.len() > 1 {
        lemma_first_entry(s);
        let rest = entries_text(s.skip(1));
        lemma_regroup(entry_value_text(s[0]), ", "@ + rest, r);
        lemma_regroup(", "@, rest, r);
        reveal_strlit(", ");
    }
}

proof fn lemma_read_entries(a: Seq<LogEntryValue>, r: Seq<char>, b: Seq<LogEntryValue>, t: Seq<char>)
    requires
        entries_text(a) + r == entries_text(b) + t,
        starts(r, ']'),
        starts(t, ']'),
    ensures
        a == b,
        r == t,
    decreases a.len(),
{
    if a.len() == 0 || b.len() == 0 {
        if a.len() > 0 {
            lemma_entries_start(a);
            assert((entries_text(a) + r)[0] == 'L');
            assert((entries_text(b) + t)[0] == ']');
        }
        if b.len() > 0 {
            lemma_entries_start(b);
            assert((entries_text(b) + t)[0] == 'L');
            assert((entries_text(a) + r)[0] == ']');
        }
        assert(a =~= b);
        assert(entries_text(a) + r =~= r);
        assert(entries_text(b) + t =~= t);
    } else {
        lemma_entries_behind(a, r);
        lemma_entries_behind(b, t);
        lemma_read_entry_value(a[0], entries_behind(a, r), b[0], entries_behind(b, t));
        if a.len() > 1 {
            assert(b.len() > 1);
            lemma_part_even(", "@, entries_text(a.skip(1)) + r, ", "@, entries_text(b.skip(1)) + t);
            lemma_read_entries(a.skip(1), r, b.skip(1), t);
            assert(a =~= seq![a[0]] + a.skip(1));
            assert(b =~= seq![b[0]] + b.skip(1));
        } else {
            assert(a =~= b);
        }
    }
}

proof fn lemma_read_bool(a: bool, r: Seq<char>, b: bool, t: Seq<char>)
    requires
        bool_text(a) + r == bool_text(b) + t,
    ensures
        a == b,
        r == t,
{
    reveal_strlit("true");
    reveal_strlit("false");
    assert((bool_text(a) + r)[0] == bool_text(a)[0]);
    assert((bool_text(b) + t)[0] == bool_text(b)[0]);
    lemma_part_even(bool_text(a), r, bool_text(b), t);
}

proof fn lemma_read_last(a: Option<LogEntry>, r: Seq<char>, b: Option<LogEntry>, t: Seq<char>)
    requires
        last_text(a) + r == last_text(b) + t,
    ensures
        a == b,
        r == t,
{
    reveal_strlit("None");
    reveal_strlit("Some(");
    reveal_strlit(")");
    assert((last_text(a) + r)[0] == last_text(a)[0]);
    assert((last_text(b) + t)[0] == last_text(b)[0]);
    match (a, b) {
        (Some(x), Some(y)) => {
            let p = entry_text(x) + (")"@ + r);
            let q = entry_text(y) + (")"@ + t);
            assert(last_text(a) + r =~= "Some("@ + p);
            assert(last_text(b) + t =~= "Some("@ + q);
            lemma_part_even("Some("@, p, "Some("@, q);
            lemma_read_entry(x, ")"@ + r, y, ")"@ + t);
            lemma_part_even(")"@, r, ")"@, t);
        },
        (None, None) => {
            lemma_part_even("None"@, r, "None"@, t);
        },
        _ => {
            assert(last_text(a)[0] != last_text(b)[0]);
        },
    }
}

/// Where the name of a kind of message ends.
spec fn data_name_len(data: MessageDataView) -> int {
    match data {
        MessageDataView::RequestVoteRequest { .. } => 18,
        MessageDataView::RequestVoteResponse { .. } => 19,
        MessageDataView::AppendEntriesRequest { .. } => 20,
        MessageDataView::AppendEntriesResponse { .. } => 21,
    }
}

/// The name of a kind of message, up to its term.
spec fn data_name(data: MessageDataView) -> Seq<char> {
    match data {
        MessageDataView::RequestVoteRequest { .. } => "RequestVoteRequest { term: "@,
        MessageDataView::RequestVoteResponse { .. } => "RequestVoteResponse { term: "@,
        MessageDataView::AppendEntriesRequest { .. } => "AppendEntriesRequest { term: "@,
        MessageDataView::AppendEntriesResponse { .. } => "AppendEntriesResponse { term: "@,
    }
}

/// What a message carries besides its term.
spec fn data_rest(data: MessageDataView) -> Seq<char> {
    match data {
        MessageDataView::RequestVoteRequest { cand_id, last, .. } => ", cand_id: "@ + (int_text(
            cand_id as int,
        ) + (", last: "@ + (entry_text(last) + " }"@))),
        MessageDataView::RequestVoteResponse { granted, .. } => ", granted: "@ + (bool_text(granted)
            + " }"@),
        MessageDataView::AppendEntriesRequest { leader_id, prev, entries, leader_commit, .. } =>
            ", leader_id: "@ + (int_text(leader_id as int) + (", prev: "@ + (entry_text(prev) + (
        ", entries: ["@ + (entries_text(entries) + ("], leader_commit: "@ + (int_text(
            leader_commit as int,
        ) + " }"@))))))),
        MessageDataView::AppendEntriesResponse { success, last, .. } => ", success: "@ + (bool_text(
            success,
        ) + (", last: "@ + (last_text(last) + " }"@))),
    }
}

proof fn lemma_data_name(data: MessageDataView)
    ensures
        data_name(data).len() == data_name_len(data) + 9,
        data_name(data)[data_name_len(data)] == ' ',
        forall|i: int| 0 <= i < data_name_len(data) ==> #[trigger] data_name(data)[i] != ' ',
        starts(data_rest(data), ','),
{
    reveal_strlit("RequestVoteRequest { term: ");
    reveal_strlit("RequestVoteResponse { term: ");
    reveal_strlit("AppendEntriesRequest { term: ");
    reveal_strlit("AppendEntriesResponse { term: ");
    reveal_strlit(", cand_id: ");
    reveal_strlit(", granted: ");
    reveal_strlit(", leader_id: ");
    reveal_strlit(", success: ");
}

proof fn lemma_data_text(data: MessageDataView)
    ensures
        data_text(data) == data_name(data) + (int_text(data.term() as int) + data_rest(data)),
{
    let name = data_name(data);
    let term = int_text(data.term() as int);
    let end = " }"@;
    match data {
        MessageDataView::RequestVoteRequest { cand_id, last, .. } => {
            let id = int_text(cand_id as int);
            let p1 = name + term;
            let p2 = p1 + ", cand_id: "@;
            let p3 = p2 + id;
            let p4 = p3 + ", last: "@;
            let q4 = entry_text(last) + end;
            let q3 = ", last: "@ + q4;
            lemma_regroup(p4, entry_text(last), end);
            lemma_regroup(p3, ", last: "@, q4);
            lemma_regroup(p2, id, q3);
            lemma_regroup(p1, ", cand_id: "@, id + q3);
        },
        MessageDataView::RequestVoteResponse { granted, .. } => {
            let p1 = name + term;
            let p2 = p1 + ", granted: "@;
            lemma_regroup(p2, bool_text(granted), end);
            lemma_regroup(p1, ", granted: "@, bool_text(granted) + end);
        },
        MessageDataView::AppendEntriesRequest { leader_id, prev, entries, leader_commit, .. } => {
            let id = int_text(leader_id as int);
            let commit = int_text(leader_commit as int);
            let p1 = name + term;
            let p2 = p1 + ", leader_id: "@;
            let p3 = p2 + id;
            let p4 = p3 + ", prev: "@;
            let p5 = p4 + entry_text(prev);
            let p6 = p5 + ", entries: ["@;
            let p7 = p6 + entries_text(entries);
            let p8 = p7 + "], leader_commit: "@;
            let q8 = commit + end;
            let q7 = "], leader_commit: "@ + q8;
            let q6 = entries_text(entries) + q7;
            let q5 = ", entries: ["@ + q6;
            let q4 = entry_text(prev) + q5;
            let q3 = ", prev: "@ + q4;
            lemma_regroup(p8, commit, end);
            lemma_regroup(p7, "], leader_commit: "@, q8);
            lemma_regroup(p6, entries_text(entries), q7);
            lemma_regroup(p5, ", entries: ["@, q6);
            lemma_regroup(p4, entry_text(prev), q5);
            lemma_regroup(p3, ", prev: "@, q4);
            lemma_regroup(p2, id, q3);
            lemma_regroup(p1, ", leader_id: "@, id + q3);
        },
        MessageDataView::AppendEntriesResponse { success, last, .. } => {
            let p1 = name + term;
            let p2 = p1 + ", success: "@;
            let p3 = p2 + bool_text(success);
            let p4 = p3 + ", last: "@;
            let q4 = last_text(last) + end;
            let q3 = ", last: "@ + q4;
            lemma_regroup(p4, last_text(last), end);
            lemma_regroup(p3, ", last: "@, q4);
            lemma_regroup(p2, bool_text(success), q3);
            lemma_regroup(p1, ", success: "@, bool_text(success) + q3);
        },
    }
    lemma_regroup(name, term, data_rest(data));
}

/// Texts that start with the same label agree behind it.
proof fn lemma_skip_label(label: Seq<char>, r: Seq<char>, t: Seq<char>)
    requires
        label + r == label + t,
    ensures
        r == t,
{
    lemma_part_even(label, r, label, t);
}

/// Messages of one kind and term whose texts agree behind the term are the same. The texts end
/// there.
proof fn lemma_read_data_rest(a: MessageDataView, b: MessageDataView)
    requires
        data_rest(a) == data_rest(b),
        data_name_len(a) == data_name_len(b),
        a.term() == b.term(),
    ensures
        a == b,
{
    match (a, b) {
        (
            MessageDataView::RequestVoteRequest { cand_id: x, last: e, .. },
            MessageDataView::RequestVoteRequest { cand_id: y, last: f, .. },
        ) => {
            let a2 = entry_text(e) + " }"@;
            let b2 = entry_text(f) + " }"@;
            let a1 = int_text(x as int) + (", last: "@ + a2);
            let b1 = int_text(y as int) + (", last: "@ + b2);
            lemma_skip_label(", cand_id: "@, a1, b1);
            assert(starts(", last: "@ + a2, ',') && starts(", last: "@ + b2, ',')) by {
                reveal_strlit(", last: ");
            }
            lemma_read_int(x as int, ", last: "@ + a2, y as int, ", last: "@ + b2, ',');
            lemma_skip_label(", last: "@, a2, b2);
            lemma_read_entry(e, " }"@, f, " }"@);
        },
        (
            MessageDataView::RequestVoteResponse { granted: x, .. },
            MessageDataView::RequestVoteResponse { granted: y, .. },
        ) => {
            lemma_skip_label(", granted: "@, bool_text(x) + " }"@, bool_text(y) + " }"@);
            lemma_read_bool(x, " }"@, y, " }"@);
        },
        (
            MessageDataView::AppendEntriesRequest { .. },
            MessageDataView::AppendEntriesRequest { .. },
        ) => {
            lemma_read_append_request(a, b);
        },
        (
            MessageDataView::AppendEntriesResponse { success: x, last: e, .. },
            MessageDataView::AppendEntriesResponse { success: y, last: f, .. },
        ) => {
            let a2 = last_text(e) + " }"@;
            let b2 = last_text(f) + " }"@;
            let a1 = bool_text(x) + (", last: "@ + a2);
            let b1 = bool_text(y) + (", last: "@ + b2);
            lemma_skip_label(", success: "@, a1, b1);
            lemma_read_bool(x, ", last: "@ + a2, y, ", last: "@ + b2);
            lemma_skip_label(", last: "@, a2, b2);
            lemma_read_last(e, " }"@, f, " }"@);
        },
        _ => {},
    }
}

proof fn lemma_read_append_request(a: MessageDataView, b: MessageDataView)
    requires
        a is AppendEntriesRequest,
        b is AppendEntriesRequest,
        data_rest(a) == data_rest(b),
        a.term() == b.term(),
    ensures
        a == b,
{
    let (x, e, u, c) = (a->leader_id, a->prev, a->entries, a->leader_commit);
    let (y, f, v, d) = (b->leader_id, b->prev, b->entries, b->leader_commit);
    let a4 = int_text(c as int) + " }"@;
    let b4 = int_text(d as int) + " }"@;
    let a3 = entries_text(u) + ("], leader_commit: "@ + a4);
    let b3 = entries_text(v) + ("], leader_commit: "@ + b4);
    let a2 = entry_text(e) + (", entries: ["@ + a3);
    let b2 = entry_text(f) + (", entries: ["@ + b3);
    let a1 = int_text(x as int) + (", prev: "@ + a2);
    let b1 = int_text(y as int) + (", prev: "@ + b2);
    lemma_skip_label(", leader_id: "@, a1, b1);
    assert(starts(", prev: "@ + a2, ',') && starts(", prev: "@ + b2, ',')) by {
        reveal_strlit(", prev: ");
    }
    lemma_read_int(x as int, ", prev: "@ + a2, y as int, ", prev: "@ + b2, ',');
    lemma_skip_label(", prev: "@, a2, b2);
    lemma_read_entry(e, ", entries: ["@ + a3, f, ", entries: ["@ + b3);
    lemma_skip_label(", entries: ["@, a3, b3);
    assert(starts("], leader_commit: "@ + a4, ']') && starts("], leader_commit: "@ + b4, ']')) by {
        reveal_strlit("], leader_commit: ");
    }
    lemma_read_entries(u, "], leader_commit: "@ + a4, v, "], leader_commit: "@ + b4);
    lemma_skip_label("], leader_commit: "@, a4, b4);
    assert(starts(" }"@, ' ')) by {
        reveal_strlit(" }");
    }
    lemma_read_int(c as int, " }"@, d as int, " }"@, ' ');
}

/// Different contents of messages look different.
pub proof fn different_contents_look_different(a: MessageDataView, b: MessageDataView)
    requires
        data_text(a) == data_text(b),
    ensures
        a == b,
{
    lemma_data_name(a);
    lemma_data_name(b);
    lemma_data_text(a);
    lemma_data_text(b);
    let la = data_name_len(a);
    let lb = data_name_len(b);
    let a1 = int_text(a.term() as int) + data_rest(a);
    let b1 = int_text(b.term() as int) + data_rest(b);
    if la < lb {
        assert((data_name(a) + a1)[la] == ' ');
        assert((data_name(b) + b1)[la] == data_name(b)[la]);
    }
    if lb < la {
        assert((data_name(b) + b1)[lb] == ' ');
        assert((data_name(a) + a1)[lb] == data_name(a)[lb]);
    }
    assert(la == lb);
    lemma_part_even(data_name(a), a1, data_name(b), b1);
    lemma_read_int(a.term() as int, data_rest(a), b.term() as int, data_rest(b), ',');
    lemma_read_data_rest(a, b);
}

/// Different messages look different: sender, destination, kind and everything that they carry
/// can be read off.
pub proof fn different_messages_look_different(a: MessageView, b: MessageView)
    requires
        message_text(a) == message_text(b),
    ensures
        a == b,
{
    lemma_message_text(a);
    lemma_message_text(b);
    let a2 = data_text(a.data) + " }"@;
    let b2 = data_text(b.data) + " }"@;
    let a1 = int_text(a.to as int) + (", data: "@ + a2);
    let b1 = int_text(b.to as int) + (", data: "@ + b2);
    let a0 = int_text(a.from as int) + (", to: "@ + a1);
    let b0 = int_text(b.from as int) + (", to: "@ + b1);
    lemma_skip_label("Message { from: "@, a0, b0);
    assert(starts(", to: "@ + a1, ',') && starts(", to: "@ + b1, ',')) by {
        reveal_strlit(", to: ");
    }
    lemma_read_int(a.from as int, ", to: "@ + a1, b.from as int, ", to: "@ + b1, ',');
    lemma_skip_label(", to: "@, a1, b1);
    assert(starts(", data: "@ + a2, ',') && starts(", data: "@ + b2, ',')) by {
        reveal_strlit(", data: ");
    }
    lemma_read_int(a.to as int, ", data: "@ + a2, b.to as int, ", data: "@ + b2, ',');
    lemma_skip_label(", data: "@, a2, b2);
    assert(data_text(a.data).len() == data_text(b.data).len()) by {
        assert(a2.len() == data_text(a.data).len() + " }"@.len());
        assert(b2.len() == data_text(b.data).len() + " }"@.len());
    }
    lemma_part_even(data_text(a.data), " }"@, data_text(b.data), " }"@);
    different_contents_look_different(a.data, b.data);
}

proof fn lemma_message_text(m: MessageView)
    ensures
        message_text(m) == "Message { from: "@ + (int_text(m.from as int) + (", to: "@ + (int_text(
            m.to as int,
        ) + (", data: "@ + (data_text(m.data) + " }"@))))),
{
    let p1 = "Message { from: "@;
    let from = int_text(m.from as int);
    let to = int_text(m.to as int);
    let data = data_text(m.data);
    let p2 = p1 + from;
    let p3 = p2 + ", to: "@;
    let p4 = p3 + to;
    let p5 = p4 + ", data: "@;
    let q5 = data + " }"@;
    let q4 = ", data: "@ + q5;
    let q3 = to + q4;
    let q2 = ", to: "@ + q3;
    lemma_regroup(p5, data, " }"@);
    lemma_regroup(p4, ", data: "@, q5);
    lemma_regroup(p3, to, q4);
    lemma_regroup(p2, ", to: "@, q3);
    lemma_regroup(p1, from, q2);
}

} // verus!
