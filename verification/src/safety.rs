//! The safety of the protocol: what holds of the world after any number of steps.

use vstd::prelude::*;

use crate::ledger::{
    consistent, lemma_explains_stays, lemma_knows_stays, lemma_matched_stays, lemma_winner_unique,
    lemma_won_stays, matched, same_up_to, Ledger,
};
use crate::message::{LogEntry, LogEntryValue, MessageDataView, MessageView};
use crate::node::NodeState;
use crate::node_model::{first_entry, indexed, NodeView};
use crate::step::WorldStep;
use crate::world_model::{lemma_after_wf, WorldView};

verus! {

/// The ledger stays sound while the nodes' terms do not decrease.
proof fn lemma_sound_stays(l: Ledger, nodes: Seq<NodeView>, later: Seq<NodeView>)
    requires
        l.sound(nodes),
        nodes.len() == later.len(),
        forall|v: int|
            0 <= v < nodes.len() ==> (#[trigger] nodes[v]).current_term <= later[v].current_term,
    ensures
        l.sound(later),
{
    assert forall|v: int, t: int| #[trigger] l.votes.contains_key((v, t)) implies 0 <= v
        < later.len() && 1 <= t <= later[v].current_term by {
        assert(nodes[v].current_term <= later[v].current_term);
    }
    assert forall|t: int| #[trigger] l.leads.contains_key(t) implies t
        <= later[l.leads[t]].current_term by {
        assert(nodes[l.leads[t]].current_term <= later[l.leads[t]].current_term);
    }
}

/// A world in which only node `a` made news stays consistent, if that node's news and
/// the new messages are recorded.
proof fn lemma_news(w: WorldView, l: Ledger, w2: WorldView, l2: Ledger, a: int)
    requires
        consistent(w, l),
        l.extended_by(l2),
        l.only_about(l2, a),
        w2.wf(),
        w2.nodes.len() == w.nodes.len(),
        0 <= a < w.nodes.len(),
        forall|v: int| 0 <= v < w.nodes.len() && v != a ==> #[trigger] w2.nodes[v] == w.nodes[v],
        l2.sound(w2.nodes),
        l2.knows(w2.nodes[a], w.nodes.len() as int),
        forall|k: int|
            0 <= k < w2.msgs.len() ==> w.msgs.contains(#[trigger] w2.msgs[k]) || l2.explains(
                w2.msgs[k],
                w.nodes.len() as int,
            ),
    ensures
        consistent(w2, l2),
{
    let n = w.nodes.len() as int;
    assert forall|v: int| 0 <= v < w2.nodes.len() implies l2.knows(#[trigger] w2.nodes[v], n) by {
        if v != a {
            assert(l.knows(w.nodes[v], n));
            lemma_knows_stays(l, l2, w.nodes[v], n, a);
        }
    }
    assert forall|k: int| 0 <= k < w2.msgs.len() implies l2.explains(#[trigger] w2.msgs[k], n) by {
        if w.msgs.contains(w2.msgs[k]) {
            let j = choose|j: int| 0 <= j < w.msgs.len() && w.msgs[j] == w2.msgs[k];
            assert(l.explains(w.msgs[j], n));
            lemma_explains_stays(l, l2, w.msgs[j], n);
        }
    }
}

/// What is in flight after a message was taken out and others were added.
proof fn lemma_receipt_messages(msgs: Seq<MessageView>, at: int, out: Seq<MessageView>)
    requires
        0 <= at < msgs.len(),
    ensures
        forall|k: int|
            0 <= k < (msgs.remove(at) + out).len() ==> msgs.contains(
                #[trigger] (msgs.remove(at) + out)[k],
            ) || out.contains((msgs.remove(at) + out)[k]),
{
    let rest = msgs.remove(at);
    assert forall|k: int| 0 <= k < (rest + out).len() implies msgs.contains(
        #[trigger] (rest + out)[k],
    ) || out.contains((rest + out)[k]) by {
        if k < at {
            assert((rest + out)[k] == msgs[k]);
        } else if k < rest.len() {
            assert((rest + out)[k] == msgs[k + 1]);
        } else {
            assert((rest + out)[k] == out[k - rest.len()]);
        }
    }
}

/// A node that moves on to a later term is known there: it has not voted or led yet.
proof fn lemma_moved(l: Ledger, nodes: Seq<NodeView>, a: int, term: i32)
    requires
        l.sound(nodes),
        0 <= a < nodes.len(),
        nodes[a].id == a,
        l.knows(nodes[a], nodes.len() as int),
        term > nodes[a].current_term,
    ensures
        l.knows(nodes[a].moved_to_term(term), nodes.len() as int),
{
    let t = term as int;
    if l.votes.contains_key((a, t)) {
        assert(t <= nodes[a].current_term);
    }
    if l.led(t, a) {
        assert(l.leads.contains_key(t));
        assert(t <= nodes[a].current_term);
    }
}

proof fn lemma_restart(w: WorldView, l: Ledger, id: i32)
    requires
        consistent(w, l),
        w.ready(WorldStep::Restart { id }),
    ensures
        consistent(w.after(WorldStep::Restart { id }), l),
{
    let step = WorldStep::Restart { id };
    let w2 = w.after(step);
    lemma_after_wf(w, step);
    assert(l.knows(w.nodes[id as int], w.nodes.len() as int));
    lemma_sound_stays(l, w.nodes, w2.nodes);
    lemma_news(w, l, w2, l, id as int);
}

proof fn lemma_timeout(w: WorldView, l: Ledger, id: i32) -> (l2: Ledger)
    requires
        consistent(w, l),
        w.ready(WorldStep::HeartBeatTimeout { id }),
    ensures
        consistent(w.after(WorldStep::HeartBeatTimeout { id }), l2),
        l.extended_by(l2),
{
    let step = WorldStep::HeartBeatTimeout { id };
    let w2 = w.after(step);
    let n = w.nodes.len() as int;
    let a = id as int;
    let node = w.nodes[a];
    let t = node.current_term + 1;
    lemma_after_wf(w, step);
    assert(node.shaped());
    assert(l.knows(node, n));
    let l2 = Ledger { votes: l.votes.insert((a, t), a), ..l };
    assert(!l.votes.contains_key((a, t))) by {
        if l.votes.contains_key((a, t)) {
            assert(t <= w.nodes[a].current_term);
        }
    }
    assert(l.extended_by(l2));
    lemma_sound_stays(l, w.nodes, w2.nodes);
    assert(l2.sound(w2.nodes)) by {
        assert forall|u: int| #[trigger] l2.leads.contains_key(u) implies l2.won(
            n,
            u,
            l2.leads[u],
        ) by {
            assert(l.leads.contains_key(u));
            lemma_won_stays(l, l2, n, u, l.leads[u]);
        }
    }
    assert(l2.knows(w2.nodes[a], n)) by {
        if l2.led(t, a) {
            assert(l.leads.contains_key(t));
            assert(t <= w.nodes[a].current_term);
        }
        assert(w2.nodes[a].votes_received =~= seq![id]);
    }
    assert forall|k: int| 0 <= k < w2.msgs.len() implies w.msgs.contains(#[trigger] w2.msgs[k]) by {
        assert(w.msgs[k] == w2.msgs[k]);
    }
    lemma_news(w, l, w2, l2, a);
    l2
}

proof fn lemma_client(w: WorldView, l: Ledger, id: i32, value: i32) -> (l2: Ledger)
    requires
        consistent(w, l),
        w.ready(WorldStep::ClientRequest { id, value }),
    ensures
        consistent(w.after(WorldStep::ClientRequest { id, value }), l2),
        l.extended_by(l2),
{
    let step = WorldStep::ClientRequest { id, value };
    let w2 = w.after(step);
    let n = w.nodes.len() as int;
    let a = id as int;
    let node = w.nodes[a];
    let node2 = w2.nodes[a];
    let t = node.current_term as int;
    lemma_after_wf(w, step);
    assert(node.shaped());
    assert(l.knows(node, n));
    let l2 = Ledger { logs: l.logs.insert(t, node2.log), ..l };
    assert(l.led(t, a));
    assert(l.extended_by(l2));
    assert(l.only_about(l2, a));
    lemma_sound_stays(l, w.nodes, w2.nodes);
    lemma_matched_stays(node.log, l, l2);
    assert(matched(node2.log, l2.logs)) by {
        assert forall|i: int| 0 <= i < node2.log.len() implies l2.logs.contains_key(
            (#[trigger] node2.log[i]).ent.term as int,
        ) && same_up_to(node2.log, l2.logs[node2.log[i].ent.term as int], i) by {
            if i < node.log.len() {
                assert(node2.log[i] == node.log[i]);
                assert(same_up_to(node.log, l2.logs[node.log[i].ent.term as int], i));
                assert forall|j: int| 0 <= j <= i implies #[trigger] node2.log[j]
                    == l2.logs[node.log[i].ent.term as int][j] by {
                    assert(node.log[j] == l2.logs[node.log[i].ent.term as int][j]);
                }
            }
        }
    }
    assert(indexed(node2.log)) by {
        assert forall|i: int| 0 <= i < node2.log.len() implies (#[trigger] node2.log[i]).ent.index
            == i as i32 by {
            if i < node.log.len() {
                assert(node2.log[i] == node.log[i]);
            }
        }
    }
    assert(l2.sound(w2.nodes)) by {
        assert forall|u: int| #[trigger] l2.logs.contains_key(u) implies (u == 0
            || l2.leads.contains_key(u)) && matched(l2.logs[u], l2.logs) && indexed(l2.logs[u]) by {
            if u != t {
                assert(l.logs.contains_key(u));
                lemma_matched_stays(l.logs[u], l, l2);
            }
        }
        assert forall|u: int| #[trigger] l2.leads.contains_key(u) implies l2.won(
            n,
            u,
            l2.leads[u],
        ) by {
            assert(l.leads.contains_key(u));
            lemma_won_stays(l, l2, n, u, l.leads[u]);
        }
    }
    assert forall|i: int| 0 <= i < node2.votes_received.len() implies 0
        <= #[trigger] node2.votes_received[i] < n && l2.voted(
        node2.votes_received[i] as int,
        t,
        a,
    ) by {
        assert(l.voted(node.votes_received[i] as int, t, a));
    }
    assert(l2.knows(node2, n));
    assert forall|k: int| 0 <= k < w2.msgs.len() implies w.msgs.contains(#[trigger] w2.msgs[k]) by {
        assert(w.msgs[k] == w2.msgs[k]);
    }
    lemma_news(w, l, w2, l2, a);
    l2
}

/// A message that was put in flight and says what the ledger knows keeps the world
/// consistent.
proof fn lemma_sent(w: WorldView, l: Ledger, m: MessageView)
    requires
        consistent(w, l),
        l.explains(m, w.nodes.len() as int),
    ensures
        consistent(w.with_message(m), l),
{
    let w2 = w.with_message(m);
    assert forall|k: int| 0 <= k < w2.msgs.len() implies l.explains(
        #[trigger] w2.msgs[k],
        w.nodes.len() as int,
    ) by {
        if k < w.msgs.len() {
            assert(w2.msgs[k] == w.msgs[k]);
        }
    }
}

proof fn lemma_send_append(w: WorldView, l: Ledger, id: i32, dest: i32)
    requires
        consistent(w, l),
        w.has_node(dest),
        w.ready(WorldStep::SendAppendEntries { id, dest }),
    ensures
        consistent(w.after(WorldStep::SendAppendEntries { id, dest }), l),
{
    let n = w.nodes.len() as int;
    let node = w.nodes[id as int];
    let next = node.next_index[dest as int] as int;
    let t = node.current_term as int;
    assert(node.shaped());
    assert(l.knows(node, n));
    assert(l.leads.contains_key(t));
    assert(node.log[next - 1].ent.index == next - 1);
    let entries = node.log.skip(next);
    assert(l.part_of_log(t, node.log[next - 1].ent, entries));
    lemma_sent(w, l, node.append_request(dest));
}

proof fn lemma_send_request(w: WorldView, l: Ledger, id: i32, dest: i32)
    requires
        consistent(w, l),
        w.has_node(dest),
        w.ready(WorldStep::SendRequestVote { id, dest }),
    ensures
        consistent(w.after(WorldStep::SendRequestVote { id, dest }), l),
{
    let node = w.nodes[id as int];
    assert(node.shaped());
    assert(l.knows(node, w.nodes.len() as int));
    lemma_sent(w, l, node.vote_request(dest));
}

proof fn lemma_recv_vote_request(w: WorldView, l: Ledger, id: i32, msg_idx: usize) -> (l2: Ledger)
    requires
        consistent(w, l),
        w.ready(WorldStep::RecvRequestVoteRequest { id, msg_idx }),
    ensures
        consistent(w.after(WorldStep::RecvRequestVoteRequest { id, msg_idx }), l2),
        l.extended_by(l2),
{
    let step = WorldStep::RecvRequestVoteRequest { id, msg_idx };
    let w2 = w.after(step);
    let n = w.nodes.len() as int;
    let a = id as int;
    let node = w.nodes[a];
    let m = w.msgs[msg_idx as int];
    let out = node.on_vote_request(m).1;
    let t = node.current_term as int;
    lemma_after_wf(w, step);
    assert(node.shaped());
    assert(l.knows(node, n));
    assert(l.explains(m, n));
    lemma_receipt_messages(w.msgs, msg_idx as int, out);
    lemma_sound_stays(l, w.nodes, w2.nodes);
    match m.data {
        MessageDataView::RequestVoteRequest { term, cand_id, last } => {
            if term > node.current_term {
                lemma_moved(l, w.nodes, a, term);
                lemma_news(w, l, w2, l, a);
                l
            } else if term == node.current_term && node.grants_vote(m.from, last) {
                let l2 = Ledger { votes: l.votes.insert((a, t), m.from as int), ..l };
                assert(l.extended_by(l2)) by {
                    if node.voted_for == Some(m.from) {
                        assert(l2.votes =~= l.votes);
                    }
                }
                assert(l2.sound(w2.nodes)) by {
                    assert forall|u: int| #[trigger] l2.leads.contains_key(u) implies l2.won(
                        n,
                        u,
                        l2.leads[u],
                    ) by {
                        assert(l.leads.contains_key(u));
                        lemma_won_stays(l, l2, n, u, l.leads[u]);
                    }
                }
                assert forall|i: int| 0 <= i < node.votes_received.len() implies 0
                    <= #[trigger] node.votes_received[i] < n && l2.voted(
                    node.votes_received[i] as int,
                    t,
                    a,
                ) by {
                    assert(l.voted(node.votes_received[i] as int, t, a));
                    assert(l.votes.contains_key((node.votes_received[i] as int, t)));
                }
                assert(l2.knows(w2.nodes[a], n));
                assert(l2.explains(node.vote_reply(m.from, true), n));
                lemma_news(w, l, w2, l2, a);
                l2
            } else {
                assert(l.explains(node.vote_reply(m.from, false), n));
                lemma_news(w, l, w2, l, a);
                l
            }
        },
        _ => l,
    }
}

/// The votes that a node counted are a majority as soon as they are enough.
proof fn lemma_counted(l: Ledger, node: NodeView, n: int)
    requires
        l.knows(node, n),
        node.votes_received.len() > n / 2,
    ensures
        l.won(n, node.current_term as int, node.id as int),
{
    let t = node.current_term as int;
    let v = node.id as int;
    let voters = Seq::new(node.votes_received.len(), |i: int| node.votes_received[i] as int);
    assert forall|i: int| 0 <= i < voters.len() implies 0 <= #[trigger] voters[i] < n && l.voted(
        voters[i],
        t,
        v,
    ) by {
        assert(l.voted(node.votes_received[i] as int, t, v));
    }
    assert(l.quorum(voters, n, t, v));
}

proof fn lemma_recv_vote_response(w: WorldView, l: Ledger, id: i32, msg_idx: usize) -> (l2: Ledger)
    requires
        consistent(w, l),
        w.ready(WorldStep::RecvRequestVoteResponse { id, msg_idx }),
    ensures
        consistent(w.after(WorldStep::RecvRequestVoteResponse { id, msg_idx }), l2),
        l.extended_by(l2),
{
    let step = WorldStep::RecvRequestVoteResponse { id, msg_idx };
    let w2 = w.after(step);
    let n = w.nodes.len() as int;
    let a = id as int;
    let node = w.nodes[a];
    let m = w.msgs[msg_idx as int];
    let t = node.current_term as int;
    lemma_after_wf(w, step);
    assert(node.shaped());
    assert(l.knows(node, n));
    assert(l.explains(m, n));
    lemma_receipt_messages(w.msgs, msg_idx as int, seq![]);
    lemma_sound_stays(l, w.nodes, w2.nodes);
    match m.data {
        MessageDataView::RequestVoteResponse { term, granted } => {
            if term > node.current_term {
                lemma_moved(l, w.nodes, a, term);
                lemma_news(w, l, w2, l, a);
                l
            } else if term < node.current_term {
                lemma_news(w, l, w2, l, a);
                l
            } else {
                let counted = NodeView {
                    votes_received: if granted {
                        node.votes_with(m.from)
                    } else {
                        node.votes_received
                    },
                    ..node
                };
                assert forall|i: int| 0 <= i < counted.votes_received.len() implies 0
                    <= #[trigger] counted.votes_received[i] < n && l.voted(
                    counted.votes_received[i] as int,
                    t,
                    a,
                ) by {
                    if i < node.votes_received.len() {
                        assert(counted.votes_received[i] == node.votes_received[i]);
                    }
                }
                assert(counted.votes_received.no_duplicates());
                assert(l.knows(counted, n));
                if counted.votes_received.len() > n / 2 {
                    lemma_counted(l, counted, n);
                    lemma_elected(w, l, w2, a, counted)
                } else {
                    lemma_news(w, l, w2, l, a);
                    l
                }
            }
        },
        _ => l,
    }
}

/// A node that has won its term takes the lead.
proof fn lemma_elected(w: WorldView, l: Ledger, w2: WorldView, a: int, counted: NodeView) -> (l2:
    Ledger)
    requires
        consistent(w, l),
        w2.wf(),
        w2.nodes.len() == w.nodes.len(),
        0 <= a < w.nodes.len(),
        forall|v: int| 0 <= v < w.nodes.len() && v != a ==> #[trigger] w2.nodes[v] == w.nodes[v],
        w2.nodes[a] == counted.leading(),
        counted.id == a,
        counted.current_term == w.nodes[a].current_term,
        counted.votes_received.len() > w.nodes.len() / 2,
        l.knows(counted, w.nodes.len() as int),
        l.won(w.nodes.len() as int, counted.current_term as int, a),
        l.sound(w2.nodes),
        forall|k: int| 0 <= k < w2.msgs.len() ==> w.msgs.contains(#[trigger] w2.msgs[k]),
    ensures
        consistent(w2, l2),
        l.extended_by(l2),
{
    let n = w.nodes.len() as int;
    let t = counted.current_term as int;
    let node2 = w2.nodes[a];
    let len = counted.log.len();
    assert(len as i32 <= len);
    if l.leads.contains_key(t) {
        lemma_winner_unique(l, n, t, a, l.leads[t]);
        assert(l.knows(node2, n));
        lemma_news(w, l, w2, l, a);
        l
    } else {
        let l2 = Ledger {
            leads: l.leads.insert(t, a),
            logs: l.logs.insert(t, counted.log),
            ..l
        };
        assert(l.voted(counted.votes_received[0] as int, t, a));
        assert(l.votes.contains_key((counted.votes_received[0] as int, t)));
        assert(t >= 1);
        assert(!l.logs.contains_key(t));
        assert(l.extended_by(l2));
        assert(l.only_about(l2, a));
        lemma_matched_stays(counted.log, l, l2);
        assert(l2.sound(w2.nodes)) by {
            assert forall|u: int| #[trigger] l2.leads.contains_key(u) implies u >= 1 && 0
                <= l2.leads[u] < n && u <= w2.nodes[l2.leads[u]].current_term && l2.won(
                n,
                u,
                l2.leads[u],
            ) && l2.logs.contains_key(u) by {
                if u == t {
                    lemma_won_stays(l, l2, n, t, a);
                } else {
                    assert(l.leads.contains_key(u));
                    lemma_won_stays(l, l2, n, u, l.leads[u]);
                }
            }
            assert forall|u: int| #[trigger] l2.logs.contains_key(u) implies (u == 0
                || l2.leads.contains_key(u)) && matched(l2.logs[u], l2.logs) && indexed(
                l2.logs[u],
            ) by {
                if u != t {
                    assert(l.logs.contains_key(u));
                    lemma_matched_stays(l.logs[u], l, l2);
                }
            }
        }
        assert forall|i: int| 0 <= i < node2.votes_received.len() implies 0
            <= #[trigger] node2.votes_received[i] < n && l2.voted(
            node2.votes_received[i] as int,
            t,
            a,
        ) by {
            assert(l.voted(counted.votes_received[i] as int, t, a));
        }
        assert(l2.knows(node2, n));
        lemma_news(w, l, w2, l2, a);
        l2
    }
}

/// A log that took a leader's entries behind an entry of the leader's log agrees with
/// the leader's log all the way.
proof fn lemma_taken(
    l: Ledger,
    nodes: Seq<NodeView>,
    node: NodeView,
    term: i32,
    prev: LogEntry,
    entries: Seq<LogEntryValue>,
)
    requires
        l.sound(nodes),
        matched(node.log, l.logs),
        l.part_of_log(term as int, prev, entries),
        node.holds(prev),
    ensures
        ({
            let log = node.log.take(prev.index + 1) + entries;
            &&& log.len() <= l.logs[term as int].len()
            &&& log == l.logs[term as int].take(log.len() as int)
            &&& matched(log, l.logs)
            &&& indexed(log)
        }),
{
    let t = term as int;
    let p = prev.index as int;
    let lead = l.logs[t];
    let log = node.log.take(p + 1) + entries;
    let pt = prev.term as int;
    assert(matched(lead, l.logs));
    assert(lead[p].ent.term == prev.term);
    assert(same_up_to(lead, l.logs[pt], p));
    assert(node.log[p].ent.term == prev.term);
    assert(same_up_to(node.log, l.logs[pt], p));
    assert forall|j: int| 0 <= j < log.len() implies #[trigger] log[j] == lead[j] by {
        if j <= p {
            assert(log[j] == node.log[j]);
            assert(node.log[j] == l.logs[pt][j]);
            assert(lead[j] == l.logs[pt][j]);
        } else {
            assert(log[j] == entries[j - p - 1]);
        }
    }
    assert(log =~= lead.take(log.len() as int));
    assert forall|i: int| 0 <= i < log.len() implies l.logs.contains_key(
        (#[trigger] log[i]).ent.term as int,
    ) && same_up_to(log, l.logs[log[i].ent.term as int], i) by {
        assert(log[i] == lead[i]);
        let origin = l.logs[lead[i].ent.term as int];
        assert(same_up_to(lead, origin, i));
        assert forall|j: int| 0 <= j <= i implies #[trigger] log[j] == origin[j] by {
            assert(lead[j] == origin[j]);
        }
    }
    assert forall|i: int| 0 <= i < log.len() implies (#[trigger] log[i]).ent.index == i as i32 by {
        assert(log[i] == lead[i]);
    }
}

proof fn lemma_recv_append_request(w: WorldView, l: Ledger, id: i32, msg_idx: usize)
    requires
        consistent(w, l),
        w.ready(WorldStep::RecvAppendEntriesRequest { id, msg_idx }),
    ensures
        consistent(w.after(WorldStep::RecvAppendEntriesRequest { id, msg_idx }), l),
{
    let step = WorldStep::RecvAppendEntriesRequest { id, msg_idx };
    let w2 = w.after(step);
    let n = w.nodes.len() as int;
    let a = id as int;
    let node = w.nodes[a];
    let m = w.msgs[msg_idx as int];
    let out = node.on_append_request(m).1;
    let t = node.current_term as int;
    lemma_after_wf(w, step);
    assert(node.shaped());
    assert(l.knows(node, n));
    assert(l.explains(m, n));
    lemma_receipt_messages(w.msgs, msg_idx as int, out);
    lemma_sound_stays(l, w.nodes, w2.nodes);
    match m.data {
        MessageDataView::AppendEntriesRequest { term, prev, entries, .. } => {
            if term > node.current_term {
                lemma_moved(l, w.nodes, a, term);
            } else if term < node.current_term || !node.holds(prev) {
                assert(l.explains(node.append_reply(m.from, false, None), n));
            } else {
                let log = w2.nodes[a].log;
                lemma_taken(l, w.nodes, node, term, prev, entries);
                assert(!l.led(t, a));
                assert(l.knows(w2.nodes[a], n));
                let len = log.len();
                assert(log[len - 1].ent.index == (len - 1) as i32);
                assert((len - 1) as i32 <= len - 1);
                assert(l.explains(node.append_reply(m.from, true, Some(log.last().ent)), n));
            }
        },
        _ => {},
    }
    lemma_news(w, l, w2, l, a);
}

proof fn lemma_recv_append_response(w: WorldView, l: Ledger, id: i32, msg_idx: usize)
    requires
        consistent(w, l),
        w.ready(WorldStep::RecvAppendEntriesResponse { id, msg_idx }),
    ensures
        consistent(w.after(WorldStep::RecvAppendEntriesResponse { id, msg_idx }), l),
{
    let step = WorldStep::RecvAppendEntriesResponse { id, msg_idx };
    let w2 = w.after(step);
    let n = w.nodes.len() as int;
    let a = id as int;
    let node = w.nodes[a];
    let m = w.msgs[msg_idx as int];
    lemma_after_wf(w, step);
    assert(node.shaped());
    assert(l.knows(node, n));
    assert(l.explains(m, n));
    lemma_receipt_messages(w.msgs, msg_idx as int, seq![]);
    lemma_sound_stays(l, w.nodes, w2.nodes);
    match m.data {
        MessageDataView::AppendEntriesResponse { term, success, last } => {
            if term > node.current_term {
                lemma_moved(l, w.nodes, a, term);
            } else if term == node.current_term {
                let node2 = w2.nodes[a];
                assert forall|d: int| 0 <= d < node2.next_index.len() && node.state
                    == NodeState::Leader implies #[trigger] node2.next_index[d]
                    <= node2.log.len() by {
                    assert(node.next_index[d] <= node.log.len());
                }
                assert(l.knows(node2, n));
            }
        },
        _ => {},
    }
    lemma_news(w, l, w2, l, a);
}

/// Every enabled step that can be executed keeps the world consistent, with a ledger
/// that records what the step added.
pub proof fn lemma_step(w: WorldView, l: Ledger, step: WorldStep) -> (l2: Ledger)
    requires
        consistent(w, l),
        w.enabled(step),
        w.ready(step),
    ensures
        consistent(w.after(step), l2),
        l.extended_by(l2),
{
    match step {
        WorldStep::Crash { id } => l,
        WorldStep::Restart { id } => {
            lemma_restart(w, l, id);
            l
        },
        WorldStep::HeartBeatTimeout { id } => lemma_timeout(w, l, id),
        WorldStep::ClientRequest { id, value } => lemma_client(w, l, id, value),
        WorldStep::SendAppendEntries { id, dest } => {
            lemma_send_append(w, l, id, dest);
            l
        },
        WorldStep::SendRequestVote { id, dest } => {
            lemma_send_request(w, l, id, dest);
            l
        },
        WorldStep::RecvRequestVoteRequest { id, msg_idx } => lemma_recv_vote_request(
            w,
            l,
            id,
            msg_idx,
        ),
        WorldStep::RecvRequestVoteResponse { id, msg_idx } => lemma_recv_vote_response(
            w,
            l,
            id,
            msg_idx,
        ),
        WorldStep::RecvAppendEntriesRequest { id, msg_idx } => {
            lemma_recv_append_request(w, l, id, msg_idx);
            l
        },
        WorldStep::RecvAppendEntriesResponse { id, msg_idx } => {
            lemma_recv_append_response(w, l, id, msg_idx);
            l
        },
    }
}

/// What there is to record of a fresh world: the initial log.
pub open spec fn blank_ledger() -> Ledger {
    Ledger {
        votes: Map::empty(),
        leads: Map::empty(),
        logs: Map::empty().insert(0, seq![first_entry()]),
    }
}

/// A fresh world is consistent.
pub proof fn lemma_initial(n: usize)
    requires
        n <= i32::MAX,
    ensures
        consistent(WorldView::initial(n), blank_ledger()),
{
    let w = WorldView::initial(n);
    let l = blank_ledger();
    let log = seq![first_entry()];
    assert(matched(log, l.logs)) by {
        assert forall|i: int| 0 <= i < log.len() implies l.logs.contains_key(
            (#[trigger] log[i]).ent.term as int,
        ) && same_up_to(log, l.logs[log[i].ent.term as int], i) by {
            assert(l.logs[0] == log);
        }
    }
    assert(indexed(log));
    assert forall|v: int| 0 <= v < w.nodes.len() implies l.knows(
        #[trigger] w.nodes[v],
        n as int,
    ) by {
        assert(w.nodes[v] == NodeView::follower(v as i32, n));
    }
    assert forall|v: int| 0 <= v < w.nodes.len() implies (#[trigger] w.nodes[v]).shaped()
        && w.nodes[v].id == v && w.nodes[v].network_size == w.nodes.len() by {
        assert(w.nodes[v] == NodeView::follower(v as i32, n));
    }
}

} // verus!
