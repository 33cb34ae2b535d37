//! What each event does to a node, field by field.

use vstd::prelude::*;

use crate::message::{
    LogEntry, LogEntryValue, Message, MessageData, MessageDataView, MessageView,
};
use crate::node::RaftNode;
use crate::node_model::{first_entry, indexed, NodeView};
use crate::quorum::count_at_least;
use crate::quorum_laws::{a_majority_value_exists, count_is_cardinality, positions_at_least};

verus! {

/// A fresh node is a follower in term zero that knows of no vote, has the initial entry
/// only, and has heard of no other node.
pub proof fn fresh_nodes_know_nothing(id: i32, n: usize)
    ensures
        ({
            let v = NodeView::follower(id, n);
            &&& v.id == id
            &&& v.network_size == n
            &&& v.current_term == 0
            &&& v.voted_for is None
            &&& v.state is Follower
            &&& v.votes_received.len() == 0
            &&& v.log.len() == 1
            &&& v.log[0].ent.term == 0
            &&& v.log[0].ent.index == 0
            &&& v.log[0].val == 0
            &&& v.commit_index == 0
            &&& v.last_applied == 0
            &&& v.next_index.len() == n
            &&& v.match_index.len() == n
            &&& forall|d: int| 0 <= d < n ==> #[trigger] v.next_index[d] == -1
            &&& forall|d: int| 0 <= d < n ==> #[trigger] v.match_index[d] == -1
        }),
{
}

/// The entry that every log starts with belongs to term zero, which nobody leads.
pub proof fn first_entry_is_of_term_zero()
    ensures
        first_entry().ent.term == 0,
        first_entry().ent.index == 0,
        first_entry().val == 0,
{
}

/// An indexed log is one whose entry at each position below two to the thirty-first
/// carries that position.
pub proof fn indexed_logs_count_from_zero(log: Seq<LogEntryValue>)
    requires
        log.len() <= i32::MAX,
    ensures
        indexed(log) <==> forall|i: int| 0 <= i < log.len() ==> (#[trigger] log[i]).ent.index == i,
{
    if forall|i: int| 0 <= i < log.len() ==> (#[trigger] log[i]).ent.index == i {
        assert forall|i: int| 0 <= i < log.len() implies (#[trigger] log[i]).ent.index == i as i32 by {
        }
    }
    if indexed(log) {
        assert forall|i: int| 0 <= i < log.len() implies (#[trigger] log[i]).ent.index == i by {
        }
    }
}

/// A restart keeps term, vote, log and identity, and clears everything else.
pub proof fn restart_keeps_the_persistent_state(node: NodeView)
    ensures
        ({
            let v = node.restarted();
            &&& v.current_term == node.current_term
            &&& v.voted_for == node.voted_for
            &&& v.log == node.log
            &&& v.id == node.id
            &&& v.network_size == node.network_size
            &&& v.state is Follower
            &&& v.votes_received.len() == 0
            &&& v.commit_index == 0
            &&& v.last_applied == 0
            &&& v.next_index.len() == node.next_index.len()
            &&& v.match_index.len() == node.match_index.len()
            &&& forall|d: int| 0 <= d < v.next_index.len() ==> #[trigger] v.next_index[d] == -1
            &&& forall|d: int| 0 <= d < v.match_index.len() ==> #[trigger] v.match_index[d] == -1
        }),
{
}

/// Moving to another term forgets vote, votes and role, and nothing else: the log stays.
pub proof fn moving_on_keeps_the_log(node: NodeView, term: i32)
    ensures
        ({
            let v = node.moved_to_term(term);
            &&& v.current_term == term
            &&& v.state is Follower
            &&& v.voted_for is None
            &&& v.votes_received.len() == 0
            &&& v.log == node.log
            &&& v.commit_index == node.commit_index
            &&& v.last_applied == node.last_applied
            &&& v.next_index == node.next_index
            &&& v.match_index == node.match_index
            &&& v.id == node.id
            &&& v.network_size == node.network_size
        }),
{
}

/// A new leader will send each node what comes behind its whole log, and knows only that
/// each has the first entry. Term, votes, log and commit index stay.
pub proof fn a_new_leader_starts_at_its_logs_end(node: NodeView)
    ensures
        ({
            let v = node.leading();
            &&& v.state is Leader
            &&& v.next_index.len() == node.next_index.len()
            &&& v.match_index.len() == node.match_index.len()
            &&& node.log.len() <= i32::MAX ==> forall|d: int|
                0 <= d < v.next_index.len() ==> #[trigger] v.next_index[d] == node.log.len()
            &&& forall|d: int|
                0 <= d < v.next_index.len() ==> #[trigger] v.next_index[d] == node.log.len() as i32
            &&& forall|d: int| 0 <= d < v.match_index.len() ==> #[trigger] v.match_index[d] == 0
            &&& v.current_term == node.current_term
            &&& v.voted_for == node.voted_for
            &&& v.votes_received == node.votes_received
            &&& v.log == node.log
            &&& v.commit_index == node.commit_index
            &&& v.last_applied == node.last_applied
            &&& v.id == node.id
            &&& v.network_size == node.network_size
        }),
{
}

/// The positions of the nodes that have reached `x`: by what the node knows of the others,
/// and by the length of its own log.
pub open spec fn reached(node: NodeView, x: int) -> Set<int> {
    Set::new(
        |d: int|
            0 <= d < node.match_index.len() && (if d == node.id {
                node.log.len() as i32
            } else {
                node.match_index[d]
            }) >= x,
    )
}

/// Committing sets the commit index to the largest number that more than half of the nodes
/// have reached, and changes nothing else.
pub proof fn commit_follows_the_majority(node: NodeView)
    requires
        0 <= node.id < node.match_index.len(),
    ensures
        ({
            let v = node.committed();
            let n = node.match_index.len();
            &&& reached(node, v.commit_index as int).len() * 2 > n
            &&& forall|x: int| x > v.commit_index ==> (#[trigger] reached(node, x)).len() * 2 <= n
            &&& v == (NodeView { commit_index: v.commit_index, ..node })
        }),
{
    let s = node.progress();
    let c = node.committed().commit_index;
    let n = node.match_index.len() as int;
    a_majority_value_exists(s);
    assert forall|x: int| (#[trigger] reached(node, x)).len() == count_at_least(s, x) by {
        count_is_cardinality(s, x);
        assert(reached(node, x) =~= positions_at_least(s, x));
    }
    assert(count_at_least(s, c as int) == reached(node, c as int).len());
    assert(count_at_least(s, c as int) * 2 > n);
    assert forall|x: int| x > c implies (#[trigger] reached(node, x)).len() * 2 <= n by {
        assert(count_at_least(s, x) <= s.len() / 2);
    }
}

/// Who may do what: a leader serves clients and sends entries to others, a candidate asks
/// others for votes, and whoever does not lead can time out.
pub proof fn roles_decide_what_a_node_does(node: NodeView, dest: i32)
    ensures
        node.can_time_out() <==> !(node.state is Leader),
        node.can_serve_client() <==> node.state is Leader,
        node.can_append(dest) <==> node.state is Leader && dest != node.id,
        node.can_request_vote(dest) <==> node.state is Candidate && dest != node.id,
{
}

/// A timeout makes the node a candidate in the next term that has voted for itself and
/// counts that vote only. The log and what the node knows of others stay.
pub proof fn a_timeout_starts_an_election(node: NodeView)
    requires
        node.current_term < i32::MAX,
    ensures
        ({
            let v = node.timed_out();
            &&& v.current_term == node.current_term + 1
            &&& v.state is Candidate
            &&& v.voted_for == Some(node.id)
            &&& v.votes_received.len() == 1
            &&& v.votes_received[0] == node.id
            &&& v.log == node.log
            &&& v.commit_index == node.commit_index
            &&& v.last_applied == node.last_applied
            &&& v.next_index == node.next_index
            &&& v.match_index == node.match_index
            &&& v.id == node.id
            &&& v.network_size == node.network_size
        }),
{
}

/// A client's request appends one entry, of the current term, at the end of the log, and
/// changes nothing else.
pub proof fn a_client_request_appends_one_entry(node: NodeView, val: i32)
    ensures
        ({
            let v = node.with_client_entry(val);
            &&& v.log.len() == node.log.len() + 1
            &&& forall|k: int| 0 <= k < node.log.len() ==> #[trigger] v.log[k] == node.log[k]
            &&& v.log.last().val == val
            &&& v.log.last().ent.term == node.current_term
            &&& v.log.last().ent.index == node.log.len() as i32
            &&& v == (NodeView { log: v.log, ..node })
        }),
{
}

/// A request for a vote tells the candidate's term and the name of its last entry.
pub proof fn vote_requests_tell_term_and_last_entry(node: NodeView, dest: i32)
    requires
        node.log.len() > 0,
    ensures
        ({
            let m = node.vote_request(dest);
            &&& m.from == node.id
            &&& m.to == dest
            &&& m.data matches MessageDataView::RequestVoteRequest { term, cand_id, last } && {
                &&& term == node.current_term
                &&& cand_id == node.id
                &&& last == node.log[node.log.len() - 1].ent
            }
        }),
{
}

/// A leader's request carries all of its entries from the next one for the destination on,
/// the name of the one before them, and the leader's own term and commit index.
pub proof fn append_requests_carry_the_rest_of_the_log(node: NodeView, dest: i32)
    requires
        0 <= dest < node.next_index.len(),
        1 <= node.next_index[dest as int] <= node.log.len(),
    ensures
        ({
            let m = node.append_request(dest);
            let next = node.next_index[dest as int] as int;
            &&& m.from == node.id
            &&& m.to == dest
            &&& m.data matches MessageDataView::AppendEntriesRequest {
                term,
                leader_id,
                prev,
                entries,
                leader_commit,
            } && {
                &&& term == node.current_term
                &&& leader_id == node.id
                &&& leader_commit == node.commit_index
                &&& prev == node.log[next - 1].ent
                &&& next + entries.len() == node.log.len()
                &&& forall|k: int|
                    0 <= k < entries.len() ==> #[trigger] entries[k] == node.log[next + k]
            }
        }),
{
}

/// Entries can be sent if and only if the next one has a predecessor in the log, or is the
/// one behind the log's end.
pub proof fn entries_can_be_sent_from_the_log(node: NodeView, dest: i32)
    ensures
        node.append_ready(dest) <==> 0 <= dest < node.next_index.len() && 0
            < node.next_index[dest as int] && node.next_index[dest as int] - 1 < node.log.len(),
{
}

/// A reply goes from the node to the one that asked, and tells the node's term.
pub proof fn replies_tell_the_term(
    node: NodeView,
    dest: i32,
    yes: bool,
    last: Option<LogEntry>,
)
    ensures
        ({
            let m = node.vote_reply(dest, yes);
            &&& m.from == node.id
            &&& m.to == dest
            &&& m.data matches MessageDataView::RequestVoteResponse { term, granted } && term
                == node.current_term && granted == yes
        }),
        ({
            let m = node.append_reply(dest, yes, last);
            &&& m.from == node.id
            &&& m.to == dest
            &&& m.data matches MessageDataView::AppendEntriesResponse {
                term,
                success,
                last: l,
            } && term == node.current_term && success == yes && l == last
        }),
{
}

/// What a node does on hearing of a later term, whatever the message: it becomes a follower
/// in that term that has not voted, answers nothing, and keeps log and commit index.
pub proof fn later_terms_are_adopted(node: NodeView, m: MessageView)
    requires
        m.data.term() > node.current_term,
    ensures
        ({
            let v = match m.data {
                MessageDataView::RequestVoteRequest { .. } => node.on_vote_request(m).0,
                MessageDataView::RequestVoteResponse { .. } => node.on_vote_response(m),
                MessageDataView::AppendEntriesRequest { .. } => node.on_append_request(m).0,
                MessageDataView::AppendEntriesResponse { .. } => node.on_append_response(m),
            };
            &&& v.current_term == m.data.term()
            &&& v.state is Follower
            &&& v.voted_for is None
            &&& v.votes_received.len() == 0
            &&& v.log == node.log
            &&& v.commit_index == node.commit_index
            &&& v.last_applied == node.last_applied
            &&& v.next_index == node.next_index
            &&& v.match_index == node.match_index
            &&& v.id == node.id
            &&& v.network_size == node.network_size
        }),
        m.data is RequestVoteRequest ==> node.on_vote_request(m).1.len() == 0,
        m.data is AppendEntriesRequest ==> node.on_append_request(m).1.len() == 0,
{
}

/// The term of a message is the one that its sender wrote into it.
pub proof fn terms_of_messages(
    t: i32,
    id: i32,
    yes: bool,
    e: LogEntry,
    entries: Seq<LogEntryValue>,
    last: Option<LogEntry>,
)
    ensures
        (MessageDataView::RequestVoteRequest { term: t, cand_id: id, last: e }).term() == t,
        (MessageDataView::RequestVoteResponse { term: t, granted: yes }).term() == t,
        (MessageDataView::AppendEntriesRequest {
            term: t,
            leader_id: id,
            prev: e,
            entries,
            leader_commit: id,
        }).term() == t,
        (MessageDataView::AppendEntriesResponse { term: t, success: yes, last }).term() == t,
{
}

/// A message of an earlier term changes nothing; the requests among them are refused, with
/// the node's own term.
pub proof fn earlier_terms_are_refused(node: NodeView, m: MessageView)
    requires
        m.data.term() < node.current_term,
    ensures
        m.data is RequestVoteRequest ==> node.on_vote_request(m).0 == node,
        m.data is RequestVoteResponse ==> node.on_vote_response(m) == node,
        m.data is AppendEntriesRequest ==> node.on_append_request(m).0 == node,
        m.data is AppendEntriesResponse ==> node.on_append_response(m) == node,
        m.data is RequestVoteRequest ==> node.on_vote_request(m).1.len() == 1
            && node.on_vote_request(m).1[0] == (MessageView {
            from: node.id,
            to: m.from,
            data: MessageDataView::RequestVoteResponse { term: node.current_term, granted: false },
        }),
        m.data is AppendEntriesRequest ==> node.on_append_request(m).1.len() == 1
            && node.on_append_request(m).1[0] == (MessageView {
            from: node.id,
            to: m.from,
            data: MessageDataView::AppendEntriesResponse {
                term: node.current_term,
                success: false,
                last: None,
            },
        }),
{
}

/// Election restriction: in its current term a node answers a request for its vote once,
/// and grants it if and only if it has not voted for another and the candidate's last entry
/// is of a later term than its own, or of the same term with an index no smaller. A granted
/// vote is remembered; nothing else changes.
pub proof fn votes_go_to_up_to_date_logs(
    node: NodeView,
    from: i32,
    to: i32,
    cand_id: i32,
    last: LogEntry,
)
    requires
        node.log.len() > 0,
    ensures
        ({
            let m = MessageView {
                from,
                to,
                data: MessageDataView::RequestVoteRequest { term: node.current_term, cand_id, last },
            };
            let (v, out) = node.on_vote_request(m);
            let mine = node.log[node.log.len() - 1].ent;
            let newer = last.term > mine.term || (last.term == mine.term && last.index
                >= mine.index);
            let free = match node.voted_for {
                Some(c) => c == from,
                None => true,
            };
            &&& out.len() == 1
            &&& out[0].from == node.id
            &&& out[0].to == from
            &&& out[0].data matches MessageDataView::RequestVoteResponse { term, granted } && {
                &&& term == node.current_term
                &&& granted <==> newer && free
                &&& v.voted_for == (if granted {
                    Some(from)
                } else {
                    node.voted_for
                })
            }
            &&& v == (NodeView { voted_for: v.voted_for, ..node })
        }),
{
}

/// A granted vote of the current term counts once, an answer that does not grant counts
/// nothing. The node leads if and only if it led before or counts the votes of more than
/// half of the nodes. Log, term, vote and commit index stay.
pub proof fn votes_are_counted_once(node: NodeView, from: i32, to: i32, granted: bool)
    ensures
        ({
            let m = MessageView {
                from,
                to,
                data: MessageDataView::RequestVoteResponse { term: node.current_term, granted },
            };
            let v = node.on_vote_response(m);
            let won = v.votes_received.len() * 2 > node.network_size;
            &&& granted && !node.votes_received.contains(from) ==> v.votes_received
                == node.votes_received.push(from)
            &&& !granted || node.votes_received.contains(from) ==> v.votes_received
                == node.votes_received
            &&& won ==> {
                &&& v.state is Leader
                &&& v.next_index.len() == node.next_index.len()
                &&& v.match_index.len() == node.match_index.len()
                &&& forall|d: int|
                    0 <= d < v.next_index.len() ==> #[trigger] v.next_index[d]
                        == node.log.len() as i32
                &&& forall|d: int| 0 <= d < v.match_index.len() ==> #[trigger] v.match_index[d] == 0
            }
            &&& !won ==> v.state == node.state && v.next_index == node.next_index && v.match_index
                == node.match_index
            &&& v.log == node.log
            &&& v.current_term == node.current_term
            &&& v.voted_for == node.voted_for
            &&& v.commit_index == node.commit_index
            &&& v.last_applied == node.last_applied
            &&& v.id == node.id
            &&& v.network_size == node.network_size
        }),
{
}

/// A leader's entries are taken if and only if the log holds an entry of the named term at
/// the named index. Then the log is what it was up to that entry, followed by the entries.
/// A commit index behind the leader's becomes the leader's where the entries reach that far,
/// and the last of their indices where they do not; any other stays. The answer names the
/// log's last entry. A refusal changes nothing.
pub proof fn entries_are_taken_behind_a_known_entry(
    node: NodeView,
    from: i32,
    to: i32,
    leader_id: i32,
    prev: LogEntry,
    entries: Seq<LogEntryValue>,
    leader_commit: i32,
)
    requires
        0 <= prev.index < node.log.len() && node.log[prev.index as int].ent.term == prev.term
            ==> i32::MIN <= prev.index + entries.len() as i32 <= i32::MAX,
    ensures
        ({
            let m = MessageView {
                from,
                to,
                data: MessageDataView::AppendEntriesRequest {
                    term: node.current_term,
                    leader_id,
                    prev,
                    entries,
                    leader_commit,
                },
            };
            let (v, out) = node.on_append_request(m);
            let known = 0 <= prev.index < node.log.len() && node.log[prev.index as int].ent.term
                == prev.term;
            let end = prev.index + entries.len() as i32;
            &&& out.len() == 1
            &&& out[0].from == node.id
            &&& out[0].to == from
            &&& out[0].data matches MessageDataView::AppendEntriesResponse {
                term,
                success,
                last,
            } && {
                &&& term == node.current_term
                &&& success <==> known
                &&& known ==> last == Some(v.log[v.log.len() - 1].ent)
                &&& !known ==> last is None
            }
            &&& !known ==> v == node
            &&& known ==> {
                &&& v.log.len() == prev.index + 1 + entries.len()
                &&& forall|k: int| 0 <= k <= prev.index ==> #[trigger] v.log[k] == node.log[k]
                &&& forall|k: int|
                    0 <= k < entries.len() ==> v.log[prev.index + 1 + k] == #[trigger] entries[k]
                &&& leader_commit <= node.commit_index ==> v.commit_index == node.commit_index
                &&& leader_commit > node.commit_index && leader_commit <= end ==> v.commit_index
                    == leader_commit
                &&& leader_commit > node.commit_index && leader_commit > end ==> v.commit_index
                    == end
                &&& v == (NodeView { log: v.log, commit_index: v.commit_index, ..node })
            }
        }),
{
}

/// What a leader sends brings a follower's log to the leader's: a follower in the leader's
/// term whose log agrees with the leader's before the next entry has the leader's log
/// afterwards, and answers with the leader's last entry.
pub proof fn taking_a_leaders_entries_copies_its_log(
    leader: NodeView,
    follower: NodeView,
    dest: i32,
)
    requires
        0 <= dest < leader.next_index.len(),
        1 <= leader.next_index[dest as int] <= leader.log.len() <= i32::MAX,
        follower.current_term == leader.current_term,
        follower.log.len() >= leader.next_index[dest as int],
        forall|k: int|
            0 <= k < leader.next_index[dest as int] ==> #[trigger] follower.log[k]
                == leader.log[k],
        forall|k: int| 0 <= k < leader.log.len() ==> (#[trigger] leader.log[k]).ent.index == k,
    ensures
        ({
            let (v, out) = follower.on_append_request(leader.append_request(dest));
            &&& v.log == leader.log
            &&& out.len() == 1
            &&& out[0].to == leader.id
            &&& out[0].data matches MessageDataView::AppendEntriesResponse {
                success,
                last,
                ..
            } && success && last == Some(leader.log[leader.log.len() - 1].ent)
        }),
{
    let next = leader.next_index[dest as int] as int;
    let v = follower.on_append_request(leader.append_request(dest)).0;
    assert(leader.log[next - 1].ent.index == next - 1);
    assert(follower.log[next - 1] == leader.log[next - 1]);
    assert(v.log =~= leader.log);
}

/// A success of the current term records how far the sender has come, in its own places of
/// the two lists only, and sets the commit index to the largest number that more than half
/// have then reached. Log, term, vote and role stay.
pub proof fn a_success_records_the_progress(
    node: NodeView,
    from: i32,
    to: i32,
    last: LogEntry,
)
    requires
        0 <= from < node.next_index.len(),
        from < node.match_index.len(),
        0 <= node.id < node.match_index.len(),
        last.index < i32::MAX,
    ensures
        ({
            let m = MessageView {
                from,
                to,
                data: MessageDataView::AppendEntriesResponse {
                    term: node.current_term,
                    success: true,
                    last: Some(last),
                },
            };
            let v = node.on_append_response(m);
            let n = node.match_index.len();
            &&& v.next_index.len() == node.next_index.len()
            &&& v.match_index.len() == n
            &&& v.next_index[from as int] == last.index + 1
            &&& v.match_index[from as int] == last.index
            &&& forall|d: int|
                0 <= d < v.next_index.len() && d != from ==> #[trigger] v.next_index[d]
                    == node.next_index[d]
            &&& forall|d: int|
                0 <= d < v.match_index.len() && d != from ==> #[trigger] v.match_index[d]
                    == node.match_index[d]
            &&& reached(v, v.commit_index as int).len() * 2 > n
            &&& forall|x: int| x > v.commit_index ==> (#[trigger] reached(v, x)).len() * 2 <= n
            &&& v == (NodeView {
                next_index: v.next_index,
                match_index: v.match_index,
                commit_index: v.commit_index,
                ..node
            })
        }),
{
    let m = MessageView {
        from,
        to,
        data: MessageDataView::AppendEntriesResponse {
            term: node.current_term,
            success: true,
            last: Some(last),
        },
    };
    let v = node.on_append_response(m);
    let before = NodeView {
        next_index: node.next_index.update(from as int, (last.index + 1) as i32),
        match_index: node.match_index.update(from as int, last.index),
        ..node
    };
    commit_follows_the_majority(before);
    assert(v == before.committed());
    assert forall|x: int| #[trigger] reached(v, x) == reached(before, x) by {
        assert(reached(v, x) =~= reached(before, x));
    }
}

/// A failure of the current term makes the next entry for the sender the one before, and
/// changes nothing else.
pub proof fn a_failure_steps_back_by_one(node: NodeView, from: i32, to: i32, last: Option<LogEntry>)
    requires
        0 <= from < node.next_index.len(),
        node.next_index[from as int] > i32::MIN,
    ensures
        ({
            let m = MessageView {
                from,
                to,
                data: MessageDataView::AppendEntriesResponse {
                    term: node.current_term,
                    success: false,
                    last,
                },
            };
            let v = node.on_append_response(m);
            &&& v.next_index.len() == node.next_index.len()
            &&& v.next_index[from as int] == node.next_index[from as int] - 1
            &&& forall|d: int|
                0 <= d < v.next_index.len() && d != from ==> #[trigger] v.next_index[d]
                    == node.next_index[d]
            &&& v == (NodeView { next_index: v.next_index, ..node })
        }),
{
}

/// When a message can be taken: it is of the right kind and for this node, and in the node's
/// own term no number leaves its range and no position its list.
pub proof fn messages_that_can_be_taken(node: NodeView, m: MessageView)
    ensures
        node.vote_request_ready(m) <==> m.to == node.id && m.data is RequestVoteRequest && (
        m.data.term() != node.current_term || node.log.len() != 0),
        node.vote_response_ready(m) <==> m.to == node.id && m.data is RequestVoteResponse,
        node.append_request_ready(m) <==> m.to == node.id && (
        m.data matches MessageDataView::AppendEntriesRequest { term, prev, entries, .. } && (term
            != node.current_term || prev.index < 0 || prev.index >= node.log.len()
            || node.log[prev.index as int].ent.term != prev.term || i32::MIN <= prev.index
            + entries.len() as i32 <= i32::MAX)),
        node.append_response_ready(m) <==> m.to == node.id && (
        m.data matches MessageDataView::AppendEntriesResponse { term, success, last } && (term
            != node.current_term || (0 <= m.from < node.next_index.len() && (!success
            ==> node.next_index[m.from as int] != i32::MIN) && (success ==> (last matches Some(
            e,
        ) && e.index != i32::MAX) && m.from < node.match_index.len() && 0 <= node.id
            < node.match_index.len())))),
{
}

/// A node is in shape if and only if it is one of the nodes that it keeps two lists for, and
/// its log is not empty.
pub proof fn nodes_in_shape(node: NodeView)
    ensures
        node.shaped() <==> node.id >= 0 && node.id < node.network_size && node.network_size
            <= i32::MAX && node.next_index.len() == node.network_size && node.match_index.len()
            == node.network_size && node.log.len() != 0,
{
}

/// The model of a node shows every field as it is.
pub proof fn node_models_hide_nothing(node: RaftNode)
    ensures
        node@.current_term == node.current_term,
        node@.voted_for == node.voted_for,
        node@.log == node.log@,
        node@.commit_index == node.commit_index,
        node@.last_applied == node.last_applied,
        node@.next_index == node.next_index@,
        node@.match_index == node.match_index@,
        node@.network_size == node.network_size,
        node@.id == node.id,
        node@.state == node.state,
        node@.votes_received == node.votes_received@,
{
}

/// The model of a message shows every field as it is.
pub proof fn message_models_hide_nothing(m: Message)
    ensures
        m@.from == m.from,
        m@.to == m.to,
        match m.data {
            MessageData::RequestVoteRequest { term, cand_id, last } => m@.data
                == (MessageDataView::RequestVoteRequest { term, cand_id, last }),
            MessageData::RequestVoteResponse { term, granted } => m@.data
                == (MessageDataView::RequestVoteResponse { term, granted }),
            MessageData::AppendEntriesRequest { term, leader_id, prev, entries, leader_commit } =>
                m@.data matches MessageDataView::AppendEntriesRequest {
                    term: t,
                    leader_id: l,
                    prev: p,
                    entries: e,
                    leader_commit: c,
                } && t == term && l == leader_id && p == prev && e == entries@ && c
                    == leader_commit,
            MessageData::AppendEntriesResponse { term, success, last } => m@.data
                == (MessageDataView::AppendEntriesResponse { term, success, last }),
        },
{
}

} // verus!
