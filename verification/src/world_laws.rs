//! What each step does to the world: to its nodes, to the messages in flight and to the list
//! of crashed nodes.

use vstd::prelude::*;

use crate::laws::{legal, run};
use crate::message::MessageDataView;
use crate::node::NodeState;
use crate::node_laws::{
    a_success_records_the_progress, reached, taking_a_leaders_entries_copies_its_log,
};
use crate::node_model::NodeView;
use crate::step::WorldStep;
use crate::world::World;
use crate::world_model::WorldView;

verus! {

/// The first world has `n` followers in term zero, numbered from zero, that have not voted
/// and hold the first entry only. Nothing is in flight, nobody has crashed, no step was taken.
pub proof fn the_first_world_is_at_rest(n: usize, i: int)
    requires
        n <= i32::MAX,
    ensures
        ({
            let w = WorldView::initial(n);
            &&& w.nodes.len() == n
            &&& w.n_nodes == n
            &&& w.n_steps == 0
            &&& w.msgs.len() == 0
            &&& w.crashed.len() == 0
            &&& 0 <= i < n ==> {
                let v = w.nodes[i];
                &&& v.id == i
                &&& v.network_size == n
                &&& v.current_term == 0
                &&& v.voted_for is None
                &&& v.state is Follower
                &&& v.votes_received.len() == 0
                &&& v.log.len() == 1
                &&& v.log[0].ent.term == 0
                &&& v.log[0].ent.index == 0
                &&& v.log[0].val == 0
                &&& v.commit_index == 0
                &&& v.last_applied == 0
                &&& v.next_index.len() == n
                &&& v.match_index.len() == n
                &&& forall|d: int| 0 <= d < n ==> #[trigger] v.next_index[d] == -1
                &&& forall|d: int| 0 <= d < n ==> #[trigger] v.match_index[d] == -1
            }
        }),
{
}

/// Counting a step adds one to the number of steps and changes nothing else.
pub proof fn counting_a_step(w: WorldView)
    ensures
        w.ticked().n_steps == w.n_steps + 1,
        w.ticked().nodes == w.nodes,
        w.ticked().msgs == w.msgs,
        w.ticked().crashed == w.crashed,
        w.ticked().n_nodes == w.n_nodes,
{
}

/// A run grows one step at a time: the empty run is legal, and a step can follow a legal run
/// if and only if it can happen and can be executed once it is counted.
pub proof fn runs_grow_step_by_step(n: usize, steps: Seq<WorldStep>, step: WorldStep)
    ensures
        legal(n, Seq::empty()),
        run(n, Seq::empty()) == WorldView::initial(n),
        legal(n, steps.push(step)) <==> legal(n, steps) && run(n, steps).ticked().enabled(step)
            && run(n, steps).ticked().ready(step),
        run(n, steps.push(step)) == run(n, steps).ticked().after(step),
{
    assert(steps.push(step).drop_last() =~= steps);
    assert(steps.push(step).last() == step);
}

/// A world is well formed if and only if each node stands at the position that it is numbered
/// with, has a log, and keeps two lists with a place for each node.
pub proof fn well_formed_worlds(w: WorldView)
    ensures
        w.wf() <==> (w.n_nodes == w.nodes.len() && w.nodes.len() <= i32::MAX && forall|i: int|
            0 <= i < w.nodes.len() ==> {
                let v = #[trigger] w.nodes[i];
                &&& v.id == i
                &&& v.network_size == w.nodes.len()
                &&& v.next_index.len() == w.nodes.len()
                &&& v.match_index.len() == w.nodes.len()
                &&& v.log.len() != 0
            }),
{
    if w.n_nodes == w.nodes.len() && w.nodes.len() <= i32::MAX && forall|i: int|
        0 <= i < w.nodes.len() ==> {
            let v = #[trigger] w.nodes[i];
            &&& v.id == i
            &&& v.network_size == w.nodes.len()
            &&& v.next_index.len() == w.nodes.len()
            &&& v.match_index.len() == w.nodes.len()
            &&& v.log.len() != 0
        } {
        assert forall|i: int| 0 <= i < w.nodes.len() implies (#[trigger] w.nodes[i]).shaped()
            && w.nodes[i].id == i && w.nodes[i].network_size == w.nodes.len() by {
            assert(w.nodes[i].id == i);
        }
        assert(w.wf());
    }
}

/// The model of the world shows every field as it is.
pub proof fn world_models_hide_nothing(w: World)
    ensures
        w@.nodes.len() == w.nodes@.len(),
        forall|i: int| 0 <= i < w.nodes@.len() ==> #[trigger] w@.nodes[i] == w.nodes@[i]@,
        w@.msgs.len() == w.network.msgs@.len(),
        forall|i: int| 0 <= i < w.network.msgs@.len() ==> #[trigger] w@.msgs[i] == w.network.msgs@[i]@,
        w@.crashed == w.crashed@,
        w@.n_steps == w.n_steps,
        w@.n_nodes == w.n_nodes,
{
}

/// What a node that is up can do of its own accord: crash always, time out unless it leads,
/// take a client's request when it leads, send entries to another when it leads, and ask
/// another for its vote when it is a candidate. A node that has crashed can only restart.
pub proof fn steps_that_nodes_can_take(w: WorldView, id: i32, value: i32, dest: i32)
    ensures
        ({
            let there = 0 <= id < w.nodes.len();
            let down = exists|k: int| 0 <= k < w.crashed.len() && w.crashed[k] == id;
            let other = 0 <= dest < w.nodes.len() && dest != w.nodes[id as int].id;
            let state = w.nodes[id as int].state;
            &&& w.enabled(WorldStep::Crash { id }) <==> there && !down
            &&& w.enabled(WorldStep::Restart { id }) <==> there && down
            &&& w.enabled(WorldStep::HeartBeatTimeout { id }) <==> there && !down && !(
            state is Leader)
            &&& w.enabled(WorldStep::ClientRequest { id, value }) <==> there && !down
                && state is Leader && value == w.n_steps as i32
            &&& w.enabled(WorldStep::SendAppendEntries { id, dest }) <==> there && !down && other
                && state is Leader
            &&& w.enabled(WorldStep::SendRequestVote { id, dest }) <==> there && !down && other
                && state is Candidate
        }),
{
}

/// A message can be received by the node that it is addressed to, as long as that node is up,
/// by the step for its kind and by no other.
pub proof fn steps_that_messages_can_take(w: WorldView, id: i32, msg_idx: usize)
    ensures
        ({
            let m = w.msgs[msg_idx as int];
            let arrives = msg_idx < w.msgs.len() && m.to == id && !(exists|k: int|
                0 <= k < w.crashed.len() && w.crashed[k] == id);
            &&& w.enabled(WorldStep::RecvRequestVoteRequest { id, msg_idx }) <==> arrives
                && m.data is RequestVoteRequest
            &&& w.enabled(WorldStep::RecvRequestVoteResponse { id, msg_idx }) <==> arrives
                && m.data is RequestVoteResponse
            &&& w.enabled(WorldStep::RecvAppendEntriesRequest { id, msg_idx }) <==> arrives
                && m.data is AppendEntriesRequest
            &&& w.enabled(WorldStep::RecvAppendEntriesResponse { id, msg_idx }) <==> arrives
                && m.data is AppendEntriesResponse
            &&& m.data is RequestVoteRequest ==> w.receipt(msg_idx)
                == (WorldStep::RecvRequestVoteRequest { id: m.to, msg_idx })
            &&& m.data is RequestVoteResponse ==> w.receipt(msg_idx)
                == (WorldStep::RecvRequestVoteResponse { id: m.to, msg_idx })
            &&& m.data is AppendEntriesRequest ==> w.receipt(msg_idx)
                == (WorldStep::RecvAppendEntriesRequest { id: m.to, msg_idx })
            &&& m.data is AppendEntriesResponse ==> w.receipt(msg_idx)
                == (WorldStep::RecvAppendEntriesResponse { id: m.to, msg_idx })
        }),
{
}

/// What a node's own step needs to be executed: besides what lets it happen, a term that can
/// still grow, and a next entry that has a predecessor in the log. A crash needs nothing.
pub proof fn own_steps_that_can_be_executed(w: WorldView, id: i32, value: i32, dest: i32)
    requires
        w.wf(),
    ensures
        ({
            let there = 0 <= id < w.nodes.len();
            let v = w.nodes[id as int];
            &&& w.ready(WorldStep::Crash { id })
            &&& w.ready(WorldStep::Restart { id }) <==> there && (exists|k: int|
                0 <= k < w.crashed.len() && w.crashed[k] == id)
            &&& w.ready(WorldStep::HeartBeatTimeout { id }) <==> there && !(v.state is Leader)
                && v.current_term != i32::MAX
            &&& w.ready(WorldStep::ClientRequest { id, value }) <==> there && v.state is Leader
            &&& w.ready(WorldStep::SendRequestVote { id, dest }) <==> there && v.state is Candidate
                && dest != id
            &&& w.ready(WorldStep::SendAppendEntries { id, dest }) <==> there && v.state is Leader
                && dest != id && 0 <= dest < w.nodes.len() && v.next_index[dest as int] > 0
                && v.next_index[dest as int] <= v.log.len()
        }),
{
    if 0 <= id < w.nodes.len() {
        assert(w.nodes[id as int].shaped());
    }
}

/// What a receipt needs to be executed: a message in flight of the right kind, addressed to
/// the node. Answers to entries must come from a node, a success must name an entry, and no
/// index may leave its range.
pub proof fn receipts_that_can_be_executed(w: WorldView, id: i32, msg_idx: usize)
    requires
        w.wf(),
    ensures
        ({
            let v = w.nodes[id as int];
            let m = w.msgs[msg_idx as int];
            let there = 0 <= id < w.nodes.len() && msg_idx < w.msgs.len() && m.to == id;
            &&& w.ready(WorldStep::RecvRequestVoteRequest { id, msg_idx }) <==> there
                && m.data is RequestVoteRequest
            &&& w.ready(WorldStep::RecvRequestVoteResponse { id, msg_idx }) <==> there
                && m.data is RequestVoteResponse
            &&& w.ready(WorldStep::RecvAppendEntriesRequest { id, msg_idx }) <==> there && (
            m.data matches MessageDataView::AppendEntriesRequest { term, prev, entries, .. } && (
            term != v.current_term || prev.index < 0 || prev.index >= v.log.len()
                || v.log[prev.index as int].ent.term != prev.term || i32::MIN <= prev.index
                + entries.len() as i32 <= i32::MAX))
            &&& w.ready(WorldStep::RecvAppendEntriesResponse { id, msg_idx }) <==> there && (
            m.data matches MessageDataView::AppendEntriesResponse { term, success, last } && (term
                != v.current_term || (0 <= m.from < w.nodes.len() && (if success {
                last matches Some(e) && e.index != i32::MAX
            } else {
                v.next_index[m.from as int] != i32::MIN
            }))))
        }),
{
    if 0 <= id < w.nodes.len() {
        assert(w.nodes[id as int].shaped());
    }
}

/// Steps neither add nor remove nodes, nor do they count themselves. Only a crash and a
/// restart change who is down, and only sends and receipts change what is in flight.
pub proof fn what_steps_leave_alone(w: WorldView, step: WorldStep)
    requires
        w.wf(),
        w.ready(step),
    ensures
        w.after(step).nodes.len() == w.nodes.len(),
        w.after(step).n_nodes == w.n_nodes,
        w.after(step).n_steps == w.n_steps,
        !(step is Crash) && !(step is Restart) ==> w.after(step).crashed == w.crashed,
        step is Crash || step is Restart || step is HeartBeatTimeout || step is ClientRequest
            ==> w.after(step).msgs == w.msgs,
        step is Crash || step is SendAppendEntries || step is SendRequestVote ==> w.after(
            step,
        ).nodes == w.nodes,
{
}

/// A crash adds the node to those that are down. A restart takes it off that list, at its
/// first place there.
pub proof fn crashes_and_restarts_are_recorded(w: WorldView, id: i32)
    ensures
        w.after(WorldStep::Crash { id }).crashed == w.crashed.push(id),
        w.ready(WorldStep::Restart { id }) ==> exists|k: int|
            0 <= k < w.crashed.len() && w.crashed[k] == id && (forall|j: int|
                0 <= j < k ==> w.crashed[j] != id) && w.after(WorldStep::Restart { id }).crashed
                == #[trigger] w.crashed.remove(k),
{
    if w.ready(WorldStep::Restart { id }) {
        w.crashed.index_of_first_ensures(id);
        let k = w.crashed.index_of_first(id)->0;
        assert(w.after(WorldStep::Restart { id }).crashed == w.crashed.remove(k));
    }
}

/// After a restart the node is a follower with term, vote and log as they were, and nothing
/// else.
pub proof fn restarted_nodes_remember_term_vote_and_log(w: WorldView, id: i32)
    requires
        w.wf(),
        w.ready(WorldStep::Restart { id }),
    ensures
        ({
            let old_node = w.nodes[id as int];
            let v = w.after(WorldStep::Restart { id }).nodes[id as int];
            &&& v.current_term == old_node.current_term
            &&& v.voted_for == old_node.voted_for
            &&& v.log == old_node.log
            &&& v.id == old_node.id
            &&& v.network_size == old_node.network_size
            &&& v.state is Follower
            &&& v.votes_received.len() == 0
            &&& v.commit_index == 0
            &&& v.last_applied == 0
            &&& v.next_index.len() == w.nodes.len()
            &&& v.match_index.len() == w.nodes.len()
            &&& forall|d: int| 0 <= d < w.nodes.len() ==> #[trigger] v.next_index[d] == -1
            &&& forall|d: int| 0 <= d < w.nodes.len() ==> #[trigger] v.match_index[d] == -1
        }),
{
    assert(w.nodes[id as int].shaped());
}

/// After a timeout the node stands for election in the next term: it has voted for itself,
/// and counts that vote only. Its log and its commit index stay.
pub proof fn timed_out_nodes_stand_for_election(w: WorldView, id: i32)
    requires
        w.wf(),
        w.ready(WorldStep::HeartBeatTimeout { id }),
    ensures
        ({
            let old_node = w.nodes[id as int];
            let v = w.after(WorldStep::HeartBeatTimeout { id }).nodes[id as int];
            &&& v.current_term == old_node.current_term + 1
            &&& v.state is Candidate
            &&& v.voted_for == Some(id)
            &&& v.votes_received.len() == 1
            &&& v.votes_received[0] == id
            &&& v.log == old_node.log
            &&& v.commit_index == old_node.commit_index
            &&& v.last_applied == old_node.last_applied
            &&& v.next_index == old_node.next_index
            &&& v.match_index == old_node.match_index
            &&& v.id == old_node.id
            &&& v.network_size == old_node.network_size
        }),
{
    assert(w.nodes[id as int].shaped());
}

/// After a client's request the leader's log holds one entry more, of the leader's term, with
/// the client's value. Nothing else of the leader changes.
pub proof fn client_requests_append_one_entry(w: WorldView, id: i32, value: i32)
    requires
        w.wf(),
        w.ready(WorldStep::ClientRequest { id, value }),
    ensures
        ({
            let old_node = w.nodes[id as int];
            let v = w.after(WorldStep::ClientRequest { id, value }).nodes[id as int];
            let last = v.log[v.log.len() - 1];
            &&& v.log.len() == old_node.log.len() + 1
            &&& forall|k: int| 0 <= k < old_node.log.len() ==> #[trigger] v.log[k] == old_node.log[k]
            &&& last.val == value
            &&& last.ent.term == old_node.current_term
            &&& old_node.log.len() <= i32::MAX ==> last.ent.index == old_node.log.len()
            &&& v == (NodeView { log: v.log, ..old_node })
        }),
{
}

/// A request for a vote goes in flight behind all other messages. It tells the candidate's
/// term, and the term and index of its last entry.
pub proof fn vote_requests_go_in_flight(w: WorldView, id: i32, dest: i32)
    requires
        w.wf(),
        w.ready(WorldStep::SendRequestVote { id, dest }),
    ensures
        ({
            let v = w.nodes[id as int];
            let after = w.after(WorldStep::SendRequestVote { id, dest });
            let m = after.msgs[w.msgs.len() as int];
            &&& after.msgs.len() == w.msgs.len() + 1
            &&& forall|k: int| 0 <= k < w.msgs.len() ==> #[trigger] after.msgs[k] == w.msgs[k]
            &&& m.from == id
            &&& m.to == dest
            &&& m.data matches MessageDataView::RequestVoteRequest { term, cand_id, last } && {
                &&& term == v.current_term
                &&& cand_id == id
                &&& last.term == v.log[v.log.len() - 1].ent.term
                &&& last.index == v.log[v.log.len() - 1].ent.index
            }
        }),
{
    assert(w.nodes[id as int].shaped());
}

/// A leader's entries go in flight behind all other messages: those from the next one for the
/// destination on, with the name of the entry before them, and with the leader's term and
/// commit index.
pub proof fn entries_go_in_flight(w: WorldView, id: i32, dest: i32)
    requires
        w.wf(),
        w.ready(WorldStep::SendAppendEntries { id, dest }),
    ensures
        ({
            let v = w.nodes[id as int];
            let after = w.after(WorldStep::SendAppendEntries { id, dest });
            let m = after.msgs[w.msgs.len() as int];
            let next = v.next_index[dest as int] as int;
            &&& after.msgs.len() == w.msgs.len() + 1
            &&& after.msgs.last() == m
            &&& forall|k: int| 0 <= k < w.msgs.len() ==> #[trigger] after.msgs[k] == w.msgs[k]
            &&& m.from == id
            &&& m.to == dest
            &&& m.data matches MessageDataView::AppendEntriesRequest {
                term,
                leader_id,
                prev,
                entries,
                leader_commit,
            } && {
                &&& term == v.current_term
                &&& leader_id == id
                &&& leader_commit == v.commit_index
                &&& prev == v.log[next - 1].ent
                &&& entries.len() + next == v.log.len()
                &&& forall|k: int| 0 <= k < entries.len() ==> #[trigger] entries[k] == v.log[next + k]
            }
        }),
{
    assert(w.nodes[id as int].shaped());
}

/// A received message leaves the network, the others keep their order. An answer, if there is
/// one, goes in flight behind them, from the node to the sender. Answers get no answer, nor
/// does a message of a later term; a request of the node's own term or an earlier one gets
/// exactly one, of the kind that fits.
pub proof fn receipts_take_the_message(w: WorldView, step: WorldStep, id: i32, msg_idx: usize)
    requires
        w.wf(),
        w.ready(step),
        step == (WorldStep::RecvRequestVoteRequest { id, msg_idx }) || step == (
        WorldStep::RecvRequestVoteResponse { id, msg_idx }) || step == (
        WorldStep::RecvAppendEntriesRequest { id, msg_idx }) || step == (
        WorldStep::RecvAppendEntriesResponse { id, msg_idx }),
    ensures
        ({
            let m = w.msgs[msg_idx as int];
            let term = match m.data {
                MessageDataView::RequestVoteRequest { term, .. } => term,
                MessageDataView::RequestVoteResponse { term, .. } => term,
                MessageDataView::AppendEntriesRequest { term, .. } => term,
                MessageDataView::AppendEntriesResponse { term, .. } => term,
            };
            let answered = (m.data is RequestVoteRequest || m.data is AppendEntriesRequest) && term
                <= w.nodes[id as int].current_term;
            let left = w.msgs.len() - 1;
            let after = w.after(step).msgs;
            &&& after.len() == (if answered {
                left + 1
            } else {
                left
            })
            &&& forall|k: int| 0 <= k < msg_idx ==> #[trigger] after[k] == w.msgs[k]
            &&& forall|k: int| msg_idx <= k < left ==> #[trigger] after[k] == w.msgs[k + 1]
            &&& answered ==> after[left].from == id && after[left].to == m.from && (
            if m.data is RequestVoteRequest {
                after[left].data is RequestVoteResponse
            } else {
                after[left].data is AppendEntriesResponse
            })
        }),
{
    assert(w.nodes[id as int].shaped());
}

/// A message of a later term, whatever its kind, makes the node a follower in that term that
/// has not voted. Its log, its commit index and its two lists stay.
pub proof fn later_terms_are_taken_over(w: WorldView, step: WorldStep, id: i32, msg_idx: usize)
    requires
        w.wf(),
        w.ready(step),
        step == (WorldStep::RecvRequestVoteRequest { id, msg_idx }) || step == (
        WorldStep::RecvRequestVoteResponse { id, msg_idx }) || step == (
        WorldStep::RecvAppendEntriesRequest { id, msg_idx }) || step == (
        WorldStep::RecvAppendEntriesResponse { id, msg_idx }),
    ensures
        ({
            let old_node = w.nodes[id as int];
            let v = w.after(step).nodes[id as int];
            let term = match w.msgs[msg_idx as int].data {
                MessageDataView::RequestVoteRequest { term, .. } => term,
                MessageDataView::RequestVoteResponse { term, .. } => term,
                MessageDataView::AppendEntriesRequest { term, .. } => term,
                MessageDataView::AppendEntriesResponse { term, .. } => term,
            };
            &&& term > old_node.current_term ==> {
                &&& v.current_term == term
                &&& v.state is Follower
                &&& v.voted_for is None
                &&& v.votes_received.len() == 0
                &&& v.log == old_node.log
                &&& v.commit_index == old_node.commit_index
                &&& v.last_applied == old_node.last_applied
                &&& v.next_index == old_node.next_index
                &&& v.match_index == old_node.match_index
                &&& v.id == old_node.id
                &&& v.network_size == old_node.network_size
            }
            &&& term < old_node.current_term ==> v == old_node
            &&& term <= old_node.current_term ==> v.current_term == old_node.current_term
        }),
{
    assert(w.nodes[id as int].shaped());
}

/// Requests of an earlier term are refused: the answer tells the node's own term.
pub proof fn outdated_requests_are_refused(w: WorldView, id: i32, msg_idx: usize)
    requires
        w.wf(),
    ensures
        ({
            let v = w.nodes[id as int];
            let ask = WorldStep::RecvRequestVoteRequest { id, msg_idx };
            let append = WorldStep::RecvAppendEntriesRequest { id, msg_idx };
            &&& w.ready(ask) ==> (w.msgs[msg_idx as int].data matches
            MessageDataView::RequestVoteRequest { term, .. } && (term < v.current_term ==> w.after(
                ask,
            ).msgs.last().data == (MessageDataView::RequestVoteResponse {
                term: v.current_term,
                granted: false,
            })))
            &&& w.ready(append) ==> (w.msgs[msg_idx as int].data matches
            MessageDataView::AppendEntriesRequest { term, .. } && (term < v.current_term
                ==> w.after(append).msgs.last().data == (MessageDataView::AppendEntriesResponse {
                term: v.current_term,
                success: false,
                last: None,
            })))
        }),
{
}

/// Election restriction: the answer that goes in flight grants the vote if and only if the
/// request is of the voter's term, the voter has not voted for another in it, and the
/// candidate's last entry is of a later term than the voter's, or of the same term with an
/// index no smaller. The voter remembers a vote that it grants, and nothing else of it
/// changes.
pub proof fn votes_are_granted_to_up_to_date_candidates(w: WorldView, id: i32, msg_idx: usize)
    requires
        w.wf(),
        w.ready(WorldStep::RecvRequestVoteRequest { id, msg_idx }),
    ensures
        ({
            let step = WorldStep::RecvRequestVoteRequest { id, msg_idx };
            let after = w.after(step);
            let old_node = w.nodes[id as int];
            let v = after.nodes[id as int];
            let mine = old_node.log[old_node.log.len() - 1].ent;
            let candidate = w.msgs[msg_idx as int].from;
            w.msgs[msg_idx as int].data matches MessageDataView::RequestVoteRequest {
                term,
                last,
                ..
            } && (term == old_node.current_term ==> {
                &&& after.msgs.last().from == id
                &&& after.msgs.last().to == candidate
                &&& after.msgs.last().data matches MessageDataView::RequestVoteResponse {
                    term: t,
                    granted,
                } && {
                    &&& t == old_node.current_term
                    &&& granted <==> (old_node.voted_for matches Some(c) ==> c == candidate) && (
                    last.term > mine.term || (last.term == mine.term && last.index >= mine.index))
                    &&& granted ==> v.voted_for == Some(candidate)
                    &&& !granted ==> v.voted_for == old_node.voted_for
                    &&& v == (NodeView { voted_for: v.voted_for, ..old_node })
                }
            })
        }),
{
    assert(w.nodes[id as int].shaped());
}

/// A granted vote of the current term counts once, whoever sends it, and other answers count
/// nothing. With the votes of more than half of the nodes the node leads, and is about to send
/// what lies behind its log's end; without them role and lists stay. So do term, vote and log.
pub proof fn votes_make_leaders(w: WorldView, id: i32, msg_idx: usize)
    requires
        w.wf(),
        w.ready(WorldStep::RecvRequestVoteResponse { id, msg_idx }),
    ensures
        ({
            let step = WorldStep::RecvRequestVoteResponse { id, msg_idx };
            let old_node = w.nodes[id as int];
            let v = w.after(step).nodes[id as int];
            let from = w.msgs[msg_idx as int].from;
            let before = old_node.votes_received;
            let known = exists|k: int| 0 <= k < before.len() && before[k] == from;
            w.msgs[msg_idx as int].data matches MessageDataView::RequestVoteResponse {
                term,
                granted,
            } && (term == old_node.current_term ==> {
                &&& granted && !known ==> v.votes_received.len() == before.len() + 1
                    && v.votes_received[before.len() as int] == from
                &&& !granted || known ==> v.votes_received.len() == before.len()
                &&& forall|k: int| 0 <= k < before.len() ==> #[trigger] v.votes_received[k] == before[k]
                &&& v.votes_received.len() * 2 > w.nodes.len() ==> {
                    &&& v.state is Leader
                    &&& v.next_index.len() == w.nodes.len()
                    &&& v.match_index.len() == w.nodes.len()
                    &&& forall|d: int|
                        0 <= d < w.nodes.len() && old_node.log.len() <= i32::MAX
                            ==> #[trigger] v.next_index[d] == old_node.log.len()
                    &&& forall|d: int| 0 <= d < w.nodes.len() ==> #[trigger] v.match_index[d] == 0
                }
                &&& v.votes_received.len() * 2 <= w.nodes.len() ==> {
                    &&& v.state == old_node.state
                    &&& v.next_index == old_node.next_index
                    &&& v.match_index == old_node.match_index
                }
                &&& v.current_term == old_node.current_term
                &&& v.voted_for == old_node.voted_for
                &&& v.log == old_node.log
                &&& v.commit_index == old_node.commit_index
                &&& v.last_applied == old_node.last_applied
                &&& v.id == old_node.id
                &&& v.network_size == old_node.network_size
            })
        }),
{
    assert(w.nodes[id as int].shaped());
}

/// Entries of the current term are taken if and only if the log holds an entry of the named
/// term at the named index; the answer says which. Then the log is what it was up to that
/// entry, followed by the entries, and the answer names its last one. A refusal changes
/// nothing.
pub proof fn entries_are_taken_or_refused(w: WorldView, id: i32, msg_idx: usize)
    requires
        w.wf(),
        w.ready(WorldStep::RecvAppendEntriesRequest { id, msg_idx }),
    ensures
        ({
            let step = WorldStep::RecvAppendEntriesRequest { id, msg_idx };
            let after = w.after(step);
            let old_node = w.nodes[id as int];
            let v = after.nodes[id as int];
            w.msgs[msg_idx as int].data matches MessageDataView::AppendEntriesRequest {
                term,
                prev,
                entries,
                ..
            } && (term == old_node.current_term ==> {
                &&& after.msgs.last().from == id
                &&& after.msgs.last().to == w.msgs[msg_idx as int].from
                &&& after.msgs.last().data matches MessageDataView::AppendEntriesResponse {
                    term: t,
                    success,
                    last,
                } && {
                    &&& t == old_node.current_term
                    &&& success <==> 0 <= prev.index < old_node.log.len()
                        && old_node.log[prev.index as int].ent.term == prev.term
                    &&& !success ==> last is None && v == old_node
                    &&& success ==> {
                        &&& last == Some(v.log[v.log.len() - 1].ent)
                        &&& v.log.len() == prev.index + 1 + entries.len()
                        &&& forall|k: int|
                            0 <= k <= prev.index ==> #[trigger] v.log[k] == old_node.log[k]
                        &&& forall|k: int|
                            0 <= k < entries.len() ==> v.log[prev.index + 1 + k]
                                == #[trigger] entries[k]
                        &&& v == (NodeView { log: v.log, commit_index: v.commit_index, ..old_node })
                    }
                }
            })
        }),
{
    assert(w.nodes[id as int].shaped());
}

/// A node that takes a leader's entries commits no more than it had, or than the leader has.
/// Where the leader has committed more and the entries reach that far, the node commits the
/// same; where they do not, it commits as far as they reach. Otherwise its commit index stays.
pub proof fn followers_commit_with_the_leader(w: WorldView, id: i32, msg_idx: usize)
    requires
        w.wf(),
        w.ready(WorldStep::RecvAppendEntriesRequest { id, msg_idx }),
    ensures
        ({
            let step = WorldStep::RecvAppendEntriesRequest { id, msg_idx };
            let old_node = w.nodes[id as int];
            let v = w.after(step).nodes[id as int];
            w.msgs[msg_idx as int].data matches MessageDataView::AppendEntriesRequest {
                term,
                prev,
                entries,
                leader_commit,
                ..
            } && {
                let taken = term == old_node.current_term && 0 <= prev.index < old_node.log.len()
                    && old_node.log[prev.index as int].ent.term == prev.term;
                let end = prev.index + entries.len() as i32;
                &&& v.commit_index <= old_node.commit_index || v.commit_index <= leader_commit
                &&& !taken || leader_commit <= old_node.commit_index ==> v.commit_index
                    == old_node.commit_index
                &&& taken && leader_commit > old_node.commit_index && leader_commit <= end
                    ==> v.commit_index == leader_commit
                &&& taken && leader_commit > old_node.commit_index && leader_commit > end
                    ==> v.commit_index == end
            }
        }),
{
    assert(w.nodes[id as int].shaped());
}

/// A success of the current term records how far the sender has come: the next entry for it is
/// the one behind the entry that it names. The leader then commits the largest index that more
/// than half of the nodes have reached. A failure moves the next entry for the sender back by
/// one. Nothing else changes.
pub proof fn answers_move_the_next_entry(w: WorldView, id: i32, msg_idx: usize)
    requires
        w.wf(),
        w.ready(WorldStep::RecvAppendEntriesResponse { id, msg_idx }),
    ensures
        ({
            let step = WorldStep::RecvAppendEntriesResponse { id, msg_idx };
            let old_node = w.nodes[id as int];
            let v = w.after(step).nodes[id as int];
            let from = w.msgs[msg_idx as int].from as int;
            let n = w.nodes.len();
            w.msgs[msg_idx as int].data matches MessageDataView::AppendEntriesResponse {
                term,
                success,
                last,
            } && (term == old_node.current_term ==> {
                &&& v.next_index.len() == n
                &&& v.match_index.len() == n
                &&& forall|d: int|
                    0 <= d < n && d != from ==> #[trigger] v.next_index[d] == old_node.next_index[d]
                &&& forall|d: int|
                    0 <= d < n && d != from ==> #[trigger] v.match_index[d]
                        == old_node.match_index[d]
                &&& success ==> {
                    &&& last matches Some(e) && v.match_index[from] == e.index && v.next_index[from]
                        == e.index + 1
                    &&& reached(v, v.commit_index as int).len() * 2 > n
                    &&& forall|x: int|
                        x > v.commit_index ==> (#[trigger] reached(v, x)).len() * 2 <= n
                }
                &&& !success ==> {
                    &&& v.next_index[from] == old_node.next_index[from] - 1
                    &&& v.match_index[from] == old_node.match_index[from]
                    &&& v.commit_index == old_node.commit_index
                }
                &&& v == (NodeView {
                    next_index: v.next_index,
                    match_index: v.match_index,
                    commit_index: v.commit_index,
                    ..old_node
                })
            })
        }),
{
    let node = w.nodes[id as int];
    let m = w.msgs[msg_idx as int];
    assert(node.shaped());
    if let MessageDataView::AppendEntriesResponse { term, success, last } = m.data {
        if term == node.current_term && success {
            a_success_records_the_progress(node, m.from, m.to, last->0);
        }
    }
}

/// A log changes only by a client's request and by entries that are taken: every other step,
/// also one that moves a node to a later term, leaves every log as it is.
pub proof fn logs_change_by_requests_only(w: WorldView, step: WorldStep, v: int)
    requires
        w.wf(),
        w.ready(step),
        0 <= v < w.nodes.len(),
        w.after(step).nodes[v].log != w.nodes[v].log,
    ensures
        match step {
            WorldStep::ClientRequest { id, value } => v == id && w.after(step).nodes[v].log.len()
                == w.nodes[v].log.len() + 1,
            WorldStep::RecvAppendEntriesRequest { id, msg_idx } => v == id && (
            w.msgs[msg_idx as int].data matches MessageDataView::AppendEntriesRequest {
                term,
                prev,
                ..
            } && term == w.nodes[v].current_term && 0 <= prev.index < w.nodes[v].log.len()
                && w.nodes[v].log[prev.index as int].ent.term == prev.term),
            _ => false,
        },
{
    assert(w.nodes[v].shaped());
}

/// A commit index changes only by a restart, by entries that are taken, and by a success of the
/// current term.
pub proof fn commit_indices_change_by_messages_only(w: WorldView, step: WorldStep, v: int)
    requires
        w.wf(),
        w.ready(step),
        0 <= v < w.nodes.len(),
        w.after(step).nodes[v].commit_index != w.nodes[v].commit_index,
    ensures
        match step {
            WorldStep::Restart { id } => v == id && w.after(step).nodes[v].commit_index == 0,
            WorldStep::RecvAppendEntriesRequest { id, msg_idx } => v == id
                && w.msgs[msg_idx as int].data.term() == w.nodes[v].current_term,
            WorldStep::RecvAppendEntriesResponse { id, msg_idx } => v == id && (
            w.msgs[msg_idx as int].data matches MessageDataView::AppendEntriesResponse {
                term,
                success,
                ..
            } && success && term == w.nodes[v].current_term),
            _ => false,
        },
{
    assert(w.nodes[v].shaped());
}

/// A node comes to lead only by a granted vote of its term, becomes a candidate only by a
/// timeout, and gives up a role only for a later term, a timeout or a restart.
pub proof fn roles_change_by_elections_only(w: WorldView, step: WorldStep, v: int)
    requires
        w.wf(),
        w.ready(step),
        0 <= v < w.nodes.len(),
        w.after(step).nodes[v].state != w.nodes[v].state,
    ensures
        match w.after(step).nodes[v].state {
            NodeState::Leader => (step matches WorldStep::RecvRequestVoteResponse {
                id,
                msg_idx,
            } && v == id && w.msgs[msg_idx as int].data.term() == w.nodes[v].current_term)
                && w.after(step).nodes[v].votes_received.len() * 2 > w.nodes.len(),
            NodeState::Candidate => step == (WorldStep::HeartBeatTimeout {
                id: v as i32,
            }),
            NodeState::Follower => step == (WorldStep::Restart { id: v as i32 })
                || w.after(step).nodes[v].current_term > w.nodes[v].current_term,
        },
{
    assert(w.nodes[v].shaped());
}

/// What a leader sends, taken by a follower in the same term whose log agrees with the leader's
/// before the next entry, makes the follower's log the leader's.
pub proof fn sent_entries_copy_the_log(w: WorldView, id: i32, dest: i32, msg_idx: usize)
    requires
        w.wf(),
        w.ready(WorldStep::SendAppendEntries { id, dest }),
        msg_idx == w.msgs.len(),
        w.nodes[id as int].log.len() <= i32::MAX,
        w.nodes[dest as int].current_term == w.nodes[id as int].current_term,
        w.nodes[id as int].next_index[dest as int] <= w.nodes[dest as int].log.len(),
        forall|k: int|
            0 <= k < w.nodes[id as int].next_index[dest as int] ==> #[trigger] w.nodes[dest as int].log[k]
                == w.nodes[id as int].log[k],
        forall|k: int|
            0 <= k < w.nodes[id as int].log.len() ==> (#[trigger] w.nodes[id as int].log[k]).ent.index
                == k,
    ensures
        ({
            let sent = w.after(WorldStep::SendAppendEntries { id, dest });
            let step = WorldStep::RecvAppendEntriesRequest { id: dest, msg_idx };
            &&& sent.ready(step)
            &&& sent.after(step).nodes[dest as int].log == w.nodes[id as int].log
            &&& sent.after(step).msgs.len() == w.msgs.len() + 1
            &&& sent.after(step).msgs.last().to == id
            &&& sent.after(step).msgs.last().data matches MessageDataView::AppendEntriesResponse {
                success,
                ..
            } && success
        }),
{
    let leader = w.nodes[id as int];
    let follower = w.nodes[dest as int];
    assert(leader.shaped());
    assert(follower.shaped());
    let sent = w.after(WorldStep::SendAppendEntries { id, dest });
    let m = leader.append_request(dest);
    assert(sent.msgs[msg_idx as int] == m);
    let next = leader.next_index[dest as int] as int;
    assert(leader.log[next - 1].ent.index == next - 1);
    assert(follower.log[next - 1] == leader.log[next - 1]);
    taking_a_leaders_entries_copies_its_log(leader, follower, dest);
}

} // verus!
