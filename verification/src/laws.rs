//! What the protocol guarantees, over single steps and over whole runs.

use vstd::prelude::*;

use crate::ledger::{consistent, same_up_to, Ledger};
use crate::message::{Message, MessageDataView, MessageView, NodeId};
use crate::network::first_for;
use crate::node::NodeState;
use crate::node_model::indexed;
use crate::safety::{blank_ledger, lemma_initial, lemma_step};
use crate::step::WorldStep;
use crate::world_model::{lemma_after_wf, WorldView};

verus! {

/// The world after the given steps, from `n` fresh nodes.
pub open spec fn run(n: usize, steps: Seq<WorldStep>) -> WorldView
    decreases steps.len(),
{
    if steps.len() == 0 {
        WorldView::initial(n)
    } else {
        run(n, steps.drop_last()).ticked().after(steps.last())
    }
}

/// Each of the steps could happen when it was taken, and could be executed.
pub open spec fn legal(n: usize, steps: Seq<WorldStep>) -> bool
    decreases steps.len(),
{
    steps.len() > 0 ==> {
        let before = run(n, steps.drop_last()).ticked();
        &&& legal(n, steps.drop_last())
        &&& before.enabled(steps.last())
        &&& before.ready(steps.last())
    }
}

/// What comes first in a legal run is a legal run.
pub proof fn lemma_prefix_legal(n: usize, steps: Seq<WorldStep>, k: int)
    requires
        legal(n, steps),
        0 <= k <= steps.len(),
    ensures
        legal(n, steps.take(k)),
    decreases steps.len(),
{
    if k == steps.len() {
        assert(steps.take(k) =~= steps);
    } else {
        lemma_prefix_legal(n, steps.drop_last(), k);
        assert(steps.drop_last().take(k) =~= steps.take(k));
    }
}

/// A legal run has a history: a ledger for the world after the first `k` steps, and one
/// for the world after all of them that records no less.
proof fn lemma_history(n: usize, steps: Seq<WorldStep>, k: int) -> (r: (Ledger, Ledger))
    requires
        n <= i32::MAX,
        legal(n, steps),
        0 <= k <= steps.len(),
    ensures
        consistent(run(n, steps.take(k)), r.0),
        consistent(run(n, steps), r.1),
        r.0.extended_by(r.1),
    decreases steps.len(),
{
    if steps.len() == 0 {
        lemma_initial(n);
        assert(steps.take(k) =~= steps);
        (blank_ledger(), blank_ledger())
    } else {
        let front = steps.drop_last();
        let before = run(n, front).ticked();
        let j = if k < steps.len() {
            k
        } else {
            0
        };
        let (lk, l) = lemma_history(n, front, j);
        assert(consistent(before, l));
        let l2 = lemma_step(before, l, steps.last());
        if k < steps.len() {
            assert(front.take(k) =~= steps.take(k));
            assert(lk.extended_by(l2)) by {
                assert forall|t: int| #[trigger] lk.logs.contains_key(t) implies (forall|i: int|
                    0 <= i < lk.logs[t].len() ==> #[trigger] l2.logs[t][i] == lk.logs[t][i]) by {
                    assert(l.logs.contains_key(t));
                    assert forall|i: int| 0 <= i < lk.logs[t].len() implies #[trigger] l2.logs[t][i]
                        == lk.logs[t][i] by {
                        assert(l.logs[t][i] == lk.logs[t][i]);
                    }
                }
            }
            (lk, l2)
        } else {
            assert(steps.take(k) =~= steps);
            (l2, l2)
        }
    }
}

/// A run keeps the world well formed.
pub proof fn runs_are_well_formed(n: usize, steps: Seq<WorldStep>)
    requires
        n <= i32::MAX,
        legal(n, steps),
    ensures
        run(n, steps).wf(),
        run(n, steps).nodes.len() == n,
    decreases steps.len(),
{
    if steps.len() == 0 {
        lemma_initial(n);
    } else {
        runs_are_well_formed(n, steps.drop_last());
        lemma_after_wf(run(n, steps.drop_last()).ticked(), steps.last());
    }
}

/// Election safety: a term has at most one leader, at any two moments of a run.
pub proof fn election_safety(n: usize, steps: Seq<WorldStep>, i: int, j: int, a: int, b: int)
    requires
        n <= i32::MAX,
        legal(n, steps),
        0 <= i <= steps.len(),
        0 <= j <= steps.len(),
        0 <= a < n,
        0 <= b < n,
        run(n, steps.take(i)).nodes[a].state == NodeState::Leader,
        run(n, steps.take(j)).nodes[b].state == NodeState::Leader,
        run(n, steps.take(i)).nodes[a].current_term == run(n, steps.take(j)).nodes[b].current_term,
    ensures
        a == b,
    decreases (i > j) as int,
{
    if i > j {
        election_safety(n, steps, j, i, b, a);
    } else {
        lemma_prefix_legal(n, steps, j);
        assert(steps.take(j).take(i) =~= steps.take(i));
        let (li, lj) = lemma_history(n, steps.take(j), i);
        let early = run(n, steps.take(i));
        let late = run(n, steps.take(j));
        lemma_prefix_legal(n, steps, i);
        runs_are_well_formed(n, steps.take(i));
        runs_are_well_formed(n, steps.take(j));
        assert(li.knows(early.nodes[a], n as int));
        assert(lj.knows(late.nodes[b], n as int));
        assert(early.nodes[a].id == a && late.nodes[b].id == b);
        assert(li.leads.contains_key(early.nodes[a].current_term as int));
    }
}

/// Log matching: where two logs, at any two moments of a run, hold entries of the same
/// term at the same position, they agree up to that position, values included.
pub proof fn log_matching(n: usize, steps: Seq<WorldStep>, i: int, j: int, a: int, b: int, k: int)
    requires
        n <= i32::MAX,
        legal(n, steps),
        0 <= i <= steps.len(),
        0 <= j <= steps.len(),
        0 <= a < n,
        0 <= b < n,
        0 <= k < run(n, steps.take(i)).nodes[a].log.len(),
        k < run(n, steps.take(j)).nodes[b].log.len(),
        run(n, steps.take(i)).nodes[a].log[k].ent.term == run(
            n,
            steps.take(j),
        ).nodes[b].log[k].ent.term,
    ensures
        run(n, steps.take(i)).nodes[a].log.take(k + 1) == run(n, steps.take(j)).nodes[b].log.take(
            k + 1,
        ),
    decreases (i > j) as int,
{
    if i > j {
        log_matching(n, steps, j, i, b, a, k);
    } else {
        lemma_prefix_legal(n, steps, j);
        assert(steps.take(j).take(i) =~= steps.take(i));
        let (li, lj) = lemma_history(n, steps.take(j), i);
        lemma_prefix_legal(n, steps, i);
        runs_are_well_formed(n, steps.take(i));
        runs_are_well_formed(n, steps.take(j));
        let first = run(n, steps.take(i)).nodes[a];
        let second = run(n, steps.take(j)).nodes[b];
        assert(li.knows(first, n as int));
        assert(lj.knows(second, n as int));
        let t = first.log[k].ent.term as int;
        assert(li.logs.contains_key(t));
        assert(same_up_to(first.log, li.logs[t], k));
        assert(second.log[k].ent.term == t);
        assert(same_up_to(second.log, lj.logs[t], k));
        assert forall|m: int| 0 <= m <= k implies first.log[m] == second.log[m] by {
            assert(first.log[m] == li.logs[t][m]);
            assert(lj.logs[t][m] == li.logs[t][m]);
            assert(second.log[m] == lj.logs[t][m]);
        }
        assert(first.log.take(k + 1) =~= second.log.take(k + 1));
    }
}

/// A leader only appends: while a node stays in a term that it has led, its log keeps
/// every entry that it had.
pub proof fn leader_only_appends(n: usize, steps: Seq<WorldStep>, i: int, j: int, a: int)
    requires
        n <= i32::MAX,
        legal(n, steps),
        0 <= i <= j <= steps.len(),
        0 <= a < n,
        run(n, steps.take(i)).nodes[a].state == NodeState::Leader,
        run(n, steps.take(i)).nodes[a].current_term == run(n, steps.take(j)).nodes[a].current_term,
    ensures
        run(n, steps.take(i)).nodes[a].log.is_prefix_of(run(n, steps.take(j)).nodes[a].log),
{
    lemma_prefix_legal(n, steps, j);
    assert(steps.take(j).take(i) =~= steps.take(i));
    let (li, lj) = lemma_history(n, steps.take(j), i);
    lemma_prefix_legal(n, steps, i);
    runs_are_well_formed(n, steps.take(i));
    runs_are_well_formed(n, steps.take(j));
    let early = run(n, steps.take(i)).nodes[a];
    let late = run(n, steps.take(j)).nodes[a];
    assert(li.knows(early, n as int));
    assert(lj.knows(late, n as int));
    assert(early.id == a && late.id == a);
    let t = early.current_term as int;
    assert(li.leads.contains_key(t));
    assert(li.logs.contains_key(t));
    assert(lj.led(t, a));
    assert(early.log =~= late.log.subrange(0, early.log.len() as int));
}

/// A leader has the votes of a majority: of nodes that are all different.
pub proof fn leaders_have_majorities(n: usize, steps: Seq<WorldStep>, a: int)
    requires
        n <= i32::MAX,
        legal(n, steps),
        0 <= a < n,
        run(n, steps).nodes[a].state == NodeState::Leader,
    ensures
        run(n, steps).nodes[a].votes_received.no_duplicates(),
        run(n, steps).nodes[a].votes_received.len() > n / 2,
        forall|k: int|
            0 <= k < run(n, steps).nodes[a].votes_received.len() ==> 0 <= #[trigger] run(
                n,
                steps,
            ).nodes[a].votes_received[k] < n,
{
    let (l, _l) = lemma_history(n, steps, steps.len() as int);
    assert(steps.take(steps.len() as int) =~= steps);
    runs_are_well_formed(n, steps);
    assert(l.knows(run(n, steps).nodes[a], n as int));
}

/// Every log entry carries its own position, throughout a run.
pub proof fn logs_stay_indexed(n: usize, steps: Seq<WorldStep>, a: int)
    requires
        n <= i32::MAX,
        legal(n, steps),
        0 <= a < n,
    ensures
        indexed(run(n, steps).nodes[a].log),
        run(n, steps).nodes[a].log.len() > 0,
{
    let (l, _l) = lemma_history(n, steps, steps.len() as int);
    assert(steps.take(steps.len() as int) =~= steps);
    runs_are_well_formed(n, steps);
    assert(l.knows(run(n, steps).nodes[a], n as int));
}

/// The step takes a number out of its range, or the leader has stepped back behind the
/// first entry of its log.
pub open spec fn out_of_range(w: WorldView, step: WorldStep) -> bool {
    let node = w.nodes[step.actor() as int];
    match step {
        WorldStep::HeartBeatTimeout { .. } => node.current_term == i32::MAX,
        WorldStep::SendAppendEntries { dest, .. } => node.next_index[dest as int] < 1,
        WorldStep::RecvAppendEntriesRequest { msg_idx, .. } => {
            w.msgs[msg_idx as int].data matches MessageDataView::AppendEntriesRequest {
                term,
                prev,
                entries,
                ..
            } && term == node.current_term && node.holds(prev) && !(i32::MIN <= prev.index
                + entries.len() as i32 <= i32::MAX)
        },
        WorldStep::RecvAppendEntriesResponse { msg_idx, .. } => {
            w.msgs[msg_idx as int].data matches MessageDataView::AppendEntriesResponse {
                term,
                success,
                last,
            } && term == node.current_term && if success {
                last->0.index == i32::MAX
            } else {
                node.next_index[w.msgs[msg_idx as int].from as int] == i32::MIN
            }
        },
        _ => false,
    }
}

/// Throughout a run the steps that can happen can be executed, but for those that take a
/// number out of its range.
pub proof fn enabled_steps_execute(n: usize, steps: Seq<WorldStep>, step: WorldStep)
    requires
        n <= i32::MAX,
        legal(n, steps),
        run(n, steps).ticked().enabled(step),
    ensures
        run(n, steps).ticked().ready(step) <==> !out_of_range(run(n, steps).ticked(), step),
{
    let w = run(n, steps).ticked();
    let (l, _l) = lemma_history(n, steps, steps.len() as int);
    assert(steps.take(steps.len() as int) =~= steps);
    runs_are_well_formed(n, steps);
    assert(consistent(w, l));
    if step.is_receive() {
        let msg_idx = step.detail();
        assert(l.explains(w.msgs[msg_idx], n as int));
    }
    assert(l.knows(w.nodes[step.actor() as int], n as int));
    assert(w.nodes[step.actor() as int].shaped());
}

/// Terms never decrease.
pub proof fn terms_never_decrease(w: WorldView, step: WorldStep, v: int)
    requires
        w.wf(),
        w.ready(step),
        0 <= v < w.nodes.len(),
    ensures
        w.nodes[v].current_term <= w.after(step).nodes[v].current_term,
{
}

/// One vote per term: a vote, once given, stands until the node moves on to a later term.
/// Crashes do not undo it.
pub proof fn one_vote_per_term(w: WorldView, step: WorldStep, v: int)
    requires
        w.wf(),
        w.ready(step),
        0 <= v < w.nodes.len(),
        w.nodes[v].voted_for is Some,
        w.after(step).nodes[v].current_term == w.nodes[v].current_term,
    ensures
        w.after(step).nodes[v].voted_for == w.nodes[v].voted_for,
{
}

/// A step changes no node but the one that takes it.
pub proof fn only_the_actor_changes(w: WorldView, step: WorldStep, v: int)
    requires
        w.wf(),
        w.ready(step),
        0 <= v < w.nodes.len(),
        v != step.actor(),
    ensures
        w.after(step).nodes[v] == w.nodes[v],
{
}

/// Crashed nodes take no step of their own but a restart, and receive no messages.
pub proof fn crashed_nodes_only_restart(w: WorldView, step: WorldStep)
    requires
        w.enabled(step),
        w.crashed.contains(step.actor()),
    ensures
        step is Restart,
{
}

/// A restart undoes a crash, but for what the node kept in memory: term, vote and log are
/// as before.
pub proof fn restart_undoes_crash(w: WorldView, id: i32)
    requires
        w.is_up(id),
    ensures
        w.after(WorldStep::Crash { id }).enabled(WorldStep::Restart { id }),
        w.after(WorldStep::Crash { id }).ready(WorldStep::Restart { id }),
        w.after(WorldStep::Crash { id }).after(WorldStep::Restart { id }) == w.with_node(
            id,
            w.nodes[id as int].restarted(),
        ),
        w.nodes[id as int].restarted().current_term == w.nodes[id as int].current_term,
        w.nodes[id as int].restarted().voted_for == w.nodes[id as int].voted_for,
        w.nodes[id as int].restarted().log == w.nodes[id as int].log,
{
    let down = w.after(WorldStep::Crash { id });
    assert(down.crashed[w.crashed.len() as int] == id);
    assert(down.crashed.contains(id));
    down.crashed.index_of_first_ensures(id);
    let at = down.crashed.index_of_first(id)->0;
    if at < w.crashed.len() {
        assert(down.crashed[at] == w.crashed[at]);
    }
    assert(down.crashed.remove(at) =~= w.crashed);
    assert(down.after(WorldStep::Restart { id }) =~= w.with_node(
        id,
        w.nodes[id as int].restarted(),
    ));
}

/// The messages that are still in flight after the step: all but the one that it receives.
pub open spec fn undelivered(w: WorldView, step: WorldStep) -> Seq<MessageView> {
    if step.is_receive() {
        w.msgs.remove(step.detail())
    } else {
        w.msgs
    }
}

/// Messages stay in flight, in the order in which they were sent, until they are received;
/// a step adds at most one message, behind the others.
pub proof fn messages_stay_in_flight(w: WorldView, step: WorldStep)
    requires
        w.ready(step),
    ensures
        undelivered(w, step).is_prefix_of(w.after(step).msgs),
        w.after(step).msgs.len() <= undelivered(w, step).len() + 1,
{
}

/// What can be received is what is in flight to a node that is up: each such message by
/// exactly one step.
pub proof fn receipts_are_the_receive_steps(w: WorldView, step: WorldStep)
    requires
        step.is_receive(),
    ensures
        w.enabled(step) <==> (0 <= step.detail() < w.msgs.len() && step == w.receipt(
            step.detail() as usize,
        ) && !w.crashed.contains(step.actor())),
{
}

/// A message that is the only one for its destination is received next there, and leaves
/// the network as it was before the message was sent.
pub proof fn receive_undoes_send(msgs: Seq<Message>, m: Message, i: int)
    requires
        forall|j: int| 0 <= j < msgs.len() ==> (#[trigger] msgs[j]).to != m.to,
    ensures
        first_for(msgs.push(m), m.to, i) <==> i == msgs.len(),
        msgs.push(m)[msgs.len() as int] == m,
        msgs.push(m).remove(msgs.len() as int) == msgs,
{
    let sent = msgs.push(m);
    assert(sent.remove(msgs.len() as int) =~= msgs);
    assert forall|j: int| 0 <= j < msgs.len() implies (#[trigger] sent[j]).to != m.to by {
        assert(sent[j] == msgs[j]);
    }
}

/// Messages for one destination are received in the order in which they were sent: a later
/// message does not overtake.
pub proof fn later_messages_wait(msgs: Seq<Message>, m: Message, id: NodeId, i: int)
    requires
        first_for(msgs, id, i),
    ensures
        first_for(msgs.push(m), id, i),
        msgs.push(m)[i] == msgs[i],
        msgs.push(m).remove(i) == msgs.remove(i).push(m),
{
    assert(msgs.push(m).remove(i) =~= msgs.remove(i).push(m));
    assert forall|j: int| 0 <= j < i implies (#[trigger] msgs.push(m)[j]).to != id by {
        assert(msgs.push(m)[j] == msgs[j]);
    }
}

} // verus!
