//! How log entries, steps and messages in flight are ordered.

use std::cmp::Ordering;
use vstd::prelude::*;
use vstd::std_specs::cmp::PartialOrdSpec;

use crate::message::{LogEntry, Message, NodeId};
use crate::network::{first_accepted, first_for, message_views, none_accepted, Network};
use crate::step::{listed, WorldStep};

verus! {

/// Entries are ordered by their terms, and within a term by their indices.
pub proof fn entries_are_ordered_by_term(a: LogEntry, b: LogEntry)
    ensures
        a.term < b.term ==> a.partial_cmp_spec(&b) == Some(Ordering::Less),
        a.term > b.term ==> a.partial_cmp_spec(&b) == Some(Ordering::Greater),
        a.term == b.term && a.index < b.index ==> a.partial_cmp_spec(&b) == Some(Ordering::Less),
        a.term == b.term && a.index > b.index ==> a.partial_cmp_spec(&b) == Some(Ordering::Greater),
        a.term == b.term && a.index == b.index ==> a.partial_cmp_spec(&b) == Some(Ordering::Equal),
        LogEntry::obeys_partial_cmp_spec(),
{
}

/// Being at least as up to date is a total order on the last entries of logs: a later term
/// wins whatever the indices, and within a term the larger index does.
pub proof fn up_to_date_logs(a: LogEntry, b: LogEntry, c: LogEntry)
    ensures
        a.term > b.term ==> a.up_to_date_with(b) && !b.up_to_date_with(a),
        a.term == b.term && a.index > b.index ==> a.up_to_date_with(b) && !b.up_to_date_with(a),
        a.up_to_date_with(a),
        a.up_to_date_with(b) || b.up_to_date_with(a),
        a.up_to_date_with(b) && b.up_to_date_with(a) ==> a == b,
        a.up_to_date_with(b) && b.up_to_date_with(c) ==> a.up_to_date_with(c),
{
}

/// The order of steps is transitive.
pub proof fn the_order_of_steps_is_transitive(a: WorldStep, b: WorldStep, c: WorldStep)
    requires
        a.precedes(b),
        b.precedes(c),
    ensures
        a.precedes(c),
{
}

/// Whoever takes them, crashes are listed before restarts, those before timeouts, those before
/// clients' requests, those before entries that are sent, those before requests for votes, and
/// those before receipts: of requests for votes, of votes, of entries, and of answers to
/// entries.
pub proof fn kinds_of_steps_are_listed_in_order(
    a: i32,
    b: i32,
    x: i32,
    y: i32,
    m: usize,
    k: usize,
)
    ensures
        (WorldStep::Crash { id: a }).precedes(WorldStep::Restart { id: b }),
        (WorldStep::Restart { id: a }).precedes(WorldStep::HeartBeatTimeout { id: b }),
        (WorldStep::HeartBeatTimeout { id: a }).precedes(
            WorldStep::ClientRequest { id: b, value: y },
        ),
        (WorldStep::ClientRequest { id: a, value: x }).precedes(
            WorldStep::SendAppendEntries { id: b, dest: y },
        ),
        (WorldStep::SendAppendEntries { id: a, dest: x }).precedes(
            WorldStep::SendRequestVote { id: b, dest: y },
        ),
        (WorldStep::SendRequestVote { id: a, dest: x }).precedes(
            WorldStep::RecvRequestVoteRequest { id: b, msg_idx: k },
        ),
        (WorldStep::RecvRequestVoteRequest { id: a, msg_idx: m }).precedes(
            WorldStep::RecvRequestVoteResponse { id: b, msg_idx: k },
        ),
        (WorldStep::RecvRequestVoteResponse { id: a, msg_idx: m }).precedes(
            WorldStep::RecvAppendEntriesRequest { id: b, msg_idx: k },
        ),
        (WorldStep::RecvAppendEntriesRequest { id: a, msg_idx: m }).precedes(
            WorldStep::RecvAppendEntriesResponse { id: b, msg_idx: k },
        ),
{
}

/// Within a kind, steps are listed by node, and for one node by value, destination or message.
pub proof fn steps_of_a_kind_are_listed_by_node(a: i32, b: i32, x: i32, y: i32, m: usize, k: usize)
    ensures
        ({
            let by_value = a < b || (a == b && x < y);
            let by_message = a < b || (a == b && m < k);
            &&& (WorldStep::Crash { id: a }).precedes(WorldStep::Crash { id: b }) <==> a < b
            &&& (WorldStep::Restart { id: a }).precedes(WorldStep::Restart { id: b }) <==> a < b
            &&& (WorldStep::HeartBeatTimeout { id: a }).precedes(
                WorldStep::HeartBeatTimeout { id: b },
            ) <==> a < b
            &&& (WorldStep::ClientRequest { id: a, value: x }).precedes(
                WorldStep::ClientRequest { id: b, value: y },
            ) <==> by_value
            &&& (WorldStep::SendAppendEntries { id: a, dest: x }).precedes(
                WorldStep::SendAppendEntries { id: b, dest: y },
            ) <==> by_value
            &&& (WorldStep::SendRequestVote { id: a, dest: x }).precedes(
                WorldStep::SendRequestVote { id: b, dest: y },
            ) <==> by_value
            &&& (WorldStep::RecvRequestVoteRequest { id: a, msg_idx: m }).precedes(
                WorldStep::RecvRequestVoteRequest { id: b, msg_idx: k },
            ) <==> by_message
            &&& (WorldStep::RecvRequestVoteResponse { id: a, msg_idx: m }).precedes(
                WorldStep::RecvRequestVoteResponse { id: b, msg_idx: k },
            ) <==> by_message
            &&& (WorldStep::RecvAppendEntriesRequest { id: a, msg_idx: m }).precedes(
                WorldStep::RecvAppendEntriesRequest { id: b, msg_idx: k },
            ) <==> by_message
            &&& (WorldStep::RecvAppendEntriesResponse { id: a, msg_idx: m }).precedes(
                WorldStep::RecvAppendEntriesResponse { id: b, msg_idx: k },
            ) <==> by_message
        }),
{
}

/// A step is taken by the node that it names. The arrivals of messages are the four kinds of
/// receipts.
pub proof fn steps_name_their_node(id: i32, x: i32, m: usize)
    ensures
        (WorldStep::Crash { id }).actor() == id,
        (WorldStep::Restart { id }).actor() == id,
        (WorldStep::HeartBeatTimeout { id }).actor() == id,
        (WorldStep::ClientRequest { id, value: x }).actor() == id,
        (WorldStep::SendAppendEntries { id, dest: x }).actor() == id,
        (WorldStep::SendRequestVote { id, dest: x }).actor() == id,
        (WorldStep::RecvRequestVoteRequest { id, msg_idx: m }).actor() == id,
        (WorldStep::RecvRequestVoteResponse { id, msg_idx: m }).actor() == id,
        (WorldStep::RecvAppendEntriesRequest { id, msg_idx: m }).actor() == id,
        (WorldStep::RecvAppendEntriesResponse { id, msg_idx: m }).actor() == id,
        (WorldStep::ClientRequest { id, value: x }).detail() == x,
        (WorldStep::SendAppendEntries { id, dest: x }).detail() == x,
        (WorldStep::SendRequestVote { id, dest: x }).detail() == x,
        (WorldStep::RecvRequestVoteRequest { id, msg_idx: m }).detail() == m,
        (WorldStep::RecvRequestVoteResponse { id, msg_idx: m }).detail() == m,
        (WorldStep::RecvAppendEntriesRequest { id, msg_idx: m }).detail() == m,
        (WorldStep::RecvAppendEntriesResponse { id, msg_idx: m }).detail() == m,
{
}

/// Receipts, and they alone, are the arrivals of messages.
pub proof fn arrivals_are_receipts(step: WorldStep)
    ensures
        step.is_receive() <==> (step is RecvRequestVoteRequest || step is RecvRequestVoteResponse
            || step is RecvAppendEntriesRequest || step is RecvAppendEntriesResponse),
{
}

/// In a list of steps each comes before all that follow it, and so none occurs twice.
pub proof fn lists_of_steps_are_in_order(steps: Seq<WorldStep>)
    ensures
        listed(steps) <==> !(exists|i: int, j: int|
            0 <= i < j < steps.len() && !(#[trigger] steps[i]).precedes(#[trigger] steps[j])),
        listed(steps) ==> steps.no_duplicates(),
{
    if listed(steps) {
        assert forall|i: int, j: int| 0 <= i < steps.len() && 0 <= j < steps.len() && i != j implies
            steps[i] != steps[j] by {
            if i < j {
                assert(steps[i].precedes(steps[j]));
            } else {
                assert(steps[j].precedes(steps[i]));
            }
        }
    }
}

/// What is received is the oldest message for the node: no other message for it stands before,
/// and whenever there is a message for the node there is an oldest one.
pub proof fn the_oldest_message_comes_first(msgs: Seq<Message>, id: NodeId, j: int)
    requires
        0 <= j < msgs.len(),
        msgs[j].to == id,
    ensures
        exists|i: int| 0 <= i <= j && first_for(msgs, id, i),
        forall|i: int| #[trigger] first_for(msgs, id, i) ==> 0 <= i <= j && msgs[i].to == id,
    decreases j,
{
    if forall|k: int| 0 <= k < j ==> (#[trigger] msgs[k]).to != id {
        assert(first_for(msgs, id, j));
    } else {
        let k = choose|k: int| 0 <= k < j && (#[trigger] msgs[k]).to == id;
        the_oldest_message_comes_first(msgs, id, k);
    }
}

/// The first message that a test accepts is accepted, all before it are rejected, and there is
/// none where the test rejects all.
pub proof fn the_first_accepted_message<F: Fn(&Message) -> bool>(msgs: Seq<Message>, f: F, i: int)
    ensures
        first_accepted(msgs, f, i) <==> 0 <= i < msgs.len() && call_ensures(f, (&msgs[i],), true)
            && none_accepted(msgs.take(i), f),
        msgs.len() == 0 ==> none_accepted(msgs, f),
        0 <= i < msgs.len() ==> (none_accepted(msgs.take(i + 1), f) <==> none_accepted(
            msgs.take(i),
            f,
        ) && call_ensures(f, (&msgs[i],), false)),
{
    if 0 <= i <= msgs.len() {
        assert forall|j: int| 0 <= j < i implies #[trigger] msgs.take(i)[j] == msgs[j] by {
        }
        if none_accepted(msgs.take(i), f) {
            assert forall|j: int| 0 <= j < i implies call_ensures(f, (&#[trigger] msgs[j],), false) by {
                assert(msgs.take(i)[j] == msgs[j]);
            }
        }
    }
    if 0 <= i < msgs.len() {
        let upto = msgs.take(i + 1);
        let before = msgs.take(i);
        assert(upto[i] == msgs[i]);
        assert forall|j: int| 0 <= j < i implies #[trigger] upto[j] == before[j] by {
        }
        if none_accepted(upto, f) {
            assert forall|j: int| 0 <= j < i implies call_ensures(f, (&#[trigger] before[j],), false) by {
                assert(upto[j] == before[j]);
            }
        }
        if none_accepted(before, f) && call_ensures(f, (&msgs[i],), false) {
            assert forall|j: int| 0 <= j <= i implies call_ensures(f, (&#[trigger] upto[j],), false) by {
                if j < i {
                    assert(upto[j] == before[j]);
                }
            }
        }
    }
}

/// The model of the network shows every message, in order.
pub proof fn network_models_hide_nothing(network: Network)
    ensures
        network@ == message_views(network.msgs@),
        network@.len() == network.msgs@.len(),
        forall|i: int| 0 <= i < network.msgs@.len() ==> #[trigger] network@[i] == network.msgs@[i]@,
{
}

} // verus!
