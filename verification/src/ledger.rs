//! What has happened so far: who voted for whom, who led which term, and how far the
//! leader's log came. The nodes forget most of it; the ledger keeps it, and the state of
//! the world is always consistent with some ledger.

use vstd::prelude::*;

use crate::message::{LogEntry, LogEntryValue, MessageDataView, MessageView};
use crate::node::NodeState;
use crate::node_model::{indexed, NodeView};
use crate::world_model::WorldView;

verus! {

/// The history of votes, leaders and logs.
#[verifier::ext_equal]
pub struct Ledger {
    /// The candidate that a node voted for in a term.
    pub votes: Map<(int, int), int>,
    /// The node that led a term.
    pub leads: Map<int, int>,
    /// The log of the leader of a term; that of term zero is the initial log.
    pub logs: Map<int, Seq<LogEntryValue>>,
}

/// The two logs agree up to and including position `i`.
pub open spec fn same_up_to(a: Seq<LogEntryValue>, b: Seq<LogEntryValue>, i: int) -> bool {
    &&& i < a.len()
    &&& i < b.len()
    &&& forall|j: int| 0 <= j <= i ==> #[trigger] a[j] == b[j]
}

/// Up to each of its entries the log agrees with the log of the leader that created
/// the entry.
pub open spec fn matched(log: Seq<LogEntryValue>, logs: Map<int, Seq<LogEntryValue>>) -> bool {
    forall|i: int|
        0 <= i < log.len() ==> logs.contains_key((#[trigger] log[i]).ent.term as int) && same_up_to(
            log,
            logs[log[i].ent.term as int],
            i,
        )
}

impl Ledger {
    /// `v` voted for `c` in term `t`.
    pub open spec fn voted(self, v: int, t: int, c: int) -> bool {
        self.votes.contains_key((v, t)) && self.votes[(v, t)] == c
    }

    /// `c` led term `t`.
    pub open spec fn led(self, t: int, c: int) -> bool {
        self.leads.contains_key(t) && self.leads[t] == c
    }

    /// `voters` are more than half of `n` nodes, and all voted for `c` in term `t`.
    pub open spec fn quorum(self, voters: Seq<int>, n: int, t: int, c: int) -> bool {
        &&& voters.no_duplicates()
        &&& voters.len() > n / 2
        &&& forall|i: int|
            0 <= i < voters.len() ==> 0 <= #[trigger] voters[i] < n && self.voted(voters[i], t, c)
    }

    /// More than half of the `n` nodes voted for `c` in term `t`.
    pub open spec fn won(self, n: int, t: int, c: int) -> bool {
        exists|voters: Seq<int>| #[trigger] self.quorum(voters, n, t, c)
    }

    /// The entries are a part of the log of the leader of term `t`, right behind the
    /// entry `prev`.
    pub open spec fn part_of_log(
        self,
        t: int,
        prev: LogEntry,
        entries: Seq<LogEntryValue>,
    ) -> bool {
        &&& self.logs.contains_key(t)
        &&& 0 <= prev.index
        &&& prev.index + 1 + entries.len() <= self.logs[t].len()
        &&& self.logs[t][prev.index as int].ent == prev
        &&& forall|k: int|
            0 <= k < entries.len() ==> #[trigger] entries[k] == self.logs[t][prev.index + 1 + k]
    }

    /// The message says nothing that the ledger does not know.
    pub open spec fn explains(self, m: MessageView, n: int) -> bool {
        &&& 0 <= m.from < n
        &&& 0 <= m.to < n
        &&& m.data.term() >= 1
        &&& match m.data {
            MessageDataView::RequestVoteRequest { .. } => true,
            MessageDataView::RequestVoteResponse { term, granted } => granted ==> self.voted(
                m.from as int,
                term as int,
                m.to as int,
            ),
            MessageDataView::AppendEntriesRequest { term, prev, entries, .. } => {
                &&& self.led(term as int, m.from as int)
                &&& m.to != m.from
                &&& self.part_of_log(term as int, prev, entries)
            },
            MessageDataView::AppendEntriesResponse { term, success, last } => success ==> {
                &&& last is Some
                &&& self.led(term as int, m.to as int)
                &&& self.logs.contains_key(term as int)
                &&& last->0.index < self.logs[term as int].len()
            },
        }
    }

    /// The ledger knows the node's vote, the votes that it counted, and its log.
    pub open spec fn knows(self, node: NodeView, n: int) -> bool {
        let v = node.id as int;
        let t = node.current_term as int;
        &&& t >= 0
        &&& match node.voted_for {
            Some(c) => self.voted(v, t, c as int),
            None => !self.votes.contains_key((v, t)),
        }
        &&& node.votes_received.no_duplicates()
        &&& forall|i: int|
            0 <= i < node.votes_received.len() ==> 0 <= #[trigger] node.votes_received[i] < n
                && self.voted(node.votes_received[i] as int, t, v)
        &&& node.state == NodeState::Candidate ==> t >= 1
        &&& node.state == NodeState::Leader ==> {
            &&& node.votes_received.len() > n / 2
            &&& self.led(t, v)
            &&& forall|d: int|
                0 <= d < node.next_index.len() ==> #[trigger] node.next_index[d] <= node.log.len()
        }
        &&& self.led(t, v) ==> self.logs.contains_key(t) && node.log == self.logs[t]
        &&& matched(node.log, self.logs)
        &&& indexed(node.log)
    }

    /// Leaders were elected, their logs agree with each other, and nothing is recorded
    /// of terms that the nodes have not reached.
    pub open spec fn sound(self, nodes: Seq<NodeView>) -> bool {
        let n = nodes.len() as int;
        &&& forall|v: int, t: int| #[trigger]
            self.votes.contains_key((v, t)) ==> 0 <= v < n && 1 <= t <= nodes[v].current_term
        &&& forall|t: int| #[trigger]
            self.leads.contains_key(t) ==> {
                &&& t >= 1
                &&& 0 <= self.leads[t] < n
                &&& t <= nodes[self.leads[t]].current_term
                &&& self.won(n, t, self.leads[t])
                &&& self.logs.contains_key(t)
            }
        &&& forall|t: int| #[trigger]
            self.logs.contains_key(t) ==> {
                &&& t == 0 || self.leads.contains_key(t)
                &&& matched(self.logs[t], self.logs)
                &&& indexed(self.logs[t])
            }
    }

    /// The ledger records all that `self` records, and the logs have only grown.
    pub open spec fn extended_by(self, later: Ledger) -> bool {
        &&& forall|v: int, t: int| #[trigger]
            self.votes.contains_key((v, t)) ==> later.votes.contains_key((v, t)) && later.votes[(
                v,
                t,
            )] == self.votes[(v, t)]
        &&& forall|t: int| #[trigger]
            self.leads.contains_key(t) ==> later.leads.contains_key(t) && later.leads[t]
                == self.leads[t]
        &&& forall|t: int| #[trigger]
            self.logs.contains_key(t) ==> later.logs.contains_key(t) && self.logs[t].len()
                <= later.logs[t].len() && (forall|i: int|
                0 <= i < self.logs[t].len() ==> #[trigger] later.logs[t][i] == self.logs[t][i])
    }

    /// Whatever `later` records beyond `self` is about node `a`.
    pub open spec fn only_about(self, later: Ledger, a: int) -> bool {
        &&& forall|v: int, t: int| #[trigger]
            later.votes.contains_key((v, t)) && v != a ==> self.votes.contains_key((v, t))
        &&& forall|t: int| #[trigger]
            later.leads.contains_key(t) && later.leads[t] != a ==> self.leads.contains_key(t)
                && later.logs.contains_key(t) == self.logs.contains_key(t) && later.logs[t]
                == self.logs[t]
    }
}

/// The state of the world is one that the history of the ledger leads to.
pub open spec fn consistent(w: WorldView, l: Ledger) -> bool {
    &&& w.wf()
    &&& l.sound(w.nodes)
    &&& forall|v: int| 0 <= v < w.nodes.len() ==> l.knows(#[trigger] w.nodes[v], w.nodes.len() as int)
    &&& forall|k: int| 0 <= k < w.msgs.len() ==> l.explains(#[trigger] w.msgs[k], w.nodes.len() as int)
}

/// Two majorities have a node in common.
pub proof fn lemma_quorums_meet(l: Ledger, a: Seq<int>, b: Seq<int>, n: int, t: int, c: int, d: int)
    requires
        n >= 0,
        l.quorum(a, n, t, c),
        l.quorum(b, n, t, d),
    ensures
        c == d,
{
    if c != d {
        let both = a + b;
        assert forall|i: int, j: int| 0 <= i < j < both.len() implies both[i] != both[j] by {
            if i < a.len() && j >= a.len() {
                assert(both[i] == a[i]);
                assert(both[j] == b[j - a.len()]);
                assert(l.voted(a[i], t, c));
                assert(l.voted(b[j - a.len()], t, d));
            } else if j < a.len() {
                assert(both[i] == a[i] && both[j] == a[j]);
            } else {
                assert(both[i] == b[i - a.len()] && both[j] == b[j - a.len()]);
            }
        }
        assert(both.no_duplicates());
        both.unique_seq_to_set();
        let range = vstd::set_lib::set_int_range(0, n);
        vstd::set_lib::lemma_int_range(0, n);
        assert forall|x: int| both.to_set().contains(x) implies range.contains(x) by {
            assert(both.contains(x));
            let i = choose|i: int| 0 <= i < both.len() && both[i] == x;
            if i < a.len() {
                assert(both[i] == a[i]);
            } else {
                assert(both[i] == b[i - a.len()]);
            }
        }
        vstd::set_lib::lemma_len_subset(both.to_set(), range);
        assert(false);
    }
}

/// At most one node wins a term.
pub proof fn lemma_winner_unique(l: Ledger, n: int, t: int, c: int, d: int)
    requires
        n >= 0,
        l.won(n, t, c),
        l.won(n, t, d),
    ensures
        c == d,
{
    let a = choose|voters: Seq<int>| #[trigger] l.quorum(voters, n, t, c);
    let b = choose|voters: Seq<int>| #[trigger] l.quorum(voters, n, t, d);
    lemma_quorums_meet(l, a, b, n, t, c, d);
}

/// Once won, a term stays won.
pub proof fn lemma_won_stays(l: Ledger, later: Ledger, n: int, t: int, c: int)
    requires
        l.extended_by(later),
        l.won(n, t, c),
    ensures
        later.won(n, t, c),
{
    let voters = choose|voters: Seq<int>| #[trigger] l.quorum(voters, n, t, c);
    assert forall|i: int| 0 <= i < voters.len() implies 0 <= #[trigger] voters[i] < n
        && later.voted(voters[i], t, c) by {
        assert(l.voted(voters[i], t, c));
        assert(l.votes.contains_key((voters[i], t)));
    }
    assert(later.quorum(voters, n, t, c));
}

/// A log that matches the leaders' logs still does when these have grown.
pub proof fn lemma_matched_stays(log: Seq<LogEntryValue>, l: Ledger, later: Ledger)
    requires
        l.extended_by(later),
        matched(log, l.logs),
    ensures
        matched(log, later.logs),
{
    assert forall|i: int| 0 <= i < log.len() implies later.logs.contains_key(
        (#[trigger] log[i]).ent.term as int,
    ) && same_up_to(log, later.logs[log[i].ent.term as int], i) by {
        let t = log[i].ent.term as int;
        assert(l.logs.contains_key(t));
        assert(same_up_to(log, l.logs[t], i));
    }
}

/// What was explained stays explained.
pub proof fn lemma_explains_stays(l: Ledger, later: Ledger, m: MessageView, n: int)
    requires
        l.extended_by(later),
        l.explains(m, n),
    ensures
        later.explains(m, n),
{
    match m.data {
        MessageDataView::RequestVoteRequest { .. } => {},
        MessageDataView::RequestVoteResponse { term, granted } => {
            if granted {
                assert(l.votes.contains_key((m.from as int, term as int)));
            }
        },
        MessageDataView::AppendEntriesRequest { term, prev, entries, .. } => {
            let t = term as int;
            assert(l.leads.contains_key(t));
            assert(l.logs.contains_key(t));
            assert(later.logs[t][prev.index as int] == l.logs[t][prev.index as int]);
            assert forall|k: int| 0 <= k < entries.len() implies #[trigger] entries[k]
                == later.logs[t][prev.index + 1 + k] by {
                assert(entries[k] == l.logs[t][prev.index + 1 + k]);
            }
        },
        MessageDataView::AppendEntriesResponse { term, success, last } => {
            if success {
                assert(l.leads.contains_key(term as int));
                assert(l.logs.contains_key(term as int));
            }
        },
    }
}

/// What is known of a node stays known while only another node makes news.
pub proof fn lemma_knows_stays(l: Ledger, later: Ledger, node: NodeView, n: int, a: int)
    requires
        l.extended_by(later),
        l.only_about(later, a),
        node.id != a,
        l.knows(node, n),
    ensures
        later.knows(node, n),
{
    let v = node.id as int;
    let t = node.current_term as int;
    assert forall|i: int| 0 <= i < node.votes_received.len() implies 0
        <= #[trigger] node.votes_received[i] < n && later.voted(
        node.votes_received[i] as int,
        t,
        v,
    ) by {
        assert(l.voted(node.votes_received[i] as int, t, v));
        assert(l.votes.contains_key((node.votes_received[i] as int, t)));
    }
    match node.voted_for {
        Some(c) => {
            assert(l.votes.contains_key((v, t)));
        },
        None => {
            if later.votes.contains_key((v, t)) {
                assert(l.votes.contains_key((v, t)));
            }
        },
    }
    if node.state == NodeState::Leader {
        assert(l.leads.contains_key(t));
    }
    if later.led(t, v) {
        assert(later.leads.contains_key(t));
        assert(l.leads.contains_key(t));
        assert(l.led(t, v));
    }
    lemma_matched_stays(node.log, l, later);
}

} // verus!
