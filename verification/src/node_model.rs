//! The model of a Raft node: its state, and what each event does to it.

use vstd::prelude::*;

use crate::lists::repeated;
use crate::message::{LogEntry, LogEntryValue, MessageDataView, MessageView, NodeId, Value};
use crate::node::NodeState;
use crate::quorum::majority_index;

verus! {

/// The state of a node.
#[verifier::ext_equal]
pub struct NodeView {
    pub current_term: i32,
    pub voted_for: Option<NodeId>,
    pub log: Seq<LogEntryValue>,
    pub commit_index: i32,
    pub last_applied: i32,
    pub next_index: Seq<i32>,
    pub match_index: Seq<i32>,
    pub network_size: usize,
    pub id: i32,
    pub state: NodeState,
    pub votes_received: Seq<i32>,
}

/// The entry that every log starts with.
pub open spec fn first_entry() -> LogEntryValue {
    LogEntryValue { ent: LogEntry { term: 0, index: 0 }, val: 0 }
}

/// Every entry carries its own position.
pub open spec fn indexed(log: Seq<LogEntryValue>) -> bool {
    forall|i: int| 0 <= i < log.len() ==> (#[trigger] log[i]).ent.index == i as i32
}

/// The smaller of two numbers.
pub open spec fn min_of(a: i32, b: i32) -> i32 {
    if a <= b {
        a
    } else {
        b
    }
}

impl NodeView {
    /// A node that has just been set up as node `id` of `network_size` nodes.
    pub open spec fn follower(id: i32, network_size: usize) -> NodeView {
        NodeView {
            current_term: 0,
            voted_for: None,
            log: seq![first_entry()],
            commit_index: 0,
            last_applied: 0,
            next_index: repeated(network_size as nat, -1i32),
            match_index: repeated(network_size as nat, -1i32),
            network_size,
            id,
            state: NodeState::Follower,
            votes_received: Seq::empty(),
        }
    }

    /// The node is one of the `network_size` nodes that it keeps track of, and its
    /// log is not empty.
    pub open spec fn shaped(self) -> bool {
        &&& 0 <= self.id < self.network_size <= i32::MAX
        &&& self.next_index.len() == self.network_size
        &&& self.match_index.len() == self.network_size
        &&& self.log.len() > 0
    }

    /// After a restart: term, vote and log are kept, the rest starts over.
    pub open spec fn restarted(self) -> NodeView {
        NodeView {
            commit_index: 0,
            last_applied: 0,
            next_index: repeated(self.next_index.len(), -1i32),
            match_index: repeated(self.match_index.len(), -1i32),
            state: NodeState::Follower,
            votes_received: Seq::empty(),
            ..self
        }
    }

    /// After learning of a later term: a follower that has not voted yet.
    pub open spec fn moved_to_term(self, term: i32) -> NodeView {
        NodeView {
            current_term: term,
            state: NodeState::Follower,
            voted_for: None,
            votes_received: Seq::empty(),
            ..self
        }
    }

    /// After winning an election: every other node is assumed to have the whole
    /// log, and is known to have the first entry only.
    pub open spec fn leading(self) -> NodeView {
        NodeView {
            state: NodeState::Leader,
            next_index: repeated(self.next_index.len(), self.log.len() as i32),
            match_index: repeated(self.match_index.len(), 0),
            ..self
        }
    }

    /// How far each node is known to have come, this one with its log's length.
    pub open spec fn progress(self) -> Seq<i32> {
        self.match_index.update(self.id as int, self.log.len() as i32)
    }

    /// After the commit index was set to what a majority has reached.
    pub open spec fn committed(self) -> NodeView {
        NodeView { commit_index: majority_index(self.progress()), ..self }
    }

    /// Only a node that does not lead can time out.
    pub open spec fn can_time_out(self) -> bool {
        self.state == NodeState::Follower || self.state == NodeState::Candidate
    }

    /// After a timeout: a candidate in the next term, with its own vote.
    pub open spec fn timed_out(self) -> NodeView {
        NodeView {
            state: NodeState::Candidate,
            current_term: (self.current_term + 1) as i32,
            voted_for: Some(self.id),
            votes_received: seq![self.id],
            ..self
        }
    }

    /// Only a leader takes requests of clients.
    pub open spec fn can_serve_client(self) -> bool {
        self.state == NodeState::Leader
    }

    /// After a client's request: the log ends in a new entry of the current term.
    pub open spec fn with_client_entry(self, val: Value) -> NodeView {
        NodeView {
            log: self.log.push(
                LogEntryValue {
                    ent: LogEntry { term: self.current_term, index: self.log.len() as i32 },
                    val,
                },
            ),
            ..self
        }
    }

    /// A candidate asks the others for their votes.
    pub open spec fn can_request_vote(self, dest: i32) -> bool {
        self.state == NodeState::Candidate && self.id != dest
    }

    pub open spec fn vote_request(self, dest: i32) -> MessageView {
        MessageView {
            from: self.id,
            to: dest,
            data: MessageDataView::RequestVoteRequest {
                term: self.current_term,
                cand_id: self.id,
                last: self.log.last().ent,
            },
        }
    }

    /// A leader sends its entries to the others.
    pub open spec fn can_append(self, dest: i32) -> bool {
        self.state == NodeState::Leader && self.id != dest
    }

    /// The next entry for `dest` lies in the log or right behind it, and has a
    /// predecessor.
    pub open spec fn append_ready(self, dest: i32) -> bool {
        &&& 0 <= dest < self.next_index.len()
        &&& 1 <= self.next_index[dest as int] <= self.log.len()
    }

    /// What a leader sends to `dest`: the entries from the next one on, and the
    /// name of the entry before them.
    pub open spec fn append_request(self, dest: i32) -> MessageView {
        let next = self.next_index[dest as int] as int;
        MessageView {
            from: self.id,
            to: dest,
            data: MessageDataView::AppendEntriesRequest {
                term: self.current_term,
                leader_id: self.id,
                prev: self.log[next - 1].ent,
                entries: self.log.skip(next),
                leader_commit: self.commit_index,
            },
        }
    }

    pub open spec fn vote_reply(self, dest: i32, granted: bool) -> MessageView {
        MessageView {
            from: self.id,
            to: dest,
            data: MessageDataView::RequestVoteResponse { term: self.current_term, granted },
        }
    }

    pub open spec fn append_reply(
        self,
        dest: i32,
        success: bool,
        last: Option<LogEntry>,
    ) -> MessageView {
        MessageView {
            from: self.id,
            to: dest,
            data: MessageDataView::AppendEntriesResponse { term: self.current_term, success, last },
        }
    }

    /// The node grants its vote to `from` in its current term: it has not voted for
    /// another, and the candidate's log is at least as up to date as its own.
    pub open spec fn grants_vote(self, from: NodeId, last: LogEntry) -> bool {
        &&& (self.voted_for is None || self.voted_for == Some(from))
        &&& last.up_to_date_with(self.log.last().ent)
    }

    pub open spec fn vote_request_ready(self, m: MessageView) -> bool {
        &&& m.to == self.id
        &&& m.data is RequestVoteRequest
        &&& m.data.term() == self.current_term ==> self.log.len() > 0
    }

    /// What a request for a vote does to the node, and what it answers. A stale
    /// request is refused, one from a later term only moves the node to that term.
    pub open spec fn on_vote_request(self, m: MessageView) -> (NodeView, Seq<MessageView>) {
        match m.data {
            MessageDataView::RequestVoteRequest { term, cand_id, last } => {
                if term < self.current_term {
                    (self, seq![self.vote_reply(m.from, false)])
                } else if term > self.current_term {
                    (self.moved_to_term(term), seq![])
                } else if self.grants_vote(m.from, last) {
                    (
                        NodeView { voted_for: Some(m.from), ..self },
                        seq![self.vote_reply(m.from, true)],
                    )
                } else {
                    (self, seq![self.vote_reply(m.from, false)])
                }
            },
            _ => (self, seq![]),
        }
    }

    /// The votes after one more node was counted.
    pub open spec fn votes_with(self, from: NodeId) -> Seq<i32> {
        if self.votes_received.contains(from) {
            self.votes_received
        } else {
            self.votes_received.push(from)
        }
    }

    pub open spec fn vote_response_ready(self, m: MessageView) -> bool {
        &&& m.to == self.id
        &&& m.data is RequestVoteResponse
    }

    /// What the answer to a request for a vote does: a granted vote counts once, and
    /// with the votes of more than half of the nodes the node leads.
    pub open spec fn on_vote_response(self, m: MessageView) -> NodeView {
        match m.data {
            MessageDataView::RequestVoteResponse { term, granted } => {
                if term < self.current_term {
                    self
                } else if term > self.current_term {
                    self.moved_to_term(term)
                } else {
                    let counted = NodeView {
                        votes_received: if granted {
                            self.votes_with(m.from)
                        } else {
                            self.votes_received
                        },
                        ..self
                    };
                    if counted.votes_received.len() > counted.network_size / 2 {
                        counted.leading()
                    } else {
                        counted
                    }
                }
            },
            _ => self,
        }
    }

    /// The log holds the entry `prev` names.
    pub open spec fn holds(self, prev: LogEntry) -> bool {
        0 <= prev.index < self.log.len() && self.log[prev.index as int].ent.term == prev.term
    }

    pub open spec fn append_request_ready(self, m: MessageView) -> bool {
        &&& m.to == self.id
        &&& m.data matches MessageDataView::AppendEntriesRequest { term, prev, entries, .. } && (
        term == self.current_term && self.holds(prev) ==> i32::MIN <= prev.index
            + entries.len() as i32 <= i32::MAX)
    }

    /// What a leader's entries do to the node, and what it answers. They are taken
    /// when they are of the current term and the log holds the entry before them:
    /// then they replace everything behind that entry.
    pub open spec fn on_append_request(self, m: MessageView) -> (NodeView, Seq<MessageView>) {
        match m.data {
            MessageDataView::AppendEntriesRequest { term, prev, entries, leader_commit, .. } => {
                if term < self.current_term {
                    (self, seq![self.append_reply(m.from, false, None)])
                } else if term > self.current_term {
                    (self.moved_to_term(term), seq![])
                } else if !self.holds(prev) {
                    (self, seq![self.append_reply(m.from, false, None)])
                } else {
                    let log = self.log.take(prev.index + 1) + entries;
                    let last_new = (prev.index + entries.len() as i32) as i32;
                    let commit_index = if leader_commit > self.commit_index {
                        min_of(leader_commit, last_new)
                    } else {
                        self.commit_index
                    };
                    (
                        NodeView { log, commit_index, ..self },
                        seq![self.append_reply(m.from, true, Some(log.last().ent))],
                    )
                }
            },
            _ => (self, seq![]),
        }
    }

    pub open spec fn append_response_ready(self, m: MessageView) -> bool {
        &&& m.to == self.id
        &&& m.data matches MessageDataView::AppendEntriesResponse { term, success, last } && (term
            == self.current_term ==> {
            &&& 0 <= m.from < self.next_index.len()
            &&& if success {
                &&& last is Some
                &&& last->0.index < i32::MAX
                &&& m.from < self.match_index.len()
                &&& 0 <= self.id < self.match_index.len()
            } else {
                self.next_index[m.from as int] > i32::MIN
            }
        })
    }

    /// What the answer to a leader's entries does: after a success the node knows how
    /// far the other has come, and what a majority has reached; after a failure it
    /// steps back by one entry.
    pub open spec fn on_append_response(self, m: MessageView) -> NodeView {
        match m.data {
            MessageDataView::AppendEntriesResponse { term, success, last } => {
                if term < self.current_term {
                    self
                } else if term > self.current_term {
                    self.moved_to_term(term)
                } else if success {
                    let reached = last->0.index;
                    NodeView {
                        next_index: self.next_index.update(m.from as int, (reached + 1) as i32),
                        match_index: self.match_index.update(m.from as int, reached),
                        ..self
                    }.committed()
                } else {
                    NodeView {
                        next_index: self.next_index.update(
                            m.from as int,
                            (self.next_index[m.from as int] - 1) as i32,
                        ),
                        ..self
                    }
                }
            },
            _ => self,
        }
    }
}

} // verus!
