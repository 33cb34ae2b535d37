//! A Raft node.

use vstd::prelude::*;

use crate::lists::{contains, fill};
use crate::message::{LogEntry, LogEntryValue, Message, MessageData, MessageView, NodeId, Value};
use crate::network::Network;
use crate::node_model::{indexed, NodeView};
use crate::quorum::{majority_value, reached_by_majority};

verus! {

/// The part that a node plays.
#[derive(Debug, PartialEq, Eq, Clone, Copy, Structural)]
pub enum NodeState {
    Follower,
    Candidate,
    Leader,
}

impl NodeState {
    /// The model of [`NodeState::one_letter`].
    pub open spec fn letter(self) -> Seq<char> {
        match self {
            NodeState::Follower => "F"@,
            NodeState::Candidate => "C"@,
            NodeState::Leader => "L"@,
        }
    }

    /// The state's initial.
    pub fn one_letter(&self) -> (s: &'static str)
        ensures
            s@ == self.letter(),
    {
        match self {
            NodeState::Follower => "F",
            NodeState::Candidate => "C",
            NodeState::Leader => "L",
        }
    }
}

/// A Raft node. The network is not part of it: what sends takes the network as an
/// argument.
#[derive(Debug)]
pub struct RaftNode {
    // persistent values
    pub current_term: i32,
    pub voted_for: Option<NodeId>,
    pub log: Vec<LogEntryValue>,
    // volatile values
    pub commit_index: i32,
    pub last_applied: i32,
    // leader state
    pub next_index: Vec<i32>,
    pub match_index: Vec<i32>,
    // for bookkeeping
    pub network_size: usize,
    pub id: i32,
    pub state: NodeState,
    // voting
    pub votes_received: Vec<i32>,
}

impl View for RaftNode {
    type V = NodeView;

    open spec fn view(&self) -> NodeView {
        NodeView {
            current_term: self.current_term,
            voted_for: self.voted_for,
            log: self.log@,
            commit_index: self.commit_index,
            last_applied: self.last_applied,
            next_index: self.next_index@,
            match_index: self.match_index@,
            network_size: self.network_size,
            id: self.id,
            state: self.state,
            votes_received: self.votes_received@,
        }
    }
}

/// Setting up, and what the steps are made of.
impl RaftNode {
    /// Starts over after a crash. Term, vote and log survive.
    pub fn restart(&mut self)
        ensures
            final(self)@ == old(self)@.restarted(),
    {
        self.commit_index = 0;
        self.last_applied = 0;
        fill(&mut self.next_index, -1);
        fill(&mut self.match_index, -1);
        self.state = NodeState::Follower;
        self.votes_received.clear();
        // keep: current_term, voted_for, log
    }

    /// A fresh node.
    pub fn new_follower(id: i32, network_size: usize) -> (node: Self)
        ensures
            node@ == NodeView::follower(id, network_size),
            0 <= id < network_size <= i32::MAX ==> node@.shaped(),
    {
        let init_entry = LogEntryValue { ent: LogEntry { term: 0, index: 0 }, val: 0 };
        let node = RaftNode {
            current_term: 0,
            voted_for: None,
            log: vec![init_entry],
            commit_index: 0,
            last_applied: 0,
            next_index: vec![-1i32; network_size],
            match_index: vec![-1i32; network_size],
            network_size,
            id,
            state: NodeState::Follower,
            votes_received: Vec::new(),
        };
        assert(node@ =~= NodeView::follower(id, network_size));
        node
    }

    /// As many fresh nodes as the network is to have, numbered from zero.
    pub fn new(network_size: usize) -> (nodes: Vec<Self>)
        ensures
            nodes@.len() == network_size,
            forall|i: int|
                0 <= i < network_size ==> (#[trigger] nodes@[i])@ == NodeView::follower(
                    i as i32,
                    network_size,
                ),
    {
        let mut nodes: Vec<Self> = Vec::new();
        let mut id: usize = 0;
        while id < network_size
            invariant
                id <= network_size,
                nodes@.len() == id,
                forall|i: int|
                    0 <= i < id ==> (#[trigger] nodes@[i])@ == NodeView::follower(
                        i as i32,
                        network_size,
                    ),
            decreases network_size - id,
        {
            nodes.push(Self::new_follower(id as i32, network_size));
            id = id + 1;
        }
        nodes
    }

    /// Whether every log entry carries its own position.
    pub fn well_formed(&self) -> (ok: bool)
        ensures
            ok == indexed(self@.log),
    {
        let mut i: usize = 0;
        while i < self.log.len()
            invariant
                i <= self.log@.len(),
                forall|j: int| 0 <= j < i ==> (#[trigger] self.log@[j]).ent.index == j as i32,
            decreases self.log@.len() - i,
        {
            if self.log[i].ent.index != i as i32 {
                return false;
            }
            i = i + 1;
        }
        true
    }

    /// Answers a request for a vote.
    pub fn reply_request_vote(&self, dest: i32, granted: bool, network: &mut Network)
        ensures
            final(network)@ == old(network)@.push(self@.vote_reply(dest, granted)),
    {
        let data = MessageData::RequestVoteResponse { term: self.current_term, granted };
        let msg = Message { from: self.id, to: dest, data };
        let _ = network.send(msg);
    }

    /// Answers a leader's entries.
    pub fn reply_append_entries(
        &self,
        dest: i32,
        success: bool,
        last: Option<LogEntry>,
        network: &mut Network,
    )
        ensures
            final(network)@ == old(network)@.push(self@.append_reply(dest, success, last)),
    {
        let data = MessageData::AppendEntriesResponse { term: self.current_term, success, last };
        let msg = Message { from: self.id, to: dest, data };
        let _ = network.send(msg);
    }

    /// Moves on to a later term.
    pub fn convert_to_follower(&mut self, new_term: i32)
        requires
            new_term > old(self).current_term,
        ensures
            final(self)@ == old(self)@.moved_to_term(new_term),
    {
        self.current_term = new_term;
        self.state = NodeState::Follower;
        self.voted_for = None;
        self.votes_received = Vec::new();
    }

    /// Takes the lead. Sending entries is a step of its own.
    pub fn become_leader(&mut self)
        ensures
            final(self)@ == old(self)@.leading(),
    {
        self.state = NodeState::Leader;
        let len: i32 = self.log.len() as i32;
        fill(&mut self.next_index, len);
        fill(&mut self.match_index, 0);
    }

    /// Commits what a majority has reached: the maximum value such that more than half
    /// of the match indices are at least as large, with the log's length standing for
    /// the node's own.
    pub fn maybe_advance_commit_index(&mut self)
        requires
            0 <= old(self).id < old(self).match_index@.len(),
        ensures
            final(self)@ == old(self)@.committed(),
            reached_by_majority(old(self)@.progress(), final(self).commit_index),
    {
        let mut match_indices: Vec<i32> = self.match_index.clone();
        assert(match_indices@ =~= self.match_index@);
        match_indices.set(self.id as usize, self.log.len() as i32);
        self.commit_index = majority_value(&match_indices);
    }
}

/// The steps.
impl RaftNode {
    pub fn heartbeat_timeout_cond(&self) -> (ok: bool)
        ensures
            ok == self@.can_time_out(),
    {
        self.state == NodeState::Follower || self.state == NodeState::Candidate
    }

    /// STEP timeout: stands for election in the next term. The requests for votes are
    /// steps of their own.
    pub fn heartbeat_timeout(&mut self)
        requires
            old(self)@.can_time_out(),
            old(self).current_term < i32::MAX,
        ensures
            final(self)@ == old(self)@.timed_out(),
    {
        self.state = NodeState::Candidate;
        self.current_term = self.current_term + 1;
        self.voted_for = Some(self.id);
        self.votes_received = vec![self.id];
        assert(self@ =~= old(self)@.timed_out());
    }

    pub fn client_request_cond(&self) -> (ok: bool)
        ensures
            ok == self@.can_serve_client(),
    {
        self.state == NodeState::Leader
    }

    /// STEP client request: appends the value to the log. The client gets no answer.
    pub fn client_request(&mut self, val: Value)
        requires
            old(self)@.can_serve_client(),
        ensures
            final(self)@ == old(self)@.with_client_entry(val),
    {
        let ent = LogEntry { term: self.current_term, index: self.log.len() as i32 };
        self.log.push(LogEntryValue { ent, val });
    }

    pub fn send_request_vote_cond(&self, dest: i32) -> (ok: bool)
        ensures
            ok == self@.can_request_vote(dest),
    {
        self.state == NodeState::Candidate && self.id != dest
    }

    /// STEP send a request for a vote.
    pub fn send_request_vote(&mut self, dest: i32, network: &mut Network)
        requires
            old(self)@.can_request_vote(dest),
            old(self)@.log.len() > 0,
        ensures
            *final(self) == *old(self),
            final(network)@ == old(network)@.push(old(self)@.vote_request(dest)),
    {
        let last = self.log[self.log.len() - 1].ent;
        let data = MessageData::RequestVoteRequest {
            term: self.current_term,
            cand_id: self.id,
            last,
        };
        let msg = Message { from: self.id, to: dest, data };
        let _ = network.send(msg);
    }

    pub fn send_append_entries_cond(&self, dest: i32) -> (ok: bool)
        ensures
            ok == self@.can_append(dest),
    {
        self.state == NodeState::Leader && self.id != dest
    }

    /// Whether the next entry for `dest` lies in the log or right behind it, and has a
    /// predecessor.
    pub fn append_is_ready(&self, dest: i32) -> (ok: bool)
        ensures
            ok == self@.append_ready(dest),
    {
        if dest < 0 || dest as usize >= self.next_index.len() {
            return false;
        }
        let next: i32 = self.next_index[dest as usize];
        1 <= next && next as usize <= self.log.len()
    }

    /// STEP send entries.
    pub fn send_append_entries(&mut self, dest: i32, network: &mut Network)
        requires
            old(self)@.can_append(dest),
            old(self)@.append_ready(dest),
        ensures
            *final(self) == *old(self),
            final(network)@ == old(network)@.push(old(self)@.append_request(dest)),
    {
        let ni: usize = self.next_index[dest as usize] as usize;
        let mut copy: Vec<LogEntryValue> = self.log.clone();
        assert(copy@ =~= self.log@);
        let entries: Vec<LogEntryValue> = copy.split_off(ni);
        let data = MessageData::AppendEntriesRequest {
            term: self.current_term,
            leader_id: self.id,
            prev: self.log[ni - 1].ent,
            entries,
            leader_commit: self.commit_index,
        };
        let msg = Message { from: self.id, to: dest, data };
        assert(msg@ =~= old(self)@.append_request(dest));
        let _ = network.send(msg);
    }

    pub fn recv_request_vote_request_cond(&self, m: &Message) -> (ok: bool)
        ensures
            ok == (m.to == self.id && m.data is RequestVoteRequest),
    {
        if m.to != self.id {
            return false;
        }
        matches!(m.data, MessageData::RequestVoteRequest { .. })
    }

    /// STEP receive a request for a vote.
    pub fn recv_request_vote_request(&mut self, m: Message, network: &mut Network)
        requires
            old(self)@.vote_request_ready(m@),
        ensures
            final(self)@ == old(self)@.on_vote_request(m@).0,
            final(network)@ == old(network)@ + old(self)@.on_vote_request(m@).1,
    {
        let Message { from, to, data } = m;
        if let MessageData::RequestVoteRequest { term, cand_id, last } = data {
            if term < self.current_term {
                self.reply_request_vote(from, false, network);
                return ;
            }
            if term > self.current_term {
                self.convert_to_follower(term);
                assert(network@ =~= old(network)@ + old(self)@.on_vote_request(m@).1);
                return ;
            }
            let my_last: LogEntry = self.log[self.log.len() - 1].ent;
            let log_ok: bool = last >= my_last;
            let votefor_ok: bool = match self.voted_for {
                Some(x) => x == from,
                None => true,
            };
            let granted: bool = votefor_ok && log_ok;
            if granted {
                self.voted_for = Some(from);
            }
            self.reply_request_vote(from, granted, network);
            assert(network@ =~= old(network)@ + old(self)@.on_vote_request(m@).1);
        }
    }

    pub fn recv_request_vote_response_cond(&self, m: &Message) -> (ok: bool)
        ensures
            ok == (m.to == self.id && m.data is RequestVoteResponse),
    {
        if m.to != self.id {
            return false;
        }
        matches!(m.data, MessageData::RequestVoteResponse { .. })
    }

    /// STEP receive the answer to a request for a vote.
    pub fn recv_request_vote_response(&mut self, m: Message)
        requires
            old(self)@.vote_response_ready(m@),
        ensures
            final(self)@ == old(self)@.on_vote_response(m@),
    {
        let Message { from, to, data } = m;
        if let MessageData::RequestVoteResponse { term, granted } = data {
            if term < self.current_term {
                return ;
            }
            if term > self.current_term {
                self.convert_to_follower(term);
                return ;
            }
            if granted {
                if !contains(&self.votes_received, from) {
                    self.votes_received.push(from);
                }
            }
            if self.votes_received.len() > self.network_size / 2 {
                self.become_leader();
            }
        }
    }

    pub fn recv_append_entries_request_cond(&self, m: &Message) -> (ok: bool)
        ensures
            ok == (m.to == self.id && m.data is AppendEntriesRequest),
    {
        if m.to != self.id {
            return false;
        }
        matches!(m.data, MessageData::AppendEntriesRequest { .. })
    }

    /// Whether a leader's entries can be received: taking them keeps the last index in
    /// range.
    pub fn append_request_is_ready(&self, m: &Message) -> (ok: bool)
        ensures
            ok == self@.append_request_ready(m@),
    {
        if !self.recv_append_entries_request_cond(m) {
            return false;
        }
        if let MessageData::AppendEntriesRequest { term, leader_id, prev, entries, leader_commit } =
            &m.data {
            if *term != self.current_term || prev.index < 0 || prev.index as usize
                >= self.log.len() || self.log[prev.index as usize].ent.term != prev.term {
                return true;
            }
            let last_new: i64 = prev.index as i64 + (entries.len() as i32) as i64;
            i32::MIN as i64 <= last_new && last_new <= i32::MAX as i64
        } else {
            false
        }
    }

    /// STEP receive a leader's entries.
    pub fn recv_append_entries_request(&mut self, m: Message, network: &mut Network)
        requires
            old(self)@.append_request_ready(m@),
        ensures
            final(self)@ == old(self)@.on_append_request(m@).0,
            final(network)@ == old(network)@ + old(self)@.on_append_request(m@).1,
    {
        let Message { from, to, data } = m;
        if let MessageData::AppendEntriesRequest { term, leader_id, prev, entries, leader_commit } =
            data {
            if term < self.current_term {
                self.reply_append_entries(from, false, None, network);
                return ;
            }
            if term > self.current_term {
                self.convert_to_follower(term);
                assert(network@ =~= old(network)@ + old(self)@.on_append_request(m@).1);
                return ;
            }
            if prev.index < 0 || prev.index as usize >= self.log.len()
                || self.log[prev.index as usize].ent.term != prev.term {
                self.reply_append_entries(from, false, None, network);
                return ;
            }
            // update log entries and commit index
            let last_new: i32 = prev.index + entries.len() as i32;
            let mut entries: Vec<LogEntryValue> = entries;
            self.log.truncate(prev.index as usize + 1);
            self.log.append(&mut entries);
            if leader_commit > self.commit_index {
                self.commit_index = if leader_commit <= last_new {
                    leader_commit
                } else {
                    last_new
                };
            }
            let last: LogEntry = self.log[self.log.len() - 1].ent;
            self.reply_append_entries(from, true, Some(last), network);
        }
    }

    pub fn recv_append_entries_response_cond(&self, m: &Message) -> (ok: bool)
        ensures
            ok == (m.to == self.id && m.data is AppendEntriesResponse),
    {
        if m.to != self.id {
            return false;
        }
        matches!(m.data, MessageData::AppendEntriesResponse { .. })
    }

    /// Whether the answer to a leader's entries can be received: it comes from a node that
    /// this one keeps track of, a success names the last entry, and the indices stay in
    /// range.
    pub fn append_response_is_ready(&self, m: &Message) -> (ok: bool)
        ensures
            ok == self@.append_response_ready(m@),
    {
        if !self.recv_append_entries_response_cond(m) {
            return false;
        }
        if let MessageData::AppendEntriesResponse { term, success, last } = &m.data {
            if *term != self.current_term {
                return true;
            }
            if m.from < 0 || m.from as usize >= self.next_index.len() {
                return false;
            }
            if *success {
                match last {
                    Some(ent) => ent.index < i32::MAX && (m.from as usize) < self.match_index.len()
                        && 0 <= self.id && (self.id as usize) < self.match_index.len(),
                    None => false,
                }
            } else {
                self.next_index[m.from as usize] > i32::MIN
            }
        } else {
            false
        }
    }

    /// STEP receive the answer to a leader's entries.
    pub fn recv_append_entries_response(&mut self, m: Message)
        requires
            old(self)@.append_response_ready(m@),
        ensures
            final(self)@ == old(self)@.on_append_response(m@),
    {
        let Message { from, to, data } = m;
        if let MessageData::AppendEntriesResponse { term, success, last } = data {
            if term < self.current_term {
                return ;
            }
            if term > self.current_term {
                self.convert_to_follower(term);
                return ;
            }
            if success {
                let last_index: i32 = last.unwrap().index;
                self.next_index.set(from as usize, last_index + 1);
                self.match_index.set(from as usize, last_index);
                self.maybe_advance_commit_index();
            } else {
                let next: i32 = self.next_index[from as usize];
                self.next_index.set(from as usize, next - 1);
            }
        }
    }
}

} // verus!
