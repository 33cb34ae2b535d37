//! Log entries and the messages that nodes exchange.

use std::cmp::Ordering;
use vstd::prelude::*;

verus! {

/// Identifies a node: its position in the world.
pub type NodeId = i32;

/// What a client asks the cluster to store.
pub type Value = i32;

/// The name of a log entry: the term in which a leader created it, and its
/// position in the log.
#[derive(Debug, PartialEq, Eq, Clone, Copy, Ord, Structural)]
pub struct LogEntry {
    pub term: i32,
    pub index: i32,
}

impl LogEntry {
    /// A log that ends in `self` is at least as up to date as one that ends in
    /// `other`: its last term is later, or the terms agree and it is no shorter.
    pub open spec fn up_to_date_with(self, other: LogEntry) -> bool {
        self.term > other.term || (self.term == other.term && self.index >= other.index)
    }
}

/// Entries are ordered by term first, and by index within a term.
impl PartialOrd for LogEntry {
    fn partial_cmp(&self, other: &LogEntry) -> (r: Option<Ordering>) {
        if self.term < other.term {
            Some(Ordering::Less)
        } else if self.term > other.term {
            Some(Ordering::Greater)
        } else if self.index < other.index {
            Some(Ordering::Less)
        } else if self.index > other.index {
            Some(Ordering::Greater)
        } else {
            Some(Ordering::Equal)
        }
    }
}

impl vstd::std_specs::cmp::PartialOrdSpecImpl for LogEntry {
    open spec fn obeys_partial_cmp_spec() -> bool {
        true
    }

    open spec fn partial_cmp_spec(&self, other: &LogEntry) -> Option<Ordering> {
        if self == other {
            Some(Ordering::Equal)
        } else if self.up_to_date_with(*other) {
            Some(Ordering::Greater)
        } else {
            Some(Ordering::Less)
        }
    }
}

/// A log entry together with the value that it stores.
#[derive(Debug, PartialEq, Clone, Copy, Structural)]
pub struct LogEntryValue {
    pub ent: LogEntry,
    pub val: Value,
}

/// What a message carries.
#[allow(inconsistent_fields)]
#[derive(Debug, PartialEq, Clone)]
pub enum MessageData {
    RequestVoteRequest { term: i32, cand_id: NodeId, last: LogEntry },
    RequestVoteResponse { term: i32, granted: bool },
    AppendEntriesRequest {
        term: i32,
        leader_id: i32,
        prev: LogEntry,
        entries: Vec<LogEntryValue>,
        leader_commit: i32,
    },
    AppendEntriesResponse { term: i32, success: bool, last: Option<LogEntry> },
}

/// A message on its way from one node to another.
#[derive(Debug, PartialEq)]
pub struct Message {
    pub from: NodeId,
    pub to: NodeId,
    pub data: MessageData,
}

/// The model of [`MessageData`]: the entries are a sequence.
#[allow(inconsistent_fields)]
#[verifier::ext_equal]
pub enum MessageDataView {
    RequestVoteRequest { term: i32, cand_id: NodeId, last: LogEntry },
    RequestVoteResponse { term: i32, granted: bool },
    AppendEntriesRequest {
        term: i32,
        leader_id: i32,
        prev: LogEntry,
        entries: Seq<LogEntryValue>,
        leader_commit: i32,
    },
    AppendEntriesResponse { term: i32, success: bool, last: Option<LogEntry> },
}

/// The model of [`Message`].
#[verifier::ext_equal]
pub struct MessageView {
    pub from: NodeId,
    pub to: NodeId,
    pub data: MessageDataView,
}

impl MessageDataView {
    /// The term that the sender was in.
    pub open spec fn term(self) -> i32 {
        match self {
            MessageDataView::RequestVoteRequest { term, .. } => term,
            MessageDataView::RequestVoteResponse { term, .. } => term,
            MessageDataView::AppendEntriesRequest { term, .. } => term,
            MessageDataView::AppendEntriesResponse { term, .. } => term,
        }
    }
}

impl View for MessageData {
    type V = MessageDataView;

    open spec fn view(&self) -> MessageDataView {
        match *self {
            MessageData::RequestVoteRequest { term, cand_id, last } =>
                MessageDataView::RequestVoteRequest { term, cand_id, last },
            MessageData::RequestVoteResponse { term, granted } =>
                MessageDataView::RequestVoteResponse { term, granted },
            MessageData::AppendEntriesRequest { term, leader_id, prev, entries, leader_commit } =>
                MessageDataView::AppendEntriesRequest {
                    term,
                    leader_id,
                    prev,
                    entries: entries@,
                    leader_commit,
                },
            MessageData::AppendEntriesResponse { term, success, last } =>
                MessageDataView::AppendEntriesResponse { term, success, last },
        }
    }
}

impl View for Message {
    type V = MessageView;

    open spec fn view(&self) -> MessageView {
        MessageView { from: self.from, to: self.to, data: self.data@ }
    }
}

} // verus!
