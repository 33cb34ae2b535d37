//! The model of the world: nodes, messages in flight, crashed nodes, and what each
//! step does to them.

use vstd::prelude::*;

use crate::command::{argument, trimmed, usize_of, words, ChoiceError};
use crate::message::{MessageDataView, MessageView};
use crate::node_model::NodeView;
use crate::step::WorldStep;

verus! {

/// The state of the world.
#[verifier::ext_equal]
pub struct WorldView {
    pub nodes: Seq<NodeView>,
    pub msgs: Seq<MessageView>,
    pub crashed: Seq<i32>,
    pub n_steps: nat,
    pub n_nodes: nat,
}

impl WorldView {
    /// A world of `n` fresh nodes.
    pub open spec fn initial(n: usize) -> WorldView {
        WorldView {
            nodes: Seq::new(n as nat, |i: int| NodeView::follower(i as i32, n)),
            msgs: Seq::empty(),
            crashed: Seq::empty(),
            n_steps: 0,
            n_nodes: n as nat,
        }
    }

    /// Every node stands at the position that it is numbered with, and keeps track of
    /// all nodes.
    pub open spec fn wf(self) -> bool {
        &&& self.n_nodes == self.nodes.len() <= i32::MAX
        &&& forall|i: int|
            0 <= i < self.nodes.len() ==> (#[trigger] self.nodes[i]).shaped() && self.nodes[i].id == i
                && self.nodes[i].network_size == self.nodes.len()
    }

    /// `id` numbers one of the nodes.
    pub open spec fn has_node(self, id: i32) -> bool {
        0 <= id < self.nodes.len()
    }

    /// `id` numbers a node that has not crashed.
    pub open spec fn is_up(self, id: i32) -> bool {
        self.has_node(id) && !self.crashed.contains(id)
    }

    /// The message at `msg_idx` is in flight to `id`, which has not crashed.
    pub open spec fn delivers(self, id: i32, msg_idx: usize) -> bool {
        msg_idx < self.msgs.len() && self.msgs[msg_idx as int].to == id && !self.crashed.contains(id)
    }

    /// The step can happen next.
    pub open spec fn enabled(self, step: WorldStep) -> bool {
        match step {
            WorldStep::Crash { id } => self.is_up(id),
            WorldStep::Restart { id } => self.has_node(id) && self.crashed.contains(id),
            WorldStep::HeartBeatTimeout { id } => self.is_up(id)
                && self.nodes[id as int].can_time_out(),
            WorldStep::ClientRequest { id, value } => self.is_up(id)
                && self.nodes[id as int].can_serve_client() && value == self.n_steps as i32,
            WorldStep::SendAppendEntries { id, dest } => self.is_up(id) && self.has_node(dest)
                && self.nodes[id as int].can_append(dest),
            WorldStep::SendRequestVote { id, dest } => self.is_up(id) && self.has_node(dest)
                && self.nodes[id as int].can_request_vote(dest),
            WorldStep::RecvRequestVoteRequest { id, msg_idx } => self.delivers(id, msg_idx)
                && self.msgs[msg_idx as int].data is RequestVoteRequest,
            WorldStep::RecvRequestVoteResponse { id, msg_idx } => self.delivers(id, msg_idx)
                && self.msgs[msg_idx as int].data is RequestVoteResponse,
            WorldStep::RecvAppendEntriesRequest { id, msg_idx } => self.delivers(id, msg_idx)
                && self.msgs[msg_idx as int].data is AppendEntriesRequest,
            WorldStep::RecvAppendEntriesResponse { id, msg_idx } => self.delivers(id, msg_idx)
                && self.msgs[msg_idx as int].data is AppendEntriesResponse,
        }
    }

    /// The step that receives the message at `msg_idx`.
    pub open spec fn receipt(self, msg_idx: usize) -> WorldStep {
        let id = self.msgs[msg_idx as int].to;
        match self.msgs[msg_idx as int].data {
            MessageDataView::RequestVoteRequest { .. } => WorldStep::RecvRequestVoteRequest {
                id,
                msg_idx,
            },
            MessageDataView::RequestVoteResponse { .. } => WorldStep::RecvRequestVoteResponse {
                id,
                msg_idx,
            },
            MessageDataView::AppendEntriesRequest { .. } => WorldStep::RecvAppendEntriesRequest {
                id,
                msg_idx,
            },
            MessageDataView::AppendEntriesResponse { .. } => WorldStep::RecvAppendEntriesResponse {
                id,
                msg_idx,
            },
        }
    }

    /// The step can be executed: the nodes and messages that it names are there, its
    /// conditions hold, and no number leaves its range.
    pub open spec fn ready(self, step: WorldStep) -> bool {
        match step {
            WorldStep::Crash { id } => true,
            WorldStep::Restart { id } => self.crashed.contains(id) && self.has_node(id),
            WorldStep::HeartBeatTimeout { id } => {
                &&& self.has_node(id)
                &&& self.nodes[id as int].can_time_out()
                &&& self.nodes[id as int].current_term < i32::MAX
            },
            WorldStep::ClientRequest { id, value } => {
                &&& self.has_node(id)
                &&& self.nodes[id as int].can_serve_client()
            },
            WorldStep::SendAppendEntries { id, dest } => {
                &&& self.has_node(id)
                &&& self.nodes[id as int].can_append(dest)
                &&& self.nodes[id as int].append_ready(dest)
            },
            WorldStep::SendRequestVote { id, dest } => {
                &&& self.has_node(id)
                &&& self.nodes[id as int].can_request_vote(dest)
            },
            WorldStep::RecvRequestVoteRequest { id, msg_idx } => {
                &&& self.has_node(id)
                &&& msg_idx < self.msgs.len()
                &&& self.nodes[id as int].vote_request_ready(self.msgs[msg_idx as int])
            },
            WorldStep::RecvRequestVoteResponse { id, msg_idx } => {
                &&& self.has_node(id)
                &&& msg_idx < self.msgs.len()
                &&& self.nodes[id as int].vote_response_ready(self.msgs[msg_idx as int])
            },
            WorldStep::RecvAppendEntriesRequest { id, msg_idx } => {
                &&& self.has_node(id)
                &&& msg_idx < self.msgs.len()
                &&& self.nodes[id as int].append_request_ready(self.msgs[msg_idx as int])
            },
            WorldStep::RecvAppendEntriesResponse { id, msg_idx } => {
                &&& self.has_node(id)
                &&& msg_idx < self.msgs.len()
                &&& self.nodes[id as int].append_response_ready(self.msgs[msg_idx as int])
            },
        }
    }

    /// Node `id` is replaced by `node`.
    pub open spec fn with_node(self, id: i32, node: NodeView) -> WorldView {
        WorldView { nodes: self.nodes.update(id as int, node), ..self }
    }

    /// `m` is put in flight.
    pub open spec fn with_message(self, m: MessageView) -> WorldView {
        WorldView { msgs: self.msgs.push(m), ..self }
    }

    /// Node `id` takes the message at `msg_idx` and becomes `outcome.0`; the messages
    /// `outcome.1` are put in flight.
    pub open spec fn with_receipt(
        self,
        id: i32,
        msg_idx: usize,
        outcome: (NodeView, Seq<MessageView>),
    ) -> WorldView {
        WorldView {
            nodes: self.nodes.update(id as int, outcome.0),
            msgs: self.msgs.remove(msg_idx as int) + outcome.1,
            ..self
        }
    }

    /// What the step makes of the world.
    pub open spec fn after(self, step: WorldStep) -> WorldView {
        match step {
            WorldStep::Crash { id } => WorldView { crashed: self.crashed.push(id), ..self },
            WorldStep::Restart { id } => WorldView {
                crashed: self.crashed.remove(self.crashed.index_of_first(id)->0),
                ..self.with_node(id, self.nodes[id as int].restarted())
            },
            WorldStep::HeartBeatTimeout { id } => self.with_node(
                id,
                self.nodes[id as int].timed_out(),
            ),
            WorldStep::ClientRequest { id, value } => self.with_node(
                id,
                self.nodes[id as int].with_client_entry(value),
            ),
            WorldStep::SendAppendEntries { id, dest } => self.with_message(
                self.nodes[id as int].append_request(dest),
            ),
            WorldStep::SendRequestVote { id, dest } => self.with_message(
                self.nodes[id as int].vote_request(dest),
            ),
            WorldStep::RecvRequestVoteRequest { id, msg_idx } => self.with_receipt(
                id,
                msg_idx,
                self.nodes[id as int].on_vote_request(self.msgs[msg_idx as int]),
            ),
            WorldStep::RecvRequestVoteResponse { id, msg_idx } => self.with_receipt(
                id,
                msg_idx,
                (
                    self.nodes[id as int].on_vote_response(self.msgs[msg_idx as int]),
                    Seq::<MessageView>::empty(),
                ),
            ),
            WorldStep::RecvAppendEntriesRequest { id, msg_idx } => self.with_receipt(
                id,
                msg_idx,
                self.nodes[id as int].on_append_request(self.msgs[msg_idx as int]),
            ),
            WorldStep::RecvAppendEntriesResponse { id, msg_idx } => self.with_receipt(
                id,
                msg_idx,
                (
                    self.nodes[id as int].on_append_response(self.msgs[msg_idx as int]),
                    Seq::<MessageView>::empty(),
                ),
            ),
        }
    }

    /// The step that a command of one or two words besides its name stands for; `None` if
    /// the first word names no command.
    pub open spec fn choice_of(self, line: Seq<char>) -> Result<Option<WorldStep>, ChoiceError> {
        let parts = words(line);
        if parts.len() == 0 {
            Err(ChoiceError::NoCommand)
        } else if parts[0] == "crash"@ {
            match argument(parts, 1) {
                Ok(id) => Ok(Some(WorldStep::Crash { id })),
                Err(e) => Err(e),
            }
        } else if parts[0] == "restart"@ {
            match argument(parts, 1) {
                Ok(id) => Ok(Some(WorldStep::Restart { id })),
                Err(e) => Err(e),
            }
        } else if parts[0] == "timeout"@ {
            match argument(parts, 1) {
                Ok(id) => Ok(Some(WorldStep::HeartBeatTimeout { id })),
                Err(e) => Err(e),
            }
        } else if parts[0] == "client"@ {
            match argument(parts, 1) {
                Ok(id) => Ok(Some(WorldStep::ClientRequest { id, value: self.n_steps as i32 })),
                Err(e) => Err(e),
            }
        } else if parts[0] == "ae"@ || parts[0] == "appendentries"@ {
            match (argument(parts, 1), argument(parts, 2)) {
                (Ok(id), Ok(dest)) => Ok(Some(WorldStep::SendAppendEntries { id, dest })),
                (Err(e), _) => Err(e),
                (_, Err(e)) => Err(e),
            }
        } else if parts[0] == "rv"@ || parts[0] == "requestvote"@ {
            match (argument(parts, 1), argument(parts, 2)) {
                (Ok(id), Ok(dest)) => Ok(Some(WorldStep::SendRequestVote { id, dest })),
                (Err(e), _) => Err(e),
                (_, Err(e)) => Err(e),
            }
        } else if parts[0] == "recv"@ {
            match argument(parts, 1) {
                Ok(k) => if 0 <= k < self.msgs.len() {
                    Ok(Some(self.receipt(k as usize)))
                } else {
                    Err(ChoiceError::NoSuchMessage)
                },
                Err(e) => Err(e),
            }
        } else {
            Ok(None)
        }
    }

    /// The position among `cand_steps` that a line picks: by its number there, or by a
    /// command; `None` if the command stands for a step that is not among them.
    pub open spec fn pick_of(self, cand_steps: Seq<WorldStep>, line: Seq<char>) -> Result<
        Option<int>,
        ChoiceError,
    > {
        match usize_of(trimmed(line)) {
            Some(k) if k < cand_steps.len() => Ok(Some(k as int)),
            _ => match self.choice_of(line) {
                Ok(Some(step)) => Ok(cand_steps.index_of_first(step)),
                Ok(None) => Err(ChoiceError::UnknownCommand),
                Err(e) => Err(e),
            },
        }
    }

    /// The world when the next step is about to be chosen.
    pub open spec fn ticked(self) -> WorldView {
        WorldView { n_steps: self.n_steps + 1, ..self }
    }
}

/// A step keeps the world well formed.
pub proof fn lemma_after_wf(w: WorldView, step: WorldStep)
    requires
        w.wf(),
        w.ready(step),
    ensures
        w.after(step).wf(),
{
    let v = w.after(step);
    assert forall|i: int| 0 <= i < v.nodes.len() implies (#[trigger] v.nodes[i]).shaped()
        && v.nodes[i].id == i && v.nodes[i].network_size == v.nodes.len() by {
        assert(w.nodes[i].shaped());
    }
}

} // verus!
