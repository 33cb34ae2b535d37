//! The world: Raft nodes, the network between them, and the steps that drive them.

use vstd::prelude::*;

use crate::command::{
    chars_of, is_word, parse_usize, read_argument, split_words, trim, ChoiceError,
};
use crate::lists::{contains, position};
use crate::message::MessageData;
use crate::network::Network;
use crate::node::RaftNode;
use crate::node_model::{indexed, NodeView};
use crate::step::{lemma_push_contains, listed, position_of, sort_steps, WorldStep};
use crate::text::{
    heading_text, messages_text, nodes_text, put_message, put_node, put_usize, world_text,
};
use crate::world_model::{lemma_after_wf, WorldView};

verus! {

/// A cluster of Raft nodes.
pub struct World {
    pub network: Network,
    pub nodes: Vec<RaftNode>,
    pub crashed: Vec<i32>,
    pub n_steps: usize,
    pub n_nodes: usize,
}

/// The models of a sequence of nodes.
pub open spec fn node_views(nodes: Seq<RaftNode>) -> Seq<NodeView> {
    Seq::new(nodes.len(), |i: int| nodes[i]@)
}

impl View for World {
    type V = WorldView;

    open spec fn view(&self) -> WorldView {
        WorldView {
            nodes: node_views(self.nodes@),
            msgs: self.network@,
            crashed: self.crashed@,
            n_steps: self.n_steps as nat,
            n_nodes: self.n_nodes as nat,
        }
    }
}

/// `steps` holds every step that `p` accepts, once, and no other.
spec fn holds_exactly(steps: Seq<WorldStep>, p: spec_fn(WorldStep) -> bool) -> bool {
    &&& steps.no_duplicates()
    &&& forall|s: WorldStep| #[trigger] steps.contains(s) <==> p(s)
}

proof fn lemma_holds_push(
    steps: Seq<WorldStep>,
    p: spec_fn(WorldStep) -> bool,
    x: WorldStep,
    q: spec_fn(WorldStep) -> bool,
)
    requires
        holds_exactly(steps, p),
        !p(x),
        forall|s: WorldStep| #[trigger] q(s) <==> p(s) || s == x,
    ensures
        holds_exactly(steps.push(x), q),
{
    lemma_push_contains(steps, x);
    assert forall|s: WorldStep| #[trigger] steps.push(x).contains(s) <==> q(s) by {
        assert(steps.contains(s) <==> p(s));
    }
}

proof fn lemma_holds_same(
    steps: Seq<WorldStep>,
    p: spec_fn(WorldStep) -> bool,
    q: spec_fn(WorldStep) -> bool,
)
    requires
        holds_exactly(steps, p),
        forall|s: WorldStep| #[trigger] q(s) <==> p(s),
    ensures
        holds_exactly(steps, q),
{
}

/// The enabled steps that nodes below `id` take of their own accord.
spec fn own_steps_below(w: WorldView, id: int) -> spec_fn(WorldStep) -> bool {
    |s: WorldStep| w.enabled(s) && !s.is_receive() && s.actor() < id
}

/// The enabled steps that nodes below `id` take of their own accord, and those of node
/// `id` that go to a destination below `dest` or come first for it.
spec fn own_steps_until(w: WorldView, id: int, dest: int) -> spec_fn(WorldStep) -> bool {
    |s: WorldStep|
        w.enabled(s) && !s.is_receive() && (s.actor() < id || s.actor() == id && (s.kind() < 4
            || s.detail() < dest))
}

/// The enabled steps but for the receipt of messages from position `k` on.
spec fn steps_until(w: WorldView, k: int) -> spec_fn(WorldStep) -> bool {
    |s: WorldStep| w.enabled(s) && (s.is_receive() ==> s.detail() < k)
}

impl World {
    /// A world of `n_nodes` fresh nodes.
    pub fn new(n_nodes: usize) -> (world: Self)
        ensures
            world@ == WorldView::initial(n_nodes),
            n_nodes <= i32::MAX ==> world@.wf(),
    {
        let world = World {
            network: Network::new(),
            nodes: RaftNode::new(n_nodes),
            crashed: Vec::new(),
            n_steps: 0,
            n_nodes,
        };
        assert(world@ =~= WorldView::initial(n_nodes));
        world
    }

    /// Adds the steps that node `id` can take of its own accord.
    fn push_own_steps(&self, id: usize, cand_steps: &mut Vec<WorldStep>)
        requires
            self@.wf(),
            id < self.n_nodes,
            holds_exactly(old(cand_steps)@, own_steps_below(self@, id as int)),
        ensures
            holds_exactly(final(cand_steps)@, own_steps_below(self@, id + 1)),
    {
        let ghost w = self@;
        let this: i32 = id as i32;
        if contains(&self.crashed, this) {
            let step = WorldStep::Restart { id: this };
            proof {
                lemma_holds_push(
                    cand_steps@,
                    own_steps_below(w, id as int),
                    step,
                    own_steps_below(w, id + 1),
                );
            }
            cand_steps.push(step);
            return ;
        }
        assert(w.is_up(this));
        assert(w.nodes[id as int] == self.nodes@[id as int]@);
        let step = WorldStep::Crash { id: this };
        let ghost p0 = own_steps_below(w, id as int);
        let ghost p1 = |s: WorldStep| p0(s) || s == (WorldStep::Crash { id: this });
        proof {
            lemma_holds_push(cand_steps@, p0, step, p1);
        }
        cand_steps.push(step);
        let ghost p2 = |s: WorldStep|
            p1(s) || (w.enabled(s) && s == (WorldStep::HeartBeatTimeout { id: this }));
        if self.nodes[id].heartbeat_timeout_cond() {
            let step = WorldStep::HeartBeatTimeout { id: this };
            proof {
                lemma_holds_push(cand_steps@, p1, step, p2);
            }
            cand_steps.push(step);
        } else {
            proof {
                lemma_holds_same(cand_steps@, p1, p2);
            }
        }
        let value: i32 = self.n_steps as i32;
        let ghost p3 = own_steps_until(w, id as int, 0);
        if self.nodes[id].client_request_cond() {
            let step = WorldStep::ClientRequest { id: this, value };
            proof {
                lemma_holds_push(cand_steps@, p2, step, p3);
            }
            cand_steps.push(step);
        } else {
            proof {
                lemma_holds_same(cand_steps@, p2, p3);
            }
        }
        let mut dest: usize = 0;
        while dest < self.n_nodes
            invariant
                w == self@,
                w.wf(),
                w.is_up(this),
                w.nodes[id as int] == self.nodes@[id as int]@,
                this == id,
                id < self.n_nodes,
                dest <= self.n_nodes,
                self.n_nodes <= i32::MAX,
                self.nodes@.len() == self.n_nodes,
                holds_exactly(cand_steps@, own_steps_until(w, id as int, dest as int)),
            decreases self.n_nodes - dest,
        {
            let to: i32 = dest as i32;
            let append = WorldStep::SendAppendEntries { id: this, dest: to };
            let request = WorldStep::SendRequestVote { id: this, dest: to };
            let ghost q0 = own_steps_until(w, id as int, dest as int);
            let ghost q1 = |s: WorldStep| q0(s) || (w.enabled(s) && s == append);
            let ghost q2 = own_steps_until(w, id as int, dest + 1);
            if self.nodes[id].send_append_entries_cond(to) {
                proof {
                    lemma_holds_push(cand_steps@, q0, append, q1);
                }
                cand_steps.push(append);
            } else {
                proof {
                    lemma_holds_same(cand_steps@, q0, q1);
                }
            }
            if self.nodes[id].send_request_vote_cond(to) {
                proof {
                    lemma_holds_push(cand_steps@, q1, request, q2);
                }
                cand_steps.push(request);
            } else {
                proof {
                    lemma_holds_same(cand_steps@, q1, q2);
                }
            }
            dest = dest + 1;
        }
        proof {
            lemma_holds_same(
                cand_steps@,
                own_steps_until(w, id as int, self.n_nodes as int),
                own_steps_below(w, id + 1),
            );
        }
    }

    /// The step that receives the message at `msg_idx`.
    fn receipt_of(&self, msg_idx: usize) -> (step: WorldStep)
        requires
            msg_idx < self@.msgs.len(),
        ensures
            step == self@.receipt(msg_idx),
    {
        let id = self.network.msgs[msg_idx].to;
        match self.network.msgs[msg_idx].data {
            MessageData::RequestVoteRequest { .. } => WorldStep::RecvRequestVoteRequest {
                id,
                msg_idx,
            },
            MessageData::RequestVoteResponse { .. } => WorldStep::RecvRequestVoteResponse {
                id,
                msg_idx,
            },
            MessageData::AppendEntriesRequest { .. } => WorldStep::RecvAppendEntriesRequest {
                id,
                msg_idx,
            },
            MessageData::AppendEntriesResponse { .. } => WorldStep::RecvAppendEntriesResponse {
                id,
                msg_idx,
            },
        }
    }

    /// Lists the steps that can happen next: each of them once, by kind, then by node,
    /// then by value, destination or message.
    pub fn candidate_steps(&self) -> (cand_steps: Vec<WorldStep>)
        requires
            self@.wf(),
        ensures
            listed(cand_steps@),
            forall|s: WorldStep| #[trigger] cand_steps@.contains(s) <==> self@.enabled(s),
    {
        let ghost w = self@;
        let mut cand_steps: Vec<WorldStep> = Vec::new();
        // node-wise actions
        let mut id: usize = 0;
        while id < self.n_nodes
            invariant
                w == self@,
                w.wf(),
                id <= self.n_nodes,
                holds_exactly(cand_steps@, own_steps_below(w, id as int)),
            decreases self.n_nodes - id,
        {
            self.push_own_steps(id, &mut cand_steps);
            id = id + 1;
        }
        proof {
            lemma_holds_same(
                cand_steps@,
                own_steps_below(w, self.n_nodes as int),
                steps_until(w, 0),
            );
        }
        // message-wise actions
        let mut msg_idx: usize = 0;
        while msg_idx < self.network.msgs.len()
            invariant
                w == self@,
                w.wf(),
                msg_idx <= self.network.msgs@.len(),
                w.msgs.len() == self.network.msgs@.len(),
                holds_exactly(cand_steps@, steps_until(w, msg_idx as int)),
            decreases self.network.msgs@.len() - msg_idx,
        {
            let ghost p = steps_until(w, msg_idx as int);
            let ghost q = steps_until(w, msg_idx + 1);
            if contains(&self.crashed, self.network.msgs[msg_idx].to) {
                proof {
                    lemma_holds_same(cand_steps@, p, q);
                }
            } else {
                let step = self.receipt_of(msg_idx);
                proof {
                    lemma_holds_push(cand_steps@, p, step, q);
                }
                cand_steps.push(step);
            }
            msg_idx = msg_idx + 1;
        }
        sort_steps(&cand_steps)
    }

    /// The line that announces the step that is about to be chosen.
    pub fn heading(&self) -> (out: String)
        ensures
            out@ == heading_text(self@.n_steps),
    {
        let mut out = String::new();
        out.append("\n[next step is ");
        put_usize(&mut out, self.n_steps);
        out.append("] ==========\n");
        assert(out@ =~= heading_text(self@.n_steps));
        out
    }

    /// Shows the nodes and the messages in flight. Every log entry must carry its own
    /// position.
    pub fn dump_text(&self) -> (out: String)
        requires
            forall|i: int| 0 <= i < self@.nodes.len() ==> indexed((#[trigger] self@.nodes[i]).log),
        ensures
            out@ == world_text(self@),
    {
        let mut out = String::new();
        out.append("[dump nodes] ==========\n");
        let ghost head = out@;
        let mut i: usize = 0;
        assert(out@ =~= head + nodes_text(self@.nodes.take(0), self@.crashed));
        while i < self.nodes.len()
            invariant
                i <= self.nodes@.len(),
                out@ == head + nodes_text(self@.nodes.take(i as int), self@.crashed),
            decreases self.nodes@.len() - i,
        {
            let down = contains(&self.crashed, self.nodes[i].id);
            put_node(&mut out, &self.nodes[i], down);
            proof {
                let now = self@.nodes.take(i + 1);
                assert(now.drop_last() =~= self@.nodes.take(i as int));
                assert(now.last() == self.nodes@[i as int]@);
                assert(out@ =~= head + nodes_text(now, self@.crashed));
            }
            i = i + 1;
        }
        assert(self@.nodes.take(i as int) =~= self@.nodes);
        out.append("[dump network] ==========\n");
        let ghost head2 = out@;
        let mut k: usize = 0;
        assert(out@ =~= head2 + messages_text(self@.msgs.take(0)));
        while k < self.network.msgs.len()
            invariant
                k <= self.network.msgs@.len(),
                out@ == head2 + messages_text(self@.msgs.take(k as int)),
            decreases self.network.msgs@.len() - k,
        {
            put_message(&mut out, &self.network.msgs[k]);
            out.append("\n");
            proof {
                let now = self@.msgs.take(k + 1);
                assert(now.drop_last() =~= self@.msgs.take(k as int));
                assert(now.last() == self.network.msgs@[k as int]@);
                assert(out@ =~= head2 + messages_text(now));
            }
            k = k + 1;
        }
        assert(self@.msgs.take(k as int) =~= self@.msgs);
        out.append("[end of dump] ==========\n");
        out
    }

    /// Reads a command. `Ok(None)` comes back where the first word names no command, and
    /// an error where a word is missing, is not a number, or names no message.
    pub fn read_choice(&self, s: &str) -> (result: Result<Option<WorldStep>, ChoiceError>)
        ensures
            result == self@.choice_of(s@),
    {
        let line = chars_of(s);
        let parts = split_words(&line);
        if parts.len() == 0 {
            return Err(ChoiceError::NoCommand);
        }
        let leader = &parts[0];
        if is_word(leader, "crash") {
            let id = read_argument(&parts, 1)?;
            Ok(Some(WorldStep::Crash { id }))
        } else if is_word(leader, "restart") {
            let id = read_argument(&parts, 1)?;
            Ok(Some(WorldStep::Restart { id }))
        } else if is_word(leader, "timeout") {
            let id = read_argument(&parts, 1)?;
            Ok(Some(WorldStep::HeartBeatTimeout { id }))
        } else if is_word(leader, "client") {
            let id = read_argument(&parts, 1)?;
            let value: i32 = self.n_steps as i32;
            Ok(Some(WorldStep::ClientRequest { id, value }))
        } else if is_word(leader, "ae") || is_word(leader, "appendentries") {
            let id = read_argument(&parts, 1)?;
            let dest = read_argument(&parts, 2)?;
            Ok(Some(WorldStep::SendAppendEntries { id, dest }))
        } else if is_word(leader, "rv") || is_word(leader, "requestvote") {
            let id = read_argument(&parts, 1)?;
            let dest = read_argument(&parts, 2)?;
            Ok(Some(WorldStep::SendRequestVote { id, dest }))
        } else if is_word(leader, "recv") {
            let k = read_argument(&parts, 1)?;
            if k < 0 || k as usize >= self.network.msgs.len() {
                return Err(ChoiceError::NoSuchMessage);
            }
            Ok(Some(self.receipt_of(k as usize)))
        } else {
            Ok(None)
        }
    }

    /// The step that a command stands for; `None` where the first word names no command.
    pub fn parse_choice(&self, s: &str) -> (result: Option<WorldStep>)
        requires
            self@.choice_of(s@) is Ok,
        ensures
            result == self@.choice_of(s@)->Ok_0,
    {
        match self.read_choice(s) {
            Ok(step) => step,
            Err(_) => None,
        }
    }

    /// Which of the steps in `cand_steps` a line picks: by its number, or by a command.
    /// `Ok(None)` comes back where the command stands for a step that is not among them.
    pub fn resolve_choice(&self, cand_steps: &Vec<WorldStep>, line: &str) -> (result: Result<
        Option<usize>,
        ChoiceError,
    >)
        ensures
            match result {
                Ok(Some(k)) => k < cand_steps@.len() && self@.pick_of(cand_steps@, line@) == Ok::<
                    Option<int>,
                    ChoiceError,
                >(Some(k as int)),
                Ok(None) => self@.pick_of(cand_steps@, line@) == Ok::<Option<int>, ChoiceError>(
                    None,
                ),
                Err(e) => self@.pick_of(cand_steps@, line@) == Err::<Option<int>, ChoiceError>(e),
            },
    {
        let chars = chars_of(line);
        let number = trim(&chars);
        if let Some(k) = parse_usize(&number) {
            if k < cand_steps.len() {
                return Ok(Some(k));
            }
        }
        let choice = self.read_choice(line)?;
        let step: WorldStep = match choice {
            Some(step) => step,
            None => return Err(ChoiceError::UnknownCommand),
        };
        Ok(position_of(cand_steps, step))
    }

    /// Starts the next step: counts it, and lists what can happen.
    pub fn begin_step(&mut self) -> (cand_steps: Vec<WorldStep>)
        requires
            old(self)@.wf(),
            old(self).n_steps < usize::MAX,
        ensures
            final(self)@ == old(self)@.ticked(),
            final(self)@.wf(),
            listed(cand_steps@),
            forall|s: WorldStep| #[trigger]
                cand_steps@.contains(s) <==> final(self)@.enabled(s),
    {
        self.n_steps = self.n_steps + 1;
        self.candidate_steps()
    }

    /// Whether a step can be executed.
    pub fn is_ready(&self, step: &WorldStep) -> (b: bool)
        requires
            self@.wf(),
        ensures
            b == self@.ready(*step),
    {
        let ghost w = self@;
        match *step {
            WorldStep::Crash { id } => true,
            WorldStep::Restart { id } => self.numbers_node(id) && contains(&self.crashed, id),
            WorldStep::HeartBeatTimeout { id } => {
                self.numbers_node(id) && self.nodes[id as usize].heartbeat_timeout_cond()
                    && self.nodes[id as usize].current_term < i32::MAX
            },
            WorldStep::ClientRequest { id, value } => {
                self.numbers_node(id) && self.nodes[id as usize].client_request_cond()
            },
            WorldStep::SendRequestVote { id, dest } => {
                self.numbers_node(id) && self.nodes[id as usize].send_request_vote_cond(dest)
            },
            WorldStep::SendAppendEntries { id, dest } => {
                self.numbers_node(id) && self.nodes[id as usize].send_append_entries_cond(dest)
                    && self.nodes[id as usize].append_is_ready(dest)
            },
            WorldStep::RecvRequestVoteRequest { id, msg_idx } => {
                assert(w.has_node(id) ==> w.nodes[id as int].shaped());
                self.numbers_node(id) && msg_idx < self.network.msgs.len()
                    && self.nodes[id as usize].recv_request_vote_request_cond(
                    &self.network.msgs[msg_idx],
                )
            },
            WorldStep::RecvRequestVoteResponse { id, msg_idx } => {
                self.numbers_node(id) && msg_idx < self.network.msgs.len()
                    && self.nodes[id as usize].recv_request_vote_response_cond(
                    &self.network.msgs[msg_idx],
                )
            },
            WorldStep::RecvAppendEntriesRequest { id, msg_idx } => {
                self.numbers_node(id) && msg_idx < self.network.msgs.len()
                    && self.nodes[id as usize].append_request_is_ready(&self.network.msgs[msg_idx])
            },
            WorldStep::RecvAppendEntriesResponse { id, msg_idx } => {
                self.numbers_node(id) && msg_idx < self.network.msgs.len()
                    && self.nodes[id as usize].append_response_is_ready(&self.network.msgs[msg_idx])
            },
        }
    }

    /// Whether `id` numbers one of the nodes.
    fn numbers_node(&self, id: i32) -> (b: bool)
        ensures
            b == self@.has_node(id),
    {
        0 <= id && (id as usize) < self.nodes.len()
    }

    /// Executes a step.
    pub fn execute_step(&mut self, choice: &WorldStep)
        requires
            old(self)@.wf(),
            old(self)@.ready(*choice),
        ensures
            final(self)@ == old(self)@.after(*choice),
            final(self)@.wf(),
    {
        proof {
            lemma_after_wf(self@, *choice);
        }
        match *choice {
            WorldStep::Crash { id } => {
                self.crashed.push(id);
            },
            WorldStep::Restart { id } => {
                let idx: usize = position(&self.crashed, id).unwrap();
                self.crashed.remove(idx);
                self.nodes[id as usize].restart();
            },
            WorldStep::HeartBeatTimeout { id } => {
                self.nodes[id as usize].heartbeat_timeout();
            },
            WorldStep::ClientRequest { id, value } => {
                self.nodes[id as usize].client_request(value);
            },
            WorldStep::SendRequestVote { id, dest } => {
                self.nodes[id as usize].send_request_vote(dest, &mut self.network);
            },
            WorldStep::SendAppendEntries { id, dest } => {
                self.nodes[id as usize].send_append_entries(dest, &mut self.network);
            },
            WorldStep::RecvRequestVoteRequest { id, msg_idx } => {
                let msg = self.network.pull_ith(msg_idx);
                self.nodes[id as usize].recv_request_vote_request(msg, &mut self.network);
            },
            WorldStep::RecvRequestVoteResponse { id, msg_idx } => {
                let msg = self.network.pull_ith(msg_idx);
                self.nodes[id as usize].recv_request_vote_response(msg);
            },
            WorldStep::RecvAppendEntriesRequest { id, msg_idx } => {
                let msg = self.network.pull_ith(msg_idx);
                self.nodes[id as usize].recv_append_entries_request(msg, &mut self.network);
            },
            WorldStep::RecvAppendEntriesResponse { id, msg_idx } => {
                let msg = self.network.pull_ith(msg_idx);
                self.nodes[id as usize].recv_append_entries_response(msg);
            },
        }
        assert(self@ =~= old(self)@.after(*choice));
    }
}

} // verus!
