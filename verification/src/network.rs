//! The network: the messages in flight, in the order in which they were sent.

use vstd::prelude::*;

use crate::message::{Message, MessageView, NodeId};

verus! {

/// Why a message could not be handed over.
#[derive(Debug, PartialEq, Eq, Clone, Copy, Structural)]
pub enum NetworkError {
    E0,
    NoMessage,
}

/// The messages that were sent and not yet received, oldest first.
#[derive(Debug)]
pub struct Network {
    pub msgs: Vec<Message>,
}

impl View for Network {
    type V = Seq<MessageView>;

    open spec fn view(&self) -> Seq<MessageView> {
        message_views(self.msgs@)
    }
}

/// The models of a sequence of messages.
pub open spec fn message_views(msgs: Seq<Message>) -> Seq<MessageView> {
    Seq::new(msgs.len(), |i: int| msgs[i]@)
}

/// `i` is the position of the first message that is addressed to `id`.
pub open spec fn first_for(msgs: Seq<Message>, id: NodeId, i: int) -> bool {
    &&& 0 <= i < msgs.len()
    &&& msgs[i].to == id
    &&& forall|j: int| 0 <= j < i ==> (#[trigger] msgs[j]).to != id
}

/// `i` is the position of the first message that `f` accepts.
pub open spec fn first_accepted<F: Fn(&Message) -> bool>(msgs: Seq<Message>, f: F, i: int) -> bool {
    &&& 0 <= i < msgs.len()
    &&& call_ensures(f, (&msgs[i],), true)
    &&& forall|j: int| 0 <= j < i ==> call_ensures(f, (&#[trigger] msgs[j],), false)
}

/// `f` rejects every message.
pub open spec fn none_accepted<F: Fn(&Message) -> bool>(msgs: Seq<Message>, f: F) -> bool {
    forall|j: int| 0 <= j < msgs.len() ==> call_ensures(f, (&#[trigger] msgs[j],), false)
}

/// Draws a number with `rand::random::<usize>`, which samples the whole range of
/// `usize` from the thread's generator. Nothing is claimed of the number: any
/// value of the type can come back.
#[verifier::external_body]
fn random_usize() -> usize {
    rand::random::<usize>()
}

impl Network {
    /// A network with nothing in flight.
    pub fn new() -> (network: Self)
        ensures
            network.msgs@ == Seq::<Message>::empty(),
            network@ == Seq::<MessageView>::empty(),
    {
        Network { msgs: Vec::new() }
    }

    /// Puts `m` in flight, behind everything sent before it.
    pub fn send(&mut self, m: Message) -> (result: Result<(), NetworkError>)
        ensures
            result == Ok::<(), NetworkError>(()),
            final(self).msgs@ == old(self).msgs@.push(m),
            final(self)@ == old(self)@.push(m@),
    {
        self.msgs.push(m);
        assert(self@ =~= old(self)@.push(m@));
        Ok(())
    }

    /// Takes out the oldest message that is addressed to `id`.
    pub fn recv(&mut self, id: NodeId) -> (result: Result<Message, NetworkError>)
        ensures
            match result {
                Ok(m) => exists|i: int| #[trigger]
                    first_for(old(self).msgs@, id, i) && m == old(self).msgs@[i]
                        && final(self).msgs@ == old(self).msgs@.remove(i),
                Err(e) => e == NetworkError::NoMessage && final(self).msgs@ == old(self).msgs@ && (
                forall|j: int|
                    0 <= j < old(self).msgs@.len() ==> (#[trigger] old(self).msgs@[j]).to != id),
            },
    {
        let mut idx: usize = 0;
        while idx < self.msgs.len()
            invariant
                idx <= self.msgs@.len(),
                self.msgs@ == old(self).msgs@,
                forall|j: int| 0 <= j < idx ==> (#[trigger] self.msgs@[j]).to != id,
            decreases self.msgs@.len() - idx,
        {
            if self.msgs[idx].to == id {
                assert(first_for(old(self).msgs@, id, idx as int));
                return Ok(self.msgs.remove(idx));
            }
            idx = idx + 1;
        }
        Err(NetworkError::NoMessage)
    }

    /// Takes out the oldest message that `f` accepts.
    pub fn pull<F>(&mut self, f: F) -> (result: Option<Message>) where F: Fn(&Message) -> bool
        requires
            forall|i: int|
                0 <= i < old(self).msgs@.len() ==> call_requires(f, (&#[trigger] old(self).msgs@[i],)),
        ensures
            match result {
                Some(m) => exists|i: int| #[trigger]
                    first_accepted(old(self).msgs@, f, i) && m == old(self).msgs@[i]
                        && final(self).msgs@ == old(self).msgs@.remove(i),
                None => none_accepted(old(self).msgs@, f) && final(self).msgs@ == old(self).msgs@,
            },
    {
        match self.peek_idx(f) {
            Some(idx) => Some(self.msgs.remove(idx)),
            None => None,
        }
    }

    /// Takes out the message at position `idx`.
    pub fn pull_ith(&mut self, idx: usize) -> (m: Message)
        requires
            idx < old(self).msgs@.len(),
        ensures
            m == old(self).msgs@[idx as int],
            m@ == old(self)@[idx as int],
            final(self).msgs@ == old(self).msgs@.remove(idx as int),
            final(self)@ == old(self)@.remove(idx as int),
    {
        let m = self.msgs.remove(idx);
        assert(self@ =~= old(self)@.remove(idx as int));
        m
    }

    /// The position of the oldest message that `f` accepts.
    pub fn peek_idx<F>(&self, f: F) -> (result: Option<usize>) where F: Fn(&Message) -> bool
        requires
            forall|i: int|
                0 <= i < self.msgs@.len() ==> call_requires(f, (&#[trigger] self.msgs@[i],)),
        ensures
            match result {
                Some(idx) => first_accepted(self.msgs@, f, idx as int),
                None => none_accepted(self.msgs@, f),
            },
    {
        let mut idx: usize = 0;
        while idx < self.msgs.len()
            invariant
                idx <= self.msgs@.len(),
                forall|i: int|
                    0 <= i < self.msgs@.len() ==> call_requires(f, (&#[trigger] self.msgs@[i],)),
                forall|j: int|
                    0 <= j < idx ==> call_ensures(f, (&#[trigger] self.msgs@[j],), false),
            decreases self.msgs@.len() - idx,
        {
            if f(&self.msgs[idx]) {
                return Some(idx);
            }
            idx = idx + 1;
        }
        None
    }

    /// Loses one message, picked at random. An empty network stays empty.
    pub fn lose_package(&mut self)
        ensures
            old(self).msgs@.len() == 0 ==> final(self).msgs@ == old(self).msgs@,
            old(self).msgs@.len() > 0 ==> exists|i: int|
                0 <= i < old(self).msgs@.len() && final(self).msgs@ == #[trigger] old(
                    self,
                ).msgs@.remove(i),
    {
        let draw = random_usize();
        self.lose_drawn(draw);
    }

    /// Loses the message that the number `draw` selects, if any is in flight.
    pub fn lose_drawn(&mut self, draw: usize)
        ensures
            old(self).msgs@.len() == 0 ==> final(self).msgs@ == old(self).msgs@,
            old(self).msgs@.len() > 0 ==> final(self).msgs@ == old(self).msgs@.remove(
                draw as int % old(self).msgs@.len() as int,
            ),
    {
        if self.msgs.is_empty() {
            return ;
        }
        let idx: usize = draw % self.msgs.len();
        self.msgs.remove(idx);
    }
}

} // verus!
