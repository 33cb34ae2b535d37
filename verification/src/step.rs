//! The steps that the world can take, and the order in which they are listed.

use vstd::prelude::*;

use crate::message::Value;

verus! {

/// One step of the world. Crashed nodes take no step of their own but a restart,
/// and receive no messages.
#[derive(Debug, PartialEq, Eq, PartialOrd, Ord, Clone, Copy, Structural)]
pub enum WorldStep {
    // misc
    Crash { id: i32 },
    Restart { id: i32 },
    // spontaneous actions
    HeartBeatTimeout { id: i32 },
    ClientRequest { id: i32, value: Value },
    SendAppendEntries { id: i32, dest: i32 },
    SendRequestVote { id: i32, dest: i32 },
    // receive actions
    RecvRequestVoteRequest { id: i32, msg_idx: usize },
    RecvRequestVoteResponse { id: i32, msg_idx: usize },
    RecvAppendEntriesRequest { id: i32, msg_idx: usize },
    RecvAppendEntriesResponse { id: i32, msg_idx: usize },
}

impl WorldStep {
    /// The node that takes the step.
    pub open spec fn actor(self) -> i32 {
        match self {
            WorldStep::Crash { id } => id,
            WorldStep::Restart { id } => id,
            WorldStep::HeartBeatTimeout { id } => id,
            WorldStep::ClientRequest { id, .. } => id,
            WorldStep::SendAppendEntries { id, .. } => id,
            WorldStep::SendRequestVote { id, .. } => id,
            WorldStep::RecvRequestVoteRequest { id, .. } => id,
            WorldStep::RecvRequestVoteResponse { id, .. } => id,
            WorldStep::RecvAppendEntriesRequest { id, .. } => id,
            WorldStep::RecvAppendEntriesResponse { id, .. } => id,
        }
    }

    /// Where the kind of step stands among the kinds.
    pub open spec fn kind(self) -> int {
        match self {
            WorldStep::Crash { .. } => 0,
            WorldStep::Restart { .. } => 1,
            WorldStep::HeartBeatTimeout { .. } => 2,
            WorldStep::ClientRequest { .. } => 3,
            WorldStep::SendAppendEntries { .. } => 4,
            WorldStep::SendRequestVote { .. } => 5,
            WorldStep::RecvRequestVoteRequest { .. } => 6,
            WorldStep::RecvRequestVoteResponse { .. } => 7,
            WorldStep::RecvAppendEntriesRequest { .. } => 8,
            WorldStep::RecvAppendEntriesResponse { .. } => 9,
        }
    }

    /// What the step names besides the node: a value, a destination or a message.
    pub open spec fn detail(self) -> int {
        match self {
            WorldStep::Crash { .. } => 0,
            WorldStep::Restart { .. } => 0,
            WorldStep::HeartBeatTimeout { .. } => 0,
            WorldStep::ClientRequest { value, .. } => value as int,
            WorldStep::SendAppendEntries { dest, .. } => dest as int,
            WorldStep::SendRequestVote { dest, .. } => dest as int,
            WorldStep::RecvRequestVoteRequest { msg_idx, .. } => msg_idx as int,
            WorldStep::RecvRequestVoteResponse { msg_idx, .. } => msg_idx as int,
            WorldStep::RecvAppendEntriesRequest { msg_idx, .. } => msg_idx as int,
            WorldStep::RecvAppendEntriesResponse { msg_idx, .. } => msg_idx as int,
        }
    }

    /// The step is a message's arrival.
    pub open spec fn is_receive(self) -> bool {
        self.kind() >= 6
    }

    /// Steps are listed by kind, then by node, then by the detail.
    pub open spec fn precedes(self, other: WorldStep) -> bool {
        ||| self.kind() < other.kind()
        ||| self.kind() == other.kind() && self.actor() < other.actor()
        ||| self.kind() == other.kind() && self.actor() == other.actor() && self.detail()
            < other.detail()
    }

    /// Kind, node and detail of the step.
    fn key(&self) -> (k: (u8, i32, i128))
        ensures
            k.0 == self.kind(),
            k.1 == self.actor(),
            k.2 == self.detail(),
    {
        match *self {
            WorldStep::Crash { id } => (0, id, 0),
            WorldStep::Restart { id } => (1, id, 0),
            WorldStep::HeartBeatTimeout { id } => (2, id, 0),
            WorldStep::ClientRequest { id, value } => (3, id, value as i128),
            WorldStep::SendAppendEntries { id, dest } => (4, id, dest as i128),
            WorldStep::SendRequestVote { id, dest } => (5, id, dest as i128),
            WorldStep::RecvRequestVoteRequest { id, msg_idx } => (6, id, msg_idx as i128),
            WorldStep::RecvRequestVoteResponse { id, msg_idx } => (7, id, msg_idx as i128),
            WorldStep::RecvAppendEntriesRequest { id, msg_idx } => (8, id, msg_idx as i128),
            WorldStep::RecvAppendEntriesResponse { id, msg_idx } => (9, id, msg_idx as i128),
        }
    }

    /// Whether the step is listed before `other`.
    pub fn comes_before(&self, other: &WorldStep) -> (b: bool)
        ensures
            b == self.precedes(*other),
    {
        let a = self.key();
        let b = other.key();
        a.0 < b.0 || (a.0 == b.0 && (a.1 < b.1 || (a.1 == b.1 && a.2 < b.2)))
    }
}

/// Every step is listed before all steps that follow it.
pub open spec fn listed(steps: Seq<WorldStep>) -> bool {
    forall|i: int, j: int|
        0 <= i < j < steps.len() ==> (#[trigger] steps[i]).precedes(#[trigger] steps[j])
}

/// Of two different steps one is listed before the other.
pub proof fn lemma_order_total(a: WorldStep, b: WorldStep)
    ensures
        a == b || a.precedes(b) || b.precedes(a),
        !(a.precedes(b) && b.precedes(a)),
        !a.precedes(a),
{
}

/// The list of a set of steps is unique: two lists in order that hold the same steps
/// are the same list.
pub proof fn list_is_unique(a: Seq<WorldStep>, b: Seq<WorldStep>)
    requires
        listed(a),
        listed(b),
        forall|s: WorldStep| a.contains(s) <==> b.contains(s),
    ensures
        a == b,
    decreases a.len(),
{
    if a.len() == 0 {
        if b.len() > 0 {
            assert(b.contains(b[0]));
        }
        assert(a =~= b);
    } else {
        let last = a.last();
        assert(a.contains(last));
        assert(b.contains(last));
        assert(b.contains(b.last()));
        assert(a.contains(b.last()));
        let i = choose|i: int| 0 <= i < b.len() && b[i] == last;
        let j = choose|j: int| 0 <= j < a.len() && a[j] == b.last();
        if i < b.len() - 1 {
            assert(b[i].precedes(b[b.len() - 1]));
            if j < a.len() - 1 {
                assert(a[j].precedes(a[a.len() - 1]));
            }
            lemma_order_total(last, b.last());
        }
        assert(b.last() == last);
        let fa = a.drop_last();
        let fb = b.drop_last();
        assert forall|s: WorldStep| fa.contains(s) <==> fb.contains(s) by {
            if fa.contains(s) {
                let k = choose|k: int| 0 <= k < fa.len() && fa[k] == s;
                assert(a[k].precedes(a[a.len() - 1]));
                assert(a.contains(s));
                let m = choose|m: int| 0 <= m < b.len() && b[m] == s;
                assert(m < b.len() - 1);
                assert(fb[m] == s);
            }
            if fb.contains(s) {
                let k = choose|k: int| 0 <= k < fb.len() && fb[k] == s;
                assert(b[k].precedes(b[b.len() - 1]));
                assert(b.contains(s));
                let m = choose|m: int| 0 <= m < a.len() && a[m] == s;
                assert(m < a.len() - 1);
                assert(fa[m] == s);
            }
        }
        list_is_unique(fa, fb);
        assert(a =~= fa.push(last));
        assert(b =~= fb.push(last));
    }
}

/// The position of the first step equal to `step`.
pub fn position_of(steps: &Vec<WorldStep>, step: WorldStep) -> (result: Option<usize>)
    ensures
        match result {
            Some(k) => k < steps@.len() && steps@.index_of_first(step) == Some(k as int),
            None => steps@.index_of_first(step) == None::<int>,
        },
{
    proof {
        steps@.index_of_first_ensures(step);
    }
    let mut k: usize = 0;
    while k < steps.len()
        invariant
            k <= steps@.len(),
            forall|j: int| 0 <= j < k ==> steps@[j] != step,
        decreases steps@.len() - k,
    {
        if steps[k] == step {
            proof {
                steps@.index_of_first_ensures(step);
            }
            return Some(k);
        }
        k = k + 1;
    }
    None
}

/// Puts steps, none of which occurs twice, in the order in which they are listed.
pub fn sort_steps(steps: &Vec<WorldStep>) -> (sorted: Vec<WorldStep>)
    requires
        steps@.no_duplicates(),
    ensures
        listed(sorted@),
        forall|s: WorldStep| sorted@.contains(s) <==> steps@.contains(s),
{
    let mut sorted: Vec<WorldStep> = Vec::new();
    let mut i: usize = 0;
    while i < steps.len()
        invariant
            i <= steps@.len(),
            steps@.no_duplicates(),
            sorted@.len() == i,
            listed(sorted@),
            forall|s: WorldStep| sorted@.contains(s) <==> steps@.take(i as int).contains(s),
        decreases steps@.len() - i,
    {
        let x: WorldStep = steps[i];
        proof {
            assert(!sorted@.contains(x)) by {
                if sorted@.contains(x) {
                    let k = choose|k: int| 0 <= k < i && steps@.take(i as int)[k] == x;
                    assert(steps@[k] == steps@[i as int]);
                }
            }
        }
        let mut at: usize = i;
        while at > 0 && x.comes_before(&sorted[at - 1])
            invariant
                at <= i,
                sorted@.len() == i,
                listed(sorted@),
                forall|j: int| at <= j < i ==> x.precedes(#[trigger] sorted@[j]),
            decreases at,
        {
            at = at - 1;
        }
        let ghost before = sorted@;
        proof {
            assert forall|j: int| 0 <= j < at implies (#[trigger] before[j]).precedes(x) by {
                assert(before.contains(before[at - 1]));
                lemma_order_total(before[at - 1], x);
                if j < at - 1 {
                    assert(before[j].precedes(before[at - 1]));
                }
            }
        }
        sorted.insert(at, x);
        proof {
            lemma_insert_listed(before, at as int, x);
            assert(steps@.take(i + 1) =~= steps@.take(i as int).push(x));
            lemma_push_contains(steps@.take(i as int), x);
            assert forall|s: WorldStep| sorted@.contains(s) <==> steps@.take(i + 1).contains(s) by {
                assert(before.contains(s) <==> steps@.take(i as int).contains(s));
                assert(steps@.take(i as int).push(x).contains(s) <==> steps@.take(i as int).contains(s)
                    || s == x);
            }
        }
        i = i + 1;
    }
    assert(steps@.take(i as int) =~= steps@);
    sorted
}

proof fn lemma_insert_listed(s: Seq<WorldStep>, at: int, x: WorldStep)
    requires
        0 <= at <= s.len(),
        listed(s),
        forall|j: int| 0 <= j < at ==> (#[trigger] s[j]).precedes(x),
        forall|j: int| at <= j < s.len() ==> x.precedes(#[trigger] s[j]),
    ensures
        listed(s.insert(at, x)),
        forall|y: WorldStep| s.insert(at, x).contains(y) <==> s.contains(y) || y == x,
{
    let t = s.insert(at, x);
    assert(forall|j: int| 0 <= j < at ==> t[j] == s[j]);
    assert(t[at] == x);
    assert(forall|j: int| at < j < t.len() ==> t[j] == s[j - 1]);
    assert forall|i: int, j: int| 0 <= i < j < t.len() implies (#[trigger] t[i]).precedes(
        #[trigger] t[j],
    ) by {
        let di = if i < at {
            i
        } else {
            i - 1
        };
        let dj = if j < at {
            j
        } else {
            j - 1
        };
        if i != at && j != at {
            assert(s[di].precedes(s[dj]));
        } else if i == at {
            assert(x.precedes(s[dj]));
        } else {
            assert(s[di].precedes(x));
        }
    }
    assert forall|y: WorldStep| t.contains(y) <==> s.contains(y) || y == x by {
        if t.contains(y) {
            let k = choose|k: int| 0 <= k < t.len() && t[k] == y;
            if k < at {
                assert(s[k] == y);
            } else if k > at {
                assert(s[k - 1] == y);
            }
        }
        if s.contains(y) {
            let k = choose|k: int| 0 <= k < s.len() && s[k] == y;
            if k < at {
                assert(t[k] == y);
            } else {
                assert(t[k + 1] == y);
            }
        }
        if y == x {
            assert(t[at] == y);
        }
    }
}

/// What a list contains after one more step was added.
pub proof fn lemma_push_contains(s: Seq<WorldStep>, x: WorldStep)
    ensures
        forall|y: WorldStep| #[trigger] s.push(x).contains(y) <==> s.contains(y) || y == x,
        !s.contains(x) && s.no_duplicates() ==> s.push(x).no_duplicates(),
{
    let t = s.push(x);
    assert forall|y: WorldStep| #[trigger] t.contains(y) <==> s.contains(y) || y == x by {
        if s.contains(y) {
            let k = choose|k: int| 0 <= k < s.len() && s[k] == y;
            assert(t[k] == y);
        }
        if y == x {
            assert(t[s.len() as int] == y);
        }
        if t.contains(y) {
            let k = choose|k: int| 0 <= k < t.len() && t[k] == y;
            if k < s.len() {
                assert(s[k] == y);
            }
        }
    }
}

} // verus!
