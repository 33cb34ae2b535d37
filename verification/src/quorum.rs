//! Majorities.

use vstd::prelude::*;

use crate::lists::{ascending, sort};

verus! {

/// How many of the numbers are at least `x`.
pub open spec fn count_at_least(s: Seq<i32>, x: int) -> nat
    decreases s.len(),
{
    if s.len() == 0 {
        0
    } else {
        count_at_least(s.drop_last(), x) + if s.last() >= x {
            1nat
        } else {
            0nat
        }
    }
}

/// `c` is the largest number that more than half of `s` reach.
pub open spec fn reached_by_majority(s: Seq<i32>, c: i32) -> bool {
    &&& count_at_least(s, c as int) > s.len() / 2
    &&& forall|x: int| x > c ==> #[trigger] count_at_least(s, x) <= s.len() / 2
}

/// The largest number that more than half of `s` reach.
pub open spec fn majority_index(s: Seq<i32>) -> i32 {
    choose|c: i32| reached_by_majority(s, c)
}

/// At most one number is the largest that a majority reaches.
pub proof fn lemma_majority_unique(s: Seq<i32>, a: i32, b: i32)
    requires
        reached_by_majority(s, a),
        reached_by_majority(s, b),
    ensures
        a == b,
{
    if a < b {
        assert(count_at_least(s, b as int) <= s.len() / 2);
    } else if b < a {
        assert(count_at_least(s, a as int) <= s.len() / 2);
    }
}

proof fn lemma_count_remove(s: Seq<i32>, at: int, x: int)
    requires
        0 <= at < s.len(),
    ensures
        count_at_least(s, x) == count_at_least(s.remove(at), x) + if s[at] >= x {
            1nat
        } else {
            0nat
        },
    decreases s.len(),
{
    if at == s.len() - 1 {
        assert(s.remove(at) =~= s.drop_last());
    } else {
        lemma_count_remove(s.drop_last(), at, x);
        assert(s.remove(at).drop_last() =~= s.drop_last().remove(at));
        assert(s.remove(at).last() == s.last());
    }
}

/// The count does not depend on the order of the numbers.
pub proof fn lemma_count_permutation(s: Seq<i32>, t: Seq<i32>, x: int)
    requires
        s.to_multiset() == t.to_multiset(),
    ensures
        count_at_least(s, x) == count_at_least(t, x),
    decreases s.len(),
{
    s.to_multiset_ensures();
    t.to_multiset_ensures();
    if s.len() > 0 {
        let a = s.last();
        assert(s.contains(a));
        assert(s.to_multiset().count(a) > 0);
        assert(t.contains(a));
        let at = choose|at: int| 0 <= at < t.len() && t[at] == a;
        lemma_count_remove(t, at, x);
        assert(s.remove(s.len() - 1) =~= s.drop_last());
        assert(s.drop_last().to_multiset() =~= s.to_multiset().remove(a));
        assert(t.remove(at).to_multiset() =~= t.to_multiset().remove(a));
        lemma_count_permutation(s.drop_last(), t.remove(at), x);
    }
}

/// In ascending order, the numbers from position `k` on are those that reach `x`.
proof fn lemma_count_ascending(s: Seq<i32>, x: int, k: int)
    requires
        ascending(s),
        0 <= k <= s.len(),
        forall|i: int| 0 <= i < k ==> s[i] < x,
        forall|i: int| k <= i < s.len() ==> s[i] >= x,
    ensures
        count_at_least(s, x) == s.len() - k,
    decreases s.len(),
{
    if s.len() > 0 {
        let front = s.drop_last();
        if k == s.len() {
            lemma_count_ascending(front, x, k - 1);
        } else {
            lemma_count_ascending(front, x, k);
        }
    }
}

/// Raising the bar lowers the count.
proof fn lemma_count_monotone(s: Seq<i32>, x: int, y: int)
    requires
        x <= y,
    ensures
        count_at_least(s, y) <= count_at_least(s, x) <= s.len(),
    decreases s.len(),
{
    if s.len() > 0 {
        lemma_count_monotone(s.drop_last(), x, y);
    }
}

/// The largest number that more than half of `values` reach.
pub fn majority_value(values: &Vec<i32>) -> (c: i32)
    requires
        values@.len() > 0,
    ensures
        reached_by_majority(values@, c),
        c == majority_index(values@),
{
    let mut sorted: Vec<i32> = values.clone();
    assert(sorted@ =~= values@);
    sort(&mut sorted);
    proof {
        values@.to_multiset_ensures();
        sorted@.to_multiset_ensures();
    }
    let mid: usize = (sorted.len() - 1) / 2;
    let c: i32 = sorted[mid];
    proof {
        let s = sorted@;
        lemma_middle_is_majority(s);
        assert(reached_by_majority(s, c));
        assert forall|x: int| #[trigger] count_at_least(values@, x) == count_at_least(s, x) by {
            lemma_count_permutation(values@, s, x);
        }
        assert(reached_by_majority(values@, c));
        lemma_majority_unique(values@, c, majority_index(values@));
    }
    c
}

/// In ascending order, the number in the middle is the largest that a majority reaches.
pub proof fn lemma_middle_is_majority(s: Seq<i32>)
    requires
        ascending(s),
        s.len() > 0,
    ensures
        reached_by_majority(s, s[(s.len() - 1) / 2]),
{
    let n = s.len() as int;
    let mid = (n - 1) / 2;
    let c = s[mid];
    let low = lemma_split(s, c as int);
    lemma_count_ascending(s, c as int, low);
    assert(low <= mid);
    assert forall|x: int| x > c implies #[trigger] count_at_least(s, x) <= s.len() / 2 by {
        let k = lemma_split(s, x);
        lemma_count_ascending(s, x, k);
        assert(k > mid);
    }
}

/// Where an ascending sequence reaches `x`.
proof fn lemma_split(s: Seq<i32>, x: int) -> (k: int)
    requires
        ascending(s),
    ensures
        0 <= k <= s.len(),
        forall|i: int| 0 <= i < k ==> s[i] < x,
        forall|i: int| k <= i < s.len() ==> s[i] >= x,
    decreases s.len(),
{
    if s.len() == 0 {
        0
    } else if s.last() < x {
        s.len() as int
    } else {
        let k = lemma_split(s.drop_last(), x);
        assert forall|i: int| k <= i < s.len() implies s[i] >= x by {
            if i < s.len() - 1 {
                assert(s.drop_last()[i] >= x);
            }
        }
        assert forall|i: int| 0 <= i < k implies s[i] < x by {
            assert(s.drop_last()[i] < x);
        }
        k
    }
}

} // verus!
