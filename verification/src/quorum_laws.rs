//! What majorities and orders of numbers are, stated over sets of positions.

use vstd::prelude::*;

use crate::lists::{ascending, repeated};
use crate::quorum::{
    count_at_least, lemma_count_permutation, lemma_majority_unique, lemma_middle_is_majority,
    majority_index, reached_by_majority,
};

verus! {

/// The positions that hold at least `x`.
pub open spec fn positions_at_least(s: Seq<i32>, x: int) -> Set<int> {
    Set::new(|i: int| 0 <= i < s.len() && s[i] >= x)
}

/// The count is the number of positions that hold at least `x`.
pub proof fn count_is_cardinality(s: Seq<i32>, x: int)
    ensures
        positions_at_least(s, x).finite(),
        positions_at_least(s, x).len() == count_at_least(s, x),
        count_at_least(s, x) <= s.len(),
    decreases s.len(),
{
    let set = positions_at_least(s, x);
    if s.len() == 0 {
        assert(set =~= Set::<int>::empty());
    } else {
        let front = s.drop_last();
        count_is_cardinality(front, x);
        let before = positions_at_least(front, x);
        if s.last() >= x {
            assert(set =~= before.insert(s.len() - 1));
            assert(!before.contains(s.len() - 1));
        } else {
            assert(set =~= before);
        }
    }
}

/// Numbers that are not empty have a largest one that a majority reaches, and it is one of
/// them: more than half of the positions hold at least it, and no more than half hold at
/// least any larger number.
pub proof fn a_majority_value_exists(s: Seq<i32>)
    requires
        s.len() > 0,
    ensures
        reached_by_majority(s, majority_index(s)),
        s.contains(majority_index(s)),
        positions_at_least(s, majority_index(s) as int).len() * 2 > s.len(),
        forall|x: int|
            x > majority_index(s) ==> (#[trigger] positions_at_least(s, x)).len() * 2 <= s.len(),
{
    let order = |a: i32, b: i32| a <= b;
    let t = s.sort_by(order);
    s.lemma_sort_by_ensures(order);
    s.to_multiset_ensures();
    t.to_multiset_ensures();
    assert(t.len() == s.len());
    assert(ascending(t)) by {
        assert forall|i: int, j: int| 0 <= i <= j < t.len() implies t[i] <= t[j] by {
            assert(order(t[i], t[j]));
        }
    }
    let c = t[(t.len() - 1) / 2];
    lemma_middle_is_majority(t);
    assert forall|x: int| #[trigger] count_at_least(s, x) == count_at_least(t, x) by {
        lemma_count_permutation(s, t, x);
    }
    assert(reached_by_majority(s, c));
    lemma_majority_unique(s, c, majority_index(s));
    assert(t.contains(c));
    assert(t.to_multiset().count(c) > 0);
    assert(s.contains(c));
    count_is_cardinality(s, c as int);
    assert forall|x: int| x > c implies (#[trigger] positions_at_least(s, x)).len() * 2
        <= s.len() by {
        count_is_cardinality(s, x);
        assert(count_at_least(s, x) <= s.len() / 2);
    }
}

/// Being the largest number that a majority reaches is a matter of positions: more than half
/// hold at least it, and at most half hold at least any larger number.
pub proof fn majorities_are_more_than_half(s: Seq<i32>, c: i32)
    ensures
        reached_by_majority(s, c) <==> (positions_at_least(s, c as int).len() * 2 > s.len()
            && forall|x: int|
            x > c ==> (#[trigger] positions_at_least(s, x)).len() * 2 <= s.len()),
{
    count_is_cardinality(s, c as int);
    if reached_by_majority(s, c) {
        assert forall|x: int| x > c implies (#[trigger] positions_at_least(s, x)).len() * 2
            <= s.len() by {
            count_is_cardinality(s, x);
            assert(count_at_least(s, x) <= s.len() / 2);
        }
    }
    if positions_at_least(s, c as int).len() * 2 > s.len() && forall|x: int|
        x > c ==> (#[trigger] positions_at_least(s, x)).len() * 2 <= s.len() {
        assert forall|x: int| x > c implies #[trigger] count_at_least(s, x) <= s.len() / 2 by {
            count_is_cardinality(s, x);
            assert(positions_at_least(s, x).len() * 2 <= s.len());
        }
    }
}

/// In ascending numbers none is followed by a smaller one.
pub proof fn ascending_numbers_do_not_fall(s: Seq<i32>)
    ensures
        ascending(s) <==> !(exists|i: int, j: int|
            0 <= i < j < s.len() && #[trigger] s[i] > #[trigger] s[j]),
{
}

/// Repetition holds one number at every position.
pub proof fn repetitions_hold_one_number(n: nat, x: i32)
    ensures
        repeated(n, x).len() == n,
        forall|i: int| 0 <= i < n ==> #[trigger] repeated(n, x)[i] == x,
{
}

} // verus!
