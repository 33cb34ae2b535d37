//! Small operations on vectors of integers.

use vstd::prelude::*;

verus! {

/// The numbers stand in ascending order.
pub open spec fn ascending(s: Seq<i32>) -> bool {
    forall|i: int, j: int| 0 <= i <= j < s.len() ==> s[i] <= s[j]
}

/// `n` copies of `x`.
pub open spec fn repeated(n: nat, x: i32) -> Seq<i32> {
    Seq::new(n, |i: int| x)
}

/// Overwrites every element with `x`.
pub fn fill(v: &mut Vec<i32>, x: i32)
    ensures
        final(v)@ == repeated(old(v)@.len(), x),
{
    let len = v.len();
    let mut i: usize = 0;
    while i < len
        invariant
            i <= len,
            v@.len() == len,
            len == old(v)@.len(),
            forall|j: int| 0 <= j < i ==> v@[j] == x,
        decreases len - i,
    {
        v.set(i, x);
        i = i + 1;
    }
    assert(v@ =~= repeated(old(v)@.len(), x));
}

/// The position of the first element equal to `x`.
pub fn position(v: &Vec<i32>, x: i32) -> (result: Option<usize>)
    ensures
        match result {
            Some(i) => i < v@.len() && v@[i as int] == x && i as int == v@.index_of_first(x).unwrap()
                && v@.contains(x),
            None => !v@.contains(x),
        },
{
    let mut i: usize = 0;
    while i < v.len()
        invariant
            i <= v@.len(),
            forall|j: int| 0 <= j < i ==> v@[j] != x,
        decreases v@.len() - i,
    {
        if v[i] == x {
            proof {
                v@.index_of_first_ensures(x);
            }
            return Some(i);
        }
        i = i + 1;
    }
    None
}

/// Whether `x` occurs in `v`.
pub fn contains(v: &Vec<i32>, x: i32) -> (found: bool)
    ensures
        found == v@.contains(x),
{
    position(v, x).is_some()
}

/// Sorts the numbers in ascending order.
pub fn sort(v: &mut Vec<i32>)
    ensures
        ascending(final(v)@),
        final(v)@.to_multiset() == old(v)@.to_multiset(),
{
    let len = v.len();
    let mut sorted: Vec<i32> = Vec::new();
    assert(sorted@ =~= v@.take(0));
    let mut i: usize = 0;
    while i < len
        invariant
            i <= len,
            len == v@.len(),
            v@ == old(v)@,
            ascending(sorted@),
            sorted@.len() == i,
            sorted@.to_multiset() == v@.take(i as int).to_multiset(),
        decreases len - i,
    {
        let x: i32 = v[i];
        let mut at: usize = i;
        while at > 0 && sorted[at - 1] > x
            invariant
                at <= i,
                sorted@.len() == i,
                ascending(sorted@),
                forall|j: int| at <= j < i ==> sorted@[j] > x,
            decreases at,
        {
            at = at - 1;
        }
        let ghost before = sorted@;
        sorted.insert(at, x);
        proof {
            lemma_insert_multiset(before, at as int, x);
            v@.take(i as int).to_multiset_ensures();
            assert(v@.take(i + 1) =~= v@.take(i as int).push(x));
            assert forall|a: int, b: int| 0 <= a <= b < sorted@.len() implies sorted@[a] <= sorted@[b] by {
                let da = if a < at { a } else { a - 1 };
                let db = if b < at { b } else { b - 1 };
                if a != at && b != at {
                    assert(before[da] <= before[db]);
                }
            }
        }
        i = i + 1;
    }
    proof {
        assert(v@.take(len as int) =~= v@);
    }
    *v = sorted;
}

/// Inserting an element anywhere adds it to the multiset.
proof fn lemma_insert_multiset(s: Seq<i32>, at: int, x: i32)
    requires
        0 <= at <= s.len(),
    ensures
        s.insert(at, x).to_multiset() =~= s.to_multiset().insert(x),
{
    let front = s.take(at);
    let back = s.skip(at);
    assert(s =~= front + back);
    assert(s.insert(at, x) =~= front.push(x) + back);
    vstd::seq_lib::lemma_multiset_commutative(front, back);
    vstd::seq_lib::lemma_multiset_commutative(front.push(x), back);
    front.to_multiset_ensures();
}

} // verus!
