//! Predicates describing the answers of the ordered-set queries, and the
//! laws that successor chains obey.
//!
//! Every query contract in this crate is phrased with these predicates over
//! the abstract set of values a structure holds, so that `next`, `prev`,
//! `first` and `last` mean the same thing at every level of the tree.
use vstd::prelude::*;

verus! {

/// `v` is the smallest element of `s` that is at least `x`.
pub open spec fn is_successor(s: Set<int>, x: int, v: int) -> bool {
    &&& s.contains(v)
    &&& x <= v
    &&& forall|y: int| s.contains(y) && x <= y ==> v <= y
}

/// No element of `s` is at least `x`.
pub open spec fn no_successor(s: Set<int>, x: int) -> bool {
    forall|y: int| s.contains(y) ==> y < x
}

/// `v` is the largest element of `s` that is at most `x`.
pub open spec fn is_predecessor(s: Set<int>, x: int, v: int) -> bool {
    &&& s.contains(v)
    &&& v <= x
    &&& forall|y: int| s.contains(y) && y <= x ==> y <= v
}

/// No element of `s` is at most `x`.
pub open spec fn no_predecessor(s: Set<int>, x: int) -> bool {
    forall|y: int| s.contains(y) ==> y > x
}

/// `v` is the least element of `s`.
pub open spec fn is_minimum(s: Set<int>, v: int) -> bool {
    &&& s.contains(v)
    &&& forall|y: int| s.contains(y) ==> v <= y
}

/// `v` is the greatest element of `s`.
pub open spec fn is_maximum(s: Set<int>, v: int) -> bool {
    &&& s.contains(v)
    &&& forall|y: int| s.contains(y) ==> y <= v
}

/// Inserting a value makes it a member; removing it afterwards takes it
/// back out, so membership after the pair of updates is what it was for
/// every other value and false for the value itself.
pub proof fn lemma_insert_then_remove(s: Set<int>, x: int)
    ensures
        s.insert(x).contains(x),
        !s.insert(x).remove(x).contains(x),
        forall|y: int| y != x ==> s.insert(x).remove(x).contains(y) == s.contains(y),
{
}

/// A chain of successor queries, each restarted just past the previous
/// answer, is strictly ascending: an answer found at or above `x` and a
/// later answer found just past it can only grow.
pub proof fn lemma_successor_chain(s: Set<int>, x: int, v: int, w: int)
    requires
        is_successor(s, x, v),
        is_successor(s, v + 1, w),
    ensures
        v < w,
{
}

/// The position a successor chain restarts from after its first `i`
/// entries: 0 at the start, otherwise one past the previous answer.
pub open spec fn chain_start(q: Seq<int>, i: int) -> int {
    if i == 0 {
        0
    } else {
        q[i - 1] + 1
    }
}

/// `q` is a maximal successor chain over `s` starting at 0: entry `i` is
/// the smallest member at or past the previous entry plus one, and no
/// member lies past the last entry.
pub open spec fn is_enumeration(s: Set<int>, q: Seq<int>) -> bool {
    &&& forall|i: int| 0 <= i < q.len() ==> is_successor(s, #[trigger] chain_start(q, i), q[i])
    &&& no_successor(s, chain_start(q, q.len() as int))
}

/// Within an enumeration, each later entry is strictly larger.
proof fn lemma_enumeration_mono(s: Set<int>, q: Seq<int>, i: int, j: int)
    requires
        is_enumeration(s, q),
        0 <= i < j < q.len(),
    ensures
        q[i] < q[j],
    decreases j - i,
{
    assert(is_successor(s, chain_start(q, j), q[j]));
    if i + 1 < j {
        lemma_enumeration_mono(s, q, i, j - 1);
    }
}

/// Every member past the chain's position `i` appears at or after `i`.
proof fn lemma_enumeration_covers(s: Set<int>, q: Seq<int>, y: int, i: int)
    requires
        is_enumeration(s, q),
        s.contains(y),
        0 <= i <= q.len(),
        chain_start(q, i) <= y,
    ensures
        exists|j: int| i <= j < q.len() && q[j] == y,
    decreases q.len() - i,
{
    if i == q.len() {
        assert(false);
    } else {
        assert(is_successor(s, chain_start(q, i), q[i]));
        if q[i] == y {
            assert(i <= i < q.len() && q[i] == y);
        } else {
            assert(chain_start(q, i + 1) <= y);
            lemma_enumeration_covers(s, q, y, i + 1);
        }
    }
}

/// Iterating a set from the start yields the strictly ascending sequence
/// of exactly its members: any maximal chain of successor queries from 0
/// is sorted strictly upward and visits every member once.
pub proof fn lemma_enumeration(s: Set<int>, q: Seq<int>)
    requires
        forall|y: int| s.contains(y) ==> 0 <= y,
        is_enumeration(s, q),
    ensures
        forall|i: int, j: int| #![trigger q[i], q[j]] 0 <= i < j < q.len() ==> q[i] < q[j],
        forall|y: int| s.contains(y) <==> q.contains(y),
{
    assert forall|i: int, j: int| #![trigger q[i], q[j]] 0 <= i < j < q.len() implies q[i]
        < q[j] by {
        lemma_enumeration_mono(s, q, i, j);
    }
    assert forall|y: int| s.contains(y) <==> q.contains(y) by {
        if s.contains(y) {
            lemma_enumeration_covers(s, q, y, 0);
            let j = choose|j: int| 0 <= j < q.len() && q[j] == y;
            assert(q[j] == y);
            assert(q.contains(y));
        }
        if q.contains(y) {
            let j = choose|j: int| 0 <= j < q.len() && q[j] == y;
            assert(is_successor(s, chain_start(q, j), q[j]));
        }
    }
}

} // verus!
