//! An ordered set of bounded-range integers: a van Emde Boas tree.
//!
//! The structure keeps a set of integers drawn from a fixed universe
//! `[0, 2^BITS)` and answers membership, successor, predecessor, minimum
//! and maximum queries in `O(log log U)` time, where `U` is the universe
//! size.  A tree of `b` bits is composed of an `upper` set over cluster
//! indices and one `lower` set per cluster, each of roughly `b / 2` bits,
//! with the minimum and maximum of the whole node cached outside the
//! recursive substructure.  Small universes are kept directly as the bits
//! of a machine word.
//!
//! Every operation carries a contract stated over the mathematical set of
//! values held, and the implementation is verified against those contracts.
use vstd::prelude::*;

mod dyn_capacity;
mod order;
mod outer;
mod small_set;

pub use dyn_capacity::{new_with_bits, new_with_capacity, MIN_BITS};
pub use order::{
    is_maximum, is_minimum, is_predecessor, is_successor, no_predecessor, no_successor,
};
pub use outer::VEBTree;
pub use small_set::SmallSet;

verus! {

/// Largest supported bit-width of a universe: every capacity, index
/// product and cached extreme then fits a `usize` on any platform this
/// crate compiles for, and stays below the `usize::MAX` empty sentinel.
pub const MAX_BITS: usize = 30;

/// An inner ordered set of either kind: a machine-word leaf for small
/// universes, or a recursive composite node for larger ones.  This is the
/// uniform handle through which a node reaches its upper and lower sets,
/// and the handle the dynamic constructors hand out.
pub enum InnerVEBTree {
    /// Leaf: a set kept in the bits of one word.
    Small(SmallSet),
    /// Composite: a recursive van Emde Boas node.
    Outer(Box<VEBTree>),
}

impl View for InnerVEBTree {
    type V = Set<int>;

    open spec fn view(&self) -> Set<int> {
        Set::new(|y: int| self.has(y))
    }
}

impl InnerVEBTree {
    /// Bit-width of the universe `[0, 2^bits)`.
    pub closed spec fn bits(&self) -> nat
        decreases self, 1int,
    {
        match self {
            InnerVEBTree::Small(s) => s.bits(),
            InnerVEBTree::Outer(t) => t.bits(),
        }
    }

    /// Membership in the set.
    pub closed spec fn has(&self, y: int) -> bool
        decreases self, 2int,
    {
        match self {
            InnerVEBTree::Small(s) => s.has(y),
            InnerVEBTree::Outer(t) => t.has(y),
        }
    }

    /// Well-formedness of the underlying representation.
    pub closed spec fn wf(&self) -> bool
        decreases self, 3int,
    {
        match self {
            InnerVEBTree::Small(s) => s.wf(),
            InnerVEBTree::Outer(t) => t.wf(),
        }
    }

    /// Every member lies in `[0, 2^bits)`.
    pub proof fn lemma_member_range(&self, y: int)
        requires
            self.wf(),
            self@.contains(y),
        ensures
            0 <= y < vstd::arithmetic::power2::pow2(self.bits()),
    {
        match self {
            InnerVEBTree::Small(s) => s.lemma_member_range(y),
            InnerVEBTree::Outer(t) => {
                t.lemma_wf_weak();
                t.lemma_member_range(y);
            },
        }
    }

    /// Creates an empty set over the universe `[0, 2^bits)`: a leaf for up
    /// to 6 bits, a composite node beyond that.
    pub fn new(bits: usize) -> (t: Self)
        requires
            1 <= bits <= MAX_BITS,
        ensures
            t.wf(),
            t.bits() == bits,
            t@ == Set::<int>::empty(),
        decreases bits, 1int,
    {
        if bits <= 6 {
            let t = InnerVEBTree::Small(SmallSet::new(bits));
            proof {
                assert(t@ =~= Set::<int>::empty());
            }
            t
        } else {
            let t = InnerVEBTree::Outer(Box::new(VEBTree::new(bits)));
            proof {
                assert(t@ =~= Set::<int>::empty());
            }
            t
        }
    }

    /// Number of values the universe holds, `2^bits`.
    pub fn capacity(&self) -> (c: usize)
        requires
            self.wf(),
        ensures
            c == vstd::arithmetic::power2::pow2(self.bits()),
    {
        match self {
            InnerVEBTree::Small(s) => s.capacity(),
            InnerVEBTree::Outer(t) => t.capacity(),
        }
    }

    /// True exactly when the set has no member.
    pub fn is_empty(&self) -> (r: bool)
        requires
            self.wf(),
        ensures
            r == self@.is_empty(),
    {
        let r = match self {
            InnerVEBTree::Small(s) => s.is_empty(),
            InnerVEBTree::Outer(t) => t.is_empty(),
        };
        proof {
            lemma_inner_view(self);
        }
        r
    }

    /// Removes every member.
    pub fn clear(&mut self)
        requires
            old(self).wf(),
        ensures
            final(self).wf(),
            final(self).bits() == old(self).bits(),
            final(self)@ == Set::<int>::empty(),
        decreases old(self).bits(), 2int,
    {
        match self {
            InnerVEBTree::Small(s) => {
                s.clear();
            },
            InnerVEBTree::Outer(t) => {
                t.clear();
            },
        }
        proof {
            assert(self@ =~= Set::<int>::empty());
        }
    }

    /// Membership test for `x`.
    pub fn contains(&self, x: usize) -> (r: bool)
        requires
            self.wf(),
            (x as nat) < vstd::arithmetic::power2::pow2(self.bits()),
        ensures
            r == self@.contains(x as int),
        decreases self.bits(), 2int,
    {
        let r = match self {
            InnerVEBTree::Small(s) => s.contains(x),
            InnerVEBTree::Outer(t) => t.contains(x),
        };
        proof {
            lemma_inner_view(self);
        }
        r
    }

    /// Adds `x`; returns true exactly when `x` was absent.
    pub fn insert(&mut self, x: usize) -> (r: bool)
        requires
            old(self).wf(),
            (x as nat) < vstd::arithmetic::power2::pow2(old(self).bits()),
        ensures
            final(self).wf(),
            final(self).bits() == old(self).bits(),
            final(self)@ == old(self)@.insert(x as int),
            r == !old(self)@.contains(x as int),
        decreases old(self).bits(), 2int,
    {
        match self {
            InnerVEBTree::Small(s) => {
                let r = s.insert(x);
                proof {
                    assert(self@ =~= old(self)@.insert(x as int)) by {
                        assert forall|y: int| self@.contains(y) == old(self)@.insert(
                            x as int,
                        ).contains(y) by {
                            assert(self@.contains(y) == self.has(y));
                            assert(old(self)@.contains(y) == old(self).has(y));
                            assert(s@.contains(y) == s.has(y));
                            assert((old(self)->Small_0)@.contains(y) == (old(self)->Small_0).has(y));
                            if y == x as int {
                                assert(s@.contains(y));
                            } else {
                                assert(old(self)@.insert(x as int).contains(y) == old(
                                    self,
                                )@.contains(y));
                                assert(s@.contains(y) == (old(self)->Small_0)@.contains(y));
                            }
                        }
                    }
                }
                r
            },
            InnerVEBTree::Outer(t) => {
                let r = t.insert(x);
                proof {
                    assert(self@ =~= old(self)@.insert(x as int)) by {
                        assert forall|y: int| self@.contains(y) == old(self)@.insert(
                            x as int,
                        ).contains(y) by {
                            assert(self@.contains(y) == self.has(y));
                            assert(old(self)@.contains(y) == old(self).has(y));
                            assert(t@.contains(y) == t.has(y));
                            assert((old(self)->Outer_0)@.contains(y) == (old(self)->Outer_0).has(y));
                            if y == x as int {
                                assert(t@.contains(y));
                            } else {
                                assert(old(self)@.insert(x as int).contains(y) == old(
                                    self,
                                )@.contains(y));
                                assert(t@.contains(y) == (old(self)->Outer_0)@.contains(y));
                            }
                        }
                    }
                }
                r
            },
        }
    }

    /// Removes `x`; returns true exactly when `x` was present.
    pub fn remove(&mut self, x: usize) -> (r: bool)
        requires
            old(self).wf(),
            (x as nat) < vstd::arithmetic::power2::pow2(old(self).bits()),
        ensures
            final(self).wf(),
            final(self).bits() == old(self).bits(),
            final(self)@ == old(self)@.remove(x as int),
            r == old(self)@.contains(x as int),
        decreases old(self).bits(), 4int,
    {
        match self {
            InnerVEBTree::Small(s) => {
                let r = s.remove(x);
                proof {
                    assert(self@ =~= old(self)@.remove(x as int)) by {
                        assert forall|y: int| self@.contains(y) == old(self)@.remove(
                            x as int,
                        ).contains(y) by {
                            assert(self@.contains(y) == self.has(y));
                            assert(old(self)@.contains(y) == old(self).has(y));
                            assert(s@.contains(y) == s.has(y));
                            assert((old(self)->Small_0)@.contains(y) == (old(self)->Small_0).has(
                                y,
                            ));
                            if y == x as int {
                                assert(!s@.contains(y));
                            } else {
                                assert(old(self)@.remove(x as int).contains(y) == old(
                                    self,
                                )@.contains(y));
                                assert(s@.contains(y) == (old(self)->Small_0)@.contains(y));
                            }
                        }
                    }
                }
                r
            },
            InnerVEBTree::Outer(t) => {
                let r = t.remove(x);
                proof {
                    assert(self@ =~= old(self)@.remove(x as int)) by {
                        assert forall|y: int| self@.contains(y) == old(self)@.remove(
                            x as int,
                        ).contains(y) by {
                            assert(self@.contains(y) == self.has(y));
                            assert(old(self)@.contains(y) == old(self).has(y));
                            assert(t@.contains(y) == t.has(y));
                            assert((old(self)->Outer_0)@.contains(y) == (old(self)->Outer_0).has(
                                y,
                            ));
                            if y == x as int {
                                assert(!t@.contains(y));
                            } else {
                                assert(old(self)@.remove(x as int).contains(y) == old(
                                    self,
                                )@.contains(y));
                                assert(t@.contains(y) == (old(self)->Outer_0)@.contains(y));
                            }
                        }
                    }
                }
                r
            },
        }
    }

    /// The smallest member that is at least `x`, if any.
    pub fn next(&self, x: usize) -> (r: Option<usize>)
        requires
            self.wf(),
            (x as nat) < vstd::arithmetic::power2::pow2(self.bits()),
        ensures
            match r {
                Some(v) => is_successor(self@, x as int, v as int) && (v as nat)
                    < vstd::arithmetic::power2::pow2(self.bits()),
                None => no_successor(self@, x as int),
            },
        decreases self.bits(), 2int,
    {
        let r = match self {
            InnerVEBTree::Small(s) => s.next(x),
            InnerVEBTree::Outer(t) => t.next(x),
        };
        proof {
            lemma_inner_view(self);
        }
        r
    }

    /// The largest member that is at most `x`, if any.
    pub fn prev(&self, x: usize) -> (r: Option<usize>)
        requires
            self.wf(),
            (x as nat) < vstd::arithmetic::power2::pow2(self.bits()),
        ensures
            match r {
                Some(v) => is_predecessor(self@, x as int, v as int) && (v as nat)
                    < vstd::arithmetic::power2::pow2(self.bits()),
                None => no_predecessor(self@, x as int),
            },
        decreases self.bits(), 3int,
    {
        let r = match self {
            InnerVEBTree::Small(s) => s.prev(x),
            InnerVEBTree::Outer(t) => t.prev(x),
        };
        proof {
            lemma_inner_view(self);
        }
        r
    }

    /// The least member, if any.
    pub fn first(&self) -> (r: Option<usize>)
        requires
            self.wf(),
        ensures
            match r {
                Some(v) => is_minimum(self@, v as int) && (v as nat)
                    < vstd::arithmetic::power2::pow2(self.bits()),
                None => self@.is_empty(),
            },
    {
        let r = match self {
            InnerVEBTree::Small(s) => s.first(),
            InnerVEBTree::Outer(t) => t.first(),
        };
        proof {
            lemma_inner_view(self);
        }
        r
    }

    /// The greatest member, if any.
    pub fn last(&self) -> (r: Option<usize>)
        requires
            self.wf(),
        ensures
            match r {
                Some(v) => is_maximum(self@, v as int) && (v as nat)
                    < vstd::arithmetic::power2::pow2(self.bits()),
                None => self@.is_empty(),
            },
    {
        let r = match self {
            InnerVEBTree::Small(s) => s.last(),
            InnerVEBTree::Outer(t) => t.last(),
        };
        proof {
            lemma_inner_view(self);
        }
        r
    }
}

/// An ascending iterator over the values of a set: a cursor advanced by
/// repeated successor queries.
///
/// Each call of `next` returns the smallest member at or above the
/// cursor, then moves the cursor just past it, so the values come out in
/// strictly ascending order; `None` means nothing at or above the cursor
/// is left.
pub struct VEBIterator<'a> {
    /// The set being walked; the iterator never outlives or changes it.
    tree: &'a InnerVEBTree,
    /// Members below this position have already been produced.
    next_start: usize,
}

impl<'a> VEBIterator<'a> {
    /// The set the iterator walks.
    pub closed spec fn contents(&self) -> Set<int> {
        self.tree@
    }

    /// The current cursor position.
    pub closed spec fn cursor(&self) -> int {
        self.next_start as int
    }

    /// Well-formed: the set is, and the cursor never leaves the universe
    /// by more than one step.
    pub closed spec fn wf(&self) -> bool {
        &&& self.tree.wf()
        &&& self.next_start as nat <= vstd::arithmetic::power2::pow2(self.tree.bits())
    }

    /// Produces the smallest member at or above the cursor and advances
    /// the cursor just past it; `None` once nothing is left.
    pub fn next(&mut self) -> (r: Option<usize>)
        requires
            old(self).wf(),
        ensures
            final(self).wf(),
            final(self).contents() == old(self).contents(),
            match r {
                Some(v) => is_successor(old(self).contents(), old(self).cursor(), v as int)
                    && final(self).cursor() == v as int + 1,
                None => no_successor(old(self).contents(), old(self).cursor())
                    && final(self).cursor() == old(self).cursor(),
            },
    {
        if self.next_start == self.tree.capacity() {
            proof {
                assert forall|y: int| self.tree@.contains(y) implies y
                    < self.next_start as int by {
                    self.tree.lemma_member_range(y);
                }
            }
            return None;
        }
        let r = self.tree.next(self.next_start);
        match r {
            Some(v) => {
                self.next_start = v + 1;
                Some(v)
            },
            None => None,
        }
    }
}

impl InnerVEBTree {
    /// An iterator over the members, in ascending order, starting from the
    /// least.
    pub fn iter(&self) -> (it: VEBIterator)
        requires
            self.wf(),
        ensures
            it.wf(),
            it.contents() == self@,
            it.cursor() == 0,
    {
        VEBIterator { tree: self, next_start: 0 }
    }
}

/// The view of the handle is the view of whichever set it wraps.
proof fn lemma_inner_view(t: &InnerVEBTree)
    ensures
        match t {
            InnerVEBTree::Small(s) => t@ == s@,
            InnerVEBTree::Outer(v) => t@ == v@,
        },
{
    match t {
        InnerVEBTree::Small(s) => {
            assert(t@ =~= s@);
        },
        InnerVEBTree::Outer(v) => {
            assert(t@ =~= v@);
        },
    }
}

} // verus!

