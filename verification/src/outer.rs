//! The recursive composite node of the van Emde Boas tree.
//!
//! A node over `b = ub + lb` bits splits each value `x` into a cluster
//! index `x / 2^lb` and a remainder `x % 2^lb`.  An `upper` inner set over
//! `ub` bits records which of the `2^ub` clusters are occupied, and
//! `lower[u]` holds the remainders of the members of cluster `u`.  The
//! minimum and maximum of the whole node are cached in fields; the cached
//! minimum is *not* stored in any cluster, which bounds the recursive work
//! of every update to one level, while the cached maximum is.  An empty
//! node is marked by `min == usize::MAX`, a sentinel no member can reach
//! because capacities stay below it.
use crate::order::{
    is_maximum, is_minimum, is_predecessor, is_successor, no_predecessor, no_successor,
};
use crate::InnerVEBTree;
use crate::MAX_BITS;
use vstd::arithmetic::div_mod::{
    lemma_div_is_ordered, lemma_div_pos_is_pos, lemma_fundamental_div_mod,
    lemma_fundamental_div_mod_converse, lemma_mod_division_less_than_divisor,
};
use vstd::arithmetic::mul::{
    lemma_mul_inequality, lemma_mul_is_commutative, lemma_mul_is_distributive_add,
};
use vstd::arithmetic::power2::{
    lemma2_to64, lemma_pow2_adds, lemma_pow2_pos, lemma_pow2_strictly_increases, pow2,
};
use vstd::prelude::*;

verus! {

/// A van Emde Boas tree node: an upper index set, one lower set per
/// cluster, and the cached extremes of the whole node.
pub struct VEBTree {
    /// Inner set over cluster indices; `u` is a member exactly when
    /// cluster `u` holds at least one remainder.
    upper: InnerVEBTree,
    /// One inner set of `low_bits` bits per cluster.
    lower: Vec<InnerVEBTree>,
    /// Least member, or `usize::MAX` when the node is empty.  Never stored
    /// in the clusters.
    min: usize,
    /// Greatest member, or `usize::MAX` when the node is empty.  Also
    /// stored in its cluster unless it equals `min`.
    max: usize,
    /// Bit-width of each cluster's universe.
    low_bits: usize,
}

impl View for VEBTree {
    type V = Set<int>;

    open spec fn view(&self) -> Set<int> {
        Set::new(|y: int| self.has(y))
    }
}

impl VEBTree {
    /// Bit-width of the universe: upper bits plus lower bits.
    pub closed spec fn bits(&self) -> nat
        decreases self, 0int,
    {
        self.upper.bits() + self.low_bits as nat
    }

    /// Capacity of one cluster.
    spec fn lcap(&self) -> int {
        pow2(self.low_bits as nat) as int
    }

    /// Number of clusters.
    spec fn ucount(&self) -> int {
        self.lower.len() as int
    }

    /// Capacity of the node as its storage provides it.
    spec fn cap(&self) -> int {
        self.ucount() * self.lcap()
    }

    /// `y` is held by the cluster structure (the cached minimum is not).
    spec fn sub_has(&self, y: int) -> bool
        decreases self, 0int,
        via Self::sub_has_decreases
    {
        &&& 0 <= y
        &&& y / self.lcap() < self.lower.len()
        &&& self.lower@[y / self.lcap()].has(y % self.lcap())
    }

    #[via_fn]
    proof fn sub_has_decreases(&self, y: int) {
        lemma_pow2_pos(self.low_bits as nat);
        let u = y / self.lcap();
        if 0 <= y {
            lemma_div_pos_is_pos(y, self.lcap());
        }
        if 0 <= y && u < self.lower.len() {
            assert(decreases_to!(self => self.lower));
            vstd::std_specs::vec::axiom_vec_index_decreases(self.lower, u);
        }
    }

    /// Membership: the cached minimum, or a value held by some cluster.
    pub closed spec fn has(&self, y: int) -> bool
        decreases self, 1int,
    {
        if self.min == usize::MAX {
            false
        } else if y == self.min as int {
            true
        } else {
            self.sub_has(y)
        }
    }

    /// The sizes agree: widths are positive, the whole width is bounded,
    /// there is one cluster per upper value, and every cluster is a
    /// well-formed inner set of `low_bits` bits.
    spec fn shape_ok(&self) -> bool
        decreases self, 0int,
    {
        &&& 1 <= self.low_bits
        &&& 1 <= self.upper.bits()
        &&& self.upper.bits() + self.low_bits as nat <= MAX_BITS
        &&& self.upper.wf()
        &&& self.lower.len() == pow2(self.upper.bits())
        &&& forall|u: int|
            0 <= u < self.lower.len() ==> ((#[trigger] self.lower@[u]).wf() && self.lower@[u].bits()
                == self.low_bits as nat)
    }

    /// Everything well-formedness asks except the clauses about the cached
    /// maximum.  `remove` restores the maximum last, and `prev`, which it
    /// uses to do so, never reads it, so `prev` only asks for this part.
    pub closed spec fn wf_except_max(&self) -> bool
        decreases self, 1int,
    {
        &&& self.shape_ok()
        &&& forall|u: int|
            #![trigger self.upper.has(u)]
            #![trigger self.lower@[u]]
            0 <= u < self.lower.len() ==> (self.upper.has(u) <==> exists|l: int|
                (#[trigger] self.lower@[u].has(l)))
        &&& (self.min == usize::MAX ==> forall|y: int| !(#[trigger] self.sub_has(y)))
        &&& (self.min != usize::MAX ==> ((self.min as int) < self.cap() && (forall|y: int|
            #[trigger] self.sub_has(y) ==> self.min < y)))
    }

    /// The clauses about the cached maximum: it bounds the clusters'
    /// contents, and sits in a cluster itself exactly when the node holds
    /// more than one value.
    spec fn max_ok(&self) -> bool
        decreases self, 1int,
    {
        if self.min == usize::MAX {
            self.max == usize::MAX
        } else {
            &&& self.min <= self.max
            &&& (self.max as int) < self.cap()
            &&& forall|y: int| #[trigger] self.sub_has(y) ==> y <= self.max
            &&& (self.min != self.max ==> self.sub_has(self.max as int))
            &&& (self.min == self.max ==> forall|y: int| !(#[trigger] self.sub_has(y)))
        }
    }

    /// Well-formed: shape, cluster bookkeeping and both cached extremes.
    pub closed spec fn wf(&self) -> bool
        decreases self, 2int,
    {
        self.wf_except_max() && self.max_ok()
    }

    /// Full well-formedness gives the part `prev` asks for.
    pub proof fn lemma_wf_weak(&self)
        requires
            self.wf(),
        ensures
            self.wf_except_max(),
    {
    }

    /// Every member lies in `[0, 2^bits)`.
    pub proof fn lemma_member_range(&self, y: int)
        requires
            self.wf_except_max(),
            self@.contains(y),
        ensures
            0 <= y < pow2(self.bits()),
    {
        lemma_cap_pow2(self);
        if y != self.min as int {
            let d = self.lcap();
            lemma_pow2_pos(self.low_bits as nat);
            lemma_decomp(y, d);
            lemma_mul_inequality(y / d + 1, self.ucount(), d);
            lemma_mul_is_distributive_add(d, y / d, 1);
            lemma_mul_is_commutative(d, y / d + 1);
            lemma_mul_is_commutative(d, self.ucount());
        }
    }

    /// The view's membership is the `has` predicate.
    proof fn lemma_view_has(&self, y: int)
        ensures
            self@.contains(y) == self.has(y),
    {
    }

    /// Creates an empty node over the universe `[0, 2^bits)`, splitting the
    /// width evenly between the upper set and the clusters.
    #[verifier::loop_isolation(false)]
    pub fn new(bits: usize) -> (t: Self)
        requires
            2 <= bits <= MAX_BITS,
        ensures
            t.wf(),
            t.bits() == bits,
            t@ == Set::<int>::empty(),
        decreases bits, 0int,
    {
        let ub: usize = bits / 2;
        let lb: usize = bits - ub;
        let upper = InnerVEBTree::new(ub);
        proof {
            lemma_pow2_pos(ub as nat);
            lemma2_to64();
            if (ub as nat) < 15 {
                lemma_pow2_strictly_increases(ub as nat, 15);
            }
            vstd::bits::lemma_usize_shl_is_mul(1, ub);
        }
        let count: usize = 1usize << ub;
        let mut lower: Vec<InnerVEBTree> = Vec::new();
        while lower.len() < count
            invariant
                count == pow2(ub as nat),
                1 <= lb <= MAX_BITS,
                lower.len() <= count,
                forall|u: int|
                    0 <= u < lower.len() ==> ((#[trigger] lower@[u]).wf() && lower@[u].bits()
                        == lb as nat && lower@[u]@ == Set::<int>::empty()),
            decreases count - lower.len(),
        {
            let child = InnerVEBTree::new(lb);
            lower.push(child);
        }
        let t = VEBTree { upper, lower, min: usize::MAX, max: usize::MAX, low_bits: lb };
        proof {
            lemma_pow2_pos(lb as nat);
            assert(t.shape_ok());
            assert forall|y: int| !(#[trigger] t.sub_has(y)) by {
                if t.sub_has(y) {
                    let u = y / t.lcap();
                    assert(t.lower@[u]@.contains(y % t.lcap()));
                }
            }
            assert forall|u: int| 0 <= u < t.lower.len() implies !(t.upper.has(u)) by {
                assert(t.upper@.contains(u) == t.upper.has(u));
            }
            assert forall|u: int| #![trigger t.lower@[u]] 0 <= u < t.lower.len() implies !(exists|
                l: int,
            |
                (#[trigger] t.lower@[u].has(l))) by {
                if exists|l: int| #[trigger] t.lower@[u].has(l) {
                    let l = choose|l: int| #[trigger] t.lower@[u].has(l);
                    assert(t.lower@[u]@.contains(l));
                }
            }
            assert(t.wf_except_max());
            assert(t@ =~= Set::<int>::empty());
        }
        t
    }

    /// Number of values the universe holds, `2^bits`.
    pub fn capacity(&self) -> (c: usize)
        requires
            self.wf(),
        ensures
            c == pow2(self.bits()),
    {
        proof {
            lemma_cap_pow2(self);
            lemma_cap_fits(self);
            vstd::bits::lemma_usize_shl_is_mul(self.lower.len(), self.low_bits);
        }
        self.lower.len() << self.low_bits
    }

    /// True exactly when the node has no member.
    pub fn is_empty(&self) -> (r: bool)
        requires
            self.wf(),
        ensures
            r == self@.is_empty(),
    {
        let r = self.min == usize::MAX;
        proof {
            if r {
                assert(self@ =~= Set::<int>::empty());
            } else {
                assert(self@.contains(self.min as int));
            }
        }
        r
    }

    /// Removes every member: clears the upper set and every cluster, and
    /// resets both cached extremes to the empty sentinel.
    pub fn clear(&mut self)
        requires
            old(self).wf(),
        ensures
            final(self).wf(),
            final(self).bits() == old(self).bits(),
            final(self)@ == Set::<int>::empty(),
        decreases old(self).bits(), 1int,
    {
        self.upper.clear();
        let n = self.lower.len();
        let mut i: usize = 0;
        while i < n
            invariant
                old(self).shape_ok(),
                n == self.lower.len(),
                n == old(self).lower.len(),
                i <= n,
                self.low_bits == old(self).low_bits,
                self.upper.wf(),
                self.upper.bits() == old(self).upper.bits(),
                self.upper@ == Set::<int>::empty(),
                forall|u: int|
                    0 <= u < i ==> ((#[trigger] self.lower@[u]).wf() && self.lower@[u].bits()
                        == self.low_bits as nat && self.lower@[u]@ == Set::<int>::empty()),
                forall|u: int| i <= u < n ==> (#[trigger] self.lower@[u]) == old(self).lower@[u],
            decreases n - i,
        {
            self.lower[i].clear();
            i += 1;
        }
        self.min = usize::MAX;
        self.max = usize::MAX;
        proof {
            lemma_pow2_pos(self.low_bits as nat);
            assert(self.shape_ok());
            assert forall|y: int| !(#[trigger] self.sub_has(y)) by {
                if self.sub_has(y) {
                    let u = y / self.lcap();
                    assert(self.lower@[u]@.contains(y % self.lcap()));
                }
            }
            assert forall|u: int| 0 <= u < self.lower.len() implies !(self.upper.has(u)) by {
                assert(self.upper@.contains(u) == self.upper.has(u));
            }
            assert forall|u: int| #![trigger self.lower@[u]] 0 <= u < self.lower.len() implies !(
            exists|l: int|
                (#[trigger] self.lower@[u].has(l))) by {
                if exists|l: int| #[trigger] self.lower@[u].has(l) {
                    let l = choose|l: int| #[trigger] self.lower@[u].has(l);
                    assert(self.lower@[u]@.contains(l));
                }
            }
            assert(self.wf_except_max());
            assert(self@ =~= Set::<int>::empty());
        }
    }

    /// Splits `x` into its cluster index and remainder.
    fn ul(&self, x: usize) -> (r: (usize, usize))
        requires
            self.shape_ok(),
            (x as int) < self.cap(),
        ensures
            r.0 as int == x as int / self.lcap(),
            r.1 as int == x as int % self.lcap(),
            r.0 < self.lower.len(),
            (r.1 as nat) < pow2(self.low_bits as nat),
            x as int == r.0 * self.lcap() + r.1,
    {
        proof {
            lemma_pow2_pos(self.low_bits as nat);
            lemma_cap_fits(self);
            vstd::bits::lemma_usize_shr_is_div(x, self.low_bits);
            vstd::bits::lemma_usize_pow2_no_overflow(self.low_bits as nat);
            vstd::bits::lemma_usize_shl_is_mul(1, self.low_bits);
            vstd::bits::lemma_usize_low_bits_mask_is_mod(x, self.low_bits as nat);
            lemma_decomp(x as int, self.lcap());
            lemma_div_bound(x as int, self.ucount(), self.lcap());
            lemma_mul_is_commutative(x as int / self.lcap(), self.lcap());
        }
        let ux = x >> self.low_bits;
        let lx = x & ((1usize << self.low_bits) - 1);
        (ux, lx)
    }

    /// Membership test for `x`: settled by the cached extremes when
    /// possible, otherwise by the cluster holding `x`.
    pub fn contains(&self, x: usize) -> (r: bool)
        requires
            self.wf(),
            (x as nat) < pow2(self.bits()),
        ensures
            r == self@.contains(x as int),
        decreases self.bits(), 1int,
    {
        proof {
            lemma_cap_pow2(self);
            lemma_cap_fits(self);
        }
        if x < self.min {
            proof {
                self.lemma_view_has(x as int);
                if self.min != usize::MAX {
                    assert(!self.sub_has(x as int));
                }
                assert(!self.has(x as int));
            }
            return false;
        }
        if x > self.max {
            proof {
                self.lemma_view_has(x as int);
                assert(!self.sub_has(x as int));
                assert(!self.has(x as int));
            }
            return false;
        }
        if x == self.min {
            proof {
                self.lemma_view_has(x as int);
            }
            return true;
        }
        if x == self.max {
            proof {
                self.lemma_view_has(x as int);
                assert(self.sub_has(self.max as int));
            }
            return true;
        }
        let (ux, lx) = self.ul(x);
        let r = self.lower[ux].contains(lx);
        proof {
            self.lemma_view_has(x as int);
            assert(self.lower@[ux as int]@.contains(lx as int) == self.sub_has(x as int));
        }
        r
    }

    /// The least member: the cached minimum, if the node is not empty.
    pub fn first(&self) -> (r: Option<usize>)
        requires
            self.wf(),
        ensures
            match r {
                Some(v) => is_minimum(self@, v as int) && (v as nat) < pow2(self.bits()),
                None => self@.is_empty(),
            },
    {
        if self.min == usize::MAX {
            proof {
                assert(self@ =~= Set::<int>::empty());
            }
            None
        } else {
            proof {
                lemma_cap_pow2(self);
                self.lemma_view_has(self.min as int);
                assert(self@.contains(self.min as int));
                assert forall|y: int| self@.contains(y) implies self.min as int <= y by {
                    self.lemma_view_has(y);
                    assert(self.has(y));
                    assert(y == self.min as int || self.sub_has(y));
                }
            }
            Some(self.min)
        }
    }

    /// The greatest member: the cached maximum, if the node is not empty.
    pub fn last(&self) -> (r: Option<usize>)
        requires
            self.wf(),
        ensures
            match r {
                Some(v) => is_maximum(self@, v as int) && (v as nat) < pow2(self.bits()),
                None => self@.is_empty(),
            },
    {
        if self.min == usize::MAX {
            proof {
                assert(self@ =~= Set::<int>::empty());
            }
            None
        } else {
            proof {
                lemma_cap_pow2(self);
                self.lemma_view_has(self.max as int);
                if self.min != self.max {
                    assert(self.sub_has(self.max as int));
                }
                assert(self@.contains(self.max as int));
                assert forall|y: int| self@.contains(y) implies y <= self.max as int by {
                    self.lemma_view_has(y);
                    assert(y == self.min as int || self.sub_has(y));
                }
            }
            Some(self.max)
        }
    }

    /// Adds `x`; returns true exactly when `x` was absent.
    ///
    /// An empty node caches `x` without recursing.  Otherwise a value below
    /// the cached minimum trades places with it, so the value pushed into a
    /// cluster is never the minimum; the maximum is updated in place.
    pub fn insert(&mut self, x: usize) -> (r: bool)
        requires
            old(self).wf(),
            (x as nat) < pow2(old(self).bits()),
        ensures
            final(self).wf(),
            final(self).bits() == old(self).bits(),
            final(self)@ == old(self)@.insert(x as int),
            r == !old(self)@.contains(x as int),
        decreases old(self).bits(), 1int,
    {
        proof {
            lemma_cap_pow2(self);
            lemma_cap_fits(self);
            lemma_pow2_pos(self.low_bits as nat);
        }
        if self.min == usize::MAX {
            self.min = x;
            self.max = x;
            proof {
                assert forall|y: int| #[trigger] self.sub_has(y) == old(self).sub_has(y) by {}
                assert(self.wf());
                self.lemma_view_has(x as int);
                assert(self@ =~= old(self)@.insert(x as int)) by {
                    assert forall|y: int| self@.contains(y) == old(self)@.insert(
                        x as int,
                    ).contains(y) by {
                        self.lemma_view_has(y);
                        old(self).lemma_view_has(y);
                        assert(x < usize::MAX);
                        assert(self.sub_has(y) == old(self).sub_has(y));
                        assert(!old(self).sub_has(y));
                        assert(self.has(y) ==> y == x as int);
                        assert(!old(self).has(y));
                        if y == x as int {
                            assert(old(self)@.insert(x as int).contains(y));
                        } else {
                            assert(old(self)@.insert(x as int).contains(y) == old(
                                self,
                            )@.contains(y));
                        }
                    }
                }
                old(self).lemma_view_has(x as int);
            }
            return true;
        }
        let mut key: usize = x;
        if key < self.min {
            let t = self.min;
            self.min = key;
            key = t;
        }
        if key == self.min {
            proof {
                assert(x == self.min);
                assert(*self == *old(self));
                old(self).lemma_view_has(x as int);
                assert(old(self)@.contains(x as int));
                assert(self@ =~= old(self)@.insert(x as int)) by {
                    assert forall|y: int| self@.contains(y) == old(self)@.insert(
                        x as int,
                    ).contains(y) by {
                        self.lemma_view_has(y);
                        old(self).lemma_view_has(y);
                        if y == x as int {
                            assert(old(self)@.insert(x as int).contains(y));
                            assert(self@.contains(y));
                        } else {
                            assert(old(self)@.insert(x as int).contains(y) == old(
                                self,
                            )@.contains(y));
                        }
                    }
                }
            }
            return false;
        }
        if key > self.max {
            self.max = key;
        }
        let ghost m0 = old(self).min as int;
        let ghost mx0 = old(self).max as int;
        let ghost m1 = self.min as int;
        let ghost k = key as int;
        let ghost d = self.lcap();
        proof {
            assert(self.shape_ok());
            assert(m1 < k);
            assert(m1 == m0 || m1 == x as int);
            assert(k == m0 || k == x as int);
            assert(k < self.cap());
            assert forall|y: int| #[trigger] self.sub_has(y) == old(self).sub_has(y) by {}
        }
        let (ux, lx) = self.ul(key);
        proof {
            lemma_comp(ux as int, lx as int, d);
        }
        let cluster_was_empty = self.lower[ux].is_empty();
        if cluster_was_empty {
            proof {
                lemma_inner_view_has(&self.lower@[ux as int], lx as int);
            }
            self.upper.insert(ux);
        }
        let ghost mid = *self;
        proof {
            if !cluster_was_empty {
                lemma_set_nonempty(mid.lower@[ux as int]@);
            }
        }
        let r = self.lower[ux].insert(lx);
        proof {
            let s_new = self;
            let s_old = old(self);
            let ucount = s_old.ucount();
            assert(s_new.low_bits == s_old.low_bits && s_new.lower.len() == s_old.lower.len());
            assert(s_new.min as int == m1 && s_new.upper == mid.upper);
            // Cluster contents, pointwise.
            assert forall|u: int, l: int|
                0 <= u < ucount && 0 <= l < d implies (#[trigger] s_new.lower@[u].has(l) <==> (
            s_old.lower@[u].has(l) || (u == ux as int && l == lx as int))) by {
                lemma_inner_view_has(&s_new.lower@[u], l);
                lemma_inner_view_has(&s_old.lower@[u], l);
                if u == ux as int {
                    assert(s_new.lower@[u]@ == s_old.lower@[u]@.insert(lx as int));
                }
            }
            // The substructure gains exactly `key`.
            assert forall|y: int| #[trigger] s_new.sub_has(y) <==> (s_old.sub_has(y) || y == k) by {
                lemma_mul_is_commutative(d, ux as int);
                assert(s_new.lcap() == d && s_old.lcap() == d);
                assert(s_new.lower.len() == ucount && s_old.lower.len() == ucount);
                if 0 <= y && y / d < ucount {
                    lemma_decomp(y, d);
                    lemma_mul_is_commutative(d, y / d);
                    let u = y / d;
                    let l = y % d;
                    assert(s_new.sub_has(y) == s_new.lower@[u].has(l));
                    assert(s_old.sub_has(y) == s_old.lower@[u].has(l));
                    assert(s_new.lower@[u].has(l) <==> (s_old.lower@[u].has(l) || (u
                        == ux as int && l == lx as int)));
                    if y == k {
                        lemma_comp(ux as int, lx as int, d);
                        assert(u == ux as int && l == lx as int);
                    }
                    if u == ux as int && l == lx as int {
                        assert(y == d * u + l);
                        assert(k == (ux as int) * d + lx as int);
                        assert(y == k);
                    }
                } else {
                    if y == k {
                        lemma_comp(ux as int, lx as int, d);
                        assert(0 <= k && k / d == ux as int);
                        assert(false);
                    }
                    assert(!s_new.sub_has(y));
                    assert(!s_old.sub_has(y));
                }
            }
            // Old members are in range, so the quantifiers above reach them.
            assert forall|y: int| #[trigger] s_old.sub_has(y) implies 0 <= y && y / d
                < ucount by {}
            // Upper bookkeeping.
            assert forall|u: int|
                #![trigger s_new.upper.has(u)]
                #![trigger s_new.lower@[u]]
                0 <= u < ucount implies (s_new.upper.has(u) <==> exists|l: int|
                (#[trigger] s_new.lower@[u].has(l))) by {
                lemma_inner_view_has(&s_new.upper, u);
                lemma_inner_view_has(&s_old.upper, u);
                if u == ux as int {
                    assert(s_new.lower@[u].has(lx as int));
                } else {
                    assert(s_new.lower@[u] == s_old.lower@[u]);
                    if cluster_was_empty {
                        assert(s_new.upper@ == s_old.upper@.insert(ux as int));
                    }
                    if s_new.upper.has(u) {
                        assert(s_old.upper.has(u));
                        let l = choose|l: int| #[trigger] s_old.lower@[u].has(l);
                        assert(s_new.lower@[u].has(l));
                    }
                    if exists|l: int| #[trigger] s_new.lower@[u].has(l) {
                        let l = choose|l: int| #[trigger] s_new.lower@[u].has(l);
                        assert(s_old.upper.has(u));
                    }
                }
            }
            assert(s_new.wf_except_max());
            // The cached maximum.
            assert(s_new.max as int == if k > mx0 {
                k
            } else {
                mx0
            });
            if k <= mx0 && m0 != mx0 {
                assert(s_old.sub_has(mx0));
            }
            if k <= mx0 && m0 == mx0 {
                assert(k == mx0);
                assert(s_new.sub_has(k));
            }
            assert(s_new.max_ok());
            assert(s_new.wf());
            // The view gains exactly `x`.
            assert(s_new@ =~= s_old@.insert(x as int)) by {
                assert forall|y: int| s_new@.contains(y) == s_old@.insert(x as int).contains(
                    y,
                ) by {
                    s_new.lemma_view_has(y);
                    s_old.lemma_view_has(y);
                    assert(s_new.has(y) == (y == m1 || s_new.sub_has(y)));
                    assert(s_old.has(y) == (y == m0 || s_old.sub_has(y)));
                }
            }
            // The returned flag.
            assert(r == !mid.lower@[ux as int]@.contains(lx as int));
            lemma_inner_view_has(&s_old.lower@[ux as int], lx as int);
            s_old.lemma_view_has(x as int);
            if k == m0 {
                assert(!s_old.sub_has(k));
                assert(r);
                assert(x as int == m1 && x as int != m0);
                assert(!s_old.sub_has(x as int));
                assert(!s_old.has(x as int));
            } else {
                assert(k == x as int && m1 == m0);
                assert(s_old.sub_has(x as int) == s_old.lower@[ux as int].has(lx as int));
                assert(s_old.has(x as int) == s_old.sub_has(x as int));
            }
        }
        r
    }

    /// The smallest member that is at least `x`, if any.
    ///
    /// The cached extremes settle the fast paths; otherwise the answer is
    /// in `x`'s own cluster if anything there reaches `lx`, else it is the
    /// least value of the next occupied cluster.
    pub fn next(&self, x: usize) -> (r: Option<usize>)
        requires
            self.wf(),
            (x as nat) < pow2(self.bits()),
        ensures
            match r {
                Some(v) => is_successor(self@, x as int, v as int) && (v as nat) < pow2(
                    self.bits(),
                ),
                None => no_successor(self@, x as int),
            },
        decreases self.bits(), 1int,
    {
        proof {
            lemma_cap_pow2(self);
            lemma_cap_fits(self);
            lemma_pow2_pos(self.low_bits as nat);
        }
        if self.min == usize::MAX || x > self.max {
            proof {
                assert forall|y: int| self@.contains(y) implies y < x as int by {
                    self.lemma_view_has(y);
                    assert(y == self.min as int || self.sub_has(y));
                }
            }
            return None;
        }
        if x <= self.min {
            proof {
                self.lemma_view_has(self.min as int);
                assert forall|y: int| self@.contains(y) && x as int <= y implies self.min as int
                    <= y by {
                    self.lemma_view_has(y);
                    assert(y == self.min as int || self.sub_has(y));
                }
            }
            return Some(self.min);
        }
        let ghost d = self.lcap();
        let (ux, lx) = self.ul(x);
        let ghost uxi = ux as int;
        let ghost lxi = lx as int;
        let cluster_last = self.lower[ux].last();
        if let Some(cl) = cluster_last {
            if lx <= cl {
                let ln = self.lower[ux].next(lx);
                proof {
                    if ln is None {
                        lemma_inner_view_has(&self.lower@[uxi], cl as int);
                        assert(false);
                    }
                }
                let n = ln.unwrap();
                proof {
                    lemma_comp(uxi, n as int, d);
                    lemma_comp_bound(uxi, n as int, self.ucount(), d);
                    vstd::bits::lemma_usize_shl_is_mul(ux, self.low_bits);
                }
                let v = (ux << self.low_bits) + n;
                proof {
                    assert(v as int == uxi * d + n);
                    lemma_inner_view_has(&self.lower@[uxi], n as int);
                    assert(self.lower@[uxi].has(n as int));
                    assert(self.sub_has(v as int));
                    self.lemma_view_has(v as int);
                    assert(self@.contains(v as int));
                    assert(x as int == uxi * d + lxi && lxi <= n as int);
                    assert(x as int <= v as int);
                    assert forall|y: int| self@.contains(y) && x as int <= y implies v as int
                        <= y by {
                        self.lemma_view_has(y);
                        assert(y == self.min as int || self.sub_has(y));
                        if y != self.min as int {
                            lemma_decomp(y, d);
                            let uy = y / d;
                            let ly = y % d;
                            lemma_div_is_ordered(x as int, y, d);
                            lemma_mul_is_commutative(d, uy);
                            assert(self.lower@[uy].has(ly));
                            if uy == uxi {
                                assert(y == uxi * d + ly);
                                assert(lxi <= ly);
                                lemma_inner_view_has(&self.lower@[uxi], ly);
                                assert(self.lower@[uxi]@.contains(ly));
                                assert(n as int <= ly);
                            } else {
                                assert(uxi < uy);
                                lemma_mul_inequality(uxi + 1, uy, d);
                                lemma_mul_is_distributive_add(d, uxi, 1);
                                lemma_mul_is_commutative(d, uxi + 1);
                                lemma_mul_is_commutative(d, uxi);
                                assert(v as int <= y);
                            }
                        }
                    }
                }
                return Some(v);
            }
        }
        proof {
            assert forall|l: int| #[trigger] self.lower@[uxi].has(l) implies l < lxi by {
                lemma_inner_view_has(&self.lower@[uxi], l);
                match cluster_last {
                    None => {
                        assert(self.lower@[uxi]@ =~= Set::<int>::empty());
                    },
                    Some(cl) => {
                        assert(l <= cl as int);
                    },
                }
            }
            // The maximum lies in a later cluster.
            let mxi = self.max as int;
            assert(self.min < self.max);
            assert(self.sub_has(mxi));
            lemma_decomp(mxi, d);
            lemma_div_is_ordered(x as int, mxi, d);
            let um = mxi / d;
            let lm = mxi % d;
            lemma_mul_is_commutative(d, um);
            assert(self.lower@[um].has(lm));
            if um == uxi {
                assert(mxi == uxi * d + lm && x as int == uxi * d + lxi && x as int <= mxi);
                assert(lxi <= lm);
                assert(lm < lxi);
                assert(false);
            }
            assert(um > uxi);
            assert(self.upper.has(um));
            lemma_inner_view_has(&self.upper, um);
            assert(self.upper@.contains(um));
        }
        let un = self.upper.next(ux + 1);
        proof {
            if un is None {
                assert(false);
            }
        }
        let nu = un.unwrap();
        proof {
            self.upper.lemma_member_range(nu as int);
            lemma_inner_view_has(&self.upper, nu as int);
            let l0 = choose|l: int| #[trigger] self.lower@[nu as int].has(l);
            lemma_inner_view_has(&self.lower@[nu as int], l0);
        }
        let fl = self.lower[nu].first();
        proof {
            if fl is None {
                let l0 = choose|l: int| #[trigger] self.lower@[nu as int].has(l);
                lemma_inner_view_has(&self.lower@[nu as int], l0);
                assert(false);
            }
        }
        let f = fl.unwrap();
        proof {
            lemma_comp(nu as int, f as int, d);
            lemma_comp_bound(nu as int, f as int, self.ucount(), d);
            vstd::bits::lemma_usize_shl_is_mul(nu, self.low_bits);
        }
        let v = (nu << self.low_bits) + f;
        proof {
            lemma_inner_view_has(&self.lower@[nu as int], f as int);
            assert(self.sub_has(v as int));
            self.lemma_view_has(v as int);
            assert(self@.contains(v as int));
            lemma_comp_bound(uxi, lxi, self.ucount(), d);
            lemma_mul_inequality(uxi + 1, nu as int, d);
            lemma_mul_is_distributive_add(d, uxi, 1);
            lemma_mul_is_commutative(d, uxi + 1);
            lemma_mul_is_commutative(d, uxi);
            lemma_mul_is_commutative(d, nu as int);
            assert((x as int) < v as int);
            assert forall|y: int| self@.contains(y) && x as int <= y implies v as int <= y by {
                self.lemma_view_has(y);
                assert(y == self.min as int || self.sub_has(y));
                if y != self.min as int {
                    lemma_decomp(y, d);
                    let uy = y / d;
                    let ly = y % d;
                    lemma_div_is_ordered(x as int, y, d);
                    lemma_mul_is_commutative(d, uy);
                    assert(self.lower@[uy].has(ly));
                    if uy == uxi {
                        assert(y == uxi * d + ly && x as int == uxi * d + lxi);
                        assert(lxi <= ly);
                        assert(false);
                    }
                    assert(self.upper.has(uy));
                    lemma_inner_view_has(&self.upper, uy);
                    assert(uxi + 1 <= uy);
                    assert(nu as int <= uy);
                    if uy == nu as int {
                        lemma_inner_view_has(&self.lower@[nu as int], ly);
                        assert(f as int <= ly);
                        assert(v as int <= y);
                    } else {
                        lemma_mul_inequality(nu as int + 1, uy, d);
                        lemma_mul_is_distributive_add(d, nu as int, 1);
                        lemma_mul_is_commutative(d, nu as int + 1);
                        assert(v as int <= y);
                    }
                }
            }
        }
        Some(v)
    }

    /// The largest member that is at most `x`, if any.
    pub fn prev(&self, x: usize) -> (r: Option<usize>)
        requires
            self.wf(),
            (x as nat) < pow2(self.bits()),
        ensures
            match r {
                Some(v) => is_predecessor(self@, x as int, v as int) && (v as nat) < pow2(
                    self.bits(),
                ),
                None => no_predecessor(self@, x as int),
            },
        decreases self.bits(), 2int,
    {
        proof {
            self.lemma_wf_weak();
        }
        self.prev_core(x)
    }

    /// The work of `prev`.
    ///
    /// Symmetric to `next`, with one extra case: when `x`'s cluster and
    /// every earlier cluster hold nothing at or below `x`, the cached
    /// minimum itself is the answer.  The cached maximum is never read, so
    /// only `wf_except_max` is required; `remove` relies on that while it
    /// recomputes the maximum.
    fn prev_core(&self, x: usize) -> (r: Option<usize>)
        requires
            self.wf_except_max(),
            (x as nat) < pow2(self.bits()),
        ensures
            match r {
                Some(v) => is_predecessor(self@, x as int, v as int) && (v as nat) < pow2(
                    self.bits(),
                ),
                None => no_predecessor(self@, x as int),
            },
        decreases self.bits(), 1int,
    {
        proof {
            lemma_cap_pow2(self);
            lemma_cap_fits(self);
            lemma_pow2_pos(self.low_bits as nat);
        }
        if self.min == usize::MAX || x < self.min {
            proof {
                assert forall|y: int| self@.contains(y) implies y > x as int by {
                    self.lemma_view_has(y);
                    assert(y == self.min as int || self.sub_has(y));
                }
            }
            return None;
        }
        let ghost d = self.lcap();
        let (ux, lx) = self.ul(x);
        let ghost uxi = ux as int;
        let ghost lxi = lx as int;
        let cluster_first = self.lower[ux].first();
        if let Some(cf) = cluster_first {
            if lx >= cf {
                let lp = self.lower[ux].prev(lx);
                proof {
                    if lp is None {
                        lemma_inner_view_has(&self.lower@[uxi], cf as int);
                        assert(false);
                    }
                }
                let p = lp.unwrap();
                proof {
                    lemma_comp(uxi, p as int, d);
                    lemma_comp_bound(uxi, p as int, self.ucount(), d);
                    vstd::bits::lemma_usize_shl_is_mul(ux, self.low_bits);
                }
                let v = (ux << self.low_bits) + p;
                proof {
                    lemma_inner_view_has(&self.lower@[uxi], p as int);
                    assert(self.sub_has(v as int));
                    self.lemma_view_has(v as int);
                    assert(self@.contains(v as int));
                    assert(v as int <= x as int);
                    assert forall|y: int| self@.contains(y) && y <= x as int implies y <= v as int by {
                        self.lemma_view_has(y);
                        assert(y == self.min as int || self.sub_has(y));
                        if y == self.min as int {
                            assert((self.min as int) < v as int);
                        } else {
                            lemma_decomp(y, d);
                            let uy = y / d;
                            let ly = y % d;
                            lemma_div_is_ordered(y, x as int, d);
                            lemma_mul_is_commutative(d, uy);
                            assert(self.lower@[uy].has(ly));
                            if uy == uxi {
                                assert(y == uxi * d + ly && x as int == uxi * d + lxi);
                                lemma_inner_view_has(&self.lower@[uxi], ly);
                                assert(self.lower@[uxi]@.contains(ly));
                                if (v as int) < y {
                                    assert(((p as int) < ly) && ly <= lxi);
                                    assert(false);
                                }
                            } else {
                                assert(uy < uxi);
                                lemma_mul_inequality(uy + 1, uxi, d);
                                lemma_mul_is_distributive_add(d, uy, 1);
                                lemma_mul_is_commutative(d, uy + 1);
                                lemma_mul_is_commutative(d, uxi);
                                assert(y <= v as int);
                            }
                        }
                    }
                }
                return Some(v);
            }
        }
        proof {
            assert forall|l: int| #[trigger] self.lower@[uxi].has(l) implies l > lxi by {
                lemma_inner_view_has(&self.lower@[uxi], l);
                match cluster_first {
                    None => {
                        assert(self.lower@[uxi]@ =~= Set::<int>::empty());
                    },
                    Some(cf) => {
                        assert(l >= cf as int);
                    },
                }
            }
        }
        if ux > 0 {
            let pu = self.upper.prev(ux - 1);
            if let Some(pv) = pu {
                proof {
                    lemma_inner_view_has(&self.upper, pv as int);
                    self.upper.lemma_member_range(pv as int);
                    let l0 = choose|l: int| #[trigger] self.lower@[pv as int].has(l);
                }
                let ll = self.lower[pv].last();
                proof {
                    if ll is None {
                        let l0 = choose|l: int| #[trigger] self.lower@[pv as int].has(l);
                        lemma_inner_view_has(&self.lower@[pv as int], l0);
                        assert(false);
                    }
                }
                let cl = ll.unwrap();
                proof {
                    lemma_comp(pv as int, cl as int, d);
                    lemma_comp_bound(pv as int, cl as int, self.ucount(), d);
                    vstd::bits::lemma_usize_shl_is_mul(pv, self.low_bits);
                }
                let v = (pv << self.low_bits) + cl;
                proof {
                    lemma_inner_view_has(&self.lower@[pv as int], cl as int);
                    assert(self.sub_has(v as int));
                    self.lemma_view_has(v as int);
                    assert(self@.contains(v as int));
                    lemma_comp_bound(uxi, lxi, self.ucount(), d);
                    lemma_mul_inequality(pv as int + 1, uxi, d);
                    lemma_mul_is_distributive_add(d, pv as int, 1);
                    lemma_mul_is_commutative(d, pv as int + 1);
                    lemma_mul_is_commutative(d, pv as int);
                    lemma_mul_is_commutative(d, uxi);
                    assert((v as int) < x as int);
                    assert forall|y: int| self@.contains(y) && y <= x as int implies y
                        <= v as int by {
                        self.lemma_view_has(y);
                        assert(y == self.min as int || self.sub_has(y));
                        if y == self.min as int {
                            assert((self.min as int) < v as int);
                        } else {
                            lemma_decomp(y, d);
                            let uy = y / d;
                            let ly = y % d;
                            lemma_div_is_ordered(y, x as int, d);
                            lemma_mul_is_commutative(d, uy);
                            assert(self.lower@[uy].has(ly));
                            if uy == uxi {
                                assert(y == uxi * d + ly && x as int == uxi * d + lxi);
                                assert(ly <= lxi);
                                assert(false);
                            }
                            assert(uy < uxi);
                            assert(self.upper.has(uy));
                            lemma_inner_view_has(&self.upper, uy);
                            assert(uy <= pv as int);
                            if uy == pv as int {
                                lemma_inner_view_has(&self.lower@[pv as int], ly);
                                assert(ly <= cl as int);
                                assert(y <= v as int);
                            } else {
                                lemma_mul_inequality(uy + 1, pv as int, d);
                                lemma_mul_is_distributive_add(d, uy, 1);
                                lemma_mul_is_commutative(d, uy + 1);
                                lemma_mul_is_commutative(d, pv as int);
                                assert(y <= v as int);
                            }
                        }
                    }
                }
                return Some(v);
            }
            proof {
                assert forall|u: int| 0 <= u <= ux - 1 implies !self.upper.has(u) by {
                    lemma_inner_view_has(&self.upper, u);
                }
            }
        }
        proof {
            self.lemma_view_has(self.min as int);
            assert(self@.contains(self.min as int));
            assert forall|y: int| self@.contains(y) && y <= x as int implies y
                <= self.min as int by {
                self.lemma_view_has(y);
                assert(y == self.min as int || self.sub_has(y));
                if y != self.min as int && y > self.min as int {
                    lemma_decomp(y, d);
                    let uy = y / d;
                    let ly = y % d;
                    lemma_div_is_ordered(y, x as int, d);
                    lemma_mul_is_commutative(d, uy);
                    assert(self.lower@[uy].has(ly));
                    if uy == uxi {
                        assert(y == uxi * d + ly && x as int == uxi * d + lxi);
                        assert(ly <= lxi);
                        assert(false);
                    }
                    assert(uy < uxi);
                    assert(self.upper.has(uy));
                    assert(ux > 0);
                    assert(false);
                }
            }
        }
        Some(self.min)
    }

    /// Removes `x`; returns true exactly when `x` was present.
    ///
    /// A singleton node just resets its cached extremes.  Removing the
    /// cached minimum first promotes its successor into the cache, so the
    /// value actually taken out of a cluster is never the minimum.  When
    /// the removed value was the cached maximum, the maximum is recomputed
    /// by a predecessor query, which never reads the stale cache.
    pub fn remove(&mut self, x: usize) -> (r: bool)
        requires
            old(self).wf(),
            (x as nat) < pow2(old(self).bits()),
        ensures
            final(self).wf(),
            final(self).bits() == old(self).bits(),
            final(self)@ == old(self)@.remove(x as int),
            r == old(self)@.contains(x as int),
        decreases old(self).bits(), 3int,
    {
        proof {
            lemma_cap_pow2(self);
            lemma_cap_fits(self);
            lemma_pow2_pos(self.low_bits as nat);
        }
        if self.min == self.max {
            if x == self.min {
                self.min = usize::MAX;
                self.max = usize::MAX;
                proof {
                    lemma_sub_same(self, old(self));
                    assert(self.wf());
                    old(self).lemma_view_has(x as int);
                    assert(self@ =~= old(self)@.remove(x as int)) by {
                        assert forall|y: int| self@.contains(y) == old(self)@.remove(
                            x as int,
                        ).contains(y) by {
                            self.lemma_view_has(y);
                            old(self).lemma_view_has(y);
                            assert(!self.has(y));
                            if y == x as int {
                                assert(!old(self)@.remove(x as int).contains(y));
                            } else {
                                assert(old(self)@.remove(x as int).contains(y) == old(
                                    self,
                                )@.contains(y));
                                assert(!old(self).sub_has(y));
                                assert(!old(self).has(y));
                            }
                        }
                    }
                }
                return true;
            } else {
                proof {
                    old(self).lemma_view_has(x as int);
                    assert(!old(self).sub_has(x as int));
                    assert(!old(self).has(x as int));
                    assert(self@ =~= old(self)@.remove(x as int)) by {
                        assert forall|y: int| self@.contains(y) == old(self)@.remove(
                            x as int,
                        ).contains(y) by {
                            self.lemma_view_has(y);
                            old(self).lemma_view_has(y);
                            if y == x as int {
                                assert(!old(self)@.remove(x as int).contains(y));
                                assert(!old(self).sub_has(y));
                                assert(!self@.contains(y));
                            } else {
                                assert(old(self)@.remove(x as int).contains(y) == old(
                                    self,
                                )@.contains(y));
                            }
                        }
                    }
                }
                return false;
            }
        }
        let ghost m0 = old(self).min as int;
        let ghost mx0 = old(self).max as int;
        let ghost d = self.lcap();
        let mut key: usize = x;
        let ghost promoted = (x as int == m0);
        if key == self.min {
            let nx_opt = self.next(key + 1);
            proof {
                if nx_opt is None {
                    self.lemma_view_has(self.max as int);
                    assert(self.sub_has(self.max as int));
                    assert(self@.contains(self.max as int));
                    assert(false);
                }
            }
            let nx = nx_opt.unwrap();
            proof {
                self.lemma_view_has(nx as int);
                assert(self.has(nx as int));
                assert(self.sub_has(nx as int));
            }
            self.min = nx;
            key = nx;
            proof {
                lemma_sub_same(self, old(self));
            }
        }
        let ghost k = key as int;
        let ghost m1 = self.min as int;
        proof {
            assert(self.shape_ok());
            lemma_sub_same(self, old(self));
            assert(self.cap() == old(self).cap());
            assert(promoted ==> (m1 == k && self.sub_has(k)));
            assert(!promoted ==> (m1 == m0 && k == x as int));
            // Every remaining substructure member is at least the new minimum.
            assert forall|y: int| #[trigger] self.sub_has(y) implies m1 <= y by {
                old(self).lemma_view_has(y);
                assert(old(self).has(y));
            }
            assert(k < self.cap());
        }
        let (ux, lx) = self.ul(key);
        proof {
            lemma_comp(ux as int, lx as int, d);
        }
        let ghost pre = *self;
        let was = self.lower[ux].remove(lx);
        let ghost post = *self;
        proof {
            let ucount = old(self).ucount();
            assert(self.lower@[ux as int]@ == pre.lower@[ux as int]@.remove(lx as int));
            assert(was == pre.lower@[ux as int]@.contains(lx as int)) by {
                lemma_inner_view_has(&pre.lower@[ux as int], lx as int);
            }
            lemma_inner_view_has(&pre.lower@[ux as int], lx as int);
            assert(was == pre.sub_has(k));
            // Cluster contents, pointwise.
            assert forall|u: int, l: int|
                0 <= u < ucount && 0 <= l < d implies (#[trigger] self.lower@[u].has(l) <==> (
            pre.lower@[u].has(l) && !(u == ux as int && l == lx as int))) by {
                lemma_inner_view_has(&self.lower@[u], l);
                lemma_inner_view_has(&pre.lower@[u], l);
                if u == ux as int {
                    assert(self.lower@[u]@ == pre.lower@[u]@.remove(lx as int));
                }
            }
            // The substructure loses exactly `key`.
            assert forall|y: int| #[trigger] self.sub_has(y) <==> (pre.sub_has(y) && y != k) by {
                lemma_mul_is_commutative(d, ux as int);
                assert(self.lcap() == d && pre.lcap() == d);
                assert(self.lower.len() == ucount && pre.lower.len() == ucount);
                if 0 <= y && y / d < ucount {
                    lemma_decomp(y, d);
                    lemma_mul_is_commutative(d, y / d);
                    let u = y / d;
                    let l = y % d;
                    assert(self.sub_has(y) == self.lower@[u].has(l));
                    assert(pre.sub_has(y) == pre.lower@[u].has(l));
                    assert(self.lower@[u].has(l) <==> (pre.lower@[u].has(l) && !(u == ux as int
                        && l == lx as int)));
                    if y == k {
                        lemma_comp(ux as int, lx as int, d);
                        assert(u == ux as int && l == lx as int);
                    }
                    if u == ux as int && l == lx as int {
                        assert(y == d * u + l);
                        assert(k == (ux as int) * d + lx as int);
                        assert(y == k);
                    }
                } else {
                    assert(!self.sub_has(y) && !pre.sub_has(y));
                    if y == k {
                        lemma_comp(ux as int, lx as int, d);
                        assert(0 <= k && k / d == ux as int);
                        assert(false);
                    }
                }
            }
        }
        if was {
            let cluster_now_empty = self.lower[ux].is_empty();
            if cluster_now_empty {
                self.upper.remove(ux);
            }
            let ghost mid = *self;
            proof {
                let ucount = old(self).ucount();
                // Upper bookkeeping.
                assert forall|u: int|
                    #![trigger mid.upper.has(u)]
                    #![trigger mid.lower@[u]]
                    0 <= u < ucount implies (mid.upper.has(u) <==> exists|l: int|
                    (#[trigger] mid.lower@[u].has(l))) by {
                    lemma_inner_view_has(&mid.upper, u);
                    lemma_inner_view_has(&pre.upper, u);
                    if cluster_now_empty {
                        assert(mid.upper@ == pre.upper@.remove(ux as int));
                    }
                    if u == ux as int {
                        if cluster_now_empty {
                            assert(!mid.upper.has(u));
                            if exists|l: int| #[trigger] mid.lower@[u].has(l) {
                                let l = choose|l: int| #[trigger] mid.lower@[u].has(l);
                                lemma_inner_view_has(&mid.lower@[u], l);
                                assert(mid.lower@[u]@ =~= Set::<int>::empty());
                                assert(false);
                            }
                        } else {
                            lemma_set_nonempty(mid.lower@[u]@);
                            let l = choose|l: int| mid.lower@[u]@.contains(l);
                            lemma_inner_view_has(&mid.lower@[u], l);
                            assert(mid.lower@[u].has(l));
                            assert(pre.lower@[u].has(l)) by {
                                lemma_inner_view_has(&pre.lower@[u], l);
                            }
                            assert(pre.upper.has(u));
                        }
                    } else {
                        assert(mid.lower@[u] == pre.lower@[u]);
                        if mid.upper.has(u) {
                            assert(pre.upper.has(u));
                            let l = choose|l: int| #[trigger] pre.lower@[u].has(l);
                            assert(mid.lower@[u].has(l));
                        }
                        if exists|l: int| #[trigger] mid.lower@[u].has(l) {
                            let l = choose|l: int| #[trigger] mid.lower@[u].has(l);
                            assert(pre.upper.has(u));
                        }
                    }
                }
                lemma_sub_same(&mid, &post);
                lemma_sub_same(&pre, old(self));
                assert(mid.shape_ok());
                assert(mid.cap() == old(self).cap());
                assert forall|y: int| #[trigger] mid.sub_has(y) implies m1 < y by {
                    assert(post.sub_has(y));
                    assert(pre.sub_has(y) && y != k);
                }
                assert(mid.wf_except_max());
            }
            if key != self.min && key == self.max {
                let p_opt = self.prev_core(key - 1);
                proof {
                    if p_opt is None {
                        self.lemma_view_has(self.min as int);
                        assert(self@.contains(self.min as int));
                        assert(self.min as int <= k - 1);
                        assert(false);
                    }
                }
                let p = p_opt.unwrap();
                self.max = p;
                proof {
                    lemma_sub_same(self, &mid);
                    lemma_sub_same(&mid, &post);
                    lemma_sub_same(&pre, old(self));
                    assert(self.wf_except_max());
                    // Everything left is at most key - 1, so `p` is the maximum.
                    assert forall|y: int| #[trigger] self.sub_has(y) implies y <= p as int by {
                        assert(mid.sub_has(y));
                        assert(post.sub_has(y));
                        assert(pre.sub_has(y) && y != k);
                        assert(old(self).sub_has(y));
                        assert(y <= mx0);
                        assert(y <= k - 1);
                        mid.lemma_view_has(y);
                        assert(mid@.contains(y));
                    }
                    mid.lemma_view_has(p as int);
                    assert(mid.has(p as int));
                    if p as int != m1 {
                        assert(mid.sub_has(p as int));
                        assert(self.sub_has(p as int));
                        assert(self.max_ok());
                    } else {
                        assert forall|y: int| !(#[trigger] self.sub_has(y)) by {
                            if self.sub_has(y) {
                                assert(y <= p as int && m1 < y);
                            }
                        }
                        assert(self.max_ok());
                    }
                    assert(self.wf());
                }
            } else {
                proof {
                    assert(*self == mid);
                    lemma_sub_same(&mid, &post);
                    lemma_sub_same(&pre, old(self));
                    if k == mx0 {
                        // Only the promoted successor can coincide with the
                        // old maximum without triggering the recomputation.
                        assert(key == self.min && promoted);
                        assert(m1 == k && k == mx0);
                        assert forall|y: int| !(#[trigger] self.sub_has(y)) by {
                            if self.sub_has(y) {
                                assert(post.sub_has(y));
                                assert(pre.sub_has(y) && y != k);
                                assert(old(self).sub_has(y));
                                assert(m1 <= y && y <= mx0);
                            }
                        }
                        assert(self.min == self.max);
                        assert(self.max_ok());
                    } else {
                        assert(self.max as int == mx0);
                        assert(m0 != mx0);
                        assert forall|y: int| #[trigger] self.sub_has(y) implies y <= mx0 by {
                            assert(post.sub_has(y));
                            assert(pre.sub_has(y) && y != k);
                            assert(old(self).sub_has(y));
                        }
                        if self.min != self.max {
                            assert(old(self).sub_has(mx0));
                            assert(pre.sub_has(mx0));
                            assert(mx0 != k);
                            assert(post.sub_has(mx0));
                            assert(self.sub_has(mx0));
                        }
                        if self.min == self.max {
                            assert(m1 == mx0);
                            assert(promoted && k == m1);
                            assert(false);
                        }
                        assert(self.max_ok());
                    }
                    assert(self.wf());
                }
            }
            proof {
                lemma_sub_same(self, &post);
                lemma_sub_same(&pre, old(self));
                assert(self.min as int == m1 && m1 < usize::MAX as int);
                old(self).lemma_view_has(x as int);
                assert(old(self)@.contains(x as int)) by {
                    if promoted {
                        assert(old(self).has(x as int));
                    } else {
                        assert(pre.sub_has(k) && k == x as int);
                        assert(old(self).sub_has(x as int));
                    }
                }
                assert(self@ =~= old(self)@.remove(x as int)) by {
                    assert forall|y: int| self@.contains(y) == old(self)@.remove(
                        x as int,
                    ).contains(y) by {
                        self.lemma_view_has(y);
                        old(self).lemma_view_has(y);
                        if y == x as int {
                            assert(!old(self)@.remove(x as int).contains(y));
                            assert(self.sub_has(y) == post.sub_has(y));
                            assert(!pre.sub_has(k) || k != x as int || !post.sub_has(y));
                            if promoted {
                                assert(y != m1);
                                assert(!old(self).sub_has(y));
                                assert(!pre.sub_has(y));
                                assert(!post.sub_has(y));
                            } else {
                                assert(y == k);
                                assert(!post.sub_has(y));
                            }
                            assert(!self.has(y));
                        } else {
                            assert(old(self)@.remove(x as int).contains(y) == old(
                                self,
                            )@.contains(y));
                            assert(self.has(y) == (y == m1 || self.sub_has(y)));
                            assert(old(self).has(y) == (y == m0 || old(self).sub_has(y)));
                            assert(self.sub_has(y) == post.sub_has(y));
                            assert(post.sub_has(y) == (pre.sub_has(y) && y != k));
                            assert(pre.sub_has(y) == old(self).sub_has(y));
                            if promoted {
                                assert(m1 == k);
                                if y == m1 {
                                    assert(old(self).sub_has(y));
                                    assert(self.has(y) && old(self).has(y));
                                }
                            }
                        }
                    }
                }
            }
            true
        } else {
            proof {
                assert(!promoted);
                assert(key == x && k == x as int);
                assert(pre == *old(self));
                lemma_sub_same(self, &post);
                lemma_sub_same(&pre, old(self));
                let ucount = old(self).ucount();
                assert(!pre.sub_has(k));
                assert forall|y: int| #[trigger] self.sub_has(y) == old(self).sub_has(y) by {
                    assert(post.sub_has(y) == (pre.sub_has(y) && y != k));
                    if y == k {
                        assert(!pre.sub_has(k));
                    }
                }
                assert(self.lower@[ux as int]@ =~= pre.lower@[ux as int]@);
                assert(self.shape_ok());
                assert forall|u: int|
                    #![trigger self.upper.has(u)]
                    #![trigger self.lower@[u]]
                    0 <= u < ucount implies (self.upper.has(u) <==> exists|l: int|
                    (#[trigger] self.lower@[u].has(l))) by {
                    if u == ux as int {
                        if pre.upper.has(u) {
                            let l = choose|l: int| #[trigger] pre.lower@[u].has(l);
                            lemma_inner_view_has(&pre.lower@[u], l);
                            lemma_inner_view_has(&self.lower@[u], l);
                            assert(self.lower@[u].has(l));
                        }
                        if exists|l: int| #[trigger] self.lower@[u].has(l) {
                            let l = choose|l: int| #[trigger] self.lower@[u].has(l);
                            lemma_inner_view_has(&pre.lower@[u], l);
                            lemma_inner_view_has(&self.lower@[u], l);
                            assert(pre.lower@[u].has(l));
                            assert(pre.upper.has(u));
                        }
                    } else {
                        assert(self.lower@[u] == pre.lower@[u]);
                        if pre.upper.has(u) {
                            let l = choose|l: int| #[trigger] pre.lower@[u].has(l);
                            assert(self.lower@[u].has(l));
                        }
                        if exists|l: int| #[trigger] self.lower@[u].has(l) {
                            let l = choose|l: int| #[trigger] self.lower@[u].has(l);
                            assert(pre.upper.has(u));
                        }
                    }
                }
                assert(self.wf_except_max());
                assert(self.min as int == m0 && self.max as int == mx0);
                assert(self.cap() == old(self).cap());
                if self.min != self.max {
                    assert(old(self).sub_has(mx0));
                    assert(self.sub_has(mx0));
                }
                assert(self.max_ok());
                assert(self.wf());
                old(self).lemma_view_has(x as int);
                assert(!old(self).sub_has(x as int));
                assert(!old(self).has(x as int));
                assert(self@ =~= old(self)@.remove(x as int)) by {
                    assert forall|y: int| self@.contains(y) == old(self)@.remove(
                        x as int,
                    ).contains(y) by {
                        self.lemma_view_has(y);
                        old(self).lemma_view_has(y);
                        if y == x as int {
                            assert(!old(self)@.remove(x as int).contains(y));
                            assert(!self.has(y));
                        } else {
                            assert(old(self)@.remove(x as int).contains(y) == old(
                                self,
                            )@.contains(y));
                            assert(self.has(y) == (y == m0 || self.sub_has(y)));
                            assert(old(self).has(y) == (y == m0 || old(self).sub_has(y)));
                            assert(self.sub_has(y) == old(self).sub_has(y));
                        }
                    }
                }
            }
            false
        }
    }
}

/// Division and remainder of `y` by a positive `d`, with their ranges.
proof fn lemma_decomp(y: int, d: int)
    requires
        0 < d,
        0 <= y,
    ensures
        y == d * (y / d) + y % d,
        0 <= y % d < d,
        0 <= y / d,
{
    lemma_fundamental_div_mod(y, d);
    lemma_mod_division_less_than_divisor(y, d);
    lemma_div_pos_is_pos(y, d);
}

/// A value composed from a cluster index and a remainder decomposes back
/// into exactly that pair.
proof fn lemma_comp(u: int, l: int, d: int)
    requires
        0 < d,
        0 <= u,
        0 <= l < d,
    ensures
        (u * d + l) / d == u,
        (u * d + l) % d == l,
        0 <= u * d + l,
{
    lemma_mul_inequality(0, u, d);
    lemma_fundamental_div_mod_converse(u * d + l, d, u, l);
}

/// A value below `n` clusters of size `d` has a cluster index below `n`.
proof fn lemma_div_bound(y: int, n: int, d: int)
    requires
        0 < d,
        0 <= y,
        y < n * d,
    ensures
        y / d < n,
{
    lemma_decomp(y, d);
    if y / d >= n {
        lemma_mul_inequality(n, y / d, d);
        lemma_mul_is_commutative(d, y / d);
        lemma_mul_is_commutative(n, d);
    }
}

/// A composed value sits inside the storage: below `n` clusters of `d`.
proof fn lemma_comp_bound(u: int, l: int, n: int, d: int)
    requires
        0 < d,
        0 <= u < n,
        0 <= l < d,
    ensures
        0 <= u * d + l,
        u * d + l < n * d,
        u * d + l <= n * d - d + l,
    decreases 0int,
{
    lemma_mul_inequality(u, n - 1, d);
    lemma_mul_inequality(u + 1, n, d);
    lemma_mul_is_distributive_add(d, u, 1);
    lemma_mul_is_commutative(d, u + 1);
    lemma_mul_is_commutative(d, u);
    lemma_mul_is_commutative(d, n - 1);
    lemma_mul_is_distributive_add(d, n - 1, 1);
    lemma_mul_is_commutative(d, n);
    lemma_mul_inequality(0, u, d);
}

/// Under `shape_ok` the storage capacity is exactly `2^bits`.
proof fn lemma_cap_pow2(t: &VEBTree)
    requires
        t.shape_ok(),
    ensures
        t.cap() == pow2(t.bits()),
        t.cap() > 0,
{
    lemma_pow2_adds(t.upper.bits(), t.low_bits as nat);
    lemma_pow2_pos(t.bits());
}

/// The view of an inner set is its membership predicate.
proof fn lemma_inner_view_has(t: &InnerVEBTree, y: int)
    ensures
        t@.contains(y) == t.has(y),
{
}

/// Two nodes with the same clusters hold the same substructure values,
/// whatever their cached extremes say.
proof fn lemma_sub_same(a: &VEBTree, b: &VEBTree)
    requires
        a.lower == b.lower,
        a.low_bits == b.low_bits,
    ensures
        forall|y: int| #[trigger] a.sub_has(y) == b.sub_has(y),
{
    assert forall|y: int| #[trigger] a.sub_has(y) == b.sub_has(y) by {
        assert(a.lcap() == b.lcap());
    }
}

/// A set that is not empty holds a witness.
proof fn lemma_set_nonempty(s: Set<int>)
    requires
        !s.is_empty(),
    ensures
        exists|y: int| s.contains(y),
{
    if !(exists|y: int| s.contains(y)) {
        assert(s =~= Set::<int>::empty());
    }
}

/// The capacity is bounded by `2^MAX_BITS`, which fits a `usize` on every
/// platform this crate compiles for.
proof fn lemma_cap_fits(t: &VEBTree)
    requires
        t.shape_ok(),
    ensures
        0 < t.cap() <= pow2(MAX_BITS as nat),
        pow2(MAX_BITS as nat) == 0x4000_0000,
{
    lemma_cap_pow2(t);
    lemma2_to64();
    if t.bits() < MAX_BITS as nat {
        lemma_pow2_strictly_increases(t.bits(), MAX_BITS as nat);
    }
}

} // verus!
