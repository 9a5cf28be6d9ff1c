//! The leaf of the recursion: a set over a small universe kept directly as
//! the bits of one machine word.
//!
//! A `SmallSet` of `b` bits (`b <= 6`) holds a subset of `[0, 2^b)`; value
//! `i` is a member exactly when bit `i` of the word is set.  Extremes and
//! neighbour queries come from leading- and trailing-zero counts, so every
//! operation is constant time.
use crate::order::{
    is_maximum, is_minimum, is_predecessor, is_successor, no_predecessor, no_successor,
};
use vstd::arithmetic::power2::{lemma2_to64, lemma_pow2_pos, lemma_pow2_strictly_increases, pow2};
use vstd::prelude::*;
use vstd::std_specs::bits::{
    axiom_u64_leading_zeros, axiom_u64_trailing_zeros, u64_leading_zeros, u64_trailing_zeros,
};

verus! {

/// Bit `i` of the word `w`.
spec fn bit_at(w: u64, i: u64) -> bool {
    (w >> i) & 1u64 == 1u64
}

/// A set of integers below `2^bits`, stored as flag bits of a word.
pub struct SmallSet {
    /// Flag bits: bit `i` is set exactly when `i` is a member.
    word: u64,
    /// Logarithm of the capacity; at most 6, so the word always suffices.
    bits: usize,
}

impl View for SmallSet {
    type V = Set<int>;

    open spec fn view(&self) -> Set<int> {
        Set::new(|y: int| self.has(y))
    }
}

impl SmallSet {
    /// Logarithm of the capacity.
    pub closed spec fn bits(&self) -> nat {
        self.bits as nat
    }

    /// Membership: `y` is within the universe and its flag bit is set.
    pub closed spec fn has(&self, y: int) -> bool {
        &&& 0 <= y < pow2(self.bits as nat)
        &&& bit_at(self.word, y as u64)
    }

    /// Well-formed: the capacity fits the word and no flag bit lies at or
    /// above the capacity.
    pub closed spec fn wf(&self) -> bool {
        &&& self.bits <= 6
        &&& forall|j: u64| j < 64 && pow2(self.bits as nat) <= j ==> !(#[trigger] bit_at(self.word, j))
    }

    /// Every member lies in `[0, 2^bits)`.
    pub proof fn lemma_member_range(&self, y: int)
        requires
            self@.contains(y),
        ensures
            0 <= y < pow2(self.bits()),
    {
    }

    /// Creates an empty set over the universe `[0, 2^bits)`.
    pub fn new(bits: usize) -> (s: Self)
        requires
            bits <= 6,
        ensures
            s.wf(),
            s.bits() == bits,
            s@ == Set::<int>::empty(),
    {
        let s = SmallSet { word: 0, bits };
        proof {
            lemma_small_cap(bits as nat);
            lemma_no_bits(0u64);
            assert(s@ =~= Set::<int>::empty());
        }
        s
    }

    /// Number of values the universe holds, `2^bits`.
    pub fn capacity(&self) -> (c: usize)
        requires
            self.wf(),
        ensures
            c == pow2(self.bits()),
    {
        proof {
            lemma_small_cap(self.bits as nat);
            vstd::bits::lemma_usize_shl_is_mul(1, self.bits);
        }
        1usize << self.bits
    }

    /// Removes every member.
    pub fn clear(&mut self)
        requires
            old(self).wf(),
        ensures
            final(self).wf(),
            final(self).bits() == old(self).bits(),
            final(self)@ == Set::<int>::empty(),
    {
        self.word = 0;
        proof {
            lemma_small_cap(self.bits as nat);
            lemma_no_bits(0u64);
            assert(self@ =~= Set::<int>::empty());
        }
    }

    /// True exactly when the set has no member.
    pub fn is_empty(&self) -> (r: bool)
        requires
            self.wf(),
        ensures
            r == self@.is_empty(),
    {
        let r = self.word == 0;
        proof {
            lemma_small_cap(self.bits as nat);
            if r {
                lemma_no_bits(self.word);
                assert(self@ =~= Set::<int>::empty());
            } else {
                lemma_lowest_bit(self.word);
                let tz = u64_trailing_zeros(self.word) as int;
                assert(self.has(tz));
                assert(self@.contains(tz));
                assert(!self@.is_empty());
            }
        }
        r
    }

    /// Membership test for `x`.
    pub fn contains(&self, x: usize) -> (r: bool)
        requires
            self.wf(),
            (x as nat) < pow2(self.bits()),
        ensures
            r == self@.contains(x as int),
    {
        proof {
            lemma_small_cap(self.bits as nat);
        }
        (self.word >> (x as u64)) & 1 == 1
    }

    /// Adds `x`; returns true exactly when `x` was absent.
    pub fn insert(&mut self, x: usize) -> (r: bool)
        requires
            old(self).wf(),
            (x as nat) < pow2(old(self).bits()),
        ensures
            final(self).wf(),
            final(self).bits() == old(self).bits(),
            final(self)@ == old(self)@.insert(x as int),
            r == !old(self)@.contains(x as int),
    {
        proof {
            lemma_small_cap(self.bits as nat);
        }
        let was = self.contains(x);
        self.word = self.word | (1u64 << (x as u64));
        proof {
            lemma_or_bit(old(self).word, self.word, x as u64);
            assert(self@ =~= old(self)@.insert(x as int));
        }
        !was
    }

    /// Removes `x`; returns true exactly when `x` was present.
    pub fn remove(&mut self, x: usize) -> (r: bool)
        requires
            old(self).wf(),
            (x as nat) < pow2(old(self).bits()),
        ensures
            final(self).wf(),
            final(self).bits() == old(self).bits(),
            final(self)@ == old(self)@.remove(x as int),
            r == old(self)@.contains(x as int),
    {
        proof {
            lemma_small_cap(self.bits as nat);
        }
        let was = self.contains(x);
        self.word = self.word & !(1u64 << (x as u64));
        proof {
            lemma_clear_bit(old(self).word, self.word, x as u64);
            assert(self@ =~= old(self)@.remove(x as int));
        }
        was
    }

    /// The smallest member that is at least `x`, if any.
    pub fn next(&self, x: usize) -> (r: Option<usize>)
        requires
            self.wf(),
            (x as nat) < pow2(self.bits()),
        ensures
            match r {
                Some(v) => is_successor(self@, x as int, v as int) && (v as nat) < pow2(
                    self.bits(),
                ),
                None => no_successor(self@, x as int),
            },
    {
        proof {
            lemma_small_cap(self.bits as nat);
            assert(1u64 << (x as u64) >= 1) by (bit_vector)
                requires
                    (x as u64) < 64,
            ;
        }
        let big = self.word & !((1u64 << (x as u64)) - 1);
        proof {
            lemma_keep_high(self.word, big, x as u64);
        }
        if big != 0 {
            proof {
                lemma_lowest_bit(big);
            }
            let v = big.trailing_zeros() as usize;
            proof {
                assert(self.has(v as int));
                assert forall|y: int| self@.contains(y) && x as int <= y implies v as int <= y by {
                    assert(bit_at(big, y as u64));
                }
            }
            Some(v)
        } else {
            proof {
                lemma_no_bits(big);
                assert forall|y: int| self@.contains(y) implies y < x as int by {
                    if x as int <= y {
                        assert(bit_at(big, y as u64));
                    }
                }
            }
            None
        }
    }

    /// The largest member that is at most `x`, if any.
    pub fn prev(&self, x: usize) -> (r: Option<usize>)
        requires
            self.wf(),
            (x as nat) < pow2(self.bits()),
        ensures
            match r {
                Some(v) => is_predecessor(self@, x as int, v as int) && (v as nat) < pow2(
                    self.bits(),
                ),
                None => no_predecessor(self@, x as int),
            },
    {
        proof {
            lemma_small_cap(self.bits as nat);
        }
        let cap = self.capacity();
        let small = if x == cap - 1 {
            self.word
        } else {
            proof {
                assert(1u64 << ((x + 1) as u64) >= 1) by (bit_vector)
                    requires
                        ((x + 1) as u64) < 64,
                ;
            }
            self.word & ((1u64 << ((x + 1) as u64)) - 1)
        };
        proof {
            if x != cap - 1 {
                lemma_keep_low(self.word, small, x as u64);
            }
        }
        proof {
            assert forall|j: u64| j < 64 implies (bit_at(small, j) <==> (bit_at(self.word, j)
                && j <= x as u64)) by {
                if x == cap - 1 && bit_at(self.word, j) && j > x as u64 {
                    assert(pow2(self.bits as nat) <= j);
                }
            }
        }
        if small != 0 {
            proof {
                lemma_highest_bit(small);
            }
            let lz = small.leading_zeros();
            let v = (63 - lz) as usize;
            proof {
                assert(bit_at(self.word, v as u64));
                assert(self.has(v as int));
                assert forall|y: int| self@.contains(y) && y <= x as int implies y <= v as int by {
                    assert(bit_at(small, y as u64));
                }
            }
            Some(v)
        } else {
            proof {
                lemma_no_bits(small);
                assert forall|y: int| self@.contains(y) implies y > x as int by {
                    if y <= x as int {
                        assert(bit_at(small, y as u64));
                    }
                }
            }
            None
        }
    }

    /// The least member, if any.
    pub fn first(&self) -> (r: Option<usize>)
        requires
            self.wf(),
        ensures
            match r {
                Some(v) => is_minimum(self@, v as int) && (v as nat) < pow2(self.bits()),
                None => self@.is_empty(),
            },
    {
        proof {
            lemma_small_cap(self.bits as nat);
        }
        if self.word != 0 {
            proof {
                lemma_lowest_bit(self.word);
            }
            let v = self.word.trailing_zeros() as usize;
            proof {
                assert(self.has(v as int));
                assert forall|y: int| self@.contains(y) implies v as int <= y by {
                    assert(bit_at(self.word, y as u64));
                }
            }
            Some(v)
        } else {
            proof {
                lemma_no_bits(self.word);
                assert(self@ =~= Set::<int>::empty());
            }
            None
        }
    }

    /// The greatest member, if any.
    pub fn last(&self) -> (r: Option<usize>)
        requires
            self.wf(),
        ensures
            match r {
                Some(v) => is_maximum(self@, v as int) && (v as nat) < pow2(self.bits()),
                None => self@.is_empty(),
            },
    {
        proof {
            lemma_small_cap(self.bits as nat);
        }
        if self.word != 0 {
            proof {
                lemma_highest_bit(self.word);
            }
            let lz = self.word.leading_zeros();
            let v = (63 - lz) as usize;
            proof {
                assert(self.has(v as int));
                assert forall|y: int| self@.contains(y) implies y <= v as int by {
                    assert(bit_at(self.word, y as u64));
                }
            }
            Some(v)
        } else {
            proof {
                lemma_no_bits(self.word);
                assert(self@ =~= Set::<int>::empty());
            }
            None
        }
    }
}

/// The capacity of a leaf fits the word: `2^b <= 64` for `b <= 6`.
proof fn lemma_small_cap(b: nat)
    requires
        b <= 6,
    ensures
        0 < pow2(b) <= 64,
{
    lemma_pow2_pos(b);
    lemma2_to64();
    if b < 6 {
        lemma_pow2_strictly_increases(b, 6);
    }
}

/// A zero word has no bit set.
proof fn lemma_no_bits(w: u64)
    requires
        w == 0,
    ensures
        forall|j: u64| j < 64 ==> !(#[trigger] bit_at(w, j)),
{
    assert forall|j: u64| j < 64 implies !bit_at(w, j) by {
        assert(!bit_at(w, j)) by (bit_vector)
            requires
                w == 0,
                j < 64,
        ;
    }
}

/// Setting bit `x` leaves every other bit alone.
proof fn lemma_or_bit(w: u64, m: u64, x: u64)
    by (bit_vector)
    requires
        x < 64,
        m == w | (1u64 << x),
    ensures
        forall|j: u64| j < 64 ==> (#[trigger] bit_at(m, j) <==> (bit_at(w, j) || j == x)),
{
}

/// Clearing bit `x` leaves every other bit alone.
proof fn lemma_clear_bit(w: u64, m: u64, x: u64)
    by (bit_vector)
    requires
        x < 64,
        m == w & !(1u64 << x),
    ensures
        forall|j: u64| j < 64 ==> (#[trigger] bit_at(m, j) <==> (bit_at(w, j) && j != x)),
{
}

/// Masking away the bits below `x` keeps exactly the bits at `x` and above.
proof fn lemma_keep_high(w: u64, m: u64, x: u64)
    by (bit_vector)
    requires
        x < 64,
        m == w & !(((1u64 << x) - 1) as u64),
    ensures
        forall|j: u64| j < 64 ==> (#[trigger] bit_at(m, j) <==> (bit_at(w, j) && j >= x)),
{
}

/// Masking away the bits above `x` keeps exactly the bits at `x` and below.
proof fn lemma_keep_low(w: u64, m: u64, x: u64)
    by (bit_vector)
    requires
        x < 63,
        m == w & (((1u64 << ((x + 1) as u64)) - 1) as u64),
    ensures
        forall|j: u64| j < 64 ==> (#[trigger] bit_at(m, j) <==> (bit_at(w, j) && j <= x)),
{
}

/// The trailing-zero count of a non-zero word names its lowest set bit.
proof fn lemma_lowest_bit(w: u64)
    requires
        w != 0,
    ensures
        u64_trailing_zeros(w) < 64,
        bit_at(w, u64_trailing_zeros(w) as u64),
        forall|j: u64| j < u64_trailing_zeros(w) ==> !(#[trigger] bit_at(w, j)),
{
    axiom_u64_trailing_zeros(w);
}

/// The leading-zero count of a non-zero word names its highest set bit.
proof fn lemma_highest_bit(w: u64)
    requires
        w != 0,
    ensures
        0 <= u64_leading_zeros(w) < 64,
        bit_at(w, (63 - u64_leading_zeros(w)) as u64),
        forall|j: u64| 63 - u64_leading_zeros(w) < j < 64 ==> !(#[trigger] bit_at(w, j)),
{
    axiom_u64_leading_zeros(w);
    let k = (63 - u64_leading_zeros(w)) as u64;
    assert((w >> k) & 1u64 == 0u64 || (w >> k) & 1u64 == 1u64) by (bit_vector);
}

} // verus!
