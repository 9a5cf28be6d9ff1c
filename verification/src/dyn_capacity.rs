//! Dynamic construction: given a requested capacity or bit-width at run
//! time, select the smallest sufficient universe and build it empty.
//!
//! The universe never goes below `2^MIN_BITS` values and never above
//! `2^MAX_BITS`; within that range the chosen capacity is the requested
//! one rounded up to the next power of two.
use crate::InnerVEBTree;
use crate::MAX_BITS;
use vstd::arithmetic::power2::{
    lemma2_to64, lemma_pow2_pos, lemma_pow2_strictly_increases, lemma_pow2_unfold, pow2,
};
use vstd::prelude::*;

verus! {

/// Smallest bit-width the dynamic constructors hand out.
pub const MIN_BITS: usize = 4;

/// The power of two is non-decreasing in its exponent.
proof fn lemma_pow2_le(a: nat, b: nat)
    requires
        a <= b,
    ensures
        pow2(a) <= pow2(b),
{
    if a < b {
        lemma_pow2_strictly_increases(a, b);
    }
}

/// Creates the empty set of the smallest supported capacity that is at
/// least `capacity`: the requested count rounded up to a power of two, and
/// to at least `2^MIN_BITS`.
pub fn new_with_capacity(capacity: usize) -> (t: InnerVEBTree)
    requires
        capacity <= pow2(MAX_BITS as nat),
    ensures
        t.wf(),
        t@ == Set::<int>::empty(),
        MIN_BITS <= t.bits() <= MAX_BITS,
        capacity <= pow2(t.bits()),
        t.bits() > MIN_BITS ==> pow2((t.bits() - 1) as nat) < capacity,
{
    proof {
        lemma2_to64();
    }
    let mut bits: usize = MIN_BITS;
    let mut size: usize = 16;
    while size < capacity
        invariant
            MIN_BITS <= bits <= MAX_BITS,
            size == pow2(bits as nat),
            capacity <= pow2(MAX_BITS as nat),
            pow2(MAX_BITS as nat) == 0x4000_0000,
            bits > MIN_BITS ==> pow2((bits - 1) as nat) < capacity,
        decreases MAX_BITS - bits,
    {
        proof {
            if bits >= MAX_BITS {
                lemma_pow2_le(MAX_BITS as nat, bits as nat);
                assert(false);
            }
            lemma_pow2_unfold((bits + 1) as nat);
            lemma_pow2_le((bits + 1) as nat, MAX_BITS as nat);
        }
        size = size * 2;
        bits = bits + 1;
    }
    InnerVEBTree::new(bits)
}

/// Creates the empty set over universes of `bits` bits, raising small
/// requests to the smallest supported width.
pub fn new_with_bits(bits: usize) -> (t: InnerVEBTree)
    requires
        bits <= MAX_BITS,
    ensures
        t.wf(),
        t@ == Set::<int>::empty(),
        t.bits() == if bits < MIN_BITS {
            MIN_BITS as nat
        } else {
            bits as nat
        },
{
    proof {
        lemma2_to64();
        lemma_pow2_le(bits as nat, MAX_BITS as nat);
        lemma_pow2_pos(bits as nat);
        vstd::bits::lemma_usize_shl_is_mul(1, bits);
    }
    let t = new_with_capacity(1usize << bits);
    proof {
        lemma_pow2_le(bits as nat, t.bits());
        if bits >= MIN_BITS {
            if t.bits() > bits {
                assert(t.bits() > MIN_BITS);
                lemma_pow2_le(bits as nat, (t.bits() - 1) as nat);
                assert(false);
            }
            if t.bits() < bits {
                lemma_pow2_strictly_increases(t.bits(), bits as nat);
                assert(false);
            }
        } else {
            if t.bits() > MIN_BITS as nat {
                lemma_pow2_le(bits as nat, (t.bits() - 1) as nat);
                assert(false);
            }
        }
    }
    t
}

} // verus!
