//! A small xorshift32 pseudo-random number generator.
//!
//! The state is a single non-zero 32-bit word. Zero is the one fixed point of
//! the xorshift transition, so it is excluded at construction and every state
//! reachable from a non-zero seed is again non-zero.

use vstd::prelude::*;

verus! {

/// One round of xorshift32 on a 32-bit word.
pub open spec fn xorshift32(s: u32) -> u32 {
    let a = s ^ (s << 13);
    let b = a ^ (a >> 17);
    b ^ (b << 5)
}

/// The xorshift32 transition maps non-zero words to non-zero words: each of
/// its three xor-shift stages is invertible, so only zero maps to zero.
pub proof fn lemma_xorshift32_nonzero(s: u32)
    requires
        s != 0,
    ensures
        xorshift32(s) != 0,
{
    assert(s != 0 ==> (s ^ (s << 13)) != 0) by (bit_vector);
    let a = s ^ (s << 13);
    assert(a != 0 ==> (a ^ (a >> 17)) != 0) by (bit_vector);
    let b = a ^ (a >> 17);
    assert(b != 0 ==> (b ^ (b << 5)) != 0) by (bit_vector);
}

/// xorshift32 pseudo-random number generator state.
pub struct Rng(pub u32);

impl Rng {
    /// The generator state is never zero.
    pub open spec fn wf(self) -> bool {
        self.0 != 0
    }

    /// Build a generator from an arbitrary seed word (for instance a hardware
    /// timer reading); the low bit is forced so the state is never zero.
    pub fn from_seed(seed: u32) -> (r: Rng)
        ensures
            r.wf(),
            r.0 == seed | 1,
    {
        proof {
            assert(seed | 1 != 0) by (bit_vector);
        }
        Rng(seed | 1)
    }

    /// Advance the state by one xorshift32 round and return it.
    pub fn next(&mut self) -> (r: u32)
        requires
            old(self).wf(),
        ensures
            final(self).wf(),
            final(self).0 == xorshift32(old(self).0),
            r == final(self).0,
    {
        proof {
            lemma_xorshift32_nonzero(self.0);
        }
        let mut s = self.0;
        s = s ^ (s << 13);
        s = s ^ (s >> 17);
        s = s ^ (s << 5);
        self.0 = s;
        s
    }
}

/// The `k`-fold iterate of the xorshift32 transition.
pub open spec fn xorshift_iter(s: u32, k: nat) -> u32
    decreases k,
{
    if k == 0 {
        s
    } else {
        xorshift32(xorshift_iter(s, (k - 1) as nat))
    }
}

/// Iterating `a` rounds and then `b` rounds is iterating `a + b` rounds.
pub proof fn lemma_xorshift_iter_add(s: u32, a: nat, b: nat)
    ensures
        xorshift_iter(xorshift_iter(s, a), b) == xorshift_iter(s, a + b),
    decreases b,
{
    if b > 0 {
        lemma_xorshift_iter_add(s, a, (b - 1) as nat);
    }
}

} // verus!
