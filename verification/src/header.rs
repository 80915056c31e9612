//! Block headers, their identities, and their proof-of-work values.
use vstd::prelude::*;

verus! {

/// Multiplier of the identity mixing rounds; an odd constant, so that each
/// round is a bijection on 64-bit words.
pub const ID_MULT: u64 = 0x9e37_79b9_7f4a_7c15;

/// Initial accumulator of the identity mixing rounds.
pub const ID_SEED: u64 = 0x5851_f42d_4c95_7f2d;

/// Fixed-shape block metadata: a predecessor identity, a merkle commitment,
/// a timestamp, a difficulty target and a nonce. Headers are plain values and
/// are never mutated after creation.
#[derive(Clone, Copy, PartialEq, Eq, Structural, Debug)]
pub struct Header {
    /// Identity of the predecessor header; links a header to its parent.
    pub prev: u64,
    /// Commitment to the block's contents.
    pub merkle: u64,
    /// Timestamp of the block.
    pub time: u64,
    /// Difficulty target; smaller targets mean more work.
    pub bits: u64,
    /// Arbitrary value chosen by the block's producer.
    pub nonce: u64,
}

/// One round of the identity digest: fold a field into the accumulator.
pub open spec fn mix(acc: u64, x: u64) -> u64 {
    vstd::wrapping::u64_specs::wrapping_mul(acc ^ x, ID_MULT)
}

/// The identity of a header: a fixed-width digest derived deterministically
/// from the header's contents, used as its sole key for storage and linkage.
pub open spec fn id_of(h: Header) -> u64 {
    mix(mix(mix(mix(mix(ID_SEED, h.prev), h.merkle), h.time), h.bits), h.nonce)
}

/// The work value of a difficulty target: inversely proportional to the
/// target, in exact integer arithmetic.
pub open spec fn work_of(bits: u64) -> int {
    (u64::MAX as int) / (bits as int + 1)
}

impl Header {
    /// Compute this header's identity.
    pub fn identity(&self) -> (r: u64)
        ensures
            r == id_of(*self),
    {
        let a0: u64 = (ID_SEED ^ self.prev).wrapping_mul(ID_MULT);
        let a1: u64 = (a0 ^ self.merkle).wrapping_mul(ID_MULT);
        let a2: u64 = (a1 ^ self.time).wrapping_mul(ID_MULT);
        let a3: u64 = (a2 ^ self.bits).wrapping_mul(ID_MULT);
        (a3 ^ self.nonce).wrapping_mul(ID_MULT)
    }

    /// Compute the work value of this header's difficulty target.
    pub fn work(&self) -> (w: u64)
        ensures
            w as int == work_of(self.bits),
    {
        let denom: u128 = (self.bits as u128) + 1;
        let q: u128 = (u64::MAX as u128) / denom;
        assert(q <= u64::MAX as u128) by (nonlinear_arith)
            requires
                denom >= 1,
                q == (u64::MAX as u128) / denom,
        ;
        q as u64
    }
}

/// A work value is non-negative and fits a 64-bit word.
pub proof fn lemma_work_bounds(bits: u64)
    ensures
        0 <= work_of(bits) <= u64::MAX as int,
{
    assert(0 <= (u64::MAX as int) / (bits as int + 1) <= u64::MAX as int) by (nonlinear_arith)
        requires
            1 <= bits as int + 1,
    ;
}

/// A target strictly below the maximum yields at least one unit of work.
pub proof fn lemma_work_positive(bits: u64)
    requires
        bits < u64::MAX,
    ensures
        work_of(bits) >= 1,
{
    assert((u64::MAX as int) / (bits as int + 1) >= 1) by (nonlinear_arith)
        requires
            1 <= bits as int + 1 <= u64::MAX as int,
    ;
}

} // verus!

