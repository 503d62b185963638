//! Small bit-field helpers shared by the packed-float codecs.

use vstd::arithmetic::power2::*;
use vstd::prelude::*;

verus! {

/// A word with ones in the low `bits` positions: the value `2^bits - 1`.
pub fn mask(bits: usize) -> (r: u64)
    requires
        bits < 64,
    ensures
        r == pow2(bits as nat) - 1,
        r < pow2(bits as nat),
{
    proof {
        vstd::bits::lemma_u64_pow2_no_overflow(bits as nat);
        vstd::bits::lemma_u64_shl_is_mul(1u64, bits as u64);
        lemma_pow2_pos(bits as nat);
    }
    (1u64 << (bits as u64)) - 1
}

/// The IEEE-754 exponent bias for an `exponent`-bit exponent field.
pub fn compute_ieee754_bias(exponent: usize) -> (r: u64)
    requires
        1 <= exponent < 64,
    ensures
        r == pow2((exponent - 1) as nat) - 1,
{
    proof {
        vstd::bits::lemma_u64_pow2_no_overflow((exponent - 1) as nat);
        vstd::bits::lemma_u64_shl_is_mul(1u64, (exponent - 1) as u64);
        lemma_pow2_pos((exponent - 1) as nat);
    }
    (1u64 << ((exponent - 1) as u64)) - 1
}

} // verus!
