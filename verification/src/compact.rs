//! A compact floating-point variant with a single-word mantissa.
//!
//! Here the mantissa is one 64-bit word, left-aligned: the explicit
//! leading bit of a normal value sits at bit 63, so a value denotes
//! `(mantissa / 2^63) * 2^exp`.  The exponent is stored biased, as in the
//! packed layout, which makes the special exponent codes directly visible.
//! The wide `Float` in `crate::float` supersedes this type; it stays for
//! callers that fit one word and want the leaner layout.

use crate::float::spec_bias;
use crate::float::spec_exp_max;
use vstd::arithmetic::div_mod::*;
use vstd::arithmetic::mul::*;
use vstd::arithmetic::power2::*;
use vstd::prelude::*;

verus! {

/// Rounding policies of the compact variant: truncate, or ties to even.
#[derive(Debug, Clone, Copy, PartialEq, Eq, Structural)]
pub enum RoundMode {
    Trunc,
    Even,
}

/// The exponent bounds of this variant: the minimum is `-bias` (one lower
/// than the wide variant's), the maximum leaves the top code for specials.
pub open spec fn spec_compact_exp_min(e: nat) -> int {
    -spec_bias(e)
}

/// A compact float: sign, biased exponent, left-aligned one-word mantissa.
#[derive(Debug, Clone, Copy, PartialEq, Eq)]
pub struct Float<const EXPONENT: usize, const MANTISSA: usize> {
    pub sign: bool,
    pub exp: u64,
    pub mantissa: u64,
}

/// What `round` computes on the raw mantissa and biased exponent: the low
/// `64 - num_bits` mantissa bits are cleared; under ties-to-even the kept
/// part is incremented when the cleared part was past half, or exactly
/// half beside an odd kept bit, and a carry out of the top moves into the
/// exponent.
pub open spec fn spec_round(mant: nat, exp: nat, num_bits: nat, mode: RoundMode) -> (nat, nat) {
    let rest = (64 - num_bits) as nat;
    let q = mant / pow2(rest);
    let bottom = mant % pow2(rest);
    let half = pow2((rest - 1) as nat);
    if mode is Trunc {
        (q * pow2(rest), exp)
    } else {
        if bottom > half || (bottom == half && q % 2 == 1) {
            if q + 1 == pow2(num_bits) {
                (0, (exp + 1) as nat)
            } else {
                ((q + 1) * pow2(rest), exp)
            }
        } else {
            (q * pow2(rest), exp)
        }
    }
}

impl<const EXPONENT: usize, const MANTISSA: usize> Float<EXPONENT, MANTISSA> {
    /// The format's exponent bias.
    pub fn get_bias() -> (r: u64)
        requires
            3 <= EXPONENT <= 60,
        ensures
            r == spec_bias(EXPONENT as nat),
    {
        crate::utils::compute_ieee754_bias(EXPONENT)
    }

    /// The lower and upper bounds of the unbiased exponent.
    pub fn get_exp_bounds() -> (r: (i64, i64))
        requires
            3 <= EXPONENT <= 60,
        ensures
            r.0 == spec_compact_exp_min(EXPONENT as nat),
            r.1 == spec_exp_max(EXPONENT as nat),
    {
        let bias = Self::get_bias();
        proof {
            lemma_compact_ranges(EXPONENT as nat);
        }
        let exp_min: i64 = -(bias as i64);
        let exp_max: i64 = ((1u64 << (EXPONENT as u64)) as i64) - (bias as i64) - 2;
        (exp_min, exp_max)
    }

    /// A fresh normal value from unbiased exponent and raw mantissa.
    pub fn new(sign: bool, exp: i64, sig: u64) -> (r: Self)
        requires
            3 <= EXPONENT <= 60,
            spec_compact_exp_min(EXPONENT as nat) <= exp as int <= spec_exp_max(EXPONENT as nat),
        ensures
            r.sign == sign,
            r.exp as int == exp + spec_bias(EXPONENT as nat),
            r.mantissa == sig,
    {
        let mut a = Self { sign: false, exp: 0, mantissa: 0 };
        a.set_sign(sign);
        a.set_exp(exp);
        a.set_mantissa(sig);
        a
    }

    /// The zero of the given sign: exponent code zero, empty mantissa.
    pub fn zero(sign: bool) -> (r: Self)
        ensures
            r.sign == sign,
            r.exp == 0,
            r.mantissa == 0,
    {
        Self { sign, exp: 0, mantissa: 0 }
    }

    /// The infinity of the given sign: all-ones exponent, empty mantissa.
    pub fn inf(sign: bool) -> (r: Self)
        requires
            3 <= EXPONENT <= 60,
        ensures
            r.sign == sign,
            r.exp as nat == pow2(EXPONENT as nat) - 1,
            r.mantissa == 0,
    {
        Self { sign, exp: crate::utils::mask(EXPONENT), mantissa: 0 }
    }

    /// A NaN of the given sign: all-ones exponent and a set payload bit
    /// beside the explicit leading bit.
    pub fn nan(sign: bool) -> (r: Self)
        requires
            3 <= EXPONENT <= 60,
        ensures
            r.sign == sign,
            r.exp as nat == pow2(EXPONENT as nat) - 1,
            r.mantissa == 0xc000_0000_0000_0000u64,
    {
        Self { sign, exp: crate::utils::mask(EXPONENT), mantissa: 0xc000_0000_0000_0000u64 }
    }

    /// True if the exponent holds the reserved all-ones code.
    pub fn in_special_exp(&self) -> (r: bool)
        requires
            3 <= EXPONENT <= 60,
        ensures
            r <==> self.exp as nat == pow2(EXPONENT as nat) - 1,
    {
        self.get_unbiased_exp() == crate::utils::mask(EXPONENT)
    }

    /// True if the sign bit is set.
    pub fn is_negative(&self) -> (r: bool)
        ensures
            r == self.sign,
    {
        self.get_sign()
    }

    /// True for a positive or negative infinity.
    pub fn is_inf(&self) -> (r: bool)
        requires
            3 <= EXPONENT <= 60,
        ensures
            r <==> (self.exp as nat == pow2(EXPONENT as nat) - 1 && self.mantissa as nat % pow2(63)
                == 0),
    {
        proof {
            lemma_frac_is_mod(self.mantissa);
        }
        self.in_special_exp() && self.get_frac_mantissa() == 0
    }

    /// True for a positive or negative NaN.
    pub fn is_nan(&self) -> (r: bool)
        requires
            3 <= EXPONENT <= 60,
        ensures
            r <==> (self.exp as nat == pow2(EXPONENT as nat) - 1 && self.mantissa as nat % pow2(63)
                != 0),
    {
        proof {
            lemma_frac_is_mod(self.mantissa);
        }
        self.in_special_exp() && self.get_frac_mantissa() != 0
    }

    /// True for a positive or negative zero.
    pub fn is_zero(&self) -> (r: bool)
        ensures
            r <==> (self.exp == 0 && self.mantissa == 0),
    {
        self.get_unbiased_exp() == 0 && self.get_mantissa() == 0
    }

    /// True when the exponent code is not the subnormal code zero.
    pub fn is_normal(&self) -> (r: bool)
        ensures
            r <==> self.exp != 0,
    {
        self.get_unbiased_exp() != 0
    }

    /// The sign bit.
    pub fn get_sign(&self) -> (r: bool)
        ensures
            r == self.sign,
    {
        self.sign
    }

    /// Set the sign to `s`.
    pub fn set_sign(&mut self, s: bool)
        ensures
            final(self).sign == s,
            final(self).exp == old(self).exp,
            final(self).mantissa == old(self).mantissa,
    {
        self.sign = s;
    }

    /// The mantissa, explicit leading bit included.
    pub fn get_mantissa(&self) -> (r: u64)
        ensures
            r == self.mantissa,
    {
        self.mantissa
    }

    /// The fractional part of the mantissa, without the leading bit.
    fn get_frac_mantissa(&self) -> (r: u64)
        ensures
            r as nat == (self.mantissa as nat % pow2(63)) * 2,
    {
        proof {
            lemma_frac_is_mod(self.mantissa);
        }
        self.mantissa << 1u64
    }

    /// Set the mantissa, explicit leading bit included.
    pub fn set_mantissa(&mut self, sg: u64)
        ensures
            final(self).mantissa == sg,
            final(self).sign == old(self).sign,
            final(self).exp == old(self).exp,
    {
        self.mantissa = sg;
    }

    /// The stored, biased exponent.
    fn get_unbiased_exp(&self) -> (r: u64)
        ensures
            r == self.exp,
    {
        self.exp
    }

    /// The unbiased exponent.
    pub fn get_exp(&self) -> (r: i64)
        requires
            3 <= EXPONENT <= 60,
            self.exp < 0x8000_0000_0000_0000u64,
        ensures
            r as int == self.exp as int - spec_bias(EXPONENT as nat),
    {
        proof {
            lemma_compact_ranges(EXPONENT as nat);
        }
        (self.exp as i64) - (Self::get_bias() as i64)
    }

    /// Set the unbiased exponent; it must lie within the format's bounds.
    pub fn set_exp(&mut self, new_exp: i64)
        requires
            3 <= EXPONENT <= 60,
            spec_compact_exp_min(EXPONENT as nat) <= new_exp as int <= spec_exp_max(
                EXPONENT as nat,
            ),
        ensures
            final(self).exp as int == new_exp + spec_bias(EXPONENT as nat),
            final(self).sign == old(self).sign,
            final(self).mantissa == old(self).mantissa,
    {
        proof {
            lemma_compact_ranges(EXPONENT as nat);
        }
        let bias = Self::get_bias();
        let shifted: i64 = new_exp + (bias as i64);
        self.exp = shifted as u64;
    }

    /// Set the stored exponent code directly.
    fn set_unbiased_exp(&mut self, new_exp: u64)
        ensures
            final(self).exp == new_exp,
            final(self).sign == old(self).sign,
            final(self).mantissa == old(self).mantissa,
    {
        self.exp = new_exp;
    }

    /// The same value with the sign flipped.
    pub fn neg(&self) -> (r: Self)
        ensures
            r.sign == !self.sign,
            r.exp == self.exp,
            r.mantissa == self.mantissa,
    {
        let mut a = *self;
        a.set_sign(!self.get_sign());
        a
    }

    /// Round the mantissa to `num_bits` of accuracy; the cleared low bits
    /// may round the kept part up, and a carry out of the top raises the
    /// exponent.
    pub fn round(&mut self, num_bits: usize, mode: RoundMode)
        requires
            1 <= num_bits < 64,
            old(self).exp < 0xFFFF_FFFF_FFFF_FFFFu64,
        ensures
            ({
                let (rm, re) = spec_round(
                    old(self).mantissa as nat,
                    old(self).exp as nat,
                    num_bits as nat,
                    mode,
                );
                final(self).mantissa == rm && final(self).exp == re
            }),
            final(self).sign == old(self).sign,
    {
        let val: u64 = self.mantissa;
        let rest_bits: u64 = 64 - (num_bits as u64);
        proof {
            lemma_round_pieces(val, rest_bits);
        }
        let is_odd: bool = ((val >> rest_bits) & 0x1u64) == 1;
        let bottom: u64 = val & crate::utils::mask(rest_bits as usize);
        let half: u64 = 1u64 << (rest_bits - 1);

        // Clear the lower part.
        let kept: u64 = (val >> rest_bits) << rest_bits;

        match mode {
            RoundMode::Trunc => {
                self.mantissa = kept;
            },
            RoundMode::Even => {
                if bottom > half || ((bottom == half) && is_odd) {
                    // Past the half point, or exactly half beside an odd
                    // bit: round up, adjusting the exponent on a carry.
                    proof {
                        lemma_round_increment(val, rest_bits);
                    }
                    let q: u64 = val >> rest_bits;
                    if q == (0xFFFF_FFFF_FFFF_FFFFu64 >> rest_bits) {
                        self.mantissa = 0;
                        self.exp = self.exp + 1;
                    } else {
                        self.mantissa = (q + 1) << rest_bits;
                    }
                } else {
                    self.mantissa = kept;
                }
            },
        }
    }
}

/// What `from_u64` stores: zero for zero; an infinity code when the
/// value's exponent exceeds the format's range; otherwise the value
/// left-aligned to bit 63 and rounded to the format's precision.
pub open spec fn spec_compact_from_u64(e: nat, m: nat, v: u64) -> (bool, nat, nat) {
    if v == 0 {
        (false, 0, 0)
    } else {
        let blen = crate::bigint::spec_bit_len(v as nat);
        let size = (blen - 1) as int;
        if size > spec_exp_max(e) {
            (false, (pow2(e) - 1) as nat, 0)
        } else {
            let mant0 = v as nat * pow2((64 - blen) as nat);
            let biased = (size + spec_bias(e)) as nat;
            let rounded = spec_round(mant0, biased, m + 1, RoundMode::Even);
            (false, rounded.1, rounded.0)
        }
    }
}

/// What `from_bits` stores for a packed `(e2, m2)` value read into this
/// `(e, m)` format, as (sign, biased exponent, mantissa).
pub open spec fn spec_compact_from_bits(e: nat, e2: nat, m2: nat, raw: u64) -> (bool, nat, nat) {
    let biased = (raw as nat / pow2(m2)) % pow2(e2);
    let sign = (raw as nat / pow2(e2 + m2)) % 2 == 1;
    let field = raw as nat % pow2(m2);
    if biased == pow2(e2) - 1 {
        if field == 0 {
            (sign, (pow2(e) - 1) as nat, 0)
        } else {
            (sign, (pow2(e) - 1) as nat, 0xc000_0000_0000_0000)
        }
    } else {
        let exp = biased - spec_bias(e2);
        if exp < spec_compact_exp_min(e) {
            (sign, 0, 0)
        } else if exp > spec_exp_max(e) {
            (sign, (pow2(e) - 1) as nat, 0)
        } else {
            let mant = field * pow2((63 - m2) as nat) + if biased != 0 {
                pow2(63)
            } else {
                0
            };
            (sign, (exp + spec_bias(e)) as nat, mant)
        }
    }
}

impl<const EXPONENT: usize, const MANTISSA: usize> Float<EXPONENT, MANTISSA> {
    /// The rounded value of an unsigned 64-bit integer.
    pub fn from_u64(val: u64) -> (r: Self)
        requires
            3 <= EXPONENT <= 60,
            1 <= MANTISSA < 63,
        ensures
            ({
                let (sg, ex, mt) = spec_compact_from_u64(EXPONENT as nat, MANTISSA as nat, val);
                r.sign == sg && r.exp == ex && r.mantissa == mt
            }),
    {
        if val == 0 {
            return Self::zero(false);
        }
        let lz: u32 = val.leading_zeros();
        proof {
            lemma_leading_zeros_bit_len(val);
            lemma_compact_ranges(EXPONENT as nat);
        }
        let size_in_bits: u64 = 64 - (lz as u64) - 1;
        let bounds = Self::get_exp_bounds();
        // If the exponent cannot reach the value, this is infinity.
        if size_in_bits as i64 > bounds.1 {
            return Self::inf(false);
        }
        let mut a = Self::zero(false);
        a.set_exp(size_in_bits as i64);
        proof {
            vstd::bits::lemma_u64_pow2_no_overflow(lz as nat);
            assert(pow2(64) == 0x1_0000_0000_0000_0000) by {
                lemma_pow2_adds(63, 1);
                lemma2_to64_rest();
                assert(pow2(1) == 2) by {
                    lemma2_to64();
                }
            }
            vstd::bits::lemma_u64_shl_is_mul(val, lz as u64);
        }
        a.set_mantissa(val << (lz as u64));
        a.set_sign(false);
        a.round(MANTISSA + 1, RoundMode::Even);
        a
    }

    /// The rounded value of a signed 64-bit integer.
    pub fn from_i64(val: i64) -> (r: Self)
        requires
            3 <= EXPONENT <= 60,
            1 <= MANTISSA < 63,
        ensures
            ({
                let mag: u64 = if val < 0 {
                    ((-(val as int)) as u64)
                } else {
                    val as u64
                };
                let (sg, ex, mt) = spec_compact_from_u64(EXPONENT as nat, MANTISSA as nat, mag);
                r.sign == (val < 0) && r.exp == ex && r.mantissa == mt
            }),
    {
        if val < 0 {
            let mag: u64 = if val == i64::MIN {
                0x8000_0000_0000_0000u64
            } else {
                (-val) as u64
            };
            let mut a = Self::from_u64(mag);
            a.set_sign(true);
            return a;
        }
        Self::from_u64(val as u64)
    }

    /// Decode a packed bit pattern in the `(E2, M2)` layout.
    pub fn from_bits<const E2: usize, const M2: usize>(raw: u64) -> (r: Self)
        requires
            3 <= EXPONENT <= 60,
            crate::cast::valid_packed(E2 as nat, M2 as nat),
        ensures
            ({
                let (sg, ex, mt) = spec_compact_from_bits(EXPONENT as nat, E2 as nat, M2 as nat, raw);
                r.sign == sg && r.exp == ex && r.mantissa == mt
            }),
    {
        proof {
            crate::cast::lemma_packed_fields(raw, E2 as nat, M2 as nat);
            lemma_compact_ranges(EXPONENT as nat);
        }
        // Extract the fields.
        let biased_exp: u64 = (raw >> (M2 as u64)) & crate::utils::mask(E2);
        let sign_bit: u64 = (raw >> ((E2 + M2) as u64)) & 1;
        let mantissa_field: u64 = raw & crate::utils::mask(M2);
        let sign = sign_bit == 1;

        // Check for NaN/Inf.
        if biased_exp == crate::utils::mask(E2) {
            if mantissa_field == 0 {
                return Self::inf(sign);
            }
            return Self::nan(sign);
        }
        let bias2 = crate::utils::compute_ieee754_bias(E2);
        proof {
            if ((E2 - 1) as nat) < 61 {
                vstd::arithmetic::power2::lemma_pow2_strictly_increases((E2 - 1) as nat, 61);
            }
            assert(pow2(61) == 0x2000_0000_0000_0000 && pow2(62) == 0x4000_0000_0000_0000) by {
                lemma2_to64_rest();
            }
        }
        let exp: i64 = (biased_exp as i64) - (bias2 as i64);
        let bounds = Self::get_exp_bounds();
        if exp < bounds.0 {
            return Self::zero(sign);
        } else if exp > bounds.1 {
            return Self::inf(sign);
        }
        let mut a = Self::zero(sign);
        a.set_exp(exp);
        let leading_1 = biased_exp != 0;
        proof {
            lemma_compact_expand(mantissa_field, M2 as nat);
        }
        let top: u64 = if leading_1 {
            0x8000_0000_0000_0000u64
        } else {
            0
        };
        let new_mantissa: u64 = (mantissa_field << ((63 - M2) as u64)) | top;
        a.set_mantissa(new_mantissa);
        a
    }

    /// Reinterpret the value under another format and round it to fit.
    /// Casting a finite value whose exponent sits below the target's range
    /// is a caller error, ruled out by the contract.
    pub fn cast<const E2: usize, const S2: usize>(&self) -> (r: Float<E2, S2>)
        requires
            3 <= EXPONENT <= 60,
            3 <= E2 <= 60,
            1 <= S2 < 63,
            (self.exp as nat) < pow2(EXPONENT as nat),
            (self.exp as nat != pow2(EXPONENT as nat) - 1 && self.exp as int - spec_bias(
                EXPONENT as nat,
            ) <= spec_exp_max(E2 as nat)) ==> self.exp as int - spec_bias(EXPONENT as nat)
                >= spec_compact_exp_min(E2 as nat),
        ensures
            ({
                let biased = self.exp as nat;
                let special = pow2(EXPONENT as nat) - 1;
                let exp = self.exp as int - spec_bias(EXPONENT as nat);
                if biased == special && self.mantissa as nat % pow2(63) != 0 {
                    // NaN propagates
                    r.sign == self.sign && r.exp as nat == pow2(E2 as nat) - 1 && r.mantissa
                        == 0xc000_0000_0000_0000u64
                } else if biased == special || exp > spec_exp_max(E2 as nat) {
                    // infinity, directly or by overflow
                    r.sign == self.sign && r.exp as nat == pow2(E2 as nat) - 1 && r.mantissa == 0
                } else {
                    let rounded = spec_round(
                        self.mantissa as nat,
                        (exp + spec_bias(E2 as nat)) as nat,
                        (S2 + 1) as nat,
                        RoundMode::Even,
                    );
                    r.sign == self.sign && r.exp == rounded.1 && r.mantissa == rounded.0
                }
            }),
    {
        proof {
            lemma_compact_ranges(EXPONENT as nat);
            lemma_compact_ranges(E2 as nat);
        }
        if self.is_nan() {
            return Float::<E2, S2>::nan(self.sign);
        }
        if self.is_inf() {
            return Float::<E2, S2>::inf(self.sign);
        }
        let exp = self.get_exp();
        let exp_bounds = Float::<E2, S2>::get_exp_bounds();
        // Overflow.
        if exp > exp_bounds.1 {
            return Float::<E2, S2>::inf(self.get_sign());
        }
        let mut x = Float::<E2, S2>::zero(false);
        x.set_mantissa(self.get_mantissa());
        x.set_sign(self.get_sign());
        x.set_exp(exp);
        // Round to the S2 bits of the output mantissa, plus the explicit
        // leading bit.
        x.round(S2 + 1, RoundMode::Even);
        x
    }

    /// Pack the value into its native bit pattern: the mantissa loses its
    /// explicit leading bit and keeps its top `MANTISSA` fraction bits.
    pub fn as_native_float(&self) -> (r: u64)
        requires
            3 <= EXPONENT <= 60,
            1 <= MANTISSA,
            EXPONENT + MANTISSA + 1 <= 64,
            (self.exp as nat) < pow2(EXPONENT as nat),
        ensures
            r == (if self.sign {
                1nat
            } else {
                0nat
            }) * pow2((EXPONENT + MANTISSA) as nat) + self.exp as nat * pow2(MANTISSA as nat) + (
            self.mantissa as nat % pow2(63)) / pow2((63 - MANTISSA) as nat),
    {
        let ghost e = EXPONENT as nat;
        let ghost m = MANTISSA as nat;
        let sign_bit: u64 = if self.get_sign() {
            1
        } else {
            0
        };
        let exp_field: u64 = self.exp;
        let mant: u64 = self.get_mantissa();
        let shifted: u64 = mant << 1u64;
        let mantissa_field: u64 = shifted >> ((64 - MANTISSA) as u64);
        proof {
            lemma_frac_is_mod(mant);
            vstd::bits::lemma_u64_shr_is_div(shifted, (64 - MANTISSA) as u64);
            assert(pow2(64) == 0x1_0000_0000_0000_0000) by {
                lemma_pow2_adds(63, 1);
                lemma2_to64_rest();
                assert(pow2(1) == 2) by {
                    lemma2_to64();
                }
            }
            lemma_compact_field(mant as nat, m);
            crate::cast::lemma_pack_fits(e, m, sign_bit as nat, exp_field as nat,
                mantissa_field as nat);
        }
        let high: u64 = (sign_bit << (EXPONENT as u64)) | exp_field;
        let bits: u64 = (high << (MANTISSA as u64)) | mantissa_field;
        proof {
            crate::cast::lemma_pack_value(e, m, sign_bit, exp_field, mantissa_field, high, bits);
        }
        bits
    }
}

/// The doubled-and-shifted fraction is the fraction divided at the field
/// boundary, and it fits the field.
proof fn lemma_compact_field(mant: nat, m: nat)
    requires
        1 <= m <= 60,
        mant < pow2(64),
    ensures
        ((mant % pow2(63)) * 2) / pow2((64 - m) as nat) == (mant % pow2(63)) / pow2(
            (63 - m) as nat,
        ),
        (mant % pow2(63)) / pow2((63 - m) as nat) < pow2(m),
{
    let f = mant % pow2(63);
    lemma_pow2_pos(63);
    lemma_pow2_pos((63 - m) as nat);
    lemma_pow2_pos((64 - m) as nat);
    lemma_mod_bound(mant as int, pow2(63) as int);
    assert((f * 2) / pow2((64 - m) as nat) == (f * 2 / 2) / pow2((63 - m) as nat)) by {
        lemma_pow2_adds(1, (63 - m) as nat);
        assert(pow2(1) == 2) by {
            lemma2_to64();
        }
        lemma_div_denominator((f * 2) as int, 2, pow2((63 - m) as nat) as int);
    }
    assert(f * 2 / 2 == f) by {
        lemma_div_multiples_vanish(f as int, 2);
        lemma_mul_is_commutative(f as int, 2);
    }
    assert(f / pow2((63 - m) as nat) < pow2(m)) by {
        lemma_pow2_adds(m, (63 - m) as nat);
        lemma_multiply_divide_lt(f as int, pow2((63 - m) as nat) as int, pow2(m) as int);
    }
}

/// Left-shifting the compact field to the top of the word is a clean
/// multiply, and the explicit bit lands on a clear position.
proof fn lemma_compact_expand(field: u64, m2: nat)
    requires
        1 <= m2,
        m2 + 4 <= 64,
        (field as nat) < pow2(m2),
    ensures
        (field << ((63 - m2) as u64)) as nat == field as nat * pow2((63 - m2) as nat),
        ((field << ((63 - m2) as u64)) | 0x8000_0000_0000_0000u64) as nat == field as nat * pow2(
            (63 - m2) as nat,
        ) + pow2(63),
        (field << ((63 - m2) as u64)) | 0u64 == (field << ((63 - m2) as u64)),
{
    vstd::bits::lemma_u64_pow2_no_overflow((63 - m2) as nat);
    assert(field as nat * pow2((63 - m2) as nat) <= (pow2(m2) - 1) * pow2((63 - m2) as nat)) by {
        lemma_pow2_pos((63 - m2) as nat);
        lemma_mul_inequality(field as int, pow2(m2) as int - 1, pow2((63 - m2) as nat) as int);
    }
    assert((pow2(m2) - 1) * pow2((63 - m2) as nat) == pow2(63) - pow2((63 - m2) as nat)) by {
        lemma_mul_is_distributive_sub_other_way(
            pow2((63 - m2) as nat) as int,
            pow2(m2) as int,
            1,
        );
        lemma_pow2_adds(m2, (63 - m2) as nat);
    }
    assert(pow2(63) == 0x8000_0000_0000_0000) by {
        lemma2_to64_rest();
    }
    lemma_pow2_pos((63 - m2) as nat);
    vstd::bits::lemma_u64_shl_is_mul(field, (63 - m2) as u64);
    let sh: u64 = field << ((63 - m2) as u64);
    assert((sh | 0x8000_0000_0000_0000u64) == sh + 0x8000_0000_0000_0000u64) by (bit_vector)
        requires
            sh < 0x8000_0000_0000_0000u64,
    ;
    assert((sh | 0u64) == sh) by (bit_vector);
}

/// Leading zeros pin a non-zero word's bit length and bounds.
proof fn lemma_leading_zeros_bit_len(x: u64)
    requires
        x != 0,
    ensures
        vstd::std_specs::bits::u64_leading_zeros(x) < 64,
        crate::bigint::spec_bit_len(x as nat) == 64 - vstd::std_specs::bits::u64_leading_zeros(x),
        pow2((63 - vstd::std_specs::bits::u64_leading_zeros(x)) as nat) <= x as nat,
        (x as nat) < pow2((64 - vstd::std_specs::bits::u64_leading_zeros(x)) as nat),
        x as nat * pow2(vstd::std_specs::bits::u64_leading_zeros(x) as nat) < pow2(64),
{
    broadcast use vstd::std_specs::bits::axiom_u64_leading_zeros;

    let lz = vstd::std_specs::bits::u64_leading_zeros(x) as nat;
    let idx = (64 - lz) as nat;
    assert(x < pow2(idx)) by {
        if idx < 64 {
            assert(x >> (idx as u64) == 0);
            vstd::bits::lemma_u64_shr_is_div(x, idx as u64);
            lemma_pow2_pos(idx);
            lemma_fundamental_div_mod(x as int, pow2(idx) as int);
            lemma_mod_bound(x as int, pow2(idx) as int);
        } else {
            lemma2_to64_rest();
        }
    }
    assert(pow2((idx - 1) as nat) <= x) by {
        assert((x >> (((idx - 1) as u64)) as u64) & 1u64 != 0u64);
        vstd::bits::lemma_u64_shr_is_div(x, (idx - 1) as u64);
        lemma_pow2_pos((idx - 1) as nat);
        assert(x as nat / pow2((idx - 1) as nat) >= 1) by {
            let sh: u64 = x >> ((idx - 1) as u64);
            assert(sh & 1u64 != 0u64 ==> sh != 0u64) by (bit_vector);
        }
        lemma_fundamental_div_mod(x as int, pow2((idx - 1) as nat) as int);
        lemma_mod_bound(x as int, pow2((idx - 1) as nat) as int);
        lemma_mul_inequality(1, (x as nat / pow2((idx - 1) as nat)) as int, pow2(
            (idx - 1) as nat,
        ) as int);
        lemma_mul_is_commutative((x as nat / pow2((idx - 1) as nat)) as int, pow2(
            (idx - 1) as nat,
        ) as int);
    }
    crate::bigint::lemma_bit_len_unique(x as nat, idx);
    assert(x as nat * pow2(lz) < pow2(idx) * pow2(lz)) by {
        lemma_pow2_pos(lz);
        lemma_mul_strict_inequality(x as int, pow2(idx) as int, pow2(lz) as int);
    }
    lemma_pow2_adds(idx, lz);
}

impl<const EXPONENT: usize, const MANTISSA: usize> Default for Float<EXPONENT, MANTISSA> {
    /// The default value is the positive zero pattern.
    fn default() -> (r: Self)
        ensures
            r.sign == false,
            r.exp == 0,
            r.mantissa == 0,
    {
        Self { sign: false, exp: 0, mantissa: 0 }
    }
}

/// The shifted fraction is the doubled remainder by `2^63`.
proof fn lemma_frac_is_mod(mant: u64)
    ensures
        (mant << 1u64) as nat == (mant as nat % pow2(63)) * 2,
        (mant << 1u64) == 0u64 <==> mant as nat % pow2(63) == 0,
{
    assert((mant << 1u64) == ((mant % 0x8000_0000_0000_0000u64) * 2)) by (bit_vector);
    assert(pow2(63) == 0x8000_0000_0000_0000) by {
        lemma2_to64_rest();
    }
    lemma_pow2_pos(63);
}

/// Exponent-range facts for the compact layout.
proof fn lemma_compact_ranges(e: nat)
    requires
        3 <= e <= 60,
    ensures
        0 < spec_bias(e) < 0x1000_0000_0000_0000,
        pow2(e) <= 0x1000_0000_0000_0000,
        spec_bias(e) + spec_exp_max(e) == pow2(e) - 2,
        (1u64 << (e as u64)) == pow2(e),
{
    lemma_pow2_strictly_increases((e - 1) as nat, e);
    lemma_pow2_strictly_increases(0, (e - 1) as nat);
    if e < 60 {
        lemma_pow2_strictly_increases(e, 60);
    }
    assert(pow2(0) == 1) by {
        lemma2_to64();
    }
    assert(pow2(60) == 0x1000_0000_0000_0000) by {
        lemma2_to64_rest();
    }
    vstd::bits::lemma_u64_pow2_no_overflow(e);
    vstd::bits::lemma_u64_shl_is_mul(1u64, e as u64);
}

/// The bit-level pieces of `round` read arithmetically: the shifted-out
/// quotient, the masked bottom, the half point and the cleared value.
proof fn lemma_round_pieces(val: u64, rest: u64)
    requires
        1 <= rest <= 63,
    ensures
        (val >> rest) == val as nat / pow2(rest as nat),
        (val & (((1u64 << rest) - 1) as u64)) == val as nat % pow2(rest as nat),
        (1u64 << (rest - 1) as u64) == pow2((rest - 1) as nat),
        ((val >> rest) << rest) == (val as nat / pow2(rest as nat)) * pow2(rest as nat),
        ((val >> rest) & 0x1u64 == 1u64) <==> (val as nat / pow2(rest as nat)) % 2 == 1,
        (1u64 << rest) == pow2(rest as nat),
{
    vstd::bits::lemma_u64_pow2_no_overflow(rest as nat);
    vstd::bits::lemma_u64_pow2_no_overflow((rest - 1) as nat);
    vstd::bits::lemma_u64_shl_is_mul(1u64, rest);
    vstd::bits::lemma_u64_shl_is_mul(1u64, (rest - 1) as u64);
    vstd::bits::lemma_u64_shr_is_div(val, rest);
    vstd::bits::lemma_u64_low_bits_mask_is_mod(val, rest as nat);
    lemma_pow2_pos(rest as nat);
    let q: u64 = val >> rest;
    assert((q & 0x1u64) == q % 2) by (bit_vector);
    // the cleared value: q * 2^rest fits, since q came from a shift down
    assert(q < (1u64 << ((64 - rest) as u64))) by (bit_vector)
        requires
            1 <= rest <= 63 && q == (val >> rest),
    ;
    vstd::bits::lemma_u64_pow2_no_overflow((64 - rest) as nat);
    vstd::bits::lemma_u64_shl_is_mul(1u64, (64 - rest) as u64);
    assert(q as nat * pow2(rest as nat) < pow2((64 - rest) as nat) * pow2(rest as nat)) by {
        lemma_mul_strict_inequality(
            q as int,
            pow2((64 - rest) as nat) as int,
            pow2(rest as nat) as int,
        );
    }
    lemma_pow2_adds((64 - rest) as nat, rest as nat);
    lemma2_to64_rest();
    assert(pow2(64) == 0x1_0000_0000_0000_0000) by {
        lemma_pow2_adds(63, 1);
        assert(pow2(1) == 2) by {
            lemma2_to64();
        }
    }
    vstd::bits::lemma_u64_shl_is_mul(q, rest);
}

/// Facts for the round-up path: the all-ones comparison detects the
/// carry-out exactly, and the incremented shift is the arithmetic product.
proof fn lemma_round_increment(val: u64, rest: u64)
    requires
        1 <= rest <= 63,
    ensures
        ((val >> rest) == (0xFFFF_FFFF_FFFF_FFFFu64 >> rest)) <==> (val as nat / pow2(
            rest as nat,
        ) + 1 == pow2((64 - rest) as nat)),
        (val >> rest) != (0xFFFF_FFFF_FFFF_FFFFu64 >> rest) ==> ((((val >> rest) + 1) as u64)
            << rest) == (val as nat / pow2(rest as nat) + 1) * pow2(rest as nat),
{
    vstd::bits::lemma_u64_pow2_no_overflow(rest as nat);
    vstd::bits::lemma_u64_pow2_no_overflow((64 - rest) as nat);
    vstd::bits::lemma_u64_shr_is_div(val, rest);
    vstd::bits::lemma_u64_shl_is_mul(1u64, (64 - rest) as u64);
    let q: u64 = val >> rest;
    assert((0xFFFF_FFFF_FFFF_FFFFu64 >> rest) == (1u64 << ((64 - rest) as u64)) - 1) by (bit_vector)
        requires
            1 <= rest <= 63,
    ;
    assert(q <= (0xFFFF_FFFF_FFFF_FFFFu64 >> rest)) by (bit_vector)
        requires
            q == (val >> rest),
    ;
    if q != (0xFFFF_FFFF_FFFF_FFFFu64 >> rest) {
        // (q + 1) << rest == (q + 1) * 2^rest with no overflow
        assert((q + 1) as nat * pow2(rest as nat) <= (pow2((64 - rest) as nat) - 1) * pow2(
            rest as nat,
        )) by {
            lemma_mul_inequality(
                (q + 1) as int,
                pow2((64 - rest) as nat) as int - 1,
                pow2(rest as nat) as int,
            );
        }
        assert((pow2((64 - rest) as nat) - 1) * pow2(rest as nat) == pow2(64) - pow2(
            rest as nat,
        )) by {
            lemma_mul_is_distributive_sub_other_way(
                pow2(rest as nat) as int,
                pow2((64 - rest) as nat) as int,
                1,
            );
            lemma_pow2_adds((64 - rest) as nat, rest as nat);
        }
        lemma_pow2_pos(rest as nat);
        assert(pow2(64) == 0x1_0000_0000_0000_0000) by {
            lemma_pow2_adds(63, 1);
            lemma2_to64_rest();
            assert(pow2(1) == 2) by {
                lemma2_to64();
            }
        }
        vstd::bits::lemma_u64_shl_is_mul((q + 1) as u64, rest);
    }
}

} // verus!
