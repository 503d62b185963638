//! Construction from integers, packed-bit decode and encode, and casting
//! between formats.
//!
//! A normal value denotes `mantissa * 2^(exp - MANTISSA)`: the explicit
//! leading bit of a fully aligned mantissa sits at bit `MANTISSA`, so the
//! binary point falls right after it.  Constructors may build the mantissa
//! at any alignment with the exponent adjusted to match; `normalize` then
//! moves the leading bit to its canonical place, rounding on the way.

use crate::bigint::spec_bit_len;
use crate::float::spec_bias;
use crate::float::spec_exp_max;
use crate::float::spec_exp_min;
use crate::float::spec_normalize;
use crate::float::spec_prec;
use crate::float::valid_format;
use crate::float::Category;
use crate::float::Float;
use crate::float::FloatValue;
use crate::float::LossFraction;
use crate::float::MantissaTy;
use crate::float::RoundingMode;
use crate::utils::mask;
use vstd::arithmetic::power2::*;
use vstd::prelude::*;

verus! {

/// An exponent/mantissa split of a 64-bit packed float layout: sign bit,
/// `e`-bit exponent field, `m`-bit mantissa field.
pub open spec fn valid_packed(e: nat, m: nat) -> bool {
    3 <= e && 1 <= m && e + m + 1 <= 64
}

/// What `from_u64` returns: zero for zero, else the rounded value of `v`
/// (the raw mantissa `v` weighs `2^(exp - MANTISSA)` per unit, so exponent
/// `MANTISSA` makes the value exactly `v`).
pub open spec fn spec_from_u64(e: nat, m: nat, v: u64) -> FloatValue {
    if v == 0 {
        FloatValue::special(false, Category::Zero)
    } else {
        spec_normalize(
            e,
            m,
            FloatValue { sign: false, exp: m as int, mantissa: v as nat, category: Category::Normal },
            RoundingMode::NearestTiesToEven,
            LossFraction::ExactlyZero,
        )
    }
}

/// What `from_i64` returns: the unsigned conversion of the magnitude, with
/// the sign bit set for negative inputs.
pub open spec fn spec_from_i64(e: nat, m: nat, v: i64) -> FloatValue {
    if v < 0 {
        let u = spec_from_u64(e, m, ((-(v as int)) as u64));
        FloatValue { sign: true, ..u }
    } else {
        spec_from_u64(e, m, v as u64)
    }
}

/// What `from_bits` returns for a packed value `raw` in the `(e2, m2)`
/// layout, read into an `(e, m)` float.  An all-ones exponent field is an
/// infinity or NaN; an exponent below the target's range flushes to zero,
/// one above it to infinity; otherwise the compact mantissa field gains an
/// explicit leading bit (one exactly when the source was normal) and the
/// exponent is rebased so the value is unchanged.
pub open spec fn spec_from_bits(e: nat, m: nat, e2: nat, m2: nat, raw: u64) -> FloatValue {
    let biased = (raw as nat / pow2(m2)) % pow2(e2);
    let sign = (raw as nat / pow2(e2 + m2)) % 2 == 1;
    let field = raw as nat % pow2(m2);
    if biased == pow2(e2) - 1 {
        if field == 0 {
            FloatValue::special(sign, Category::Infinity)
        } else {
            FloatValue::special(sign, Category::NaN)
        }
    } else {
        let exp = biased - spec_bias(e2);
        if exp < spec_exp_min(e) {
            FloatValue::special(sign, Category::Zero)
        } else if exp > spec_exp_max(e) {
            FloatValue::special(sign, Category::Infinity)
        } else {
            let mant = field + if biased != 0 {
                pow2(m2)
            } else {
                0
            };
            if mant == 0 {
                FloatValue::special(sign, Category::Zero)
            } else {
                FloatValue {
                    sign,
                    exp: exp + m - m2,
                    mantissa: mant,
                    category: Category::Normal,
                }
            }
        }
    }
}

/// A value carried from a format with `m1` mantissa bits into one with
/// `m2`: the exponent moves by the difference, the denoted value
/// `mantissa * 2^(exp - m)` does not.  Specials carry over unchanged.
pub open spec fn spec_rebase(f: FloatValue, m1: nat, m2: nat) -> FloatValue {
    if f.category is Normal {
        FloatValue { exp: f.exp + m2 - m1, ..f }
    } else {
        f
    }
}

/// What `as_native_float` packs, for a value already aligned to the format.
pub open spec fn spec_as_native_float(e: nat, m: nat, f: FloatValue) -> nat {
    let sign_bit: nat = if f.sign {
        1
    } else {
        0
    };
    match f.category {
        Category::Infinity => (sign_bit * pow2(e + m) + ((pow2(e) - 1) as nat) * pow2(m)) as nat,
        Category::NaN => (sign_bit * pow2(e + m) + ((pow2(e) - 1) as nat) * pow2(m) + pow2(
            (m - 1) as nat,
        )) as nat,
        Category::Zero => sign_bit * pow2(e + m),
        Category::Normal => (sign_bit * pow2(e + m) + ((f.exp + spec_bias(e)) * pow2(m)) as nat + (
        f.mantissa - pow2(m)) as nat) as nat,
    }
}

impl<const EXPONENT: usize, const MANTISSA: usize> Float<EXPONENT, MANTISSA> {
    /// The rounded value of an unsigned 64-bit integer; values whose
    /// exponent exceeds the format's range become infinity.
    pub fn from_u64(val: u64) -> (r: Self)
        requires
            valid_format(EXPONENT as nat, MANTISSA as nat),
        ensures
            r.model() == spec_from_u64(EXPONENT as nat, MANTISSA as nat, val),
            r.spec_well_formed(),
    {
        if val == 0 {
            return Self::zero(false);
        }
        let mut a = Self::new(false, MANTISSA as i64, MantissaTy::from_u64(val));
        proof {
            crate::bigint::lemma_bit_len_bounds(val as nat);
        }
        a.normalize(RoundingMode::NearestTiesToEven, LossFraction::ExactlyZero);
        a
    }

    /// The rounded value of a signed 64-bit integer.
    pub fn from_i64(val: i64) -> (r: Self)
        requires
            valid_format(EXPONENT as nat, MANTISSA as nat),
        ensures
            r.model() == spec_from_i64(EXPONENT as nat, MANTISSA as nat, val),
            r.spec_well_formed(),
    {
        if val < 0 {
            let mag: u64 = if val == i64::MIN {
                0x8000_0000_0000_0000u64
            } else {
                (-val) as u64
            };
            let mut a = Self::from_u64(mag);
            a.set_sign(true);
            return a;
        }
        Self::from_u64(val as u64)
    }

    /// Decode a packed bit pattern in the `(E2, M2)` layout.
    pub fn from_bits<const E2: usize, const M2: usize>(raw: u64) -> (r: Self)
        requires
            valid_format(EXPONENT as nat, MANTISSA as nat),
            valid_packed(E2 as nat, M2 as nat),
        ensures
            r.model() == spec_from_bits(
                EXPONENT as nat,
                MANTISSA as nat,
                E2 as nat,
                M2 as nat,
                raw,
            ),
    {
        proof {
            lemma_packed_fields(raw, E2 as nat, M2 as nat);
        }
        // Extract the biased exponent (wipe the sign and mantissa).
        let biased_exp: u64 = (raw >> (M2 as u64)) & mask(E2);
        // Extract the sign.
        let sign_bit: u64 = (raw >> ((E2 + M2) as u64)) & 1;
        // Extract the mantissa field.
        let mantissa_field: u64 = raw & mask(M2);
        let sign = sign_bit == 1;

        // Check for NaN/Inf.
        if biased_exp == mask(E2) {
            if mantissa_field == 0 {
                return Self::inf(sign);
            }
            return Self::nan(sign);
        }
        // Check that the loaded value fits within the bounds of the format.
        let bias = crate::utils::compute_ieee754_bias(E2);
        proof {
            if ((E2 - 1) as nat) < 61 {
                vstd::arithmetic::power2::lemma_pow2_strictly_increases((E2 - 1) as nat, 61);
            }
            assert(pow2(61) == 0x2000_0000_0000_0000 && pow2(62) == 0x4000_0000_0000_0000) by {
                lemma2_to64_rest();
            }
        }
        let exp: i64 = (biased_exp as i64) - (bias as i64);
        let bounds = Self::get_exp_bounds();
        if exp < bounds.0 {
            return Self::zero(sign);
        } else if exp > bounds.1 {
            return Self::inf(sign);
        }
        let leading_1 = biased_exp != 0;
        let new_mantissa = expand_mantissa_to_explicit::<M2>(mantissa_field, leading_1);
        // Rebase the exponent: the mantissa sits `M2` places up from the
        // unit position, the format expects `MANTISSA`.
        let rebased: i64 = exp + (MANTISSA as i64) - (M2 as i64);
        Self::new(sign, rebased, new_mantissa)
    }

    /// Reinterpret the value under another format and round it to fit.
    /// A normal value's exponent is rebased by the difference in precision,
    /// so the value `mantissa * 2^(exp - MANTISSA)` carries over unchanged
    /// before rounding.
    pub fn cast<const E2: usize, const S2: usize>(&self) -> (r: Float<E2, S2>)
        requires
            valid_format(EXPONENT as nat, MANTISSA as nat),
            valid_format(E2 as nat, S2 as nat),
            self.category is Normal ==> -0x2000_0000_0000_0000 <= self.exp as int
                <= 0x2000_0000_0000_0000,
        ensures
            r.model() == spec_normalize(
                E2 as nat,
                S2 as nat,
                spec_rebase(self.model(), MANTISSA as nat, S2 as nat),
                RoundingMode::NearestTiesToEven,
                LossFraction::ExactlyZero,
            ),
            self.category is Normal ==> r.spec_well_formed(),
    {
        let exp: i64 = if self.is_normal() {
            self.get_exp() + (S2 as i64) - (MANTISSA as i64)
        } else {
            self.get_exp()
        };
        let mut x = Float::<E2, S2>::raw(
            self.get_sign(),
            exp,
            self.get_mantissa(),
            self.get_category(),
        );
        x.normalize(RoundingMode::NearestTiesToEven, LossFraction::ExactlyZero);
        x
    }

    /// Pack a value, already aligned to this format, into its native bit
    /// pattern: sign, then biased exponent, then the mantissa field without
    /// its explicit leading bit.  A NaN is encoded with the single
    /// canonical quiet payload.
    #[verifier::rlimit(60)]
    pub fn as_native_float(&self) -> (r: u64)
        requires
            valid_format(EXPONENT as nat, MANTISSA as nat),
            valid_packed(EXPONENT as nat, MANTISSA as nat),
            self.spec_well_formed(),
            self.category is Normal ==> spec_bit_len(self.mantissa.spec_nat()) == spec_prec(
                MANTISSA as nat,
            ),
        ensures
            r == spec_as_native_float(EXPONENT as nat, MANTISSA as nat, self.model()),
    {
        let ghost e = EXPONENT as nat;
        let ghost m = MANTISSA as nat;
        proof {
            lemma_encode_ranges(e, m);
            lemma_pow2_pos(e);
            lemma_pow2_pos(m);
            lemma_pow2_pos(e + m);
        }
        let mantissa_field: u64;
        let exp_field: u64;
        match self.get_category() {
            Category::Infinity => {
                mantissa_field = 0;
                exp_field = mask(EXPONENT);
            },
            Category::NaN => {
                proof {
                    vstd::bits::lemma_u64_pow2_no_overflow((MANTISSA - 1) as nat);
                    vstd::bits::lemma_u64_shl_is_mul(1u64, (MANTISSA - 1) as u64);
                }
                mantissa_field = 1u64 << ((MANTISSA - 1) as u64);
                exp_field = mask(EXPONENT);
            },
            Category::Zero => {
                mantissa_field = 0;
                exp_field = 0;
            },
            Category::Normal => {
                proof {
                    crate::bigint::lemma_bit_len_bounds(self.mantissa.spec_nat());
                    vstd::arithmetic::power2::lemma_pow2_strictly_increases(m + 1, 64);
                    lemma2_to64_rest();
                }
                let mant: u64 = self.mantissa.to_u64();
                mantissa_field = mant & mask(MANTISSA);
                proof {
                    vstd::bits::lemma_u64_pow2_no_overflow(m);
                    vstd::bits::lemma_u64_low_bits_mask_is_mod(mant, m);
                    // the leading bit is the only one above the field
                    vstd::arithmetic::div_mod::lemma_fundamental_div_mod(
                        mant as int,
                        pow2(m) as int,
                    );
                    vstd::arithmetic::div_mod::lemma_mod_bound(mant as int, pow2(m) as int);
                    assert(2 * pow2(m) == pow2(m + 1)) by {
                        vstd::arithmetic::power2::lemma_pow2_adds(1, m);
                        assert(pow2(1) == 2) by {
                            lemma2_to64();
                        }
                    }
                    lemma_div_exactly_one(mant as nat, pow2(m));
                }
                proof {
                    vstd::arithmetic::power2::lemma_pow2_adds(1, m);
                    assert(pow2(1) == 2) by {
                        lemma2_to64();
                    }
                }
                let bias = Self::get_bias();
                proof {
                    assert(1 <= self.exp as int + spec_bias(e) <= pow2(e) - 2);
                    assert(self.exp as int + spec_bias(e) <= 0x1000_0000_0000_0000 - 2);
                }
                exp_field = (self.get_exp() + bias) as u64;
            },
        }
        let sign_bit: u64 = if self.get_sign() {
            1
        } else {
            0
        };
        proof {
            lemma_pack_fits(e, m, sign_bit as nat, exp_field as nat, mantissa_field as nat);
        }
        let high: u64 = (sign_bit << (EXPONENT as u64)) | exp_field;
        let bits: u64 = (high << (MANTISSA as u64)) | mantissa_field;
        proof {
            lemma_pack_value(e, m, sign_bit, exp_field, mantissa_field, high, bits);
            assert(bits as nat == sign_bit as nat * pow2(e + m) + exp_field as nat * pow2(m)
                + mantissa_field as nat);
            if self.category is Normal {
                assert(exp_field as int == self.model().exp + spec_bias(e));
                assert(exp_field as nat * pow2(m) == ((self.model().exp + spec_bias(e)) * pow2(
                    m,
                )) as nat);
                assert(mantissa_field as nat == (self.model().mantissa - pow2(m)) as nat);
            }
        }
        bits
    }
}

/// Expand an `M`-bit compact mantissa field to the explicit-leading-bit
/// layout: the leading one occupies bit `M` when the source was a normal
/// number, and is absent for a subnormal source.
pub fn expand_mantissa_to_explicit<const M: usize>(field: u64, leading_1: bool) -> (r: MantissaTy)
    requires
        M < 63,
        field < pow2(M as nat),
    ensures
        r.spec_nat() == field + if leading_1 {
            pow2(M as nat)
        } else {
            0
        },
{
    if leading_1 {
        proof {
            vstd::bits::lemma_u64_pow2_no_overflow(M as nat);
            vstd::bits::lemma_u64_shl_is_mul(1u64, M as u64);
            let f = field;
            let mm = M as u64;
            assert((f | (1u64 << mm)) == f + (1u64 << mm)) by (bit_vector)
                requires
                    mm < 63 && f < (1u64 << mm),
            ;
        }
        MantissaTy::from_u64(field | (1u64 << (M as u64)))
    } else {
        MantissaTy::from_u64(field)
    }
}

/// Bit-field extraction of a packed float equals its arithmetic reading.
pub(crate) proof fn lemma_packed_fields(raw: u64, e2: nat, m2: nat)
    requires
        valid_packed(e2, m2),
    ensures
        ((raw >> (m2 as u64)) & ((pow2(e2) - 1) as u64)) == (raw as nat / pow2(m2)) % pow2(e2),
        ((raw >> ((e2 + m2) as u64)) & 1u64) == (raw as nat / pow2(e2 + m2)) % 2,
        (raw & ((pow2(m2) - 1) as u64)) == raw as nat % pow2(m2),
        (raw as nat / pow2(m2)) % pow2(e2) < pow2(e2),
        raw as nat % pow2(m2) < pow2(m2),
        pow2(e2) <= pow2(62),
        pow2(m2) <= pow2(60),
{
    vstd::bits::lemma_u64_pow2_no_overflow(e2);
    vstd::bits::lemma_u64_pow2_no_overflow(m2);
    lemma_pow2_pos(e2);
    lemma_pow2_pos(m2);
    lemma_pow2_pos(e2 + m2);
    vstd::bits::lemma_u64_shr_is_div(raw, m2 as u64);
    vstd::bits::lemma_u64_shr_is_div(raw, (e2 + m2) as u64);
    // the exponent-field mask
    let sh1: u64 = (raw >> (m2 as u64)) as u64;
    vstd::bits::lemma_u64_low_bits_mask_is_mod(sh1, e2);
    // the sign: one bit
    let sh2: u64 = (raw >> ((e2 + m2) as u64)) as u64;
    vstd::bits::lemma_u64_low_bits_mask_is_mod(sh2, 1);
    assert(pow2(1) == 2 && pow2(0) == 1) by {
        lemma2_to64();
    }
    assert(vstd::bits::low_bits_mask(1) == 1);
    // the mantissa field
    vstd::bits::lemma_u64_low_bits_mask_is_mod(raw, m2);
    vstd::arithmetic::div_mod::lemma_mod_bound((raw as nat / pow2(m2)) as int, pow2(e2) as int);
    vstd::arithmetic::div_mod::lemma_mod_bound(raw as int, pow2(m2) as int);
    if e2 < 62 {
        lemma_pow2_strictly_increases(e2, 62);
    }
    if m2 < 60 {
        lemma_pow2_strictly_increases(m2, 60);
    }
    lemma2_to64_rest();
}

/// The encode-side range facts shared by all categories.
proof fn lemma_encode_ranges(e: nat, m: nat)
    requires
        valid_format(e, m),
        valid_packed(e, m),
    ensures
        pow2(e) - 1 < pow2(64),
        pow2(e) <= 0x1000_0000_0000_0000,
        pow2(m) >= 2,
        pow2(e + m) * 2 <= pow2(64),
        pow2((m - 1) as nat) < pow2(m),
        spec_bias(e) + spec_exp_max(e) == pow2(e) - 2,
        spec_bias(e) + spec_exp_min(e) == 1,
        0 < spec_bias(e) < 0x1000_0000_0000_0000,
{
    if e < 60 {
        lemma_pow2_strictly_increases(e, 60);
    }
    lemma_pow2_strictly_increases((e - 1) as nat, 60);
    lemma_pow2_strictly_increases(0, (e - 1) as nat);
    assert(pow2(60) == 0x1000_0000_0000_0000) by {
        lemma2_to64_rest();
    }
    lemma_pow2_strictly_increases(e, 64);
    lemma_pow2_strictly_increases((m - 1) as nat, m);
    lemma_pow2_strictly_increases(0, m);
    vstd::arithmetic::power2::lemma_pow2_adds(e + m, 1);
    assert(pow2(0) == 1 && pow2(1) == 2) by {
        lemma2_to64();
    }
    if e + m + 1 < 64 {
        lemma_pow2_strictly_increases(e + m + 1, 64);
    }
    if m > 1 {
        lemma_pow2_strictly_increases(1, m);
    }
}

/// A value with its bit length exactly one above `k` has quotient one by
/// `2^k`.
proof fn lemma_div_exactly_one(v: nat, d: nat)
    requires
        d > 0,
        d <= v < 2 * d,
    ensures
        v / d == 1,
{
    vstd::arithmetic::div_mod::lemma_fundamental_div_mod_converse_div(
        v as int,
        d as int,
        1,
        (v - d) as int,
    );
}

/// The packed fields fit their slots.
pub(crate) proof fn lemma_pack_fits(e: nat, m: nat, sign_bit: nat, exp_field: nat, mantissa_field: nat)
    requires
        valid_packed(e, m),
        sign_bit <= 1,
        exp_field < pow2(e),
        mantissa_field < pow2(m),
    ensures
        sign_bit * pow2(e) + exp_field < pow2(e + 1),
        (sign_bit * pow2(e) + exp_field) * pow2(m) + mantissa_field < pow2(e + m + 1),
        pow2(e + m + 1) <= pow2(64),
{
    lemma_pow2_adds(e, 1);
    lemma_pow2_adds(e + 1, m);
    lemma_pow2_adds(e, m);
    assert(pow2(1) == 2) by {
        lemma2_to64();
    }
    vstd::arithmetic::mul::lemma_mul_inequality(sign_bit as int, 1, pow2(e) as int);
    assert((sign_bit * pow2(e) + exp_field) * pow2(m) <= (pow2(e + 1) - 1) * pow2(m)) by {
        vstd::arithmetic::mul::lemma_mul_inequality(
            (sign_bit * pow2(e) + exp_field) as int,
            pow2(e + 1) as int - 1,
            pow2(m) as int,
        );
    }
    assert((pow2(e + 1) - 1) * pow2(m) == pow2(e + 1 + m) - pow2(m)) by {
        vstd::arithmetic::mul::lemma_mul_is_distributive_sub_other_way(
            pow2(m) as int,
            pow2(e + 1) as int,
            1,
        );
        lemma_pow2_adds(e + 1, m);
    }
    if e + m + 1 < 64 {
        lemma_pow2_strictly_increases(e + m + 1, 64);
    }
}

/// Shifting and or-ing disjoint fields is the arithmetic packing.
pub(crate) proof fn lemma_pack_value(
    e: nat,
    m: nat,
    sign_bit: u64,
    exp_field: u64,
    mantissa_field: u64,
    high: u64,
    bits: u64,
)
    requires
        valid_packed(e, m),
        sign_bit <= 1,
        (exp_field as nat) < pow2(e),
        (mantissa_field as nat) < pow2(m),
        high == (sign_bit << (e as u64)) | exp_field,
        bits == (high << (m as u64)) | mantissa_field,
    ensures
        bits == sign_bit as nat * pow2(e + m) + exp_field as nat * pow2(m) + mantissa_field as nat,
{
    vstd::bits::lemma_u64_pow2_no_overflow(e);
    vstd::bits::lemma_u64_pow2_no_overflow(m);
    vstd::bits::lemma_u64_pow2_no_overflow(e + m);
    lemma2_to64_rest();
    assert(pow2(64) == 0x1_0000_0000_0000_0000) by {
        vstd::arithmetic::power2::lemma_pow2_adds(63, 1);
        assert(pow2(1) == 2) by {
            lemma2_to64();
        }
    }
    vstd::bits::lemma_u64_shl_is_mul(1u64, e as u64);
    vstd::bits::lemma_u64_shl_is_mul(1u64, m as u64);
    lemma_pow2_pos(e);
    lemma_pow2_pos(m);
    let se = e as u64;
    let sm = m as u64;
    let pe: u64 = (1u64 << se);
    let pm: u64 = (1u64 << sm);
    assert((sign_bit << se) | exp_field == (sign_bit << se) + exp_field && (sign_bit << se) == (
    if sign_bit == 1 {
        pe
    } else {
        0u64
    })) by (bit_vector)
        requires
            se < 63 && sign_bit <= 1 && exp_field < pe && pe == (1u64 << se),
    ;
    // high < 2^(e+1) <= 2^63, so high << m is a clean multiply when the
    // product fits; it does, by the packing bound.
    lemma_pack_fits(e, m, sign_bit as nat, exp_field as nat, mantissa_field as nat);
    assert(high as nat == sign_bit as nat * pow2(e) + exp_field as nat) by {
        if sign_bit == 1 {
            assert(1 as nat * pow2(e) == pow2(e));
        } else {
            assert(0 as nat * pow2(e) == 0) by {
                vstd::arithmetic::mul::lemma_mul_basics(pow2(e) as int);
            }
        }
    }
    assert((high as nat * pow2(m) + mantissa_field as nat) < pow2(64)) by {
        lemma_pow2_adds(e + m, 1);
        lemma_pow2_adds(e, m);
        vstd::arithmetic::mul::lemma_mul_is_distributive_add_other_way(
            pow2(m) as int,
            (sign_bit as nat * pow2(e)) as int,
            exp_field as int,
        );
        vstd::arithmetic::mul::lemma_mul_is_associative(
            sign_bit as int,
            pow2(e) as int,
            pow2(m) as int,
        );
        lemma2_to64_rest();
    }
    vstd::bits::lemma_u64_shl_is_mul(high, sm);
    assert((high << sm) | mantissa_field == (high << sm) + mantissa_field) by (bit_vector)
        requires
            sm < 63 && mantissa_field < pm && pm == (1u64 << sm),
    ;
    assert(high as nat * pow2(m) == sign_bit as nat * pow2(e + m) + exp_field as nat * pow2(m)) by {
        vstd::arithmetic::mul::lemma_mul_is_distributive_add_other_way(
            pow2(m) as int,
            (sign_bit as nat * pow2(e)) as int,
            exp_field as int,
        );
        vstd::arithmetic::mul::lemma_mul_is_associative(
            sign_bit as int,
            pow2(e) as int,
            pow2(m) as int,
        );
        lemma_pow2_adds(e, m);
    }
}

} // verus!
