//! The software floating-point value type and its rounding machinery.
//!
//! A `Float<EXPONENT, MANTISSA>` carries a sign, an unbiased exponent, a
//! category tag and a wide mantissa stored with an explicit leading bit.
//! `normalize` aligns the mantissa to the format's precision, applies the
//! rounding policy and resolves exponent overflow and underflow.

use crate::bigint::spec_bit_len;
use crate::bigint::BigInt;
use vstd::arithmetic::power2::pow2;
use vstd::prelude::*;

verus! {

/// The rounding policy applied when precision is reduced.
#[derive(Debug, Clone, Copy, PartialEq, Eq, Structural)]
pub enum RoundingMode {
    NearestTiesToEven,
    NearestTiesToAway,
    Zero,
    Positive,
    Negative,
}

/// Classification of the fraction discarded by a truncating shift,
/// relative to one half of the last kept unit.
#[derive(Debug, Clone, Copy, PartialEq, Eq, Structural)]
pub enum LossFraction {
    ExactlyZero,
    LessThanHalf,
    ExactlyHalf,
    MoreThanHalf,
}

impl LossFraction {
    pub fn is_exactly_zero(&self) -> (r: bool)
        ensures
            r <==> self is ExactlyZero,
    {
        matches!(self, Self::ExactlyZero)
    }

    pub fn is_lt_half(&self) -> (r: bool)
        ensures
            r <==> self is LessThanHalf,
    {
        matches!(self, Self::LessThanHalf)
    }

    pub fn is_exactly_half(&self) -> (r: bool)
        ensures
            r <==> self is ExactlyHalf,
    {
        matches!(self, Self::ExactlyHalf)
    }

    pub fn is_mt_half(&self) -> (r: bool)
        ensures
            r <==> self is MoreThanHalf,
    {
        matches!(self, Self::MoreThanHalf)
    }

    pub fn is_lte_half(&self) -> (r: bool)
        ensures
            r <==> (self is LessThanHalf || self is ExactlyHalf),
    {
        self.is_lt_half() || self.is_exactly_half()
    }

    pub fn is_gte_half(&self) -> (r: bool)
        ensures
            r <==> (self is MoreThanHalf || self is ExactlyHalf),
    {
        self.is_mt_half() || self.is_exactly_half()
    }

    /// The classification of the complementary fraction.
    pub fn invert(&self) -> (r: LossFraction)
        ensures
            r == self.spec_invert(),
    {
        match self {
            LossFraction::LessThanHalf => LossFraction::MoreThanHalf,
            LossFraction::MoreThanHalf => LossFraction::LessThanHalf,
            _ => *self,
        }
    }

    /// Mirror of `invert`: swaps the two strict classifications.
    pub open spec fn spec_invert(self) -> LossFraction {
        match self {
            LossFraction::LessThanHalf => LossFraction::MoreThanHalf,
            LossFraction::MoreThanHalf => LossFraction::LessThanHalf,
            _ => self,
        }
    }
}

/// How the sign, exponent and mantissa fields are to be read.
#[derive(Debug, Clone, Copy, PartialEq, Eq, Structural)]
pub enum Category {
    Infinity,
    NaN,
    Normal,
    Zero,
}

/// The classification of the fraction `v mod 2^bit` of `v`, relative to one
/// half of `2^bit`.  This is what truncating `v` at bit `bit` discards.
pub open spec fn spec_loss_fraction(v: nat, bit: nat) -> LossFraction {
    let rem = v % vstd::arithmetic::power2::pow2(bit);
    if rem == 0 {
        LossFraction::ExactlyZero
    } else if 2 * rem < vstd::arithmetic::power2::pow2(bit) {
        LossFraction::LessThanHalf
    } else if 2 * rem == vstd::arithmetic::power2::pow2(bit) {
        LossFraction::ExactlyHalf
    } else {
        LossFraction::MoreThanHalf
    }
}

/// Combine the loss of two successive truncations: `msb` classifies the
/// more significant discarded run, `lsb` the less significant one.  Any
/// non-zero less-significant loss nudges an exact boundary strictly past it.
pub fn combine_loss_fraction(msb: LossFraction, lsb: LossFraction) -> (r: LossFraction)
    ensures
        r == spec_combine_loss_fraction(msb, lsb),
{
    if !lsb.is_exactly_zero() {
        if msb.is_exactly_zero() {
            return LossFraction::LessThanHalf;
        } else if msb.is_exactly_half() {
            return LossFraction::MoreThanHalf;
        }
    }
    msb
}

/// Mirror of `combine_loss_fraction`.
pub open spec fn spec_combine_loss_fraction(msb: LossFraction, lsb: LossFraction) -> LossFraction {
    if !(lsb is ExactlyZero) {
        if msb is ExactlyZero {
            LossFraction::LessThanHalf
        } else if msb is ExactlyHalf {
            LossFraction::MoreThanHalf
        } else {
            msb
        }
    } else {
        msb
    }
}

/// The mantissa storage type: wide enough for every supported precision.
pub type MantissaTy = BigInt<6>;

/// Number of bits in the mantissa storage.
pub open spec fn spec_mantissa_width() -> nat {
    384
}

/// The IEEE-754 exponent bias for an `e`-bit exponent field.
pub open spec fn spec_bias(e: nat) -> int {
    pow2((e - 1) as nat) - 1
}

/// The smallest legal unbiased exponent.
pub open spec fn spec_exp_min(e: nat) -> int {
    1 - spec_bias(e)
}

/// The largest legal unbiased exponent: the top code is reserved for
/// infinities and NaNs.
pub open spec fn spec_exp_max(e: nat) -> int {
    pow2(e) - spec_bias(e) - 2
}

/// The number of significand bits, explicit leading bit included.
pub open spec fn spec_prec(m: nat) -> nat {
    (m + 1) as nat
}

/// The exponent and mantissa widths the engine supports: the bias fits
/// comfortably in a machine word and the significand, with one bit of
/// rounding headroom, fits the mantissa storage.
pub open spec fn valid_format(e: nat, m: nat) -> bool {
    3 <= e <= 60 && 1 <= m && m + 2 <= spec_mantissa_width()
}

/// The mathematical reading of a `Float`: its fields as unbounded values.
pub ghost struct FloatValue {
    pub sign: bool,
    pub exp: int,
    pub mantissa: nat,
    pub category: Category,
}

impl FloatValue {
    /// A canonical zero, infinity or NaN of the given sign.
    pub open spec fn special(sign: bool, category: Category) -> FloatValue {
        FloatValue { sign, exp: 0, mantissa: 0, category }
    }
}

/// A software floating point number: sign, unbiased exponent, wide mantissa
/// with an explicit leading bit, and a category tag.
#[derive(Debug, Clone, Copy, PartialEq)]
pub struct Float<const EXPONENT: usize, const MANTISSA: usize> {
    pub sign: bool,
    pub exp: i64,
    pub mantissa: MantissaTy,
    pub category: Category,
}

impl<const EXPONENT: usize, const MANTISSA: usize> Float<EXPONENT, MANTISSA> {
    /// The mathematical reading of this value.
    pub open spec fn model(&self) -> FloatValue {
        FloatValue {
            sign: self.sign,
            exp: self.exp as int,
            mantissa: self.mantissa.spec_nat(),
            category: self.category,
        }
    }

    /// What every value the engine hands out satisfies: a normal value has
    /// a positive mantissa below `2^precision` and an exponent within the
    /// format's bounds.
    pub open spec fn spec_well_formed(&self) -> bool {
        self.category is Normal ==> {
            &&& spec_exp_min(EXPONENT as nat) <= self.exp as int <= spec_exp_max(EXPONENT as nat)
            &&& 0 < self.mantissa.spec_nat() < pow2(spec_prec(MANTISSA as nat))
        }
    }

    /// Create a new normal floating point number; a zero mantissa
    /// canonicalizes to a zero value.
    pub fn new(sign: bool, exp: i64, mantissa: MantissaTy) -> (r: Self)
        ensures
            r.model() == if mantissa.spec_nat() == 0 {
                FloatValue::special(sign, Category::Zero)
            } else {
                FloatValue { sign, exp: exp as int, mantissa: mantissa.spec_nat(), category: Category::Normal }
            },
    {
        if mantissa.is_zero() {
            return Float::zero(sign);
        }
        Float { sign, exp, mantissa, category: Category::Normal }
    }

    /// Assemble a floating point number from raw fields, unchecked.
    pub fn raw(sign: bool, exp: i64, mantissa: MantissaTy, category: Category) -> (r: Self)
        ensures
            r.model() == (FloatValue {
                sign,
                exp: exp as int,
                mantissa: mantissa.spec_nat(),
                category,
            }),
    {
        Float { sign, exp, mantissa, category }
    }

    /// A zero of the given sign.
    pub fn zero(sign: bool) -> (r: Self)
        ensures
            r.model() == FloatValue::special(sign, Category::Zero),
    {
        Float { sign, exp: 0, mantissa: MantissaTy::zero(), category: Category::Zero }
    }

    /// An infinity of the given sign.
    pub fn inf(sign: bool) -> (r: Self)
        ensures
            r.model() == FloatValue::special(sign, Category::Infinity),
    {
        Float { sign, exp: 0, mantissa: MantissaTy::zero(), category: Category::Infinity }
    }

    /// A NaN of the given sign.
    pub fn nan(sign: bool) -> (r: Self)
        ensures
            r.model() == FloatValue::special(sign, Category::NaN),
    {
        Float { sign, exp: 0, mantissa: MantissaTy::zero(), category: Category::NaN }
    }

    /// True if the sign bit is set.
    pub fn is_negative(&self) -> (r: bool)
        ensures
            r == self.sign,
    {
        self.sign
    }

    /// True if the value is a positive or negative infinity.
    pub fn is_inf(&self) -> (r: bool)
        ensures
            r <==> self.category is Infinity,
    {
        if let Category::Infinity = self.category {
            return true;
        }
        false
    }

    /// True if the value is a positive or negative NaN.
    pub fn is_nan(&self) -> (r: bool)
        ensures
            r <==> self.category is NaN,
    {
        if let Category::NaN = self.category {
            return true;
        }
        false
    }

    /// True if the value is a positive or negative zero.
    pub fn is_zero(&self) -> (r: bool)
        ensures
            r <==> self.category is Zero,
    {
        if let Category::Zero = self.category {
            return true;
        }
        false
    }

    /// True if the value is a normal number.
    pub fn is_normal(&self) -> (r: bool)
        ensures
            r <==> self.category is Normal,
    {
        if let Category::Normal = self.category {
            return true;
        }
        false
    }

    pub fn set_sign(&mut self, sign: bool)
        ensures
            final(self).sign == sign,
            final(self).exp == old(self).exp,
            final(self).mantissa == old(self).mantissa,
            final(self).category == old(self).category,
    {
        self.sign = sign
    }

    pub fn get_sign(&self) -> (r: bool)
        ensures
            r == self.sign,
    {
        self.sign
    }

    pub fn get_mantissa(&self) -> (r: MantissaTy)
        ensures
            r == self.mantissa,
    {
        self.mantissa
    }

    pub fn get_exp(&self) -> (r: i64)
        ensures
            r == self.exp,
    {
        self.exp
    }

    pub fn get_category(&self) -> (r: Category)
        ensures
            r == self.category,
    {
        self.category
    }

    /// The same value with the sign flipped.
    pub fn neg(&self) -> (r: Self)
        ensures
            r.model() == (FloatValue { sign: !self.sign, ..self.model() }),
    {
        Self::raw(!self.sign, self.exp, self.mantissa, self.category)
    }

    /// True if this value's (exponent, mantissa) pair is lexicographically
    /// below the other's: for two well-formed normal values of one format
    /// this orders the magnitudes.
    pub fn absolute_less_than(&self, other: Self) -> (r: bool)
        ensures
            r == (self.exp < other.exp || (self.exp == other.exp && self.mantissa.spec_nat()
                < other.mantissa.spec_nat())),
    {
        if self.exp < other.exp {
            return true;
        }
        if self.exp == other.exp {
            return self.mantissa.lt(&other.get_mantissa());
        }
        false
    }

    /// The exponent bias of the format, as a positive number.
    pub fn get_bias() -> (r: i64)
        requires
            valid_format(EXPONENT as nat, MANTISSA as nat),
        ensures
            r == spec_bias(EXPONENT as nat),
            0 < r < 0x1000_0000_0000_0000i64,
    {
        proof {
            vstd::bits::lemma_u64_pow2_no_overflow((EXPONENT - 1) as nat);
            vstd::bits::lemma_u64_shl_is_mul(1u64, (EXPONENT - 1) as u64);
            vstd::arithmetic::power2::lemma_pow2_strictly_increases(
                (EXPONENT - 1) as nat,
                60,
            );
            vstd::arithmetic::power2::lemma_pow2_pos((EXPONENT - 1) as nat);
            assert(pow2(60) == 0x1000_0000_0000_0000) by {
                vstd::arithmetic::power2::lemma2_to64_rest();
            }
            vstd::arithmetic::power2::lemma_pow2_strictly_increases(0, (EXPONENT - 1) as nat);
            assert(pow2(0) == 1) by {
                vstd::arithmetic::power2::lemma2_to64();
            }
        }
        let b: u64 = (1u64 << ((EXPONENT - 1) as u64)) - 1;
        b as i64
    }

    /// The lower and upper bounds of the unbiased exponent.
    pub fn get_exp_bounds() -> (r: (i64, i64))
        requires
            valid_format(EXPONENT as nat, MANTISSA as nat),
        ensures
            r.0 == spec_exp_min(EXPONENT as nat),
            r.1 == spec_exp_max(EXPONENT as nat),
    {
        let bias = Self::get_bias();
        let exp_min: i64 = -bias + 1;
        proof {
            vstd::bits::lemma_u64_pow2_no_overflow(EXPONENT as nat);
            vstd::bits::lemma_u64_shl_is_mul(1u64, EXPONENT as u64);
            vstd::arithmetic::power2::lemma_pow2_strictly_increases(EXPONENT as nat, 61);
            assert(pow2(61) == 0x2000_0000_0000_0000) by {
                vstd::arithmetic::power2::lemma2_to64_rest();
            }
        }
        let exp_max: i64 = ((1u64 << (EXPONENT as u64)) as i64) - bias - 2;
        (exp_min, exp_max)
    }

    /// The number of bits in the significand, integer part included.
    pub fn get_precision() -> (r: u64)
        requires
            valid_format(EXPONENT as nat, MANTISSA as nat),
        ensures
            r == spec_prec(MANTISSA as nat),
    {
        (MANTISSA + 1) as u64
    }
}

/// Shift `val` right by `bits` and classify the bits shifted out.
pub fn shift_right_with_loss(val: MantissaTy, bits: u64) -> (r: (MantissaTy, LossFraction))
    requires
        bits <= usize::MAX,
    ensures
        r.0.spec_nat() == val.spec_nat() / pow2(bits as nat),
        r.1 == spec_loss_fraction(val.spec_nat(), bits as nat),
{
    let mut val = val;
    let loss = val.get_loss_kind_for_bit(bits as usize);
    val.shift_right(bits as usize);
    (val, loss)
}

/// Whether rounding must move away from zero, given the sign, the rounding
/// policy, the classified loss and the parity of the kept mantissa.
pub open spec fn spec_round_away(
    sign: bool,
    rm: RoundingMode,
    loss: LossFraction,
    mantissa: nat,
) -> bool {
    match rm {
        RoundingMode::Positive => !sign,
        RoundingMode::Negative => sign,
        RoundingMode::Zero => false,
        RoundingMode::NearestTiesToAway => loss is ExactlyHalf || loss is MoreThanHalf,
        RoundingMode::NearestTiesToEven => loss is MoreThanHalf || (loss is ExactlyHalf
            && mantissa % 2 == 1),
    }
}

/// Resolution of exponent overflow: the nearest modes produce infinity,
/// truncation the largest finite value, and the directed modes one or the
/// other depending on the sign.
pub open spec fn spec_overflow_result(sign: bool, rm: RoundingMode, e: nat, m: nat) -> FloatValue {
    let inf = FloatValue::special(sign, Category::Infinity);
    let max = FloatValue {
        sign,
        exp: spec_exp_max(e),
        mantissa: (pow2(spec_prec(m)) - 1) as nat,
        category: Category::Normal,
    };
    match rm {
        RoundingMode::NearestTiesToEven => inf,
        RoundingMode::NearestTiesToAway => inf,
        RoundingMode::Zero => max,
        RoundingMode::Positive => if sign {
            max
        } else {
            inf
        },
        RoundingMode::Negative => if sign {
            inf
        } else {
            max
        },
    }
}

/// The mantissa alignment shift, clamped so the exponent cannot drop below
/// the format's minimum (the engine has no subnormal representation).
pub open spec fn spec_clamped_change(e: nat, exp: int, nmsb: nat, prec: nat) -> int {
    if exp + nmsb - prec < spec_exp_min(e) {
        spec_exp_min(e) - exp
    } else {
        nmsb - prec
    }
}

/// The rounding step of normalization: an exact value is kept (canonicalized
/// to zero when the mantissa is empty); an inexact one is rounded per the
/// policy, with a mantissa overflow absorbed into the exponent or, at the
/// top of the range, into an infinity.
pub open spec fn spec_round_step(
    e: nat,
    m: nat,
    sign: bool,
    exp: int,
    mantissa: nat,
    rm: RoundingMode,
    loss: LossFraction,
) -> FloatValue {
    if loss is ExactlyZero {
        if mantissa == 0 {
            FloatValue::special(sign, Category::Zero)
        } else {
            FloatValue { sign, exp, mantissa, category: Category::Normal }
        }
    } else if spec_round_away(sign, rm, loss, mantissa) {
        let exp1 = if mantissa == 0 {
            spec_exp_min(e)
        } else {
            exp
        };
        let mant1 = mantissa + 1;
        if mant1 >= pow2(spec_prec(m)) {
            if exp1 < spec_exp_max(e) {
                FloatValue { sign, exp: exp1 + 1, mantissa: mant1 / 2, category: Category::Normal }
            } else {
                FloatValue::special(sign, Category::Infinity)
            }
        } else {
            FloatValue { sign, exp: exp1, mantissa: mant1, category: Category::Normal }
        }
    } else {
        if mantissa == 0 {
            FloatValue::special(sign, Category::Zero)
        } else {
            FloatValue { sign, exp, mantissa, category: Category::Normal }
        }
    }
}

/// What `normalize` computes, on the mathematical reading of the value.
/// Zero, infinity and NaN pass through.  A normal value's mantissa is
/// aligned so its leading bit sits at the format's precision: an exponent
/// pushed past the maximum resolves per `spec_overflow_result`; one pushed
/// below the minimum is clamped there, at the price of extra discarded
/// bits; then the rounding policy decides whether the kept mantissa is
/// incremented.
pub open spec fn spec_normalize(
    e: nat,
    m: nat,
    f: FloatValue,
    rm: RoundingMode,
    loss: LossFraction,
) -> FloatValue {
    if !(f.category is Normal) {
        f
    } else {
        let prec = spec_prec(m);
        let nmsb = spec_bit_len(f.mantissa);
        if nmsb > 0 && f.exp + nmsb - prec > spec_exp_max(e) {
            spec_overflow_result(f.sign, rm, e, m)
        } else if nmsb > 0 && spec_clamped_change(e, f.exp, nmsb, prec) < 0 {
            let change = spec_clamped_change(e, f.exp, nmsb, prec);
            FloatValue {
                sign: f.sign,
                exp: f.exp + change,
                mantissa: f.mantissa * pow2((-change) as nat),
                category: Category::Normal,
            }
        } else if nmsb > 0 && spec_clamped_change(e, f.exp, nmsb, prec) > 0 {
            let change = spec_clamped_change(e, f.exp, nmsb, prec);
            let mant2 = f.mantissa / pow2(change as nat);
            let loss2 = spec_combine_loss_fraction(
                spec_loss_fraction(f.mantissa, change as nat),
                loss,
            );
            spec_round_step(e, m, f.sign, f.exp + change, mant2, rm, loss2)
        } else {
            spec_round_step(e, m, f.sign, f.exp, f.mantissa, rm, loss)
        }
    }
}

/// The demands `normalize` places on its caller: a workable format, an
/// exponent far from the machine-word limits, and no pending loss on a
/// value whose mantissa must be shifted left (that shift gains precision
/// and can never absorb already-discarded bits).
pub open spec fn spec_normalize_requires(
    e: nat,
    m: nat,
    f: FloatValue,
    loss: LossFraction,
) -> bool {
    &&& valid_format(e, m)
    &&& (f.category is Normal ==> -0x4000_0000_0000_0000 <= f.exp <= 0x4000_0000_0000_0000)
    &&& {
        let nmsb = spec_bit_len(f.mantissa);
        (f.category is Normal && nmsb > 0 && spec_clamped_change(e, f.exp, nmsb, spec_prec(m)) < 0)
            ==> loss is ExactlyZero
    }
}

impl<const EXPONENT: usize, const MANTISSA: usize> Float<EXPONENT, MANTISSA> {
    /// Replace the value by the format's overflow resolution for `rm`.
    fn overflow(&mut self, rm: RoundingMode)
        requires
            valid_format(EXPONENT as nat, MANTISSA as nat),
        ensures
            final(self).model() == spec_overflow_result(
                old(self).sign,
                rm,
                EXPONENT as nat,
                MANTISSA as nat,
            ),
            final(self).spec_well_formed(),
    {
        proof {
            lemma_exp_bounds_order(EXPONENT as nat);
            vstd::arithmetic::power2::lemma_pow2_pos(spec_prec(MANTISSA as nat));
        }
        let bounds = Self::get_exp_bounds();
        let inf = Self::inf(self.sign);
        let max = Self::new(self.sign, bounds.1, MantissaTy::all1s(MANTISSA + 1));
        proof {
            vstd::arithmetic::power2::lemma_pow2_strictly_increases(
                0,
                spec_prec(MANTISSA as nat),
            );
            assert(pow2(0) == 1) by {
                vstd::arithmetic::power2::lemma2_to64();
            }
        }
        *self = match rm {
            RoundingMode::NearestTiesToEven => inf,
            RoundingMode::NearestTiesToAway => inf,
            RoundingMode::Zero => max,
            RoundingMode::Positive => {
                if self.sign {
                    max
                } else {
                    inf
                }
            },
            RoundingMode::Negative => {
                if self.sign {
                    inf
                } else {
                    max
                }
            },
        }
    }

    /// Re-assert the well-formedness bounds on a value the engine produced.
    pub fn check_bounds(&self)
        requires
            valid_format(EXPONENT as nat, MANTISSA as nat),
            self.category is Normal ==> self.spec_well_formed(),
    {
        proof {
            if self.category is Normal {
                assert(spec_exp_min(EXPONENT as nat) <= self.exp as int);
                assert(self.exp as int <= spec_exp_max(EXPONENT as nat));
                assert(self.mantissa.spec_nat() < pow2(spec_prec(MANTISSA as nat)));
            }
        }
    }

    /// Shift the significand left: a lossless gain of `amt` bit positions,
    /// paid for by lowering the exponent.
    pub fn shift_significand_left(&mut self, amt: u64)
        requires
            amt <= spec_mantissa_width(),
            i64::MIN + amt <= old(self).exp,
            old(self).mantissa.spec_nat() * pow2(amt as nat) < pow2(spec_mantissa_width()),
        ensures
            final(self).exp == old(self).exp - amt,
            final(self).mantissa.spec_nat() == old(self).mantissa.spec_nat() * pow2(amt as nat),
            final(self).sign == old(self).sign,
            final(self).category == old(self).category,
    {
        proof {
            vstd::arithmetic::power2::lemma_pow2_pos(spec_mantissa_width());
        }
        self.exp = self.exp - (amt as i64);
        self.mantissa.shift_left(amt as usize);
        proof {
            vstd::arithmetic::div_mod::lemma_small_mod(
                old(self).mantissa.spec_nat() * pow2(amt as nat),
                pow2(spec_mantissa_width()),
            );
        }
    }

    /// Shift the significand right, raising the exponent and reporting the
    /// classification of the discarded bits.
    pub fn shift_significand_right(&mut self, amt: u64) -> (loss: LossFraction)
        requires
            amt <= i64::MAX,
            old(self).exp + amt <= i64::MAX,
        ensures
            final(self).exp == old(self).exp + amt,
            final(self).mantissa.spec_nat() == old(self).mantissa.spec_nat() / pow2(amt as nat),
            final(self).sign == old(self).sign,
            final(self).category == old(self).category,
            loss == spec_loss_fraction(old(self).mantissa.spec_nat(), amt as nat),
    {
        self.exp = self.exp + (amt as i64);
        // A shift past the storage width behaves like one just past it.
        let amt_eff: u64 = if amt > 385 {
            proof {
                crate::bigint::lemma_words_value_bound(self.mantissa.parts@, 6);
                lemma_shift_out_everything(self.mantissa.spec_nat(), amt as nat);
            }
            385
        } else {
            amt
        };
        let res = shift_right_with_loss(self.mantissa, amt_eff);
        self.mantissa = res.0;
        res.1
    }

    /// True if rounding must increment the mantissa, per the policy.
    fn need_round_away_from_zero(&self, rm: RoundingMode, loss: LossFraction) -> (r: bool)
        requires
            self.category is Normal || self.category is Zero,
        ensures
            r == spec_round_away(self.sign, rm, loss, self.mantissa.spec_nat()),
    {
        match rm {
            RoundingMode::Positive => !self.sign,
            RoundingMode::Negative => self.sign,
            RoundingMode::Zero => false,
            RoundingMode::NearestTiesToAway => loss.is_gte_half(),
            RoundingMode::NearestTiesToEven => {
                if loss.is_mt_half() {
                    return true;
                }
                loss.is_exactly_half() && self.mantissa.is_odd()
            },
        }
    }

    /// Align the mantissa to the format's precision, fold `loss` into the
    /// bits discarded on the way, and round per `rm`; exponent overflow and
    /// underflow resolve to the format's boundary values.
    pub fn normalize(&mut self, rm: RoundingMode, loss: LossFraction)
        requires
            spec_normalize_requires(EXPONENT as nat, MANTISSA as nat, old(self).model(), loss),
        ensures
            final(self).model() == spec_normalize(
                EXPONENT as nat,
                MANTISSA as nat,
                old(self).model(),
                rm,
                loss,
            ),
            old(self).category is Normal ==> final(self).spec_well_formed(),
    {
        let ghost e = EXPONENT as nat;
        let ghost m = MANTISSA as nat;
        let ghost f0 = old(self).model();
        let ghost loss0 = loss;
        if !self.is_normal() {
            return;
        }
        let mut loss = loss;
        proof {
            lemma_exp_bounds_order(EXPONENT as nat);
        }
        let bounds = Self::get_exp_bounds();

        let nmsb_us = self.mantissa.msb_index();
        let nmsb = nmsb_us as i64;
        proof {
            crate::bigint::lemma_bit_len_bounds(self.mantissa.spec_nat());
        }

        // Step I - adjust the exponent.
        if nmsb > 0 {
            // Align the number so that the MSB bit sits at the precision.
            let mut exp_change: i64 = nmsb - (Self::get_precision() as i64);

            // Handle overflowing exponents.
            if self.exp + exp_change > bounds.1 {
                self.overflow(rm);
                self.check_bounds();
                return;
            }
            // Handle underflowing exponents: never go below the legal range.
            if self.exp + exp_change < bounds.0 {
                exp_change = bounds.0 - self.exp;
            }
            proof {
                assert(exp_change as int == spec_clamped_change(
                    e,
                    f0.exp,
                    spec_bit_len(f0.mantissa),
                    spec_prec(m),
                ));
            }
            if exp_change < 0 {
                // Reducing the exponent regains precision and must be
                // lossless; the contract rules pending loss out.
                proof {
                    lemma_left_shift_room(e, m, f0.exp, f0.mantissa);
                    crate::bigint::lemma_bit_len_bounds(f0.mantissa);
                }
                self.shift_significand_left((-exp_change) as u64);
                proof {
                    assert(self.exp as int >= spec_exp_min(e));
                    assert(self.exp as int <= spec_exp_max(e));
                }
                return;
            }
            if exp_change > 0 {
                // Increasing the exponent discards low bits.
                let loss2 = self.shift_significand_right(exp_change as u64);
                loss = combine_loss_fraction(loss2, loss);
            }
        }
        // Step II - round the number.
        proof {
            let nmsb0 = spec_bit_len(f0.mantissa);
            let prec = spec_prec(m);
            let change = spec_clamped_change(e, f0.exp, nmsb0, prec);
            if nmsb0 > 0 && change > 0 {
                assert(self.exp as int == f0.exp + change);
                assert(self.mantissa.spec_nat() == f0.mantissa / pow2(change as nat));
                assert(loss == spec_combine_loss_fraction(
                    spec_loss_fraction(f0.mantissa, change as nat),
                    loss0,
                ));
            } else {
                assert(self.exp as int == f0.exp);
                assert(self.mantissa.spec_nat() == f0.mantissa);
                assert(loss == loss0);
            }
            assert(self.sign == f0.sign && self.category is Normal);
        }
        let ghost exp2 = self.exp as int;
        let ghost mant2 = self.mantissa.spec_nat();
        let ghost loss2v = loss;
        let ghost target = spec_round_step(e, m, f0.sign, exp2, mant2, rm, loss2v);
        proof {
            assert(spec_normalize(e, m, f0, rm, loss0) == target);
        }
        if loss.is_exactly_zero() {
            // Canonicalize to zero.
            if self.mantissa.is_zero() {
                *self = Self::zero(self.sign);
                return;
            }
            proof {
                lemma_kept_mantissa_in_range(e, m, f0);
                crate::bigint::lemma_bit_len_bounds(f0.mantissa);
                assert(self.mantissa.spec_nat() < pow2(spec_prec(m)));
                assert(spec_exp_min(e) <= self.exp as int <= spec_exp_max(e));
            }
            return;
        }
        // Check if we need to round away from zero.
        proof {
            lemma_kept_mantissa_in_range(e, m, f0);
            vstd::arithmetic::power2::lemma_pow2_pos(spec_prec(m));
            vstd::arithmetic::power2::lemma_pow2_strictly_increases(
                spec_prec(m),
                spec_mantissa_width(),
            );
            assert(mant2 < pow2(spec_prec(m)));
        }
        if self.need_round_away_from_zero(rm, loss) {
            let ghost away = spec_round_away(f0.sign, rm, loss2v, mant2);
            proof {
                assert(away);
            }
            if self.mantissa.is_zero() {
                self.exp = bounds.0;
            }
            let ghost exp1 = self.exp as int;
            proof {
                assert(exp1 == if mant2 == 0 { spec_exp_min(e) } else { exp2 });
            }
            let one = MantissaTy::one();
            let carried = self.mantissa.inplace_add(&one);
            proof {
                assert(!carried);
                assert(self.mantissa.spec_nat() == mant2 + 1);
            }
            // Did the mantissa overflow its precision?
            let mut overflowed = self.mantissa;
            overflowed.shift_right(Self::get_precision() as usize);
            if !overflowed.is_zero() {
                proof {
                    lemma_div_at_least_one(self.mantissa.spec_nat(), pow2(spec_prec(m)));
                }
                // Absorb the carry into the exponent if there is room.
                if self.exp < bounds.1 {
                    proof {
                        assert(pow2(1) == 2) by {
                            vstd::arithmetic::power2::lemma2_to64();
                        }
                    }
                    let lost = self.shift_significand_right(1);
                    proof {
                        assert(self.mantissa.spec_nat() == (mant2 + 1) / 2);
                        assert(self.exp as int == exp1 + 1);
                        assert(mant2 + 1 >= 2) by {
                            vstd::arithmetic::power2::lemma_pow2_strictly_increases(
                                1,
                                spec_prec(m),
                            );
                            assert(pow2(1) == 2) by {
                                vstd::arithmetic::power2::lemma2_to64();
                            }
                        }
                        assert(self.mantissa.spec_nat() >= 1) by {
                            vstd::arithmetic::div_mod::lemma_div_is_ordered(
                                2,
                                (mant2 + 1) as int,
                                2,
                            );
                            vstd::arithmetic::div_mod::lemma_div_by_self(2);
                        }
                        assert(self.model() == target);
                    }
                } else {
                    *self = Self::inf(self.sign);
                    proof {
                        assert(self.model() == target);
                    }
                    return;
                }
            } else {
                proof {
                    lemma_div_zero_small(self.mantissa.spec_nat(), pow2(spec_prec(m)));
                    assert(self.model() == target);
                }
            }
        } else {
            proof {
                assert(!spec_round_away(f0.sign, rm, loss2v, mant2));
            }
        }
        // Canonicalize.
        if self.mantissa.is_zero() {
            *self = Self::zero(self.sign);
        }
        proof {
            assert(self.model() == target);
        }
    }
}

/// For a workable format the exponent bounds are ordered.
proof fn lemma_exp_bounds_order(e: nat)
    requires
        3 <= e <= 60,
    ensures
        spec_exp_min(e) < 0 < spec_exp_max(e),
        spec_exp_min(e) > -0x1000_0000_0000_0000,
        spec_exp_max(e) < 0x1000_0000_0000_0000,
{
    vstd::arithmetic::power2::lemma_pow2_strictly_increases((e - 1) as nat, e);
    if e < 60 {
        vstd::arithmetic::power2::lemma_pow2_strictly_increases((e - 1) as nat, 59);
    }
    if e < 60 {
        vstd::arithmetic::power2::lemma_pow2_strictly_increases(e, 60);
    }
    vstd::arithmetic::power2::lemma_pow2_strictly_increases(1, (e - 1) as nat);
    vstd::arithmetic::power2::lemma_pow2_adds(1, (e - 1) as nat);
    assert(pow2(0) == 1 && pow2(1) == 2) by {
        vstd::arithmetic::power2::lemma2_to64();
    }
    assert(pow2(59) == 0x800_0000_0000_0000 && pow2(60) == 0x1000_0000_0000_0000) by {
        vstd::arithmetic::power2::lemma2_to64_rest();
    }
}

/// A left shift by the clamped (negative) alignment change keeps the
/// mantissa inside both the precision and the storage width.
proof fn lemma_left_shift_room(e: nat, m: nat, exp: int, mant: nat)
    requires
        valid_format(e, m),
        spec_bit_len(mant) > 0,
        spec_clamped_change(e, exp, spec_bit_len(mant), spec_prec(m)) < 0,
    ensures
        mant * pow2((-spec_clamped_change(e, exp, spec_bit_len(mant), spec_prec(m))) as nat) < pow2(
            spec_prec(m),
        ),
        mant * pow2((-spec_clamped_change(e, exp, spec_bit_len(mant), spec_prec(m))) as nat) > 0,
        mant * pow2((-spec_clamped_change(e, exp, spec_bit_len(mant), spec_prec(m))) as nat) < pow2(
            spec_mantissa_width(),
        ),
    decreases 0int,
{
    let nmsb = spec_bit_len(mant);
    let prec = spec_prec(m);
    let change = spec_clamped_change(e, exp, nmsb, prec);
    let k = (-change) as nat;
    crate::bigint::lemma_bit_len_bounds(mant);
    // In both the clamped and unclamped readings, nmsb + k <= prec.
    assert(nmsb + k <= prec);
    assert(mant * pow2(k) < pow2((nmsb + k) as nat)) by {
        vstd::arithmetic::power2::lemma_pow2_adds(nmsb, k);
        vstd::arithmetic::power2::lemma_pow2_pos(k);
        vstd::arithmetic::mul::lemma_mul_strict_inequality(
            mant as int,
            pow2(nmsb) as int,
            pow2(k) as int,
        );
    }
    if nmsb + k < prec {
        vstd::arithmetic::power2::lemma_pow2_strictly_increases((nmsb + k) as nat, prec);
    }
    vstd::arithmetic::power2::lemma_pow2_strictly_increases(prec, spec_mantissa_width());
    vstd::arithmetic::power2::lemma_pow2_pos(k);
    vstd::arithmetic::mul::lemma_mul_strictly_positive(mant as int, pow2(k) as int);
}

/// After step I of normalization the kept mantissa is below the precision.
proof fn lemma_kept_mantissa_in_range(e: nat, m: nat, f: FloatValue)
    requires
        valid_format(e, m),
        f.category is Normal,
    ensures
        ({
            let nmsb = spec_bit_len(f.mantissa);
            let change = spec_clamped_change(e, f.exp, nmsb, spec_prec(m));
            nmsb > 0 && change > 0 ==> f.mantissa / pow2(change as nat) < pow2(spec_prec(m))
        }),
        ({
            let nmsb = spec_bit_len(f.mantissa);
            let change = spec_clamped_change(e, f.exp, nmsb, spec_prec(m));
            nmsb > 0 && change == 0 ==> f.mantissa < pow2(spec_prec(m))
        }),
{
    let nmsb = spec_bit_len(f.mantissa);
    let prec = spec_prec(m);
    let change = spec_clamped_change(e, f.exp, nmsb, prec);
    crate::bigint::lemma_bit_len_bounds(f.mantissa);
    if nmsb > 0 && change > 0 {
        // mant < 2^nmsb and change >= nmsb - prec, so mant / 2^change < 2^prec.
        assert(nmsb <= prec + change);
        assert(f.mantissa < pow2((prec + change) as nat)) by {
            if nmsb < prec + change {
                vstd::arithmetic::power2::lemma_pow2_strictly_increases(
                    nmsb,
                    (prec + change) as nat,
                );
            }
        }
        vstd::arithmetic::power2::lemma_pow2_adds(prec, change as nat);
        vstd::arithmetic::power2::lemma_pow2_pos(change as nat);
        vstd::arithmetic::power2::lemma_pow2_pos(prec);
        vstd::arithmetic::div_mod::lemma_multiply_divide_lt(
            f.mantissa as int,
            pow2(change as nat) as int,
            pow2(prec) as int,
        );
    }
    if nmsb > 0 && change == 0 {
        assert(nmsb <= prec);
        if nmsb < prec {
            vstd::arithmetic::power2::lemma_pow2_strictly_increases(nmsb, prec);
        }
    }
}

/// A quotient other than zero means the dividend reaches the divisor.
proof fn lemma_div_at_least_one(x: nat, d: nat)
    requires
        d > 0,
        x / d != 0,
    ensures
        x >= d,
{
    vstd::arithmetic::div_mod::lemma_fundamental_div_mod(x as int, d as int);
    vstd::arithmetic::div_mod::lemma_mod_bound(x as int, d as int);
    vstd::arithmetic::mul::lemma_mul_inequality(1, (x / d) as int, d as int);
    vstd::arithmetic::mul::lemma_mul_is_commutative((x / d) as int, d as int);
}

/// A zero quotient keeps the dividend below the divisor.
proof fn lemma_div_zero_small(x: nat, d: nat)
    requires
        d > 0,
        x / d == 0,
    ensures
        x < d,
{
    vstd::arithmetic::div_mod::lemma_fundamental_div_mod(x as int, d as int);
    vstd::arithmetic::div_mod::lemma_mod_bound(x as int, d as int);
}

/// Past the storage width, one shift amount acts like any other: the whole
/// value is discarded and the loss classification does not change.
proof fn lemma_shift_out_everything(v: nat, amt: nat)
    requires
        v < pow2(spec_mantissa_width()),
        amt > 385,
    ensures
        v / pow2(amt) == v / pow2(385),
        spec_loss_fraction(v, amt) == spec_loss_fraction(v, 385),
{
    vstd::arithmetic::power2::lemma_pow2_strictly_increases(spec_mantissa_width(), 385);
    vstd::arithmetic::power2::lemma_pow2_strictly_increases(385, amt);
    vstd::arithmetic::power2::lemma_pow2_pos(amt);
    vstd::arithmetic::power2::lemma_pow2_pos(385);
    vstd::arithmetic::div_mod::lemma_basic_div(v as int, pow2(385) as int);
    vstd::arithmetic::div_mod::lemma_basic_div(v as int, pow2(amt) as int);
    vstd::arithmetic::div_mod::lemma_small_mod(v, pow2(385));
    vstd::arithmetic::div_mod::lemma_small_mod(v, pow2(amt));
    if v != 0 {
        // doubled remainders stay below either power
        assert(2 * v < pow2(385)) by {
            vstd::arithmetic::power2::lemma_pow2_adds(spec_mantissa_width(), 1);
            assert(pow2(1) == 2) by {
                vstd::arithmetic::power2::lemma2_to64();
            }
        }
    }
}

} // verus!
