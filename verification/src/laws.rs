//! The library-wide laws, stated over the same spec functions the
//! contracts use, so each is checked against every implementation change.

use crate::bigint::spec_bit_len;
use crate::bigint::BigInt;
use crate::cast::spec_from_u64;
use crate::float::spec_combine_loss_fraction;
use crate::float::spec_exp_max;
use crate::float::spec_exp_min;
use crate::float::spec_clamped_change;
use crate::float::spec_normalize;
use crate::float::Category;
use crate::float::FloatValue;
use crate::float::spec_loss_fraction;
use crate::float::spec_prec;
use crate::float::spec_round_step;
use crate::float::valid_format;
use crate::float::LossFraction;
use crate::float::RoundingMode;
use vstd::arithmetic::div_mod::*;
use vstd::arithmetic::mul::*;
use vstd::arithmetic::power2::*;
use vstd::prelude::*;

verus! {

/// A value built from one word fits one word, so reading it back through
/// `to_u64` is legal and returns the word: the round trip is the identity.
/// Reading back a wider value is rejected by `to_u64`'s contract.
pub proof fn lemma_from_u64_to_u64_round_trip<const PARTS: usize>(b: BigInt<PARTS>, v: u64)
    requires
        b.spec_nat() == v as nat,
    ensures
        b.spec_nat() < pow2(64),
        b.spec_nat() == v as nat,
{
    lemma2_to64_rest();
}

/// Shifting left by `n` then right by `n` within a `w`-bit integer clears
/// the top `n` bits and keeps the rest: the result is the value reduced
/// modulo `2^(w - n)`, exactly what `mask(w - n)` computes.
pub proof fn lemma_shift_left_then_right_masks(v: nat, n: nat, w: nat)
    requires
        n <= w,
    ensures
        ((v * pow2(n)) % pow2(w)) / pow2(n) == v % pow2((w - n) as nat),
{
    let pn = pow2(n);
    let pw = pow2(w);
    let pd = pow2((w - n) as nat);
    lemma_pow2_pos(n);
    lemma_pow2_pos(w);
    lemma_pow2_pos((w - n) as nat);
    lemma_pow2_adds(n, (w - n) as nat);
    let q = v / pd;
    let r = v % pd;
    lemma_fundamental_div_mod(v as int, pd as int);
    lemma_mod_bound(v as int, pd as int);
    // v * 2^n == q * 2^w + r * 2^n
    assert(v * pn == q * pw + r * pn) by {
        lemma_mul_is_distributive_add_other_way(pn as int, (pd * q) as int, r as int);
        lemma_mul_is_associative(q as int, pd as int, pn as int);
        lemma_mul_is_commutative(pd as int, q as int);
        lemma_mul_is_commutative(pd as int, pn as int);
    }
    assert(r * pn < pw) by {
        lemma_mul_strict_inequality(r as int, pd as int, pn as int);
        lemma_mul_is_commutative(pd as int, pn as int);
    }
    assert((q * pw + r * pn) % pw == r * pn) by {
        lemma_mod_multiples_vanish(q as int, (r * pn) as int, pw as int);
        lemma_small_mod((r * pn) as nat, pw);
        lemma_mul_nonnegative(r as int, pn as int);
    }
    assert((r * pn) / pn == r) by {
        lemma_div_multiples_vanish(r as int, pn as int);
        lemma_mul_is_commutative(r as int, pn as int);
    }
}

/// For two-word integers, the stored sum and the overflow flag promised by
/// `inplace_add` are exactly a 128-bit machine `overflowing_add`: the sum
/// modulo `2^128`, and a flag that says the true sum wrapped.
pub proof fn lemma_two_word_add_matches_native(a: nat, b: nat, r: nat, overflow: bool)
    requires
        a < pow2(128),
        b < pow2(128),
        r < pow2(128),
        r + (if overflow {
            pow2(128)
        } else {
            0nat
        }) == a + b,
    ensures
        r == (a + b) % pow2(128),
        overflow <==> a + b >= pow2(128),
{
    lemma_pow2_pos(128);
    if overflow {
        lemma_mod_sub_multiples_vanish((a + b) as int, pow2(128) as int);
        lemma_small_mod(r, pow2(128));
    } else {
        lemma_small_mod(r, pow2(128));
    }
}

/// For two-word integers, the stored difference and the borrow flag
/// promised by `inplace_sub` are exactly a 128-bit machine
/// `overflowing_sub`: the difference modulo `2^128`, and a flag that says
/// the true difference was negative.
pub proof fn lemma_two_word_sub_matches_native(a: nat, b: nat, r: nat, underflow: bool)
    requires
        a < pow2(128),
        b < pow2(128),
        r < pow2(128),
        r as int == a - b + (if underflow {
            pow2(128) as int
        } else {
            0
        }),
    ensures
        r as int == (a - b) % (pow2(128) as int),
        underflow <==> a < b,
{
    lemma_pow2_pos(128);
    if underflow {
        lemma_mod_add_multiples_vanish((a - b) as int, pow2(128) as int);
        lemma_small_mod(r, pow2(128));
    } else {
        lemma_small_mod(r, pow2(128));
    }
}

/// The most significant bit index is zero only for zero, and the index of
/// `2^k` is `k + 1`: what `msb_index` promises, read at a power of two.
pub proof fn lemma_msb_index_of_power(k: nat)
    ensures
        spec_bit_len(0) == 0,
        spec_bit_len(pow2(k)) == k + 1,
{
    lemma_pow2_pos(k);
    lemma_pow2_strictly_increases(k, k + 1);
    crate::bigint::lemma_bit_len_unique(pow2(k), k + 1);
}

/// Ties-to-even: when the discarded fraction is exactly one half, the
/// rounding step always lands on an even mantissa, whichever neighbour
/// that is.
pub proof fn lemma_tie_to_even_lands_even(e: nat, m: nat, sign: bool, exp: int, mant: nat)
    requires
        valid_format(e, m),
        mant < pow2(spec_prec(m)),
    ensures
        ({
            let r = spec_round_step(
                e,
                m,
                sign,
                exp,
                mant,
                RoundingMode::NearestTiesToEven,
                LossFraction::ExactlyHalf,
            );
            r.category is Normal ==> r.mantissa % 2 == 0
        }),
{
    let prec = spec_prec(m);
    lemma_pow2_pos(prec);
    if mant % 2 == 1 {
        // round away: the incremented mantissa is even, and if it carries
        // out, the halved power of two is even as well.
        lemma_fundamental_div_mod(mant as int, 2);
        if mant + 1 >= pow2(prec) {
            // mant + 1 == 2^prec exactly
            assert((mant + 1) / 2 == pow2((prec - 1) as nat)) by {
                lemma_pow2_adds((prec - 1) as nat, 1);
                assert(pow2(1) == 2) by {
                    lemma2_to64();
                }
                lemma_div_multiples_vanish(pow2((prec - 1) as nat) as int, 2);
                lemma_mul_is_commutative(pow2((prec - 1) as nat) as int, 2);
            }
            assert(pow2((prec - 1) as nat) % 2 == 0) by {
                lemma_pow2_adds((prec - 2) as nat, 1);
                assert(pow2(1) == 2) by {
                    lemma2_to64();
                }
                lemma_mod_multiples_basic(pow2((prec - 2) as nat) as int, 2);
                lemma_mul_is_commutative(pow2((prec - 2) as nat) as int, 2);
            }
        } else {
            assert((mant + 1) % 2 == 0) by {
                lemma_fundamental_div_mod_converse_mod(
                    (mant + 1) as int,
                    2,
                    (mant / 2 + 1) as int,
                    0,
                );
            }
        }
    }
}

/// Two successive truncations report the same loss as one truncation of
/// the combined width: shifting `v` right by `b2` bits (losing `lsb`-level
/// information) and then by `b1` more (losing `msb`-level information),
/// combined by `combine_loss_fraction`, classifies exactly like a single
/// shift by `b1 + b2`.  This is the rule `normalize` relies on when it
/// folds an incoming loss into its own alignment shift.
pub proof fn lemma_loss_combination(v: nat, b1: nat, b2: nat)
    requires
        1 <= b1,
    ensures
        spec_combine_loss_fraction(
            spec_loss_fraction(v / pow2(b2), b1),
            spec_loss_fraction(v, b2),
        ) == spec_loss_fraction(v, b1 + b2),
{
    let p1 = pow2(b1);
    let p2 = pow2(b2);
    let pt = pow2(b1 + b2);
    lemma_pow2_pos(b1);
    lemma_pow2_pos(b2);
    lemma_pow2_pos(b1 + b2);
    lemma_pow2_adds(b1, b2);
    let q = v / p2;
    let r2 = v % p2;
    let r1 = q % p1;
    let rt = v % pt;
    // rt == r1 * 2^b2 + r2
    assert(rt == p2 * r1 + r2) by {
        lemma_mod_breakdown(v as int, p2 as int, p1 as int);
        lemma_mul_is_commutative(p1 as int, p2 as int);
    }
    lemma_mod_bound(v as int, p2 as int);
    lemma_mod_bound(q as int, p1 as int);
    // the half points relate through the same scaling
    assert(pow2((b1 - 1) as nat) * 2 == p1) by {
        lemma_pow2_adds((b1 - 1) as nat, 1);
        assert(pow2(1) == 2) by {
            lemma2_to64();
        }
    }
    if r2 == 0 {
        // nothing was lost below: both sides classify r1 alone
        assert(rt == p2 * r1);
        assert(rt == 0 <==> r1 == 0) by {
            lemma_mul_is_commutative(p2 as int, r1 as int);
            if r1 != 0 {
                lemma_mul_strictly_positive(p2 as int, r1 as int);
            }
        }
        // 2 rt vs 2^tot is 2 r1 vs 2^b1, scaled by 2^b2
        assert(2 * rt == (2 * r1) * p2) by {
            lemma_mul_is_commutative(p2 as int, r1 as int);
            lemma_mul_is_associative(2, r1 as int, p2 as int);
        }
        assert(pt == p1 * p2);
        lemma_scaled_compare(2 * r1, p1, p2);
    } else {
        // something was lost below: an exact boundary above turns strict
        assert(rt != 0) by {
            lemma_mul_nonnegative(p2 as int, r1 as int);
        }
        if r1 == 0 {
            // msb exactly zero: combined reads less-than-half
            assert(rt == r2) by {
                lemma_mul_basics(p2 as int);
            }
            assert(2 * r2 < 2 * p2);
            assert(2 * p2 <= pt) by {
                lemma_pow2_adds(1, b2);
                assert(pow2(1) == 2) by {
                    lemma2_to64();
                }
                if 1 + b2 < b1 + b2 {
                    lemma_pow2_strictly_increases(1 + b2, b1 + b2);
                }
            }
        } else if 2 * r1 == p1 {
            // msb exactly half: the extra low loss pushes past half
            assert(2 * rt == p1 * p2 + 2 * r2) by {
                lemma_mul_is_commutative(p2 as int, r1 as int);
                lemma_mul_is_associative(2, r1 as int, p2 as int);
            }
        } else if 2 * r1 < p1 {
            // msb less than half stays less than half: both sides of the
            // comparison are even, so the gap is at least two
            assert(2 * r1 <= p1 - 2);
            assert(2 * rt == (2 * r1) * p2 + 2 * r2) by {
                lemma_mul_is_commutative(p2 as int, r1 as int);
                lemma_mul_is_associative(2, r1 as int, p2 as int);
            }
            assert((2 * r1) * p2 <= (p1 - 2) * p2) by {
                lemma_mul_inequality((2 * r1) as int, p1 as int - 2, p2 as int);
            }
            assert((p1 - 2) * p2 == pt - 2 * p2) by {
                lemma_mul_is_distributive_sub_other_way(p2 as int, p1 as int, 2);
                lemma_mul_is_commutative(p2 as int, 2);
            }
            assert(2 * r2 < 2 * p2);
        } else {
            // msb more than half stays more than half
            assert(2 * rt >= (2 * r1) * p2) by {
                lemma_mul_is_commutative(p2 as int, r1 as int);
                lemma_mul_is_associative(2, r1 as int, p2 as int);
            }
            assert((2 * r1) * p2 >= (p1 + 1) * p2) by {
                lemma_mul_inequality(p1 as int + 1, (2 * r1) as int, p2 as int);
            }
            assert((p1 + 1) * p2 == pt + p2) by {
                lemma_mul_is_distributive_add_other_way(p2 as int, p1 as int, 1);
            }
        }
    }
}

/// An unsigned integer whose bit length fits the precision converts
/// without rounding: the result is normal, its exponent is the position of
/// the integer's leading bit, and its mantissa is the integer left-aligned
/// to the explicit-bit position, so the denoted value
/// `mantissa * 2^(exp - m)` is exactly the input.
pub proof fn lemma_from_u64_exact(e: nat, m: nat, v: u64)
    requires
        valid_format(e, m),
        1 <= spec_bit_len(v as nat) <= spec_prec(m),
        spec_bit_len(v as nat) - 1 <= spec_exp_max(e),
    ensures
        spec_from_u64(e, m, v) == (FloatValue {
            sign: false,
            exp: spec_bit_len(v as nat) - 1,
            mantissa: v as nat * pow2((spec_prec(m) - spec_bit_len(v as nat)) as nat),
            category: Category::Normal,
        }),
        spec_from_u64(e, m, v).mantissa * pow2((spec_from_u64(e, m, v).exp - m) as nat) == v as nat
            || spec_from_u64(e, m, v).exp < m,
{
    let prec = spec_prec(m);
    let nmsb = spec_bit_len(v as nat);
    crate::bigint::lemma_bit_len_bounds(v as nat);
    assert(v != 0) by {
        lemma_pow2_pos((nmsb - 1) as nat);
    }
    let f0 = FloatValue { sign: false, exp: m as int, mantissa: v as nat, category: Category::Normal };
    // The exponent bounds hold on both sides of the alignment shift.
    assert(spec_exp_min(e) < 0 < spec_exp_max(e)) by {
        lemma_pow2_adds(1, (e - 1) as nat);
        lemma_pow2_strictly_increases(1, (e - 1) as nat);
        assert(pow2(1) == 2) by {
            lemma2_to64();
        }
    }
    assert(f0.exp + nmsb - prec == nmsb - 1);
    if nmsb < prec {
        // the lossless left-shift branch
        let change = nmsb - prec;
        assert(spec_normalize(
            e,
            m,
            f0,
            RoundingMode::NearestTiesToEven,
            LossFraction::ExactlyZero,
        ) == (FloatValue {
            sign: false,
            exp: f0.exp + change,
            mantissa: v as nat * pow2((-change) as nat),
            category: Category::Normal,
        }));
    } else {
        // already aligned: the exact rounding branch keeps everything
        assert(pow2(0) == 1) by {
            lemma2_to64();
        }
        assert(v as nat * 1 == v as nat);
    }
    // the denoted value is preserved: exp - m == nmsb - 1 - m and
    // prec - nmsb cancel against each other
    let r = spec_from_u64(e, m, v);
    if r.exp >= m {
        assert(r.exp == m && nmsb == prec);
        assert(r.mantissa * pow2(0) == v as nat) by {
            assert(pow2(0) == 1) by {
                lemma2_to64();
            }
        }
    }
}


/// Normalization never changes the value it is given, only its
/// representation: when nothing is discarded (no pending loss, and any
/// alignment shift drops only zero bits) the result is a normal value
/// denoting the same number, the mantissas differing from each other by
/// exactly the power of two the exponents moved.
pub proof fn lemma_normalize_preserves_exact_values(e: nat, m: nat, f: FloatValue, rm: RoundingMode)
    requires
        valid_format(e, m),
        f.category is Normal,
        f.mantissa > 0,
        f.exp + spec_bit_len(f.mantissa) - spec_prec(m) <= spec_exp_max(e),
        spec_clamped_change(e, f.exp, spec_bit_len(f.mantissa), spec_prec(m)) > 0
            ==> f.mantissa % pow2(
            spec_clamped_change(e, f.exp, spec_bit_len(f.mantissa), spec_prec(m)) as nat,
        ) == 0,
    ensures
        ({
            let r = spec_normalize(e, m, f, rm, LossFraction::ExactlyZero);
            &&& r.category is Normal
            &&& (r.exp >= f.exp ==> r.mantissa * pow2((r.exp - f.exp) as nat) == f.mantissa)
            &&& (r.exp < f.exp ==> f.mantissa * pow2((f.exp - r.exp) as nat) == r.mantissa)
        }),
{
    let prec = spec_prec(m);
    let nmsb = spec_bit_len(f.mantissa);
    crate::bigint::lemma_bit_len_bounds(f.mantissa);
    let change = spec_clamped_change(e, f.exp, nmsb, prec);
    let r = spec_normalize(e, m, f, rm, LossFraction::ExactlyZero);
    if change < 0 {
        // the mantissa moves up, the exponent down: definitionally exact
        assert(r.exp == f.exp + change);
    } else if change == 0 {
        assert(pow2(0) == 1) by {
            lemma2_to64();
        }
        assert(r.mantissa * 1 == f.mantissa);
    } else {
        // the alignment shift drops only zeros, so the quotient carries
        // the whole value
        let pc = pow2(change as nat);
        lemma_pow2_pos(change as nat);
        assert(spec_loss_fraction(f.mantissa, change as nat) is ExactlyZero);
        assert(spec_combine_loss_fraction(
            spec_loss_fraction(f.mantissa, change as nat),
            LossFraction::ExactlyZero,
        ) is ExactlyZero);
        lemma_fundamental_div_mod(f.mantissa as int, pc as int);
        assert(f.mantissa == pc * (f.mantissa / pc));
        assert(f.mantissa / pc != 0) by {
            if f.mantissa / pc == 0 {
                lemma_mul_basics(pc as int);
            }
        }
        assert(r.exp == f.exp + change && r.mantissa == f.mantissa / pc);
        lemma_mul_is_commutative((f.mantissa / pc) as int, pc as int);
    }
}

/// Comparing a doubled remainder against a power, both scaled by the same
/// positive factor, goes the same way unscaled.
proof fn lemma_scaled_compare(x: nat, y: nat, f: nat)
    requires
        f > 0,
    ensures
        x * f < y * f <==> x < y,
        x * f == y * f <==> x == y,
{
    if x < y {
        lemma_mul_strict_inequality(x as int, y as int, f as int);
    }
    if y < x {
        lemma_mul_strict_inequality(y as int, x as int, f as int);
    }
}

} // verus!
