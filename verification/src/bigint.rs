//! Fixed-width multi-word unsigned integers.
//!
//! A `BigInt<PARTS>` holds `PARTS` 64-bit words, least significant first,
//! and denotes the natural number `spec_nat()` below `2^(64 * PARTS)`.

use crate::float::LossFraction;
use vstd::arithmetic::div_mod::*;
use vstd::arithmetic::mul::*;
use vstd::arithmetic::power2::*;
use vstd::prelude::*;

verus! {

/// Value of the first `n` words of `s`, read little-endian in base `2^64`.
pub open spec fn words_value(s: Seq<u64>, n: int) -> nat
    decreases n,
{
    if n <= 0 {
        0
    } else {
        words_value(s, n - 1) + s[n - 1] as nat * pow2((64 * (n - 1)) as nat)
    }
}

/// A fixed-width unsigned integer of `PARTS` 64-bit words, word 0 least
/// significant.
#[derive(Clone, Copy, Debug, PartialEq, Eq)]
pub struct BigInt<const PARTS: usize> {
    pub parts: [u64; PARTS],
}

impl<const PARTS: usize> BigInt<PARTS> {
    /// The sequence of words, least significant first.
    pub open spec fn spec_words(&self) -> Seq<u64> {
        self.parts@
    }

    /// The natural number this value denotes.
    pub open spec fn spec_nat(&self) -> nat {
        words_value(self.parts@, PARTS as int)
    }

    /// Create a new zero big int number.
    pub fn zero() -> (r: Self)
        ensures
            r.spec_nat() == 0,
    {
        let r = BigInt { parts: [0u64; PARTS] };
        proof {
            lemma_words_value_zero(r.parts@, PARTS as int);
        }
        r
    }

    /// Read one word; word 0 is the least significant.
    pub fn get_part(&self, idx: usize) -> (r: u64)
        requires
            idx < PARTS,
        ensures
            r == self.spec_words()[idx as int],
    {
        self.parts[idx]
    }
}

/// A sequence of zero words denotes zero.
proof fn lemma_words_value_zero(s: Seq<u64>, n: int)
    requires
        forall|i: int| 0 <= i < n ==> s[i] == 0,
    ensures
        words_value(s, n) == 0,
    decreases n,
{
    if n > 0 {
        lemma_words_value_zero(s, n - 1);
    }
}

/// `n` words denote a value below `2^(64 n)`.
pub proof fn lemma_words_value_bound(s: Seq<u64>, n: int)
    requires
        0 <= n <= s.len(),
    ensures
        words_value(s, n) < pow2((64 * n) as nat),
    decreases n,
{
    if n == 0 {
        lemma_pow2_pos(0);
        assert(pow2(0) == 1) by {
            lemma2_to64();
        }
    } else {
        lemma_words_value_bound(s, n - 1);
        let p = pow2((64 * (n - 1)) as nat);
        assert(s[n - 1] as nat * p <= (pow2(64) - 1) * p) by {
            lemma_pow2_pos((64 * (n - 1)) as nat);
            assert(s[n - 1] < pow2(64)) by {
                lemma2_to64_rest();
            }
            lemma_mul_inequality(s[n - 1] as int, pow2(64) as int - 1, p as int);
        }
        assert(pow2(64) * p == pow2((64 * n) as nat)) by {
            lemma_pow2_adds(64, (64 * (n - 1)) as nat);
        }
        assert(words_value(s, n) < pow2(64) * p) by {
            lemma_mul_is_distributive_sub_other_way(p as int, pow2(64) as int, 1);
        }
    }
}

/// Two sequences that agree on the first `n` words denote the same value.
pub proof fn lemma_words_value_equal(s: Seq<u64>, t: Seq<u64>, n: int)
    requires
        forall|i: int| 0 <= i < n ==> s[i] == t[i],
    ensures
        words_value(s, n) == words_value(t, n),
    decreases n,
{
    if n > 0 {
        lemma_words_value_equal(s, t, n - 1);
    }
}

/// The value of `n` words, taken modulo `2^(64 k)` for `k <= n`, is the
/// value of the low `k` words.
pub proof fn lemma_words_value_mod(s: Seq<u64>, k: int, n: int)
    requires
        0 <= k <= n <= s.len(),
    ensures
        words_value(s, n) % pow2((64 * k) as nat) == words_value(s, k),
    decreases n,
{
    let m = pow2((64 * k) as nat);
    lemma_pow2_pos((64 * k) as nat);
    if n == k {
        lemma_words_value_bound(s, k);
        lemma_small_mod(words_value(s, k), m);
    } else {
        lemma_words_value_mod(s, k, n - 1);
        let w = s[n - 1] as nat;
        let p = pow2((64 * (n - 1)) as nat);
        let pd = pow2((64 * (n - 1) - 64 * k) as nat);
        assert(w * p == m * (w * pd)) by {
            lemma_pow2_adds((64 * k) as nat, (64 * (n - 1) - 64 * k) as nat);
            lemma_mul_is_associative(w as int, m as int, pd as int);
            lemma_mul_is_commutative(w as int, m as int);
            lemma_mul_is_associative(m as int, w as int, pd as int);
        }
        assert((m as int * (w * pow2((64 * (n - 1) - 64 * k) as nat)) as int + words_value(
            s,
            n - 1,
        ) as int) % m as int == words_value(s, n - 1) as int % m as int) by {
            lemma_mod_multiples_vanish(
                (w * pow2((64 * (n - 1) - 64 * k) as nat)) as int,
                words_value(s, n - 1) as int,
                m as int,
            );
        }
    }
}

/// Each word contributes a lower bound on the value.
pub proof fn lemma_words_value_word_lower(s: Seq<u64>, i: int, n: int)
    requires
        0 <= i < n <= s.len(),
    ensures
        words_value(s, n) >= s[i] as nat * pow2((64 * i) as nat),
    decreases n,
{
    lemma_mul_nonnegative(s[n - 1] as int, pow2((64 * (n - 1)) as nat) as int);
    if i < n - 1 {
        lemma_words_value_word_lower(s, i, n - 1);
    }
}

impl<const PARTS: usize> BigInt<PARTS> {
    pub fn from_u64(val: u64) -> (r: Self)
        requires
            PARTS >= 1,
        ensures
            r.spec_nat() == val,
    {
        let mut bi = BigInt { parts: [0u64; PARTS] };
        bi.parts[0] = val;
        proof {
            lemma_words_value_zero(bi.parts@.skip(1), PARTS - 1);
            lemma_words_value_equal(bi.parts@, bi.parts@, PARTS as int);
            lemma_nonzero_low_word(bi.parts@, PARTS as int);
            assert(pow2(0) == 1) by {
                lemma2_to64();
            }
        }
        bi
    }

    pub fn from_u128(val: u128) -> (r: Self)
        requires
            PARTS >= 2,
        ensures
            r.spec_nat() == val,
    {
        let mut bi = BigInt { parts: [0u64; PARTS] };
        let low: u64 = (val & 0xFFFF_FFFF_FFFF_FFFFu128) as u64;
        let high: u64 = (val >> 64u128) as u64;
        bi.parts[0] = low;
        bi.parts[1] = high;
        proof {
            assert(low == val as nat % pow2(64) && high == val as nat / pow2(64)) by {
                vstd::bits::lemma_u128_shr_is_div(val, 64);
                assert(val & 0xFFFF_FFFF_FFFF_FFFFu128 == val % 0x1_0000_0000_0000_0000u128)
                    by (bit_vector);
                assert((val >> 64u128) < 0x1_0000_0000_0000_0000u128) by (bit_vector);
                lemma2_to64_rest();
            }
            lemma_two_low_words(bi.parts@, PARTS as int);
            assert(val as nat == pow2(64) * (val as nat / pow2(64)) + val as nat % pow2(64)) by {
                lemma_pow2_pos(64);
                lemma_fundamental_div_mod(val as int, pow2(64) as int);
            }
            lemma_mul_is_commutative(high as int, pow2(64) as int);
        }
        bi
    }

    /// The value as one word.  A value with significant bits beyond the
    /// first word is a caller error, ruled out by the contract.
    pub fn to_u64(&self) -> (r: u64)
        requires
            PARTS >= 1,
            self.spec_nat() < pow2(64),
        ensures
            r == self.spec_nat(),
    {
        proof {
            lemma_words_value_mod(self.parts@, 1, PARTS as int);
            lemma_small_mod(self.spec_nat(), pow2(64));
            lemma_pow2_pos(64);
            lemma_nonzero_low_word(self.parts@, 1);
            assert(pow2(0) == 1) by {
                lemma2_to64();
            }
        }
        self.parts[0]
    }

    /// The value as two words.  Significant bits beyond the second word are
    /// a caller error, ruled out by the contract.
    pub fn to_u128(&self) -> (r: u128)
        requires
            PARTS >= 2,
            self.spec_nat() < pow2(128),
        ensures
            r == self.spec_nat(),
    {
        proof {
            lemma_words_value_mod(self.parts@, 2, PARTS as int);
            lemma_small_mod(self.spec_nat(), pow2(128));
            lemma_pow2_pos(128);
            let s = self.parts@;
            assert(pow2(0) == 1) by {
                lemma2_to64();
            }
            assert(words_value(s, 0) == 0);
            assert(words_value(s, 1) == words_value(s, 0) + s[0] as nat * pow2(0));
            assert(words_value(s, 2) == s[0] as nat + s[1] as nat * pow2(64));
            assert((self.parts@[1] as u128) * pow2(64) < pow2(128)) by {
                lemma2_to64_rest();
                lemma_pow2_adds(64, 64);
                lemma_mul_strict_inequality(
                    self.parts@[1] as int,
                    pow2(64) as int,
                    pow2(64) as int,
                );
            }
            let h = self.parts@[1] as u128;
            assert(h << 64u128 == h * 0x1_0000_0000_0000_0000u128) by (bit_vector)
                requires
                    h < 0x1_0000_0000_0000_0000u128,
            ;
            lemma2_to64_rest();
        }
        (self.parts[0] as u128) + ((self.parts[1] as u128) << 64u128)
    }

    /// True if the int is equal to zero.
    pub fn is_zero(&self) -> (r: bool)
        ensures
            r <==> self.spec_nat() == 0,
    {
        for i in 0..PARTS
            invariant
                forall|j: int| 0 <= j < i ==> self.parts@[j] == 0,
        {
            if self.parts[i] != 0 {
                proof {
                    lemma_words_value_word_lower(self.parts@, i as int, PARTS as int);
                    lemma_pow2_pos((64 * i) as nat);
                    lemma_mul_strictly_positive(self.parts@[i as int] as int, pow2(
                        (64 * i) as nat,
                    ) as int);
                }
                return false;
            }
        }
        proof {
            lemma_words_value_zero(self.parts@, PARTS as int);
        }
        true
    }

    /// True if the lowest bit is clear.
    pub fn is_even(&self) -> (r: bool)
        requires
            PARTS >= 1,
        ensures
            r <==> self.spec_nat() % 2 == 0,
    {
        proof {
            lemma_low_word_parity(self.parts@, PARTS as int);
        }
        (self.parts[0] & 0x1) == 0
    }

    /// True if the lowest bit is set.
    pub fn is_odd(&self) -> (r: bool)
        requires
            PARTS >= 1,
        ensures
            r <==> self.spec_nat() % 2 == 1,
    {
        proof {
            lemma_low_word_parity(self.parts@, PARTS as int);
        }
        (self.parts[0] & 0x1) == 1
    }

    pub fn from_parts(parts: &[u64; PARTS]) -> (r: Self)
        ensures
            r.spec_words() == parts@,
    {
        BigInt { parts: *parts }
    }
}

/// With words 1.. all zero, the value is the low word.
proof fn lemma_nonzero_low_word(s: Seq<u64>, n: int)
    requires
        1 <= n <= s.len(),
        forall|i: int| 1 <= i < n ==> s[i] == 0,
    ensures
        words_value(s, n) == s[0] as nat,
    decreases n,
{
    assert(pow2(0) == 1) by {
        lemma2_to64();
    }
    assert(words_value(s, 0) == 0);
    if n == 1 {
        assert(words_value(s, 1) == words_value(s, 0) + s[0] as nat * pow2(0));
        assert(s[0] as nat * 1 == s[0] as nat);
    } else {
        lemma_nonzero_low_word(s, n - 1);
        assert(s[n - 1] == 0);
        assert(words_value(s, n) == words_value(s, n - 1) + s[n - 1] as nat * pow2(
            (64 * (n - 1)) as nat,
        ));
        assert(s[n - 1] as nat * pow2((64 * (n - 1)) as nat) == 0) by {
            lemma_mul_basics(pow2((64 * (n - 1)) as nat) as int);
        }
    }
}

/// With words 2.. all zero, the value is the low two words.
proof fn lemma_two_low_words(s: Seq<u64>, n: int)
    requires
        2 <= n <= s.len(),
        forall|i: int| 2 <= i < n ==> s[i] == 0,
    ensures
        words_value(s, n) == s[0] as nat + s[1] as nat * pow2(64),
    decreases n,
{
    assert(pow2(0) == 1) by {
        lemma2_to64();
    }
    assert(words_value(s, 0) == 0);
    assert(words_value(s, 1) == words_value(s, 0) + s[0] as nat * pow2(0));
    if n > 2 {
        lemma_two_low_words(s, n - 1);
    }
}

/// Unfolding of `words_value` one word up, as a named fact for triggers.
proof fn lemma_words_value_extend(s: Seq<u64>, i: int)
    requires
        0 <= i,
    ensures
        words_value(s, i + 1) == words_value(s, i) + s[i] as nat * pow2((64 * i) as nat),
{
}

impl<const PARTS: usize> BigInt<PARTS> {
    /// Add `rhs` to self with ripple carry.  The stored result is the sum
    /// modulo `2^(64 PARTS)`; the returned flag reports a wrapped sum.
    pub fn inplace_add(&mut self, rhs: &Self) -> (overflow: bool)
        ensures
            final(self).spec_nat() + if overflow {
                pow2((64 * PARTS) as nat)
            } else {
                0
            } == old(self).spec_nat() + rhs.spec_nat(),
            overflow <==> old(self).spec_nat() + rhs.spec_nat() >= pow2((64 * PARTS) as nat),
    {
        let mut carry: u64 = 0;
        proof {
            assert(words_value(self.parts@, 0) == 0);
            assert(words_value(old(self).parts@, 0) == 0);
            assert(words_value(rhs.parts@, 0) == 0);
            assert(pow2(0) == 1) by {
                lemma2_to64();
            }
        }
        for i in 0..PARTS
            invariant
                carry <= 1,
                forall|j: int| i <= j < PARTS ==> self.parts@[j] == old(self).parts@[j],
                words_value(self.parts@, i as int) + carry as nat * pow2((64 * i) as nat)
                    == words_value(old(self).parts@, i as int) + words_value(
                    rhs.parts@,
                    i as int,
                ),
        {
            let ghost prev = self.parts@;
            let ghost pi = pow2((64 * i) as nat);
            let a: u64 = self.parts[i];
            let b: u64 = rhs.parts[i];
            let t: u128 = a as u128 + b as u128 + carry as u128;
            let lo: u64 = (t & 0xFFFF_FFFF_FFFF_FFFFu128) as u64;
            let hi: u64 = (t >> 64u128) as u64;
            self.parts[i] = lo;
            proof {
                lemma_split_u128_low(t);
                lemma2_to64_rest();
                assert((t >> 64u128) <= 1) by (bit_vector)
                    requires
                        t < 0x2_0000_0000_0000_0000u128,
                ;
                lemma_carry_accounting(
                    prev,
                    self.parts@,
                    old(self).parts@,
                    rhs.parts@,
                    i as int,
                    carry as nat,
                    hi as nat,
                );
            }
            carry = hi;
        }
        proof {
            lemma_words_value_bound(self.parts@, PARTS as int);
            lemma_words_value_bound(old(self).parts@, PARTS as int);
            lemma_words_value_bound(rhs.parts@, PARTS as int);
        }
        carry != 0
    }

    /// Subtract `rhs` from self with ripple borrow.  The stored result is
    /// the difference modulo `2^(64 PARTS)`; the returned flag reports that
    /// the difference was negative.
    pub fn inplace_sub(&mut self, rhs: &Self) -> (underflow: bool)
        ensures
            final(self).spec_nat() as int == old(self).spec_nat() - rhs.spec_nat() + if underflow {
                pow2((64 * PARTS) as nat) as int
            } else {
                0
            },
            underflow <==> old(self).spec_nat() < rhs.spec_nat(),
    {
        let mut borrow: u64 = 0;
        proof {
            assert(words_value(self.parts@, 0) == 0);
            assert(words_value(old(self).parts@, 0) == 0);
            assert(words_value(rhs.parts@, 0) == 0);
            assert(pow2(0) == 1) by {
                lemma2_to64();
            }
        }
        for i in 0..PARTS
            invariant
                borrow <= 1,
                forall|j: int| i <= j < PARTS ==> self.parts@[j] == old(self).parts@[j],
                words_value(self.parts@, i as int) as int == words_value(
                    old(self).parts@,
                    i as int,
                ) - words_value(rhs.parts@, i as int) + borrow as int * pow2(
                    (64 * i) as nat,
                ) as int,
        {
            let ghost prev = self.parts@;
            let a: u64 = self.parts[i];
            let b: u64 = rhs.parts[i];
            let t: u128 = 0x1_0000_0000_0000_0000u128 + a as u128 - b as u128 - borrow as u128;
            let lo: u64 = (t & 0xFFFF_FFFF_FFFF_FFFFu128) as u64;
            let hi: u64 = (t >> 64u128) as u64;
            self.parts[i] = lo;
            proof {
                lemma_split_u128_low(t);
                lemma2_to64_rest();
                assert((t >> 64u128) <= 1) by (bit_vector)
                    requires
                        t < 0x2_0000_0000_0000_0000u128,
                ;
                lemma_borrow_accounting(
                    prev,
                    self.parts@,
                    old(self).parts@,
                    rhs.parts@,
                    i as int,
                    borrow as nat,
                    (1 - hi as int) as nat,
                );
            }
            borrow = 1 - hi;
        }
        proof {
            lemma_words_value_bound(self.parts@, PARTS as int);
            lemma_words_value_bound(old(self).parts@, PARTS as int);
            lemma_words_value_bound(rhs.parts@, PARTS as int);
        }
        borrow != 0
    }
}

/// A 128-bit value splits into its low 64 bits and its high 64 bits.
proof fn lemma_split_u128_low(t: u128)
    ensures
        ((t & 0xFFFF_FFFF_FFFF_FFFFu128) as u64) as nat == t as nat % pow2(64),
        ((t >> 64u128) as u64) as nat == t as nat / pow2(64),
        t as nat == t as nat / pow2(64) * pow2(64) + t as nat % pow2(64),
{
    assert((t & 0xFFFF_FFFF_FFFF_FFFFu128) == t % 0x1_0000_0000_0000_0000u128) by (bit_vector);
    assert((t & 0xFFFF_FFFF_FFFF_FFFFu128) < 0x1_0000_0000_0000_0000u128) by (bit_vector);
    assert((t >> 64u128) < 0x1_0000_0000_0000_0000u128) by (bit_vector);
    vstd::bits::lemma_u128_shr_is_div(t, 64);
    lemma2_to64_rest();
    lemma_pow2_pos(64);
    lemma_fundamental_div_mod(t as int, pow2(64) as int);
}

/// One step of ripple-carry accounting: writing word `i` and carrying out
/// `c_out` preserves the prefix-sum relation, where the written word and the
/// carries satisfy `word + c_out * 2^64 == a + b + c_in`.
proof fn lemma_carry_accounting(
    prev: Seq<u64>,
    cur: Seq<u64>,
    orig: Seq<u64>,
    rhs: Seq<u64>,
    i: int,
    c_in: nat,
    c_out: nat,
)
    requires
        0 <= i < cur.len(),
        prev.len() == cur.len(),
        cur == prev.update(i, cur[i]),
        i < orig.len(),
        i < rhs.len(),
        prev[i] == orig[i],
        cur[i] as nat + c_out * pow2(64) == orig[i] as nat + rhs[i] as nat + c_in,
        words_value(prev, i) + c_in * pow2((64 * i) as nat) == words_value(orig, i)
            + words_value(rhs, i),
    ensures
        words_value(cur, i + 1) + c_out * pow2((64 * (i + 1)) as nat) == words_value(orig, i + 1)
            + words_value(rhs, i + 1),
{
    let p = pow2((64 * i) as nat);
    assert forall|j: int| 0 <= j < i implies cur[j] == prev[j] by {
        assert(cur[j] == prev.update(i, cur[i])[j]);
    }
    lemma_words_value_equal(cur, prev, i);
    lemma_words_value_extend(cur, i);
    lemma_words_value_extend(orig, i);
    lemma_words_value_extend(rhs, i);
    assert(pow2((64 * (i + 1)) as nat) == pow2(64) * p) by {
        lemma_pow2_adds(64, (64 * i) as nat);
    }
    assert(c_out * (pow2(64) * p) == (c_out * pow2(64)) * p) by {
        lemma_mul_is_associative(c_out as int, pow2(64) as int, p as int);
    }
    assert((cur[i] as nat + c_out * pow2(64)) * p == cur[i] as nat * p + (c_out * pow2(64)) * p)
        by {
        lemma_mul_is_distributive_add_other_way(
            p as int,
            cur[i] as int,
            (c_out * pow2(64)) as int,
        );
    }
    assert((orig[i] as nat + rhs[i] as nat + c_in) * p == orig[i] as nat * p + rhs[i] as nat * p
        + c_in * p) by {
        lemma_mul_is_distributive_add_other_way(
            p as int,
            (orig[i] as nat + rhs[i] as nat) as int,
            c_in as int,
        );
        lemma_mul_is_distributive_add_other_way(p as int, orig[i] as int, rhs[i] as int);
    }
}

/// One step of ripple-borrow accounting, the subtractive counterpart of
/// `lemma_carry_accounting`: here `word == a - b - b_in + b_out * 2^64`.
proof fn lemma_borrow_accounting(
    prev: Seq<u64>,
    cur: Seq<u64>,
    orig: Seq<u64>,
    rhs: Seq<u64>,
    i: int,
    b_in: nat,
    b_out: nat,
)
    requires
        0 <= i < cur.len(),
        prev.len() == cur.len(),
        cur == prev.update(i, cur[i]),
        i < orig.len(),
        i < rhs.len(),
        prev[i] == orig[i],
        cur[i] as int == orig[i] as int - rhs[i] as int - b_in + b_out * pow2(64),
        words_value(prev, i) as int == words_value(orig, i) - words_value(rhs, i) + b_in * pow2(
            (64 * i) as nat,
        ),
    ensures
        words_value(cur, i + 1) as int == words_value(orig, i + 1) - words_value(rhs, i + 1)
            + b_out * pow2((64 * (i + 1)) as nat),
{
    let p = pow2((64 * i) as nat) as int;
    assert forall|j: int| 0 <= j < i implies cur[j] == prev[j] by {
        assert(cur[j] == prev.update(i, cur[i])[j]);
    }
    lemma_words_value_equal(cur, prev, i);
    lemma_words_value_extend(cur, i);
    lemma_words_value_extend(orig, i);
    lemma_words_value_extend(rhs, i);
    assert(pow2((64 * (i + 1)) as nat) == pow2(64) * pow2((64 * i) as nat)) by {
        lemma_pow2_adds(64, (64 * i) as nat);
    }
    assert(b_out as int * (pow2(64) as int * p) == (b_out as int * pow2(64) as int) * p) by {
        lemma_mul_is_associative(b_out as int, pow2(64) as int, p);
    }
    assert((orig[i] as int - rhs[i] as int - b_in + b_out * pow2(64)) * p == orig[i] as int * p
        - rhs[i] as int * p - b_in as int * p + (b_out * pow2(64)) as int * p) by {
        lemma_mul_is_distributive_add_other_way(
            p,
            (orig[i] as int - rhs[i] as int - b_in) as int,
            (b_out * pow2(64)) as int,
        );
        lemma_mul_is_distributive_sub_other_way(p, (orig[i] as int - rhs[i] as int) as int, b_in as int);
        lemma_mul_is_distributive_sub_other_way(p, orig[i] as int, rhs[i] as int);
    }
}

/// Value of words `k..n` of `s`, scaled so that word `k` has weight 1.
pub open spec fn words_value_from(s: Seq<u64>, k: int, n: int) -> nat
    decreases n - k,
{
    if k >= n {
        0
    } else {
        s[k] as nat + pow2(64) * words_value_from(s, k + 1, n)
    }
}

/// Peeling the most significant word off a suffix value.
proof fn lemma_words_value_from_peel_top(s: Seq<u64>, k: int, n: int)
    requires
        k < n,
    ensures
        words_value_from(s, k, n) == words_value_from(s, k, n - 1) + s[n - 1] as nat * pow2(
            (64 * (n - 1 - k)) as nat,
        ),
    decreases n - k,
{
    assert(pow2(0) == 1) by {
        lemma2_to64();
    }
    if k == n - 1 {
        assert(words_value_from(s, k, n) == s[k] as nat + pow2(64) * words_value_from(s, k + 1, n));
        assert(words_value_from(s, k + 1, n) == 0);
        assert(pow2(64) * 0 == 0) by {
            lemma_mul_basics(pow2(64) as int);
        }
        assert(words_value_from(s, k, n - 1) == 0);
        assert(s[k] as nat * 1 == s[k] as nat);
    } else {
        lemma_words_value_from_peel_top(s, k + 1, n);
        assert(words_value_from(s, k, n - 1) == s[k] as nat + pow2(64) * words_value_from(
            s,
            k + 1,
            n - 1,
        ));
        let w = s[n - 1] as nat;
        let pa = pow2((64 * (n - 1 - k - 1)) as nat);
        let pb = pow2((64 * (n - 1 - k)) as nat);
        assert(words_value_from(s, k, n) == s[k] as nat + pow2(64) * (words_value_from(
            s,
            k + 1,
            n - 1,
        ) + w * pa));
        assert(pow2(64) * (words_value_from(s, k + 1, n - 1) + w * pa) == pow2(64)
            * words_value_from(s, k + 1, n - 1) + pow2(64) * (w * pa)) by {
            lemma_mul_is_distributive_add(
                pow2(64) as int,
                words_value_from(s, k + 1, n - 1) as int,
                (w * pa) as int,
            );
        }
        assert(pow2(64) * (w * pa) == w * pb) by {
            lemma_pow2_adds(64, (64 * (n - 1 - k - 1)) as nat);
            lemma_mul_is_associative(pow2(64) as int, w as int, pa as int);
            lemma_mul_is_commutative(pow2(64) as int, w as int);
            lemma_mul_is_associative(w as int, pow2(64) as int, pa as int);
        }
    }
}

/// The value of `n` words splits at any word boundary `k` into the low
/// prefix plus the scaled suffix.
pub proof fn lemma_words_value_split(s: Seq<u64>, k: int, n: int)
    requires
        0 <= k <= n,
    ensures
        words_value(s, n) == words_value(s, k) + words_value_from(s, k, n) * pow2((64 * k) as nat),
    decreases n,
{
    let pk = pow2((64 * k) as nat);
    if n == k {
        assert(words_value_from(s, k, n) == 0);
        assert(0 * pk == 0) by {
            lemma_mul_basics(pk as int);
        }
    } else {
        lemma_words_value_split(s, k, n - 1);
        lemma_words_value_from_peel_top(s, k, n);
        let w = s[n - 1] as nat;
        assert((words_value_from(s, k, n - 1) + w * pow2((64 * (n - 1 - k)) as nat)) * pk
            == words_value_from(s, k, n - 1) * pk + (w * pow2((64 * (n - 1 - k)) as nat)) * pk) by {
            lemma_mul_is_distributive_add_other_way(
                pk as int,
                words_value_from(s, k, n - 1) as int,
                (w * pow2((64 * (n - 1 - k)) as nat)) as int,
            );
        }
        assert((w * pow2((64 * (n - 1 - k)) as nat)) * pk == w * pow2((64 * (n - 1)) as nat)) by {
            lemma_pow2_adds((64 * (n - 1 - k)) as nat, (64 * k) as nat);
            lemma_mul_is_associative(
                w as int,
                pow2((64 * (n - 1 - k)) as nat) as int,
                pk as int,
            );
        }
    }
}

/// Words above `k` all zero: the value is the value of the low `k` words.
proof fn lemma_words_value_zero_above(s: Seq<u64>, k: int, n: int)
    requires
        0 <= k <= n,
        forall|j: int| k <= j < n ==> s[j] == 0,
    ensures
        words_value(s, n) == words_value(s, k),
    decreases n,
{
    if n > k {
        lemma_words_value_zero_above(s, k, n - 1);
        assert(s[n - 1] as nat * pow2((64 * (n - 1)) as nat) == 0) by {
            lemma_mul_basics(pow2((64 * (n - 1)) as nat) as int);
        }
    }
}

/// Moving every word up by `w` positions multiplies the value by `2^(64 w)`.
proof fn lemma_words_shift_up(s: Seq<u64>, t: Seq<u64>, w: int, n: int)
    requires
        0 <= w,
        forall|j: int| 0 <= j < n && j < w ==> t[j] == 0,
        forall|j: int| w <= j < n ==> t[j] == s[j - w],
    ensures
        words_value(t, n) == words_value(s, n - w) * pow2((64 * w) as nat),
    decreases n,
{
    let pw = pow2((64 * w) as nat);
    if n <= w {
        lemma_words_value_zero(t, n);
        assert(words_value(s, n - w) == 0);
        assert(0 * pw == 0) by {
            lemma_mul_basics(pw as int);
        }
    } else {
        lemma_words_shift_up(s, t, w, n - 1);
        let x = s[n - 1 - w] as nat;
        assert((words_value(s, n - 1 - w) + x * pow2((64 * (n - 1 - w)) as nat)) * pw
            == words_value(s, n - 1 - w) * pw + (x * pow2((64 * (n - 1 - w)) as nat)) * pw) by {
            lemma_mul_is_distributive_add_other_way(
                pw as int,
                words_value(s, n - 1 - w) as int,
                (x * pow2((64 * (n - 1 - w)) as nat)) as int,
            );
        }
        assert((x * pow2((64 * (n - 1 - w)) as nat)) * pw == x * pow2((64 * (n - 1)) as nat)) by {
            lemma_pow2_adds((64 * (n - 1 - w)) as nat, (64 * w) as nat);
            lemma_mul_is_associative(
                x as int,
                pow2((64 * (n - 1 - w)) as nat) as int,
                pw as int,
            );
        }
    }
}

impl<const PARTS: usize> BigInt<PARTS> {
    /// Shift all words up by `w` positions, filling with zeros: the value is
    /// multiplied by `2^(64 w)` and reduced modulo the width.
    fn shift_left_words(&mut self, w: usize)
        ensures
            final(self).spec_nat() == (old(self).spec_nat() * pow2((64 * w) as nat)) % pow2(
                (64 * PARTS) as nat,
            ),
    {
        let mut out = [0u64; PARTS];
        for i in 0..PARTS
            invariant
                forall|j: int| 0 <= j < i && j < w ==> out@[j] == 0,
                forall|j: int| w <= j < i ==> out@[j] == self.parts@[j - w],
                forall|j: int| i <= j < PARTS ==> out@[j] == 0,
                self.parts@ == old(self).parts@,
        {
            if i >= w {
                out[i] = self.parts[i - w];
            }
        }
        proof {
            lemma_words_shift_up(self.parts@, out@, w as int, PARTS as int);
            lemma_shift_up_is_mul_mod(self.parts@, w as int, PARTS as int);
        }
        self.parts = out;
    }

    /// Shift all words down by `w` positions, filling with zeros: the value
    /// is divided by `2^(64 w)`.
    fn shift_right_words(&mut self, w: usize)
        ensures
            final(self).spec_nat() == old(self).spec_nat() / pow2((64 * w) as nat),
    {
        let mut out = [0u64; PARTS];
        for i in 0..PARTS
            invariant
                forall|j: int|
                    0 <= j < i ==> out@[j] == if j + w < PARTS {
                        self.parts@[j + w]
                    } else {
                        0u64
                    },
                forall|j: int| i <= j < PARTS ==> out@[j] == 0,
                self.parts@ == old(self).parts@,
        {
            if w < PARTS && i < PARTS - w {
                out[i] = self.parts[i + w];
            }
        }
        proof {
            lemma_shift_down_words_is_div(self.parts@, out@, w as int, PARTS as int);
        }
        self.parts = out;
    }
}

/// The shifted-up value equals the original value times `2^(64 w)`, modulo
/// the total width.
proof fn lemma_shift_up_is_mul_mod(s: Seq<u64>, w: int, n: int)
    requires
        0 <= w,
        0 <= n <= s.len(),
    ensures
        words_value(s, n - w) * pow2((64 * w) as nat) == (words_value(s, n) * pow2(
            (64 * w) as nat,
        )) % pow2((64 * n) as nat),
{
    let pw = pow2((64 * w) as nat);
    let pn = pow2((64 * n) as nat);
    let v = words_value(s, n);
    lemma_pow2_pos((64 * w) as nat);
    lemma_pow2_pos((64 * n) as nat);
    if w >= n {
        // Everything is shifted out: the result is zero, and `v * 2^(64 w)`
        // is a multiple of `2^(64 n)`.
        assert(words_value(s, n - w) == 0);
        assert(0 * pw == 0) by {
            lemma_mul_basics(pw as int);
        }
        let pd = pow2((64 * (w - n)) as nat);
        assert(v * pw == (v * pd) * pn) by {
            lemma_pow2_adds((64 * (w - n)) as nat, (64 * n) as nat);
            lemma_mul_is_associative(v as int, pd as int, pn as int);
        }
        assert((v * pd) * pn % pn == 0) by {
            lemma_mod_multiples_basic((v * pd) as int, pn as int);
        }
    } else {
        let m1 = pow2((64 * (n - w)) as nat);
        let r = words_value(s, n - w);
        let q = v / m1;
        lemma_pow2_pos((64 * (n - w)) as nat);
        assert(v % m1 == r) by {
            lemma_words_value_mod(s, n - w, n);
        }
        assert(v == m1 * q + r) by {
            lemma_fundamental_div_mod(v as int, m1 as int);
        }
        // v * pw == q * pn + r * pw
        assert((m1 * q + r) * pw == (m1 * q) * pw + r * pw) by {
            lemma_mul_is_distributive_add_other_way(pw as int, (m1 * q) as int, r as int);
        }
        assert((m1 * q) * pw == q * pn) by {
            lemma_pow2_adds((64 * (n - w)) as nat, (64 * w) as nat);
            lemma_mul_is_commutative(m1 as int, q as int);
            lemma_mul_is_associative(q as int, m1 as int, pw as int);
        }
        assert(r * pw < pn) by {
            lemma_words_value_bound(s, n - w);
            lemma_pow2_adds((64 * (n - w)) as nat, (64 * w) as nat);
            lemma_mul_strict_inequality(r as int, m1 as int, pw as int);
        }
        assert(r * pw >= 0) by {
            lemma_mul_nonnegative(r as int, pw as int);
        }
        assert((q * pn + r * pw) % pn == r * pw) by {
            lemma_mod_multiples_vanish(q as int, (r * pw) as int, pn as int);
            lemma_small_mod((r * pw) as nat, pn as nat);
        }
    }
}

/// The shifted-down words denote the original value divided by `2^(64 w)`.
proof fn lemma_shift_down_words_is_div(s: Seq<u64>, t: Seq<u64>, w: int, n: int)
    requires
        0 <= w,
        0 <= n <= s.len(),
        n <= t.len(),
        forall|j: int|
            0 <= j < n ==> t[j] == if j + w < n {
                s[j + w]
            } else {
                0u64
            },
    ensures
        words_value(t, n) == words_value(s, n) / pow2((64 * w) as nat),
{
    let pw = pow2((64 * w) as nat);
    let v = words_value(s, n);
    lemma_pow2_pos((64 * w) as nat);
    if w >= n {
        lemma_words_value_zero(t, n);
        lemma_words_value_bound(s, n);
        assert(pow2((64 * n) as nat) <= pw) by {
            if n < w {
                lemma_pow2_strictly_increases((64 * n) as nat, (64 * w) as nat);
            }
        }
        assert(v / pw == 0) by {
            lemma_basic_div(v as int, pw as int);
        }
    } else {
        // The suffix from word w, and the prefix below it.
        lemma_words_value_split(s, w, n);
        let suf = words_value_from(s, w, n);
        let low = words_value(s, w);
        assert(v / pw == suf) by {
            lemma_words_value_bound(s, w);
            lemma_fundamental_div_mod_converse_div(v as int, pw as int, suf as int, low as int);
        }
        // t's words are exactly the suffix of s starting at w.
        lemma_words_value_suffix_copy(s, t, w, 0, n);
        lemma_words_value_from_full(t, n);
    }
}

/// `t` copies the suffix of `s` starting at `w` (zeros past the end):
/// suffix readings of the two agree.
proof fn lemma_words_value_suffix_copy(s: Seq<u64>, t: Seq<u64>, w: int, k: int, n: int)
    requires
        0 <= w,
        0 <= k,
        forall|j: int|
            0 <= j < n ==> t[j] == if j + w < n {
                s[j + w]
            } else {
                0u64
            },
    ensures
        words_value_from(t, k, n) == words_value_from(s, k + w, n),
    decreases n - k,
{
    if k < n {
        lemma_words_value_suffix_copy(s, t, w, k + 1, n);
        if k + w >= n {
            assert(t[k] == 0);
            assert(words_value_from(s, k + w, n) == 0);
            assert(pow2(64) * 0 == 0) by {
                lemma_mul_basics(pow2(64) as int);
            }
        }
    }
}

/// A suffix reading starting at word 0 equals the prefix reading.
proof fn lemma_words_value_from_full(t: Seq<u64>, n: int)
    requires
        0 <= n,
    ensures
        words_value(t, n) == words_value_from(t, 0, n),
{
    lemma_words_value_split(t, 0, n);
    assert(pow2(0) == 1) by {
        lemma2_to64();
    }
    assert(words_value_from(t, 0, n) * 1 == words_value_from(t, 0, n));
    assert(words_value(t, 0) == 0);
}

impl<const PARTS: usize> BigInt<PARTS> {
    /// Shift left inside words by `b` bits (`b < 64`), rippling the carried
    /// high bits upward: the value is multiplied by `2^b` modulo the width.
    fn shift_left_small(&mut self, b: u64)
        requires
            0 < b < 64,
        ensures
            final(self).spec_nat() == (old(self).spec_nat() * pow2(b as nat)) % pow2(
                (64 * PARTS) as nat,
            ),
    {
        let mut carry: u64 = 0;
        proof {
            assert(words_value(self.parts@, 0) == 0);
            assert(pow2(0) == 1) by {
                lemma2_to64();
            }
            assert(0 * pow2(b as nat) == 0) by {
                lemma_mul_basics(pow2(b as nat) as int);
            }
            vstd::bits::lemma_u64_pow2_no_overflow(b as nat);
            vstd::bits::lemma_u64_shl_is_mul(1u64, b);
        }
        for i in 0..PARTS
            invariant
                0 < b < 64,
                (1u64 << b) == pow2(b as nat),
                carry < (1u64 << b),
                forall|j: int| i <= j < PARTS ==> self.parts@[j] == old(self).parts@[j],
                words_value(self.parts@, i as int) + carry as nat * pow2((64 * i) as nat)
                    == words_value(old(self).parts@, i as int) * pow2(b as nat),
        {
            let ghost prev = self.parts@;
            let x: u64 = self.parts[i];
            let y: u64 = (x << b) | carry;
            let c_out: u64 = x >> (64 - b);
            self.parts[i] = y;
            proof {
                let c = carry;
                assert((((x << b) | c) as u128) + (((x >> ((64 - b) as u64)) as u128) << 64u128)
                    == (x as u128) * ((1u64 << b) as u128) + (c as u128) && (x >> ((64 - b) as u64))
                    < (1u64 << b)) by (bit_vector)
                    requires
                        0 < b < 64 && c < (1u64 << b),
                ;
                assert(((c_out as u128) << 64u128) == (c_out as u128) * 0x1_0000_0000_0000_0000u128)
                    by (bit_vector);
                lemma2_to64_rest();
                lemma_carry_step_general(
                    prev,
                    self.parts@,
                    old(self).parts@,
                    i as int,
                    carry as nat,
                    c_out as nat,
                    pow2(b as nat),
                );
            }
            carry = c_out;
        }
        proof {
            lemma_words_value_bound(self.parts@, PARTS as int);
            lemma_fundamental_div_mod_converse_mod(
                (words_value(old(self).parts@, PARTS as int) * pow2(b as nat)) as int,
                pow2((64 * PARTS) as nat) as int,
                carry as int,
                words_value(self.parts@, PARTS as int) as int,
            );
            lemma_pow2_pos((64 * PARTS) as nat);
            lemma_mul_is_commutative(carry as int, pow2((64 * PARTS) as nat) as int);
        }
    }

    /// Shift right inside words by `b` bits (`b < 64`), borrowing the low
    /// bits of the next word up: the value is divided by `2^b`.
    fn shift_right_small(&mut self, b: u64)
        requires
            0 < b < 64,
        ensures
            final(self).spec_nat() == old(self).spec_nat() / pow2(b as nat),
    {
        let mut out = [0u64; PARTS];
        for i in 0..PARTS
            invariant
                0 < b < 64,
                forall|j: int|
                    0 <= j < i ==> out@[j] == (self.parts@[j] >> b) | (if j + 1 < PARTS {
                        self.parts@[j + 1] << (64 - b) as u64
                    } else {
                        0u64
                    }),
                self.parts@ == old(self).parts@,
        {
            let hi: u64 = if i + 1 < PARTS {
                self.parts[i + 1] << (64 - b)
            } else {
                0
            };
            out[i] = (self.parts[i] >> b) | hi;
        }
        proof {
            lemma_shift_down_small(self.parts@, out@, b, 0, PARTS as int);
            lemma_words_value_from_full(self.parts@, PARTS as int);
            lemma_words_value_from_full(out@, PARTS as int);
        }
        self.parts = out;
    }

    /// Shift the bits `bits` positions to the left, shifting in zeros; the
    /// value is multiplied by `2^bits` and truncated to the width.
    pub fn shift_left(&mut self, bits: usize)
        ensures
            final(self).spec_nat() == (old(self).spec_nat() * pow2(bits as nat)) % pow2(
                (64 * PARTS) as nat,
            ),
    {
        let w: usize = bits / 64;
        let b: u64 = (bits % 64) as u64;
        proof {
            lemma_pow2_pos((64 * PARTS) as nat);
        }
        self.shift_left_words(w);
        let ghost mid = self.spec_nat();
        let ghost v0 = old(self).spec_nat();
        if b > 0 {
            self.shift_left_small(b);
            proof {
                lemma_shift_compose_mul(v0, w as nat, b as nat, PARTS as nat, bits as nat);
            }
        } else {
            proof {
                assert(pow2(0) == 1) by {
                    lemma2_to64();
                }
                assert(64 * w == bits);
                assert(mid * 1 == mid);
            }
        }
    }

    /// Shift the bits `bits` positions to the right, shifting in zeros; the
    /// value is divided by `2^bits`.
    pub fn shift_right(&mut self, bits: usize)
        ensures
            final(self).spec_nat() == old(self).spec_nat() / pow2(bits as nat),
    {
        let w: usize = bits / 64;
        let b: u64 = (bits % 64) as u64;
        self.shift_right_words(w);
        let ghost mid = self.spec_nat();
        let ghost v0 = old(self).spec_nat();
        if b > 0 {
            self.shift_right_small(b);
            proof {
                lemma_pow2_pos((64 * w) as nat);
                lemma_pow2_pos(b as nat);
                lemma_div_denominator(v0 as int, pow2((64 * w) as nat) as int, pow2(b as nat) as int);
                lemma_pow2_adds((64 * w) as nat, b as nat);
                assert(64 * w + b == bits);
            }
        } else {
            proof {
                assert(pow2(0) == 1) by {
                    lemma2_to64();
                }
                assert(64 * w == bits);
                lemma_pow2_pos((64 * w) as nat);
            }
        }
    }
}

/// Composition of the two left-shift stages: shifting the words then the
/// bits multiplies by `2^(64 w + b)` modulo the width.
proof fn lemma_shift_compose_mul(v: nat, w: nat, b: nat, n: nat, bits: nat)
    requires
        bits == 64 * w + b,
    ensures
        ((v * pow2(64 * w)) % pow2(64 * n) * pow2(b)) % pow2(64 * n) == (v * pow2(bits)) % pow2(
            64 * n,
        ),
{
    let m = pow2(64 * n);
    lemma_pow2_pos(64 * n);
    lemma_mul_mod_noop_left((v * pow2(64 * w)) as int, pow2(b) as int, m as int);
    assert((v * pow2(64 * w)) * pow2(b) == v * pow2(bits)) by {
        lemma_pow2_adds(64 * w, b);
        lemma_mul_is_associative(v as int, pow2(64 * w) as int, pow2(b) as int);
    }
}

/// One step of a multiply-by-small-power ripple: like carry accounting, but
/// against a multiplier `f` instead of a second addend sequence.
/// Here `word + c_out * 2^64 == a * f + c_in`.
proof fn lemma_carry_step_general(
    prev: Seq<u64>,
    cur: Seq<u64>,
    orig: Seq<u64>,
    i: int,
    c_in: nat,
    c_out: nat,
    f: nat,
)
    requires
        0 <= i < cur.len(),
        prev.len() == cur.len(),
        cur == prev.update(i, cur[i]),
        i < orig.len(),
        prev[i] == orig[i],
        cur[i] as nat + c_out * pow2(64) == orig[i] as nat * f + c_in,
        words_value(prev, i) + c_in * pow2((64 * i) as nat) == words_value(orig, i) * f,
    ensures
        words_value(cur, i + 1) + c_out * pow2((64 * (i + 1)) as nat) == words_value(orig, i + 1)
            * f,
{
    let p = pow2((64 * i) as nat);
    assert forall|j: int| 0 <= j < i implies cur[j] == prev[j] by {
        assert(cur[j] == prev.update(i, cur[i])[j]);
    }
    lemma_words_value_equal(cur, prev, i);
    lemma_words_value_extend(cur, i);
    lemma_words_value_extend(orig, i);
    assert(pow2((64 * (i + 1)) as nat) == pow2(64) * p) by {
        lemma_pow2_adds(64, (64 * i) as nat);
    }
    assert(c_out * (pow2(64) * p) == (c_out * pow2(64)) * p) by {
        lemma_mul_is_associative(c_out as int, pow2(64) as int, p as int);
    }
    assert((cur[i] as nat + c_out * pow2(64)) * p == cur[i] as nat * p + (c_out * pow2(64)) * p)
        by {
        lemma_mul_is_distributive_add_other_way(
            p as int,
            cur[i] as int,
            (c_out * pow2(64)) as int,
        );
    }
    assert((orig[i] as nat * f + c_in) * p == (orig[i] as nat * f) * p + c_in * p) by {
        lemma_mul_is_distributive_add_other_way(p as int, (orig[i] as nat * f) as int, c_in as int);
    }
    assert((words_value(orig, i) + orig[i] as nat * p) * f == words_value(orig, i) * f + (orig[i]
        as nat * p) * f) by {
        lemma_mul_is_distributive_add_other_way(
            f as int,
            words_value(orig, i) as int,
            (orig[i] as nat * p) as int,
        );
    }
    assert((orig[i] as nat * p) * f == (orig[i] as nat * f) * p) by {
        lemma_mul_is_associative(orig[i] as int, p as int, f as int);
        lemma_mul_is_commutative(p as int, f as int);
        lemma_mul_is_associative(orig[i] as int, f as int, p as int);
    }
}

/// Shifting right inside the words divides the suffix value by `2^b`:
/// each output word takes the high bits of its source word and the low bits
/// of the word above.
proof fn lemma_shift_down_small(s: Seq<u64>, t: Seq<u64>, b: u64, k: int, n: int)
    requires
        0 < b < 64,
        0 <= k,
        n <= s.len(),
        n <= t.len(),
        forall|j: int|
            0 <= j < n ==> t[j] == (s[j] >> b) | (if j + 1 < n {
                s[j + 1] << (64 - b) as u64
            } else {
                0u64
            }),
    ensures
        words_value_from(t, k, n) == words_value_from(s, k, n) / pow2(b as nat),
    decreases n - k,
{
    let pb = pow2(b as nat);
    lemma_pow2_pos(b as nat);
    if k >= n {
        assert(0int / pb as int == 0) by {
            lemma_div_of0(pb as int);
        }
    } else {
        lemma_shift_down_small(s, t, b, k + 1, n);
        let x = s[k];
        let a = words_value_from(s, k + 1, n);
        // the word-level fact
        let y = if k + 1 < n { s[k + 1] } else { 0u64 };
        assert(t[k] == (x >> b) | (y << ((64 - b) as u64))) by {
            if k + 1 >= n {
                assert((y << ((64 - b) as u64)) == 0u64) by (bit_vector)
                    requires
                        y == 0u64,
                ;
            }
        }
        let c = (64 - b) as u64;
        let pc = pow2(c as nat);
        vstd::bits::lemma_u64_pow2_no_overflow(b as nat);
        vstd::bits::lemma_u64_pow2_no_overflow(c as nat);
        vstd::bits::lemma_u64_shl_is_mul(1u64, b);
        vstd::bits::lemma_u64_shr_is_div(x, b);
        let z = y & (((1u64 << b) - 1) as u64);
        assert(((x >> b) | (y << c)) == (x >> b) + (y << c) && (y << c) == (z << c)) by (bit_vector)
            requires
                0 < b < 64 && c == (64 - b) as u64 && z == y & (((1u64 << b) - 1) as u64),
        ;
        assert(z as nat == y as nat % pb) by {
            vstd::bits::lemma_u64_low_bits_mask_is_mod(y, b as nat);
            assert(((1u64 << b) - 1) as u64 == vstd::bits::low_bits_mask(b as nat));
        }
        // z < 2^b, so z * 2^c fits in a word and the shift is a multiply
        assert(z as nat * pc <= (pow2(b as nat) - 1) * pc) by {
            lemma_pow2_pos(b as nat);
            lemma_mul_inequality(z as int, pow2(b as nat) as int - 1, pc as int);
        }
        assert((pow2(b as nat) - 1) * pc == pow2(64) - pc) by {
            lemma_mul_is_distributive_sub_other_way(pc as int, pow2(b as nat) as int, 1);
            lemma_pow2_adds(b as nat, c as nat);
        }
        assert(pow2(64) - pc <= u64::MAX) by {
            lemma_pow2_pos(c as nat);
            lemma2_to64_rest();
        }
        vstd::bits::lemma_u64_shl_is_mul(z, c);
        // t[k] == x / 2^b + (y mod 2^b) * 2^(64-b), as naturals
        assert(t[k] as nat == x as nat / pb + (y as nat % pb) * pc);
        // A = y mod 2^b + 2^b * (A / 2^b), and y mod 2^b == A mod 2^b
        assert(a % pb == y as nat % pb) by {
            if k + 1 < n {
                assert(a == y as nat + pow2(64) * words_value_from(s, k + 2, n));
                assert(pow2(64) * words_value_from(s, k + 2, n) == (pb * (pow2((64 - b) as nat)
                    * words_value_from(s, k + 2, n)))) by {
                    lemma_pow2_adds(b as nat, (64 - b) as nat);
                    lemma_mul_is_associative(
                        pb as int,
                        pow2((64 - b) as nat) as int,
                        words_value_from(s, k + 2, n) as int,
                    );
                }
                lemma_mod_multiples_vanish(
                    (pow2((64 - b) as nat) * words_value_from(s, k + 2, n)) as int,
                    y as int,
                    pb as int,
                );
                lemma2_to64_rest();
            } else {
                assert(a == 0);
                lemma_small_mod(0, pb);
                lemma_small_mod(y as nat, pb);
            }
        }
        // from(s,k,n) = x + 2^64 a; divide by 2^b
        let q = a / pb;
        let r = a % pb;
        lemma_fundamental_div_mod(a as int, pb as int);
        // x + 2^64 a == (x + 2^64 r) + 2^(64+b) q
        assert(pow2(64) * a == pow2(64) * r + pow2((64 + b) as nat) * q) by {
            lemma_mul_is_distributive_add(pow2(64) as int, (pb * q) as int, r as int);
            lemma_pow2_adds(64, b as nat);
            lemma_mul_is_associative(pow2(64) as int, pb as int, q as int);
        }
        // (x + 2^64 r) / 2^b == x / 2^b + 2^(64-b) r
        assert((x as int + pow2(64) as int * r as int) / pb as int == x as int / pb as int + (r
            * pc) as int) by {
            lemma_hoist_over_denominator(x as int, (r * pc) as int, pb);
            assert((r * pc) * pb == pow2(64) * r) by {
                lemma_mul_is_associative(r as int, pc as int, pb as int);
                lemma_pow2_adds((64 - b) as nat, b as nat);
                lemma_mul_is_commutative(r as int, pow2(64) as int);
            }
        }
        // add back the exactly-divisible part
        assert((x as int + pow2(64) as int * a as int) / pb as int == (x as int + pow2(64) as int
            * r as int) / pb as int + pow2(64) as int * q as int) by {
            lemma_hoist_over_denominator(
                x as int + pow2(64) as int * r as int,
                (pow2(64) as int * q as int) as int,
                pb,
            );
            assert((pow2(64) as int * q as int) * pb as int == pow2((64 + b) as nat) as int
                * q as int) by {
                lemma_mul_is_associative(pow2(64) as int, q as int, pb as int);
                lemma_mul_is_commutative(q as int, pb as int);
                lemma_mul_is_associative(pow2(64) as int, pb as int, q as int);
                lemma_pow2_adds(64, b as nat);
            }
        }
        assert(words_value_from(s, k, n) == x as nat + pow2(64) * a);
        assert(words_value_from(t, k, n) == t[k] as nat + pow2(64) * words_value_from(t, k + 1, n));
    }
}

/// Suffix values of sequences that agree on `k..n` are equal.
proof fn lemma_words_value_from_equal(s: Seq<u64>, t: Seq<u64>, k: int, n: int)
    requires
        forall|j: int| k <= j < n ==> s[j] == t[j],
    ensures
        words_value_from(s, k, n) == words_value_from(t, k, n),
    decreases n - k,
{
    if k < n {
        lemma_words_value_from_equal(s, t, k + 1, n);
    }
}

/// If two word sequences agree above word `i` and differ at `i`, the one
/// with the smaller word `i` denotes the smaller value.
proof fn lemma_words_value_cmp_at(s: Seq<u64>, t: Seq<u64>, i: int, n: int)
    requires
        0 <= i < n,
        n <= s.len(),
        n <= t.len(),
        s[i] < t[i],
        forall|j: int| i < j < n ==> s[j] == t[j],
    ensures
        words_value(s, n) < words_value(t, n),
{
    let p = pow2((64 * i) as nat);
    let pp = pow2((64 * (i + 1)) as nat);
    lemma_words_value_split(s, i + 1, n);
    lemma_words_value_split(t, i + 1, n);
    lemma_words_value_from_equal(s, t, i + 1, n);
    lemma_words_value_extend(s, i);
    lemma_words_value_extend(t, i);
    lemma_words_value_bound(s, i);
    assert(words_value(s, i + 1) < (s[i] as nat + 1) * p) by {
        lemma_mul_is_distributive_add_other_way(p as int, s[i] as int, 1);
    }
    assert((s[i] as nat + 1) * p <= t[i] as nat * p) by {
        lemma_mul_inequality(s[i] as int + 1, t[i] as int, p as int);
    }
    assert(words_value(t, i + 1) >= t[i] as nat * p);
    lemma_mul_inequality(
        words_value_from(s, i + 1, n) as int,
        words_value_from(s, i + 1, n) as int,
        pp as int,
    );
}

impl<const PARTS: usize> BigInt<PARTS> {
    /// Copy the low `P` words into a narrower integer: the value is reduced
    /// modulo `2^(64 P)`.  Truncating to a wider layout is a caller error.
    pub fn trunc<const P: usize>(&self) -> (r: BigInt<P>)
        requires
            P <= PARTS,
        ensures
            r.spec_nat() == self.spec_nat() % pow2((64 * P) as nat),
    {
        let mut n = BigInt::<P>::zero();
        for i in 0..P
            invariant
                P <= PARTS,
                forall|j: int| 0 <= j < i ==> n.parts@[j] == self.parts@[j],
        {
            n.parts[i] = self.parts[i];
        }
        proof {
            lemma_words_value_equal(n.parts@, self.parts@, P as int);
            lemma_words_value_mod(self.parts@, P as int, PARTS as int);
        }
        n
    }

    /// Zero all bits at positions `bits` and above: the value is reduced
    /// modulo `2^bits`.
    pub fn mask(&mut self, bits: usize)
        ensures
            final(self).spec_nat() == old(self).spec_nat() % pow2(bits as nat),
    {
        let q = bits / 64;
        let r = (bits % 64) as u64;
        let m: u64 = if r == 0 {
            0
        } else {
            proof {
                vstd::bits::lemma_u64_pow2_no_overflow(r as nat);
                vstd::bits::lemma_u64_shl_is_mul(1u64, r);
            }
            (1u64 << r) - 1
        };
        proof {
            assert(m as nat == vstd::bits::low_bits_mask(r as nat)) by {
                if r == 0 {
                    assert(vstd::bits::low_bits_mask(0) == 0) by {
                        vstd::bits::lemma_low_bits_mask_values();
                    }
                } else {
                    lemma_pow2_pos(r as nat);
                }
            }
        }
        for i in 0..PARTS
            invariant
                q == bits / 64,
                r == (bits % 64) as u64,
                m as nat == vstd::bits::low_bits_mask(r as nat),
                forall|j: int| i <= j < PARTS ==> self.parts@[j] == old(self).parts@[j],
                forall|j: int|
                    0 <= j < i ==> self.parts@[j] == (if j < q {
                        old(self).parts@[j]
                    } else if j == q {
                        (old(self).parts@[j] & m) as u64
                    } else {
                        0u64
                    }),
        {
            if i > q {
                self.parts[i] = 0;
            } else if i == q {
                let w = self.parts[i];
                self.parts[i] = w & m;
            }
        }
        proof {
            lemma_mask_value(old(self).parts@, self.parts@, q as int, r as nat, PARTS as int, bits as nat);
        }
    }

    /// The 1-based index of the highest set bit; zero for a zero value.
    /// A non-zero result `r` means the value lies in `[2^(r-1), 2^r)`.
    pub fn msb_index(&self) -> (r: usize)
        requires
            64 * PARTS <= usize::MAX,
        ensures
            r == spec_bit_len(self.spec_nat()),
            r == 0 <==> self.spec_nat() == 0,
            r > 0 ==> pow2((r - 1) as nat) <= self.spec_nat() < pow2(r as nat),
            r <= 64 * PARTS,
    {
        let mut i = PARTS;
        while i > 0
            invariant
                i <= PARTS,
                64 * PARTS <= usize::MAX,
                forall|j: int| i <= j < PARTS ==> self.parts@[j] == 0,
            decreases i,
        {
            i -= 1;
            let part = self.parts[i];
            if part != 0 {
                let lz = part.leading_zeros() as usize;
                let idx: usize = 64 - lz;
                proof {
                    lemma_msb_from_word(self.parts@, i as int, PARTS as int, lz as nat);
                    lemma_pow2_pos((64 * i + 64 - lz - 1) as nat);
                    lemma_bit_len_unique(self.spec_nat(), (64 * i + 64 - lz) as nat);
                }
                return i * 64 + idx;
            }
        }
        proof {
            lemma_words_value_zero(self.parts@, PARTS as int);
            assert(spec_bit_len(0) == 0);
        }
        0
    }

    /// Classify the fraction that truncating the value at bit `bit` would
    /// discard, against half of the last kept unit.
    pub fn get_loss_kind_for_bit(&self, bit: usize) -> (r: LossFraction)
        requires
            PARTS >= 1,
            64 * PARTS <= usize::MAX,
        ensures
            r == crate::float::spec_loss_fraction(self.spec_nat(), bit as nat),
    {
        let ghost v = self.spec_nat();
        if self.is_zero() {
            proof {
                lemma_pow2_pos(bit as nat);
                lemma_small_mod(0, pow2(bit as nat));
            }
            return LossFraction::ExactlyZero;
        }
        if bit > PARTS * 64 {
            proof {
                lemma_words_value_bound(self.parts@, PARTS as int);
                lemma_pow2_strictly_increases((64 * PARTS) as nat, bit as nat);
                lemma_small_mod(v, pow2(bit as nat));
                lemma_pow2_adds((64 * PARTS) as nat, 1);
                assert(pow2(1) == 2) by {
                    lemma2_to64();
                }
                if 64 * PARTS + 1 < bit {
                    lemma_pow2_strictly_increases((64 * PARTS + 1) as nat, bit as nat);
                }
            }
            return LossFraction::LessThanHalf;
        }
        let mut a = *self;
        a.mask(bit);
        proof {
            lemma_pow2_pos(bit as nat);
        }
        if a.is_zero() {
            return LossFraction::ExactlyZero;
        }
        // Here the remainder is non-zero, so bit >= 1 and half == 2^(bit-1)
        // is representable.
        proof {
            if bit == 0 {
                assert(pow2(0) == 1) by {
                    lemma2_to64();
                }
                lemma_mod_bound(v as int, 1);
            }
        }
        let mut half = Self::from_u64(1);
        half.shift_left(bit - 1);
        proof {
            // half's value is exactly 2^(bit-1)
            assert(1 as nat * pow2((bit - 1) as nat) == pow2((bit - 1) as nat));
            lemma_pow2_strictly_increases((bit - 1) as nat, (64 * PARTS) as nat);
            lemma_small_mod(pow2((bit - 1) as nat), pow2((64 * PARTS) as nat));
            // relate the half comparison with the doubled remainder
            lemma_pow2_adds((bit - 1) as nat, 1);
            assert(pow2(1) == 2) by {
                lemma2_to64();
            }
        }
        if a.lt(&half) {
            LossFraction::LessThanHalf
        } else if half.lt(&a) {
            LossFraction::MoreThanHalf
        } else {
            proof {
                lemma_bigint_eq_from_not_lt(a, half);
            }
            LossFraction::ExactlyHalf
        }
    }

    /// Strictly-less comparison by value.
    pub fn lt(&self, other: &Self) -> (r: bool)
        ensures
            r <==> self.spec_nat() < other.spec_nat(),
    {
        let mut i = PARTS;
        while i > 0
            invariant
                i <= PARTS,
                forall|j: int| i <= j < PARTS ==> self.parts@[j] == other.parts@[j],
            decreases i,
        {
            i -= 1;
            if self.parts[i] < other.parts[i] {
                proof {
                    lemma_words_value_cmp_at(self.parts@, other.parts@, i as int, PARTS as int);
                }
                return true;
            }
            if self.parts[i] > other.parts[i] {
                proof {
                    lemma_words_value_cmp_at(other.parts@, self.parts@, i as int, PARTS as int);
                }
                return false;
            }
        }
        proof {
            lemma_words_value_equal(self.parts@, other.parts@, PARTS as int);
        }
        false
    }
}

/// Two big ints with no strict order either way have equal words, hence
/// equal values.
proof fn lemma_bigint_eq_from_not_lt<const PARTS: usize>(a: BigInt<PARTS>, b: BigInt<PARTS>)
    requires
        !(a.spec_nat() < b.spec_nat()),
        !(b.spec_nat() < a.spec_nat()),
    ensures
        a.spec_nat() == b.spec_nat(),
{
}

/// The most significant non-zero word pins the value's bit length.
proof fn lemma_msb_from_word(s: Seq<u64>, i: int, n: int, lz: nat)
    requires
        0 <= i < n <= s.len(),
        s[i] != 0,
        forall|j: int| i < j < n ==> s[j] == 0,
        lz == vstd::std_specs::bits::u64_leading_zeros(s[i]),
    ensures
        lz < 64,
        pow2((64 * i + 64 - lz - 1) as nat) <= words_value(s, n) < pow2((64 * i + 64 - lz) as nat),
{
    let x = s[i];
    broadcast use vstd::std_specs::bits::axiom_u64_leading_zeros;

    let idx = (64 - lz) as nat;
    // Word bounds: 2^(idx-1) <= x < 2^idx.
    assert(x < pow2(idx)) by {
        if idx < 64 {
            assert(x >> (idx as u64) == 0);
            vstd::bits::lemma_u64_shr_is_div(x, idx as u64);
            lemma_pow2_pos(idx);
            lemma_div_is_zero_iff(x as int, pow2(idx) as int);
        } else {
            lemma2_to64_rest();
        }
    }
    assert(pow2((idx - 1) as nat) <= x) by {
        assert((x >> ((idx - 1) as u64)) & 1u64 != 0u64);
        vstd::bits::lemma_u64_shr_is_div(x, (idx - 1) as u64);
        lemma_pow2_pos((idx - 1) as nat);
        assert(x as nat / pow2((idx - 1) as nat) >= 1) by {
            let sh: u64 = x >> ((idx - 1) as u64);
            assert(sh & 1u64 != 0u64 ==> sh != 0u64) by (bit_vector);
        }
        lemma_div_lower_bound_implies(x as int, pow2((idx - 1) as nat) as int);
    }
    // Value bounds from the word bounds.
    lemma_words_value_zero_above(s, i + 1, n);
    lemma_words_value_extend(s, i);
    lemma_words_value_bound(s, i);
    let p = pow2((64 * i) as nat);
    assert(words_value(s, i + 1) < (x as nat + 1) * p) by {
        lemma_mul_is_distributive_add_other_way(p as int, x as int, 1);
    }
    assert((x as nat + 1) * p <= pow2(idx) * p) by {
        lemma_mul_inequality(x as int + 1, pow2(idx) as int, p as int);
    }
    assert(pow2(idx) * p == pow2((64 * i + 64 - lz) as nat)) by {
        lemma_pow2_adds(idx, (64 * i) as nat);
    }
    assert(words_value(s, i + 1) >= x as nat * p);
    assert(x as nat * p >= pow2((idx - 1) as nat) * p) by {
        lemma_mul_inequality(pow2((idx - 1) as nat) as int, x as int, p as int);
    }
    assert(pow2((idx - 1) as nat) * p == pow2((64 * i + 64 - lz - 1) as nat)) by {
        lemma_pow2_adds((idx - 1) as nat, (64 * i) as nat);
    }
}

/// `x / d == 0` exactly when `x < d`, for positive `d` and nonnegative `x`.
proof fn lemma_div_is_zero_iff(x: int, d: int)
    requires
        0 <= x,
        0 < d,
        x / d == 0,
    ensures
        x < d,
{
    lemma_fundamental_div_mod(x, d);
    lemma_mod_bound(x, d);
}

/// A quotient of at least one puts the dividend at or above the divisor.
proof fn lemma_div_lower_bound_implies(x: int, d: int)
    requires
        0 <= x,
        0 < d,
        x / d >= 1,
    ensures
        x >= d,
{
    lemma_fundamental_div_mod(x, d);
    lemma_mod_bound(x, d);
    lemma_mul_inequality(1, x / d, d);
    lemma_mul_is_commutative(x / d, d);
}

/// The words of `t` are `s` masked at bit position `64 q + r`: `t` denotes
/// `s`'s value reduced modulo `2^bits`.
proof fn lemma_mask_value(s: Seq<u64>, t: Seq<u64>, q: int, r: nat, n: int, bits: nat)
    requires
        0 <= n <= s.len(),
        n <= t.len(),
        0 <= q,
        r < 64,
        bits == 64 * q + r,
        forall|j: int|
            0 <= j < n ==> t[j] == (if j < q {
                s[j]
            } else if j == q {
                (s[j] & (vstd::bits::low_bits_mask(r) as u64)) as u64
            } else {
                0u64
            }),
    ensures
        words_value(t, n) == words_value(s, n) % pow2(bits),
{
    let v = words_value(s, n);
    lemma_pow2_pos(bits);
    if q >= n {
        // the mask covers every word: nothing changes
        lemma_words_value_equal(t, s, n);
        lemma_words_value_bound(s, n);
        assert(pow2((64 * n) as nat) <= pow2(bits)) by {
            if 64 * n < bits {
                lemma_pow2_strictly_increases((64 * n) as nat, bits);
            }
        }
        lemma_small_mod(v, pow2(bits));
    } else {
        let pq = pow2((64 * q) as nat);
        let pr = pow2(r);
        lemma_pow2_pos((64 * q) as nat);
        lemma_pow2_pos(r);
        // v mod 2^bits == 2^(64 q) * ((v / 2^(64 q)) mod 2^r) + v mod 2^(64 q)
        assert(v % (pq * pr) == pq * ((v / pq) % pr) + v % pq) by {
            lemma_mod_breakdown(v as int, pq as int, pr as int);
        }
        assert(pq * pr == pow2(bits)) by {
            lemma_pow2_adds((64 * q) as nat, r);
        }
        // v mod 2^(64 q) is the low prefix; v / 2^(64 q) is the suffix
        lemma_words_value_mod(s, q, n);
        lemma_words_value_split(s, q, n);
        let suf = words_value_from(s, q, n);
        assert(v / pq == suf) by {
            lemma_words_value_bound(s, q);
            lemma_fundamental_div_mod_converse_div(
                v as int,
                pq as int,
                suf as int,
                words_value(s, q) as int,
            );
        }
        // the suffix's low r bits are word q's low r bits
        assert(suf % pr == s[q] as nat % pr) by {
            assert(suf == s[q] as nat + pow2(64) * words_value_from(s, q + 1, n));
            assert(pow2(64) * words_value_from(s, q + 1, n) == pr * (pow2((64 - r) as nat)
                * words_value_from(s, q + 1, n))) by {
                lemma_pow2_adds(r, (64 - r) as nat);
                lemma_mul_is_associative(
                    pr as int,
                    pow2((64 - r) as nat) as int,
                    words_value_from(s, q + 1, n) as int,
                );
            }
            lemma_mod_multiples_vanish(
                (pow2((64 - r) as nat) * words_value_from(s, q + 1, n)) as int,
                s[q] as int,
                pr as int,
            );
        }
        // assemble t's value
        lemma_words_value_zero_above(t, q + 1, n);
        lemma_words_value_extend(t, q);
        lemma_words_value_equal(t, s, q);
        assert(t[q] as nat == s[q] as nat % pr) by {
            vstd::bits::lemma_u64_pow2_no_overflow(r);
            vstd::bits::lemma_u64_low_bits_mask_is_mod(s[q], r);
        }
        lemma_mul_is_commutative(pq as int, (s[q] as nat % pr) as int);
    }
}

/// Updating word `k` changes the value by the weighted difference.
proof fn lemma_words_value_update(s: Seq<u64>, k: int, w: u64, n: int)
    requires
        0 <= k < n <= s.len(),
    ensures
        words_value(s.update(k, w), n) as int == words_value(s, n) + w as nat * pow2(
            (64 * k) as nat,
        ) - s[k] as nat * pow2((64 * k) as nat),
    decreases n,
{
    let t = s.update(k, w);
    if k == n - 1 {
        lemma_words_value_equal(t, s, n - 1);
    } else {
        lemma_words_value_update(s, k, w, n - 1);
    }
}

/// A value below `2^(64 k)` has only zeros in words `k` and above.
proof fn lemma_words_value_high_zero(s: Seq<u64>, k: int, n: int)
    requires
        0 <= k,
        n <= s.len(),
        words_value(s, n) < pow2((64 * k) as nat),
    ensures
        forall|j: int| k <= j < n ==> s[j] == 0,
{
    assert forall|j: int| k <= j < n implies s[j] == 0 by {
        if s[j] != 0 {
            lemma_words_value_word_lower(s, j, n);
            lemma_pow2_pos((64 * j) as nat);
            lemma_mul_inequality(1, s[j] as int, pow2((64 * j) as nat) as int);
            if k < j {
                lemma_pow2_strictly_increases((64 * k) as nat, (64 * j) as nat);
            }
        }
    }
}

/// One step of multiply-accumulate accounting: word `k` absorbs `add_amt`
/// plus the carry in, and the carry out takes the excess.
proof fn lemma_mul_accumulate_step(
    prev: Seq<u64>,
    cur: Seq<u64>,
    k: int,
    n: int,
    c_in: nat,
    c_out: nat,
    add_amt: nat,
)
    requires
        0 <= k < n <= cur.len(),
        prev.len() == cur.len(),
        cur == prev.update(k, cur[k]),
        cur[k] as nat + c_out * pow2(64) == prev[k] as nat + add_amt + c_in,
    ensures
        words_value(cur, n) + c_out * pow2((64 * (k + 1)) as nat) == words_value(prev, n) + (
        add_amt + c_in) * pow2((64 * k) as nat),
{
    let p = pow2((64 * k) as nat);
    lemma_words_value_update(prev, k, cur[k], n);
    assert(pow2((64 * (k + 1)) as nat) == pow2(64) * p) by {
        lemma_pow2_adds(64, (64 * k) as nat);
    }
    assert(c_out * (pow2(64) * p) == (c_out * pow2(64)) * p) by {
        lemma_mul_is_associative(c_out as int, pow2(64) as int, p as int);
    }
    // (cur[k] - prev[k] + c_out * 2^64) * p == (add_amt + c_in) * p
    assert((cur[k] as int - prev[k] as int) * p as int + (c_out * pow2(64)) as int * p as int == (
    add_amt + c_in) as int * p as int) by {
        lemma_mul_is_distributive_add_other_way(
            p as int,
            (cur[k] as int - prev[k] as int) as int,
            (c_out * pow2(64)) as int,
        );
    }
    assert((cur[k] as int - prev[k] as int) * p as int == cur[k] as int * p as int - prev[k] as int
        * p as int) by {
        lemma_mul_is_distributive_sub_other_way(p as int, cur[k] as int, prev[k] as int);
    }
}

impl<const PARTS: usize> BigInt<PARTS> {
    /// Schoolbook long multiplication through a double-width scratch buffer
    /// of `P2 >= 2 * PARTS` words.  The stored result is the product modulo
    /// `2^(64 PARTS)`; the returned flag reports that the product did not
    /// fit.
    pub fn inplace_mul<const P2: usize>(&mut self, rhs: Self) -> (overflow: bool)
        requires
            P2 >= 2 * PARTS,
        ensures
            final(self).spec_nat() == (old(self).spec_nat() * rhs.spec_nat()) % pow2(
                (64 * PARTS) as nat,
            ),
            overflow <==> old(self).spec_nat() * rhs.spec_nat() >= pow2((64 * PARTS) as nat),
    {
        let ghost av = old(self).spec_nat();
        let ghost bv = rhs.spec_nat();
        let mut scratch = [0u64; P2];
        proof {
            lemma_words_value_zero(scratch@, P2 as int);
            assert(words_value(self.parts@, 0) == 0);
            assert(0 * bv == 0) by {
                lemma_mul_basics(bv as int);
            }
        }
        for i in 0..PARTS
            invariant
                P2 >= 2 * PARTS,
                self.parts@ == old(self).parts@,
                words_value(scratch@, P2 as int) == words_value(self.parts@, i as int) * bv,
                bv == rhs.spec_nat(),
        {
            let ai: u64 = self.parts[i];
            let mut carry: u64 = 0;
            let ghost start = scratch@;
            proof {
                assert(words_value(rhs.parts@, 0) == 0);
                assert(ai as nat * 0 == 0) by {
                    lemma_mul_basics(ai as int);
                }
                assert((ai as nat * 0) * pow2((64 * i) as nat) == 0) by {
                    lemma_mul_basics(pow2((64 * i) as nat) as int);
                }
                assert(pow2(0) == 1) by {
                    lemma2_to64();
                }
            }
            for j in 0..PARTS
                invariant
                    P2 >= 2 * PARTS,
                    i < PARTS,
                    ai == self.parts@[i as int],
                    words_value(scratch@, P2 as int) + carry as nat * pow2((64 * (i + j)) as nat)
                        == words_value(start, P2 as int) + (ai as nat * words_value(
                        rhs.parts@,
                        j as int,
                    )) * pow2((64 * i) as nat),
                    forall|k: int| i + j <= k < P2 ==> scratch@[k] == start[k],
            {
                let bj: u64 = rhs.parts[j];
                proof {
                    lemma_mul_upper_bound(
                        ai as int,
                        0xFFFF_FFFF_FFFF_FFFFu64 as int,
                        bj as int,
                        0xFFFF_FFFF_FFFF_FFFFu64 as int,
                    );
                }
                let t: u128 = scratch[i + j] as u128 + (ai as u128) * (bj as u128)
                    + carry as u128;
                let ghost prev = scratch@;
                let lo: u64 = (t & 0xFFFF_FFFF_FFFF_FFFFu128) as u64;
                scratch[i + j] = lo;
                proof {
                    lemma_split_u128_low(t);
                    lemma2_to64_rest();
                    lemma_mul_accumulate_step(
                        prev,
                        scratch@,
                        (i + j) as int,
                        P2 as int,
                        carry as nat,
                        (t as nat / pow2(64)),
                        ai as nat * bj as nat,
                    );
                    // fold the new column into the running product
                    lemma_words_value_extend(rhs.parts@, j as int);
                    lemma_mul_gather_column(
                        ai as nat,
                        bj as nat,
                        words_value(rhs.parts@, j as int),
                        carry as nat,
                        i as int,
                        j as int,
                    );
                }
                carry = (t >> 64u128) as u64;
            }
            // The carry lands in a word that is still zero.
            proof {
                lemma_words_value_bound(self.parts@, i as int);
                lemma_words_value_bound(rhs.parts@, PARTS as int);
                assert(words_value(start, P2 as int) < pow2((64 * (i + PARTS)) as nat)) by {
                    lemma_mul_upper_bound_strict(
                        words_value(self.parts@, i as int) as int,
                        pow2((64 * i) as nat) as int,
                        bv as int,
                        pow2((64 * PARTS) as nat) as int,
                    );
                    lemma_pow2_adds((64 * i) as nat, (64 * PARTS) as nat);
                }
                lemma_words_value_high_zero(start, (i + PARTS) as int, P2 as int);
                assert(start[(i + PARTS) as int] == 0);
                assert(scratch@[(i + PARTS) as int] == start[(i + PARTS) as int]);
            }
            let ghost before_carry = scratch@;
            scratch[i + PARTS] = carry;
            proof {
                lemma_words_value_update(before_carry, (i + PARTS) as int, carry, P2 as int);
                assert(0 as nat * pow2((64 * (i + PARTS)) as nat) == 0) by {
                    lemma_mul_basics(pow2((64 * (i + PARTS)) as nat) as int);
                }
                // extend the outer invariant by one word of `self`
                lemma_words_value_extend(self.parts@, i as int);
                lemma_mul_gather_row(
                    ai as nat,
                    words_value(self.parts@, i as int),
                    bv,
                    i as int,
                );
            }
        }
        // Fold the low words back and detect overflow in the high words.
        proof {
            lemma_words_value_mod(scratch@, PARTS as int, P2 as int);
        }
        let ghost scratch_snap = scratch@;
        for i in 0..PARTS
            invariant
                P2 >= 2 * PARTS,
                forall|j: int| 0 <= j < i ==> self.parts@[j] == scratch@[j],
                scratch@ == scratch_snap,
        {
            self.parts[i] = scratch[i];
        }
        let mut overflow = false;
        for k in PARTS..P2
            invariant
                PARTS <= k,
                P2 == scratch@.len(),
                overflow <==> exists|j: int| PARTS <= j < k && scratch@[j] != 0,
        {
            if scratch[k] != 0 {
                overflow = true;
            }
        }
        proof {
            lemma_words_value_equal(self.parts@, scratch@, PARTS as int);
            let sv = words_value(scratch@, P2 as int);
            let w = pow2((64 * PARTS) as nat);
            lemma_pow2_pos((64 * PARTS) as nat);
            if overflow {
                let j = choose|j: int| PARTS <= j < P2 && scratch@[j] != 0;
                lemma_words_value_word_lower(scratch@, j, P2 as int);
                lemma_pow2_pos((64 * j) as nat);
                lemma_mul_inequality(1, scratch@[j] as int, pow2((64 * j) as nat) as int);
                if PARTS < j {
                    lemma_pow2_strictly_increases((64 * PARTS) as nat, (64 * j) as nat);
                }
            } else {
                lemma_words_value_zero_above(scratch@, PARTS as int, P2 as int);
                lemma_words_value_bound(scratch@, PARTS as int);
            }
        }
        overflow
    }
}

/// Strict upper bound for a product of bounded factors.
proof fn lemma_mul_upper_bound_strict(x: int, xb: int, y: int, yb: int)
    requires
        0 <= x < xb,
        0 <= y < yb,
    ensures
        x * y < xb * yb,
{
    lemma_mul_upper_bound(x, xb - 1, y, yb - 1);
    assert((xb - 1) * (yb - 1) == xb * yb - xb - yb + 1) by {
        lemma_mul_is_distributive_sub(xb - 1, yb, 1);
        lemma_mul_is_distributive_sub_other_way(yb, xb, 1);
    }
}

/// Attaching one more column of the partial product: `a * B_j * 2^(64 i)`
/// plus the new column `a * b_j` at weight `2^(64 (i + j))` gathers into
/// `a * B_{j+1} * 2^(64 i)`.
proof fn lemma_mul_gather_column(a: nat, bj: nat, bprefix: nat, c: nat, i: int, j: int)
    requires
        0 <= i,
        0 <= j,
    ensures
        (a * bj + c) * pow2((64 * (i + j)) as nat) + (a * bprefix) * pow2((64 * i) as nat) == (a * (
        bprefix + bj * pow2((64 * j) as nat))) * pow2((64 * i) as nat) + c * pow2(
            (64 * (i + j)) as nat,
        ),
{
    let pi = pow2((64 * i) as nat);
    let pj = pow2((64 * j) as nat);
    let pij = pow2((64 * (i + j)) as nat);
    lemma_pow2_adds((64 * j) as nat, (64 * i) as nat);
    assert((a * bj + c) * pij == (a * bj) * pij + c * pij) by {
        lemma_mul_is_distributive_add_other_way(pij as int, (a * bj) as int, c as int);
    }
    assert(a * (bprefix + bj * pj) == a * bprefix + a * (bj * pj)) by {
        lemma_mul_is_distributive_add(a as int, bprefix as int, (bj * pj) as int);
    }
    assert((a * bprefix + a * (bj * pj)) * pi == (a * bprefix) * pi + (a * (bj * pj)) * pi) by {
        lemma_mul_is_distributive_add_other_way(
            pi as int,
            (a * bprefix) as int,
            (a * (bj * pj)) as int,
        );
    }
    assert((a * (bj * pj)) * pi == (a * bj) * pij) by {
        lemma_mul_is_associative(a as int, bj as int, pj as int);
        lemma_mul_is_associative((a * bj) as int, pj as int, pi as int);
    }
}

/// Attaching one more row of the outer product: the finished partial value
/// `A_i * B` plus this row's `a_i * B * 2^(64 i)` gathers into `A_{i+1} * B`.
proof fn lemma_mul_gather_row(ai: nat, aprefix: nat, b: nat, i: int)
    requires
        0 <= i,
    ensures
        aprefix * b + (ai * b) * pow2((64 * i) as nat) == (aprefix + ai * pow2((64 * i) as nat))
            * b,
{
    let pi = pow2((64 * i) as nat);
    assert((aprefix + ai * pi) * b == aprefix * b + (ai * pi) * b) by {
        lemma_mul_is_distributive_add_other_way(b as int, aprefix as int, (ai * pi) as int);
    }
    assert((ai * pi) * b == (ai * b) * pi) by {
        lemma_mul_is_associative(ai as int, pi as int, b as int);
        lemma_mul_is_commutative(pi as int, b as int);
        lemma_mul_is_associative(ai as int, b as int, pi as int);
    }
}

/// The number of binary digits of `v`: zero for zero, otherwise the unique
/// `r` with `2^(r-1) <= v < 2^r`.
pub open spec fn spec_bit_len(v: nat) -> nat
    decreases v,
{
    if v == 0 {
        0
    } else {
        1 + spec_bit_len(v / 2)
    }
}

/// The two-sided power bound pins the bit length.
pub proof fn lemma_bit_len_unique(v: nat, r: nat)
    requires
        r >= 1,
        pow2((r - 1) as nat) <= v < pow2(r),
    ensures
        spec_bit_len(v) == r,
    decreases r,
{
    lemma_pow2_pos((r - 1) as nat);
    if r == 1 {
        assert(pow2(0) == 1 && pow2(1) == 2) by {
            lemma2_to64();
        }
        assert(v == 1);
        assert(spec_bit_len(0) == 0);
        assert(spec_bit_len(1) == 1 + spec_bit_len(0));
    } else {
        let q = pow2((r - 1) as nat);
        let h = pow2((r - 2) as nat);
        assert(pow2(r) == 2 * q && q == 2 * h) by {
            lemma_pow2_adds(1, (r - 1) as nat);
            lemma_pow2_adds(1, (r - 2) as nat);
            assert(pow2(1) == 2) by {
                lemma2_to64();
            }
        }
        lemma_fundamental_div_mod(v as int, 2);
        lemma_mod_bound(v as int, 2);
        assert(v / 2 >= h) by {
            if v / 2 < h {
                // then v = 2 (v/2) + v%2 <= 2h - 2 + 1 < q
                assert(2 * (v / 2) <= 2 * (h - 1)) by {
                    lemma_mul_inequality((v / 2) as int, h as int - 1, 2);
                    lemma_mul_is_commutative((v / 2) as int, 2);
                    lemma_mul_is_commutative(h as int - 1, 2);
                }
            }
        }
        assert(v / 2 < q) by {
            if v / 2 >= q {
                assert(2 * (v / 2) >= 2 * q) by {
                    lemma_mul_inequality(q as int, (v / 2) as int, 2);
                    lemma_mul_is_commutative((v / 2) as int, 2);
                    lemma_mul_is_commutative(q as int, 2);
                }
            }
        }
        lemma_bit_len_unique(v / 2, (r - 1) as nat);
        assert(spec_bit_len(v) == 1 + spec_bit_len(v / 2));
    }
}

/// Zero or the bounds, read back from the bit length.
pub proof fn lemma_bit_len_bounds(v: nat)
    ensures
        v == 0 <==> spec_bit_len(v) == 0,
        v > 0 ==> pow2((spec_bit_len(v) - 1) as nat) <= v < pow2(spec_bit_len(v)),
    decreases v,
{
    if v > 0 {
        lemma_bit_len_bounds(v / 2);
        let r = spec_bit_len(v);
        if v / 2 == 0 {
            assert(pow2(0) == 1 && pow2(1) == 2) by {
                lemma2_to64();
            }
        } else {
            assert(pow2(r) == 2 * pow2((r - 1) as nat) && pow2((r - 1) as nat) == 2 * pow2(
                (r - 2) as nat,
            )) by {
                lemma_pow2_adds(1, (r - 1) as nat);
                lemma_pow2_adds(1, (r - 2) as nat);
                assert(pow2(1) == 2) by {
                    lemma2_to64();
                }
            }
        }
    }
}

impl<const PARTS: usize> BigInt<PARTS> {
    /// The number one.
    pub fn one() -> (r: Self)
        requires
            PARTS >= 1,
        ensures
            r.spec_nat() == 1,
    {
        Self::from_u64(1)
    }

    /// The value `2^bits - 1`: ones in the low `bits` positions.
    pub fn all1s(bits: usize) -> (r: Self)
        requires
            PARTS >= 1,
            bits < 64 * PARTS,
        ensures
            r.spec_nat() == pow2(bits as nat) - 1,
    {
        let mut r = Self::from_u64(1);
        r.shift_left(bits);
        proof {
            assert(1 as nat * pow2(bits as nat) == pow2(bits as nat));
            lemma_pow2_strictly_increases(bits as nat, (64 * PARTS) as nat);
            lemma_small_mod(pow2(bits as nat), pow2((64 * PARTS) as nat));
            lemma_pow2_pos(bits as nat);
        }
        let one = Self::from_u64(1);
        let borrow = r.inplace_sub(&one);
        r
    }
}

impl<const PARTS: usize> Default for BigInt<PARTS> {
    /// The default value is zero.
    fn default() -> (r: Self)
        ensures
            r.spec_nat() == 0,
    {
        Self::zero()
    }
}

impl<const PARTS: usize> vstd::std_specs::cmp::PartialOrdSpecImpl for BigInt<PARTS> {
    open spec fn obeys_partial_cmp_spec() -> bool {
        true
    }

    open spec fn partial_cmp_spec(&self, other: &Self) -> Option<core::cmp::Ordering> {
        if self.spec_nat() < other.spec_nat() {
            Some(core::cmp::Ordering::Less)
        } else if self.spec_nat() == other.spec_nat() {
            Some(core::cmp::Ordering::Equal)
        } else {
            Some(core::cmp::Ordering::Greater)
        }
    }
}

impl<const PARTS: usize> PartialOrd for BigInt<PARTS> {
    /// Magnitude comparison, most significant word first.
    fn partial_cmp(&self, other: &Self) -> (r: Option<core::cmp::Ordering>) {
        let mut i = PARTS;
        while i > 0
            invariant
                i <= PARTS,
                forall|j: int| i <= j < PARTS ==> self.parts@[j] == other.parts@[j],
            decreases i,
        {
            i -= 1;
            if self.parts[i] < other.parts[i] {
                proof {
                    lemma_words_value_cmp_at(self.parts@, other.parts@, i as int, PARTS as int);
                }
                return Some(core::cmp::Ordering::Less);
            }
            if self.parts[i] > other.parts[i] {
                proof {
                    lemma_words_value_cmp_at(other.parts@, self.parts@, i as int, PARTS as int);
                }
                return Some(core::cmp::Ordering::Greater);
            }
        }
        proof {
            lemma_words_value_equal(self.parts@, other.parts@, PARTS as int);
        }
        Some(core::cmp::Ordering::Equal)
    }
}

impl<const PARTS: usize> vstd::std_specs::ops::AddSpecImpl<BigInt<PARTS>> for BigInt<PARTS> {
    open spec fn obeys_add_spec() -> bool {
        false
    }

    open spec fn add_req(self, rhs: BigInt<PARTS>) -> bool {
        true
    }

    open spec fn add_spec(self, rhs: BigInt<PARTS>) -> BigInt<PARTS> {
        self
    }
}

impl<const PARTS: usize> std::ops::Add<BigInt<PARTS>> for BigInt<PARTS> {
    type Output = BigInt<PARTS>;

    /// Wrapping sum; the exact contract is on `inplace_add`.
    fn add(self, rhs: Self) -> Self::Output {
        let mut n = self;
        let overflow = n.inplace_add(&rhs);
        n
    }
}

impl<const PARTS: usize> vstd::std_specs::ops::SubSpecImpl<BigInt<PARTS>> for BigInt<PARTS> {
    open spec fn obeys_sub_spec() -> bool {
        false
    }

    open spec fn sub_req(self, rhs: BigInt<PARTS>) -> bool {
        true
    }

    open spec fn sub_spec(self, rhs: BigInt<PARTS>) -> BigInt<PARTS> {
        self
    }
}

impl<const PARTS: usize> std::ops::Sub<BigInt<PARTS>> for BigInt<PARTS> {
    type Output = BigInt<PARTS>;

    /// Wrapping difference; the exact contract is on `inplace_sub`.
    fn sub(self, rhs: Self) -> Self::Output {
        let mut n = self;
        let underflow = n.inplace_sub(&rhs);
        n
    }
}

impl<const PARTS: usize> vstd::std_specs::ops::MulSpecImpl<BigInt<PARTS>> for BigInt<PARTS> {
    open spec fn obeys_mul_spec() -> bool {
        false
    }

    open spec fn mul_req(self, rhs: BigInt<PARTS>) -> bool {
        PARTS <= 5
    }

    open spec fn mul_spec(self, rhs: BigInt<PARTS>) -> BigInt<PARTS> {
        self
    }
}

impl<const PARTS: usize> std::ops::Mul<BigInt<PARTS>> for BigInt<PARTS> {
    type Output = BigInt<PARTS>;

    /// Wrapping product through a ten-word scratch buffer; the exact
    /// contract is on `inplace_mul`.
    fn mul(self, rhs: Self) -> Self::Output {
        let mut n = self;
        let overflow = n.inplace_mul::<10>(rhs);
        n
    }
}

/// The value is even exactly when its low word is.
proof fn lemma_low_word_parity(s: Seq<u64>, n: int)
    requires
        1 <= n <= s.len(),
    ensures
        words_value(s, n) % 2 == s[0] as nat % 2,
        (s[0] & 0x1u64 == 0) <==> words_value(s, n) % 2 == 0,
        (s[0] & 0x1u64 == 1) <==> words_value(s, n) % 2 == 1,
    decreases n,
{
    let w0 = s[0];
    assert((w0 & 0x1u64) == w0 % 2) by (bit_vector);
    assert(pow2(0) == 1) by {
        lemma2_to64();
    }
    assert(words_value(s, 0) == 0);
    if n == 1 {
        assert(words_value(s, 1) == words_value(s, 0) + s[0] as nat * pow2(0));
        assert(s[0] as nat * 1 == s[0] as nat);
    } else {
        lemma_low_word_parity(s, n - 1);
        let w = s[n - 1] as nat;
        let p = pow2((64 * (n - 1)) as nat);
        assert(w * p == 2 * (w * (pow2((64 * (n - 1) - 1) as nat)))) by {
            lemma_pow2_adds(1, (64 * (n - 1) - 1) as nat);
            assert(pow2(1) == 2) by {
                lemma2_to64();
            }
            lemma_mul_is_associative(2, pow2((64 * (n - 1) - 1) as nat) as int, w as int);
            lemma_mul_is_commutative(2 * pow2((64 * (n - 1) - 1) as nat) as int, w as int);
            lemma_mul_is_commutative(pow2((64 * (n - 1) - 1) as nat) as int, w as int);
        }
        assert((2 * (w * pow2((64 * (n - 1) - 1) as nat)) as int + words_value(s, n - 1) as int)
            % 2 == words_value(s, n - 1) as int % 2) by {
            lemma_mod_multiples_vanish(
                (w * pow2((64 * (n - 1) - 1) as nat)) as int,
                words_value(s, n - 1) as int,
                2,
            );
        }
    }
}

} // verus!
