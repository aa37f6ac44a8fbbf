//! The 7-bit checksum of an identifier, and the 128-bit arithmetic on pairs
//! of 64-bit words that computes it.

use vstd::prelude::*;
use vstd::arithmetic::div_mod::lemma_fundamental_div_mod_converse;
use vstd::arithmetic::power2::{lemma2_to64, lemma_pow2_adds, lemma_pow2_unfold, pow2};
use vstd::bits::{lemma_u64_pow2_no_overflow, lemma_u64_shl_is_mul};
use crate::EUID;

verus! {

/// The number that a pair of words stands for, most significant word first.
pub open spec fn pair_value(v: (u64, u64)) -> nat {
    (v.0 as nat) * 0x1_0000_0000_0000_0000 + (v.1 as nat)
}

/// A number reduced modulo 2^128, as 128-bit arithmetic does when it wraps.
pub open spec fn wrap128(v: int) -> int {
    v % 0x1_0000_0000_0000_0000_0000_0000_0000_0000int
}

/// One folding step: the low seven bits plus everything above them.
pub open spec fn fold_once(v: nat) -> nat {
    v % 128 + v / 128
}

/// Folding repeated until the value is at most 127.
pub open spec fn fold(v: nat) -> nat
    decreases v,
{
    if v <= 127 {
        v
    } else {
        fold(fold_once(v))
    }
}

/// The checksum of a 128-bit value: its folded value, with 127 mapped to 0.
pub open spec fn checksum(v: nat) -> nat {
    if fold(v) == 127 {
        0
    } else {
        fold(v)
    }
}

/// Folding keeps the residue modulo 127 and never turns a positive value
/// into zero.
pub proof fn lemma_fold(v: nat)
    ensures
        fold(v) <= 127,
        fold(v) % 127 == v % 127,
        v > 0 ==> fold(v) > 0,
        v == 0 ==> fold(v) == 0,
    decreases v,
{
    if v > 127 {
        lemma_fold(fold_once(v));
    }
}

/// The checksum of a value is its remainder modulo 127, so it never takes
/// the reserved value 127.
pub proof fn lemma_checksum_is_remainder(v: nat)
    ensures
        checksum(v) == v % 127,
        checksum(v) <= 126,
{
    lemma_fold(v);
}

proof fn lemma_shift_right7_words(hi: u64, lo: u64)
    by (bit_vector)
    ensures
        hi >> 7 == hi / 128,
        hi & 0x7f == hi % 128,
        lo & 0x7f == lo % 128,
        (lo >> 7) | ((hi & 0x7f) << 57) == lo / 128 + (hi % 128) * 0x200_0000_0000_0000,
{
}

/// Shifts a 128-bit value, held as a pair of words, right by seven bits.
pub fn shift_right7(v: (u64, u64)) -> (r: (u64, u64))
    ensures
        pair_value(r) == pair_value(v) / 128,
{
    let mask: u64 = 0x7f;
    let a1: u64 = v.0 & mask;
    let a: u64 = v.0 >> 7;
    let b: u64 = (v.1 >> 7) | (a1 << 57);
    proof {
        lemma_shift_right7_words(v.0, v.1);
    }
    (a, b)
}

/// No bit below position `k` of the 128-bit value `(b1, b2)` is set.
spec fn low_bits_clear(k: u64, b1: u64, b2: u64) -> bool {
    &&& k < 64 ==> (b2 >> k) << k == b2
    &&& k >= 64 ==> b2 == 0
    &&& 64 <= k < 128 ==> (b1 >> ((k - 64) as u64)) << ((k - 64) as u64) == b1
    &&& k >= 128 ==> b1 == 0
}

proof fn lemma_carry_step(a1: u64, a2: u64, b1: u64, b2: u64, k: u64, k1: u64)
    by (bit_vector)
    requires
        k < 128,
        k1 == k + 1,
        low_bits_clear(k, b1, b2),
    ensures
        (a2 ^ b2) + ((a2 & b2) << 1) + 0x1_0000_0000_0000_0000 * ((a2 & b2) >> 63) == a2 + b2,
        (a1 ^ b1) + (((a1 & b1) << 1) | ((a2 & b2) >> 63)) + 0x1_0000_0000_0000_0000 * ((a1 & b1)
            >> 63) == a1 + b1 + ((a2 & b2) >> 63),
        (a1 & b1) >> 63 <= 1,
        low_bits_clear(k1, ((a1 & b1) << 1) | ((a2 & b2) >> 63), (a2 & b2) << 1),
{
}

/// Adds two 128-bit values held as pairs of words, wrapping at 2^128. The
/// sum is built from exclusive-or and carry words alone.
pub fn add_u128(a: (u64, u64), b: (u64, u64)) -> (r: (u64, u64))
    ensures
        pair_value(r) == wrap128((pair_value(a) + pair_value(b)) as int),
{
    let mut a1: u64 = a.0;
    let mut a2: u64 = a.1;
    let mut b1: u64 = b.0;
    let mut b2: u64 = b.1;
    let ghost mut k: u64 = 0;
    proof {
        assert((b2 >> 0u64) << 0u64 == b2) by (bit_vector);
    }
    while b1 != 0 || b2 != 0
        invariant
            k <= 128,
            low_bits_clear(k, b1, b2),
            wrap128((pair_value((a1, a2)) + pair_value((b1, b2))) as int) == wrap128(
                (pair_value(a) + pair_value(b)) as int,
            ),
        decreases 128 - k,
    {
        proof {
            lemma_carry_step(a1, a2, b1, b2, k, (k + 1) as u64);
            k = (k + 1) as u64;
        }
        let sum1: u64 = a1 ^ b1;
        let sum2: u64 = a2 ^ b2;
        let a2b2: u64 = a2 & b2;
        let carry2: u64 = a2b2 << 1;
        let carry1: u64 = ((a1 & b1) << 1) | (a2b2 >> 63);
        a1 = sum1;
        a2 = sum2;
        b1 = carry1;
        b2 = carry2;
    }
    (a1, a2)
}

proof fn lemma_complement(x: u64)
    by (bit_vector)
    ensures
        !x == 0xffff_ffff_ffff_ffff - x,
{
}

/// Subtracts one 128-bit value from another, both held as pairs of words,
/// wrapping at 2^128: the minuend plus the two's complement of the
/// subtrahend.
pub fn sub_u128(a: (u64, u64), b: (u64, u64)) -> (r: (u64, u64))
    ensures
        pair_value(r) == wrap128(pair_value(a) - pair_value(b)),
{
    proof {
        lemma_complement(b.0);
        lemma_complement(b.1);
    }
    let (r1, r2) = add_u128((!b.0, !b.1), (0, 1));
    add_u128((a.0, a.1), (r1, r2))
}

/// Tells whether a 128-bit value, held as a pair of words, exceeds `p`.
pub fn is_gt_p(v: (u64, u64), p: u64) -> (r: bool)
    ensures
        r == (pair_value(v) > p),
{
    if v.0 != 0 {
        true
    } else {
        v.1 > p
    }
}

/// Computes the checksum of an identifier by folding its 128-bit value
/// seven bits at a time.
pub fn m7(euid: &EUID) -> (r: usize)
    ensures
        r == checksum(euid@),
        r == euid@ % 127,
        r <= 126,
{
    let p: u64 = 0x7f;
    proof {
        lemma_shift_right7_words(euid.0, euid.1);
    }
    let mut i: (u64, u64) = add_u128((0, euid.1 & p), shift_right7((euid.0, euid.1)));
    assert(pair_value(i) == fold_once(euid@));
    while is_gt_p(i, p)
        invariant
            p == 0x7f,
            fold(pair_value(i)) == fold(euid@),
        decreases pair_value(i),
    {
        proof {
            lemma_shift_right7_words(i.0, i.1);
        }
        let ghost before = pair_value(i);
        i = add_u128((0, i.1 & p), shift_right7((i.0, i.1)));
        assert(pair_value(i) == fold_once(before));
    }
    proof {
        lemma_checksum_is_remainder(euid@);
    }
    if i.0 == 0 && i.1 == p {
        0
    } else {
        i.1 as usize
    }
}

/// No power of two is a multiple of 127.
proof fn lemma_pow2_mod_127(k: nat)
    ensures
        pow2(k) % 127 != 0,
    decreases k,
{
    if k == 0 {
        lemma2_to64();
    } else {
        lemma_pow2_mod_127((k - 1) as nat);
        lemma_pow2_unfold(k);
        let x = pow2((k - 1) as nat) as int;
        let q = x / 127;
        let r = x % 127;
        if 2 * r < 127 {
            lemma_fundamental_div_mod_converse(2 * x, 127, 2 * q, 2 * r);
        } else {
            lemma_fundamental_div_mod_converse(2 * x, 127, 2 * q + 1, 2 * r - 127);
        }
    }
}

/// Two values that differ by a power of two, as they do when one bit is
/// flipped, never have the same checksum.
pub proof fn lemma_checksum_detects_bit_flip(v: nat, k: nat)
    ensures
        checksum(v + pow2(k)) != checksum(v),
{
    let w = v + pow2(k);
    lemma_checksum_is_remainder(v);
    lemma_checksum_is_remainder(w);
    lemma_pow2_mod_127(k);
    if w % 127 == v % 127 {
        lemma_fundamental_div_mod_converse(pow2(k) as int, 127, w / 127 - v / 127, 0);
    }
}

/// The identifier with bit `k` flipped, bit 0 being the least significant
/// of its 128 bits.
pub open spec fn flip_bit(e: EUID, k: u64) -> EUID {
    if k < 64 {
        EUID(e.0, e.1 ^ (1u64 << k))
    } else {
        EUID(e.0 ^ (1u64 << ((k - 64) as u64)), e.1)
    }
}

proof fn lemma_flip_word(x: u64, s: u64)
    by (bit_vector)
    requires
        s < 64,
    ensures
        x ^ (1u64 << s) == x + (1u64 << s) || (x ^ (1u64 << s)) + (1u64 << s) == x,
{
}

/// Flipping any one bit of an identifier changes its checksum, so a text
/// that carries the old check value with the new identifier is refused.
pub proof fn lemma_flip_changes_checksum(e: EUID, k: u64)
    requires
        k < 128,
    ensures
        checksum(flip_bit(e, k)@) != checksum(e@),
{
    let f = flip_bit(e, k);
    lemma2_to64();
    if k < 64 {
        lemma_flip_word(e.1, k);
        lemma_u64_pow2_no_overflow(k as nat);
        lemma_u64_shl_is_mul(1, k);
        if f.1 == e.1 + (1u64 << k) {
            lemma_checksum_detects_bit_flip(e@, k as nat);
        } else {
            lemma_checksum_detects_bit_flip(f@, k as nat);
        }
    } else {
        let s = (k - 64) as u64;
        lemma_flip_word(e.0, s);
        lemma_u64_pow2_no_overflow(s as nat);
        lemma_u64_shl_is_mul(1, s);
        lemma_pow2_adds(s as nat, 64);
        vstd::arithmetic::power2::lemma2_to64_rest();
        assert(pow2(k as nat) == pow2(s as nat) * 0x1_0000_0000_0000_0000);
        if f.0 == e.0 + (1u64 << s) {
            assert(f@ == e@ + pow2(k as nat)) by (nonlinear_arith)
                requires
                    f.0 == e.0 + pow2(s as nat),
                    f.1 == e.1,
                    pow2(k as nat) == pow2(s as nat) * 0x1_0000_0000_0000_0000,
                    f@ == f.0 * 0x1_0000_0000_0000_0000 + f.1,
                    e@ == e.0 * 0x1_0000_0000_0000_0000 + e.1,
            ;
            lemma_checksum_detects_bit_flip(e@, k as nat);
        } else {
            assert(e@ == f@ + pow2(k as nat)) by (nonlinear_arith)
                requires
                    e.0 == f.0 + pow2(s as nat),
                    f.1 == e.1,
                    pow2(k as nat) == pow2(s as nat) * 0x1_0000_0000_0000_0000,
                    f@ == f.0 * 0x1_0000_0000_0000_0000 + f.1,
                    e@ == e.0 * 0x1_0000_0000_0000_0000 + e.1,
            ;
            lemma_checksum_detects_bit_flip(f@, k as nat);
        }
    }
}

} // verus!
