//! The text form of an identifier: 27 symbols of a 32-symbol alphabet that
//! spell, most significant digit first, the number made of the identifier's
//! 128 bits followed by a 7-bit check value.

use vstd::prelude::*;
use vstd::string::StrSliceExecFns;
use crate::check::{checksum, m7, pair_value};
use crate::{Error, EUID};

verus! {

/// The alphabet, in the order of the values 0 to 31: the digits and the
/// upper-case letters without I, L, O and U.
pub const ENCODING_SYMBOLS: [char; 32] = [
    '0', '1', '2', '3', '4', '5', '6', '7',
    '8', '9', 'A', 'B', 'C', 'D', 'E', 'F',
    'G', 'H', 'J', 'K', 'M', 'N', 'P', 'Q',
    'R', 'S', 'T', 'V', 'W', 'X', 'Y', 'Z',
];

/// Number of symbols in the text form.
pub const ENCODED_LEN: usize = 27;

/// The check value that stands for "no checksum".
pub const NO_CHECK: usize = 0x7f;

/// 32 to the power `k`.
pub open spec fn pow32(k: nat) -> nat
    decreases k,
{
    if k == 0 {
        1
    } else {
        32 * pow32((k - 1) as nat)
    }
}

/// The base-32 digit of `n` at position `i` of 27, position 0 being the most
/// significant.
pub open spec fn digit(n: nat, i: int) -> nat {
    (n / pow32((26 - i) as nat)) % 32
}

/// The number that the text form spells: the identifier's value followed
/// by seven check bits.
pub open spec fn text_number(value: nat, check: nat) -> nat {
    value * 128 + check
}

proof fn lemma_pow32()
    ensures
        pow32(0) == 0x1,
        pow32(1) == 0x20,
        pow32(2) == 0x400,
        pow32(3) == 0x8000,
        pow32(4) == 0x100000,
        pow32(5) == 0x2000000,
        pow32(6) == 0x40000000,
        pow32(7) == 0x800000000,
        pow32(8) == 0x10000000000,
        pow32(9) == 0x200000000000,
        pow32(10) == 0x4000000000000,
        pow32(11) == 0x80000000000000,
        pow32(12) == 0x1000000000000000,
        pow32(13) == 0x20000000000000000,
        pow32(14) == 0x400000000000000000,
        pow32(15) == 0x8000000000000000000,
        pow32(16) == 0x100000000000000000000,
        pow32(17) == 0x2000000000000000000000,
        pow32(18) == 0x40000000000000000000000,
        pow32(19) == 0x800000000000000000000000,
        pow32(20) == 0x10000000000000000000000000,
        pow32(21) == 0x200000000000000000000000000,
        pow32(22) == 0x4000000000000000000000000000,
        pow32(23) == 0x80000000000000000000000000000,
        pow32(24) == 0x1000000000000000000000000000000,
        pow32(25) == 0x20000000000000000000000000000000,
        pow32(26) == 0x400000000000000000000000000000000,
{
    reveal_with_fuel(pow32, 28);
}

proof fn lemma_word_digits(hi: u64, lo: u64)
    by (bit_vector)
    ensures
        (hi >> 59) & 0x1f == (hi / 0x800000000000000) % 32,
        (hi >> 54) & 0x1f == (hi / 0x40000000000000) % 32,
        (hi >> 49) & 0x1f == (hi / 0x2000000000000) % 32,
        (hi >> 44) & 0x1f == (hi / 0x100000000000) % 32,
        (hi >> 39) & 0x1f == (hi / 0x8000000000) % 32,
        (hi >> 34) & 0x1f == (hi / 0x400000000) % 32,
        (hi >> 29) & 0x1f == (hi / 0x20000000) % 32,
        (hi >> 24) & 0x1f == (hi / 0x1000000) % 32,
        (hi >> 19) & 0x1f == (hi / 0x80000) % 32,
        (hi >> 14) & 0x1f == (hi / 0x4000) % 32,
        (hi >> 9) & 0x1f == (hi / 0x200) % 32,
        (hi >> 4) & 0x1f == (hi / 0x10) % 32,
        ((hi & 0xf) << 1) | ((lo >> 63) & 0x1) == (hi % 16) * 2 + lo / 0x8000_0000_0000_0000,
        (lo >> 58) & 0x1f == (lo / 0x400000000000000) % 32,
        (lo >> 53) & 0x1f == (lo / 0x20000000000000) % 32,
        (lo >> 48) & 0x1f == (lo / 0x1000000000000) % 32,
        (lo >> 43) & 0x1f == (lo / 0x80000000000) % 32,
        (lo >> 38) & 0x1f == (lo / 0x4000000000) % 32,
        (lo >> 33) & 0x1f == (lo / 0x200000000) % 32,
        (lo >> 28) & 0x1f == (lo / 0x10000000) % 32,
        (lo >> 23) & 0x1f == (lo / 0x800000) % 32,
        (lo >> 18) & 0x1f == (lo / 0x40000) % 32,
        (lo >> 13) & 0x1f == (lo / 0x2000) % 32,
        (lo >> 8) & 0x1f == (lo / 0x100) % 32,
        (lo >> 3) & 0x1f == (lo / 0x8) % 32,
        (lo & 0x7) << 2 == (lo % 8) * 4,
{
}

/// Dividing by a product drops the part below the second factor.
proof fn lemma_div_product(a: nat, low: nat, d: nat, m: nat)
    requires
        d > 0,
        m > 0,
        low < m,
    ensures
        (a * m + low) / (d * m) == a / d,
{
    let q = a / d;
    let r = a % d;
    assert(a == q * d + r) by (nonlinear_arith)
        requires
            q == a / d,
            r == a % d,
            d > 0,
    ;
    assert(a * m + low == q * (d * m) + (r * m + low)) by (nonlinear_arith)
        requires
            a == q * d + r,
    ;
    assert(0 <= r * m + low < d * m) by (nonlinear_arith)
        requires
            0 <= r < d,
            0 <= low < m,
    ;
    vstd::arithmetic::div_mod::lemma_fundamental_div_mod_converse(
        (a * m + low) as int,
        (d * m) as int,
        q as int,
        (r * m + low) as int,
    );
}

/// The text number of the identifier `(hi, lo)` with check value `c`.
pub open spec fn word_number(hi: u64, lo: u64, c: nat) -> nat {
    text_number((hi as nat) * 0x1_0000_0000_0000_0000 + (lo as nat), c)
}

proof fn lemma_hi_digit(hi: u64, lo: u64, c: nat, d: nat, p: nat)
    requires
        c < 128,
        d > 0,
        p == d * 0x80_0000_0000_0000_0000,
    ensures
        word_number(hi, lo, c) / p == hi as nat / d,
{
    let low: nat = (lo as nat) * 128 + c;
    assert(word_number(hi, lo, c) == (hi as nat) * 0x80_0000_0000_0000_0000 + low);
    lemma_div_product(hi as nat, low, d, 0x80_0000_0000_0000_0000);
}

proof fn lemma_lo_quotient(hi: u64, lo: u64, c: nat, d: nat, e: nat, p: nat)
    requires
        c < 128,
        d > 0,
        d * e == 0x1_0000_0000_0000_0000,
        p == d * 128,
    ensures
        word_number(hi, lo, c) / p == hi as nat * e + lo as nat / d,
{
    let v: nat = (hi as nat) * 0x1_0000_0000_0000_0000 + (lo as nat);
    lemma_div_product(v, c, d, 128);
    assert(word_number(hi, lo, c) / p == v / d);
    let x: nat = hi as nat * e;
    assert(v == x * d + lo as nat) by (nonlinear_arith)
        requires
            v == (hi as nat) * 0x1_0000_0000_0000_0000 + (lo as nat),
            d * e == 0x1_0000_0000_0000_0000,
            x == hi as nat * e,
    ;
    let q: nat = lo as nat / d;
    let r: nat = lo as nat % d;
    assert(lo as nat == q * d + r && r < d) by (nonlinear_arith)
        requires
            q == lo as nat / d,
            r == lo as nat % d,
            d > 0,
    ;
    assert(v == (x + q) * d + r) by (nonlinear_arith)
        requires
            v == x * d + lo as nat,
            lo as nat == q * d + r,
    ;
    vstd::arithmetic::div_mod::lemma_fundamental_div_mod_converse(
        v as int,
        d as int,
        (x + q) as int,
        r as int,
    );
}

proof fn lemma_lo_digit(hi: u64, lo: u64, c: nat, d: nat, e: nat, p: nat)
    requires
        c < 128,
        d > 0,
        d * e == 0x1_0000_0000_0000_0000,
        e % 32 == 0,
        p == d * 128,
    ensures
        (word_number(hi, lo, c) / p) % 32 == (lo as nat / d) % 32,
{
    lemma_lo_quotient(hi, lo, c, d, e, p);
    let x: nat = hi as nat * e;
    let y: nat = hi as nat * (e / 32);
    assert(x == 32 * y) by (nonlinear_arith)
        requires
            x == hi as nat * e,
            y == hi as nat * (e / 32),
            e == 32 * (e / 32),
    ;
}

proof fn lemma_digits_hi(hi: u64, lo: u64, c: nat)
    requires
        c < 128,
    ensures
        digit(word_number(hi, lo, c), 0) == (hi / 0x800000000000000) % 32,
        digit(word_number(hi, lo, c), 1) == (hi / 0x40000000000000) % 32,
        digit(word_number(hi, lo, c), 2) == (hi / 0x2000000000000) % 32,
        digit(word_number(hi, lo, c), 3) == (hi / 0x100000000000) % 32,
        digit(word_number(hi, lo, c), 4) == (hi / 0x8000000000) % 32,
        digit(word_number(hi, lo, c), 5) == (hi / 0x400000000) % 32,
        digit(word_number(hi, lo, c), 6) == (hi / 0x20000000) % 32,
        digit(word_number(hi, lo, c), 7) == (hi / 0x1000000) % 32,
        digit(word_number(hi, lo, c), 8) == (hi / 0x80000) % 32,
        digit(word_number(hi, lo, c), 9) == (hi / 0x4000) % 32,
        digit(word_number(hi, lo, c), 10) == (hi / 0x200) % 32,
        digit(word_number(hi, lo, c), 11) == (hi / 0x10) % 32,
{
    lemma_pow32();
    lemma_hi_digit(hi, lo, c, 0x800000000000000, pow32(26));
    lemma_hi_digit(hi, lo, c, 0x40000000000000, pow32(25));
    lemma_hi_digit(hi, lo, c, 0x2000000000000, pow32(24));
    lemma_hi_digit(hi, lo, c, 0x100000000000, pow32(23));
    lemma_hi_digit(hi, lo, c, 0x8000000000, pow32(22));
    lemma_hi_digit(hi, lo, c, 0x400000000, pow32(21));
    lemma_hi_digit(hi, lo, c, 0x20000000, pow32(20));
    lemma_hi_digit(hi, lo, c, 0x1000000, pow32(19));
    lemma_hi_digit(hi, lo, c, 0x80000, pow32(18));
    lemma_hi_digit(hi, lo, c, 0x4000, pow32(17));
    lemma_hi_digit(hi, lo, c, 0x200, pow32(16));
    lemma_hi_digit(hi, lo, c, 0x10, pow32(15));
}

proof fn lemma_digits_lo(hi: u64, lo: u64, c: nat)
    requires
        c < 128,
    ensures
        digit(word_number(hi, lo, c), 13) == (lo / 0x400000000000000) % 32,
        digit(word_number(hi, lo, c), 14) == (lo / 0x20000000000000) % 32,
        digit(word_number(hi, lo, c), 15) == (lo / 0x1000000000000) % 32,
        digit(word_number(hi, lo, c), 16) == (lo / 0x80000000000) % 32,
        digit(word_number(hi, lo, c), 17) == (lo / 0x4000000000) % 32,
        digit(word_number(hi, lo, c), 18) == (lo / 0x200000000) % 32,
        digit(word_number(hi, lo, c), 19) == (lo / 0x10000000) % 32,
        digit(word_number(hi, lo, c), 20) == (lo / 0x800000) % 32,
        digit(word_number(hi, lo, c), 21) == (lo / 0x40000) % 32,
        digit(word_number(hi, lo, c), 22) == (lo / 0x2000) % 32,
        digit(word_number(hi, lo, c), 23) == (lo / 0x100) % 32,
        digit(word_number(hi, lo, c), 24) == (lo / 0x8) % 32,
{
    lemma_pow32();
    lemma_lo_digit(hi, lo, c, 0x400000000000000, 0x40, pow32(13));
    lemma_lo_digit(hi, lo, c, 0x20000000000000, 0x800, pow32(12));
    lemma_lo_digit(hi, lo, c, 0x1000000000000, 0x10000, pow32(11));
    lemma_lo_digit(hi, lo, c, 0x80000000000, 0x200000, pow32(10));
    lemma_lo_digit(hi, lo, c, 0x4000000000, 0x4000000, pow32(9));
    lemma_lo_digit(hi, lo, c, 0x200000000, 0x80000000, pow32(8));
    lemma_lo_digit(hi, lo, c, 0x10000000, 0x1000000000, pow32(7));
    lemma_lo_digit(hi, lo, c, 0x800000, 0x20000000000, pow32(6));
    lemma_lo_digit(hi, lo, c, 0x40000, 0x400000000000, pow32(5));
    lemma_lo_digit(hi, lo, c, 0x2000, 0x8000000000000, pow32(4));
    lemma_lo_digit(hi, lo, c, 0x100, 0x100000000000000, pow32(3));
    lemma_lo_digit(hi, lo, c, 0x8, 0x2000000000000000, pow32(2));
}

proof fn lemma_digit_middle(hi: u64, lo: u64, c: nat)
    requires
        c < 128,
    ensures
        digit(word_number(hi, lo, c), 12) == (hi % 16) * 2 + lo / 0x8000_0000_0000_0000,
{
    lemma_pow32();
    lemma_lo_quotient(hi, lo, c, 0x8000_0000_0000_0000, 2, pow32(14));
    let q: nat = lo as nat / 0x8000_0000_0000_0000;
    let t: nat = hi as nat * 2 + q;
    assert(word_number(hi, lo, c) / pow32(14) == t);
    vstd::arithmetic::div_mod::lemma_fundamental_div_mod_converse(
        t as int,
        32,
        (hi / 16) as int,
        ((hi % 16) * 2 + q) as int,
    );
}

proof fn lemma_digits_last(hi: u64, lo: u64, c: nat)
    requires
        c < 128,
    ensures
        digit(word_number(hi, lo, c), 25) == (lo % 8) * 4 + c / 32,
        digit(word_number(hi, lo, c), 26) == c % 32,
{
    lemma_pow32();
    let v: nat = (hi as nat) * 0x1_0000_0000_0000_0000 + (lo as nat);
    let n: nat = word_number(hi, lo, c);
    let t: nat = v * 4 + c / 32;
    vstd::arithmetic::div_mod::lemma_fundamental_div_mod_converse(
        n as int,
        32,
        t as int,
        (c % 32) as int,
    );
    assert(n / pow32(1) == t);
    assert(n / pow32(0) == n);
    vstd::arithmetic::div_mod::lemma_fundamental_div_mod_converse(
        t as int,
        32,
        (hi as nat * 0x2000_0000_0000_0000 + lo as nat / 8) as int,
        ((lo % 8) * 4 + c / 32) as int,
    );
}

/// The number spelled by the first `n` digits of `d`, most significant first.
pub open spec fn number(d: Seq<usize>, n: nat) -> nat
    decreases n,
{
    if n == 0 {
        0
    } else {
        number(d, (n - 1) as nat) * 32 + d[n - 1] as nat
    }
}

/// Splits an identifier into 5-bit groups: the 27 digits of its text number
/// with a check value of zero.
pub fn to_u5_slice(hi: u64, lo: u64) -> (dst: [usize; 27])
    ensures
        forall|i: int| 0 <= i < 27 ==> dst[i] == digit(word_number(hi, lo, 0), i),
{
    proof {
        lemma_word_digits(hi, lo);
        lemma_digits_hi(hi, lo, 0);
        lemma_digits_lo(hi, lo, 0);
        lemma_digit_middle(hi, lo, 0);
        lemma_digits_last(hi, lo, 0);
    }
    let mut dst: [usize; 27] = [0usize; 27];
    dst[0] = ((hi >> 59) & 0x1f) as usize;
    dst[1] = ((hi >> 54) & 0x1f) as usize;
    dst[2] = ((hi >> 49) & 0x1f) as usize;
    dst[3] = ((hi >> 44) & 0x1f) as usize;
    dst[4] = ((hi >> 39) & 0x1f) as usize;
    dst[5] = ((hi >> 34) & 0x1f) as usize;
    dst[6] = ((hi >> 29) & 0x1f) as usize;
    dst[7] = ((hi >> 24) & 0x1f) as usize;
    dst[8] = ((hi >> 19) & 0x1f) as usize;
    dst[9] = ((hi >> 14) & 0x1f) as usize;
    dst[10] = ((hi >> 9) & 0x1f) as usize;
    dst[11] = ((hi >> 4) & 0x1f) as usize;
    dst[12] = (((hi & 0xf) << 1) | ((lo >> 63) & 0x1)) as usize;
    dst[13] = ((lo >> 58) & 0x1f) as usize;
    dst[14] = ((lo >> 53) & 0x1f) as usize;
    dst[15] = ((lo >> 48) & 0x1f) as usize;
    dst[16] = ((lo >> 43) & 0x1f) as usize;
    dst[17] = ((lo >> 38) & 0x1f) as usize;
    dst[18] = ((lo >> 33) & 0x1f) as usize;
    dst[19] = ((lo >> 28) & 0x1f) as usize;
    dst[20] = ((lo >> 23) & 0x1f) as usize;
    dst[21] = ((lo >> 18) & 0x1f) as usize;
    dst[22] = ((lo >> 13) & 0x1f) as usize;
    dst[23] = ((lo >> 8) & 0x1f) as usize;
    dst[24] = ((lo >> 3) & 0x1f) as usize;
    dst[25] = ((lo & 0x7) << 2) as usize;
    dst
}

proof fn lemma_join_groups(
    s0: u64,
    s1: u64,
    s2: u64,
    s3: u64,
    s4: u64,
    s5: u64,
    s6: u64,
    s7: u64,
    s8: u64,
    s9: u64,
    s10: u64,
    s11: u64,
    s12: u64,
    s13: u64,
    s14: u64,
    s15: u64,
    s16: u64,
    s17: u64,
    s18: u64,
    s19: u64,
    s20: u64,
    s21: u64,
    s22: u64,
    s23: u64,
    s24: u64,
    s25: u64,
)
    by (bit_vector)
    requires
        s0 < 32,
        s1 < 32,
        s2 < 32,
        s3 < 32,
        s4 < 32,
        s5 < 32,
        s6 < 32,
        s7 < 32,
        s8 < 32,
        s9 < 32,
        s10 < 32,
        s11 < 32,
        s12 < 32,
        s13 < 32,
        s14 < 32,
        s15 < 32,
        s16 < 32,
        s17 < 32,
        s18 < 32,
        s19 < 32,
        s20 < 32,
        s21 < 32,
        s22 < 32,
        s23 < 32,
        s24 < 32,
        s25 < 32,
    ensures
        (s0 << 59) | (s1 << 54) | (s2 << 49) | (s3 << 44) | (s4 << 39) | (s5 << 34) | (s6 << 29) |
            (s7 << 24) | (s8 << 19) | (s9 << 14) | (s10 << 9) | (s11 << 4) |
            ((s12 >> 1) & 0xf) == s0 * 0x800000000000000 + s1 * 0x40000000000000 +
            s2 * 0x2000000000000 + s3 * 0x100000000000 + s4 * 0x8000000000 + s5 * 0x400000000 +
            s6 * 0x20000000 + s7 * 0x1000000 + s8 * 0x80000 + s9 * 0x4000 + s10 * 0x200 + s11 * 0x10
            + s12 / 2,
        ((s13 << 58) | ((s12 & 0x1) << 63)) | (s14 << 53) | (s15 << 48) | (s16 << 43) | (s17 << 38)
            | (s18 << 33) | (s19 << 28) | (s20 << 23) | (s21 << 18) | (s22 << 13) | (s23 << 8) |
            (s24 << 3) | (s25 >> 2) == (s12 % 2) * 0x8000_0000_0000_0000 + s13 * 0x400000000000000
            + s14 * 0x20000000000000 + s15 * 0x1000000000000 + s16 * 0x80000000000 +
            s17 * 0x4000000000 + s18 * 0x200000000 + s19 * 0x10000000 + s20 * 0x800000 +
            s21 * 0x40000 + s22 * 0x2000 + s23 * 0x100 + s24 * 0x8 + s25 / 4,
{
}

/// Joins 5-bit groups into the two words of an identifier: the number that
/// the 27 groups spell, without its seven lowest bits.
pub fn to_u64_slice(slice: &[usize; 27]) -> (r: (u64, u64))
    requires
        forall|i: int| 0 <= i < 27 ==> slice[i] < 32,
    ensures
        pair_value(r) == number(slice@, 27) / 128,
{
    let s0: u64 = slice[0] as u64;
    let s1: u64 = slice[1] as u64;
    let s2: u64 = slice[2] as u64;
    let s3: u64 = slice[3] as u64;
    let s4: u64 = slice[4] as u64;
    let s5: u64 = slice[5] as u64;
    let s6: u64 = slice[6] as u64;
    let s7: u64 = slice[7] as u64;
    let s8: u64 = slice[8] as u64;
    let s9: u64 = slice[9] as u64;
    let s10: u64 = slice[10] as u64;
    let s11: u64 = slice[11] as u64;
    let s12: u64 = slice[12] as u64;
    let s13: u64 = slice[13] as u64;
    let s14: u64 = slice[14] as u64;
    let s15: u64 = slice[15] as u64;
    let s16: u64 = slice[16] as u64;
    let s17: u64 = slice[17] as u64;
    let s18: u64 = slice[18] as u64;
    let s19: u64 = slice[19] as u64;
    let s20: u64 = slice[20] as u64;
    let s21: u64 = slice[21] as u64;
    let s22: u64 = slice[22] as u64;
    let s23: u64 = slice[23] as u64;
    let s24: u64 = slice[24] as u64;
    let s25: u64 = slice[25] as u64;
    proof {
        lemma_join_groups(s0, s1, s2, s3, s4, s5, s6, s7, s8, s9, s10, s11, s12, s13, s14, s15, s16
            , s17, s18, s19, s20, s21, s22, s23, s24, s25);
        reveal_with_fuel(number, 28);
    }
    let hi: u64 = (s0 << 59) | (s1 << 54) | (s2 << 49) | (s3 << 44) | (s4 << 39) | (s5 << 34) |
        (s6 << 29) | (s7 << 24) | (s8 << 19) | (s9 << 14) | (s10 << 9) | (s11 << 4) |
        ((s12 >> 1) & 0xf);
    let lo: u64 = ((s13 << 58) | ((s12 & 0x1) << 63)) | (s14 << 53) | (s15 << 48) | (s16 << 43) |
        (s17 << 38) | (s18 << 33) | (s19 << 28) | (s20 << 23) | (s21 << 18) | (s22 << 13) |
        (s23 << 8) | (s24 << 3) | (s25 >> 2);
    (hi, lo)
}

/// `String::push` appends one character to the end of the string.
pub assume_specification[ String::push ](s: &mut String, c: char)
    ensures
        final(s)@ == old(s)@.push(c),
;

/// The value of a symbol of the alphabet; `None` for any other character.
pub open spec fn symbol_index(c: char) -> Option<usize> {
    if '0' <= c && c <= '9' {
        Some((c as int - '0' as int) as usize)
    } else if 'A' <= c && c <= 'H' {
        Some((c as int - 'A' as int + 10) as usize)
    } else if 'J' <= c && c <= 'K' {
        Some((c as int - 'J' as int + 18) as usize)
    } else if 'M' <= c && c <= 'N' {
        Some((c as int - 'M' as int + 20) as usize)
    } else if 'P' <= c && c <= 'T' {
        Some((c as int - 'P' as int + 22) as usize)
    } else if 'V' <= c && c <= 'Z' {
        Some((c as int - 'V' as int + 27) as usize)
    } else {
        None
    }
}

/// `symbol_index` is the inverse of the alphabet: it gives each symbol its
/// position, and any character it accepts is the symbol at that position.
pub proof fn lemma_symbol_index_inverts_alphabet()
    ensures
        forall|i: int| 0 <= i < 32 ==> symbol_index(#[trigger] ENCODING_SYMBOLS@[i]) == Some(i as usize),
        forall|c: char| symbol_index(c) is Some ==> symbol_index(c)->0 < 32
            && ENCODING_SYMBOLS@[symbol_index(c)->0 as int] == c,
{
}

/// Reads one character as a symbol of the alphabet.
pub fn decode_symbol(c: char) -> (r: Option<usize>)
    ensures
        r == symbol_index(c),
{
    let code: u32 = c as u32;
    if 48 <= code && code <= 57 {
        Some((code - 48) as usize)
    } else if 65 <= code && code <= 72 {
        Some((code - 55) as usize)
    } else if 74 <= code && code <= 75 {
        Some((code - 56) as usize)
    } else if 77 <= code && code <= 78 {
        Some((code - 57) as usize)
    } else if 80 <= code && code <= 84 {
        Some((code - 58) as usize)
    } else if 86 <= code && code <= 90 {
        Some((code - 59) as usize)
    } else {
        None
    }
}

/// The check value that a text carries: the checksum of the value, or the
/// reserved value 127 where none is wanted.
pub open spec fn check_value(value: nat, checkmod: bool) -> nat {
    if checkmod {
        checksum(value)
    } else {
        127
    }
}

/// The text form of a 128-bit value with a check value: the 27 base-32
/// digits of their text number, each written as its symbol.
pub open spec fn spec_encode(value: nat, check: nat) -> Seq<char> {
    Seq::new(27, |i: int| ENCODING_SYMBOLS@[digit(text_number(value, check), i) as int])
}

/// The check value touches the last two digits only.
proof fn lemma_digit_without_check(hi: u64, lo: u64, c: nat, i: int)
    requires
        c < 128,
        0 <= i < 25,
    ensures
        digit(word_number(hi, lo, c), i) == digit(word_number(hi, lo, 0), i),
{
    let v: nat = (hi as nat) * 0x1_0000_0000_0000_0000 + (lo as nat);
    let k: nat = (24 - i) as nat;
    let p: nat = pow32((26 - i) as nat);
    reveal_with_fuel(pow32, 3);
    assert(p == 32 * (32 * pow32(k)));
    lemma_pow32_positive(k);
    let d: nat = 8 * pow32(k);
    assert(p == d * 128);
    lemma_div_product(v, c, d, 128);
    lemma_div_product(v, 0, d, 128);
}

/// Every power of 32 is positive.
pub proof fn lemma_pow32_positive(k: nat)
    ensures
        pow32(k) > 0,
    decreases k,
{
    if k > 0 {
        lemma_pow32_positive((k - 1) as nat);
    }
}

/// Writes an identifier as text, with its checksum or, where `checkmod` is
/// false, with the reserved check value.
pub fn encode(euid: &EUID, checkmod: bool) -> (dst: String)
    ensures
        dst@ == spec_encode(euid@, check_value(euid@, checkmod)),
{
    let hi: u64 = euid.0;
    let lo: u64 = euid.1;
    let slice: [usize; 27] = to_u5_slice(hi, lo);
    let check: usize = if checkmod {
        m7(euid)
    } else {
        NO_CHECK
    };
    let ghost c: nat = check as nat;
    let ghost n: nat = word_number(hi, lo, c);
    proof {
        lemma_digits_last(hi, lo, 0);
        lemma_digits_last(hi, lo, c);
    }
    let mut dst: String = String::new();
    let mut i: usize = 0;
    while i < 25
        invariant
            i <= 25,
            c < 128,
            n == word_number(hi, lo, c),
            dst@.len() == i,
            forall|j: int| 0 <= j < 27 ==> slice[j] == digit(word_number(hi, lo, 0), j),
            forall|j: int| 0 <= j < i ==> dst@[j] == ENCODING_SYMBOLS@[digit(n, j) as int],
        decreases 25 - i,
    {
        proof {
            lemma_digit_without_check(hi, lo, c, i as int);
        }
        dst.push(ENCODING_SYMBOLS[slice[i]]);
        i += 1;
    }
    dst.push(ENCODING_SYMBOLS[slice[25] + check / 32]);
    dst.push(ENCODING_SYMBOLS[check % 32]);
    assert(dst@ =~= spec_encode(euid@, c));
    dst
}

/// The position of the first character at or after `from` that is no symbol
/// of the alphabet, or the length of the text where there is none.
pub open spec fn first_invalid(s: Seq<char>, from: int) -> int
    decreases s.len() - from,
{
    if from < 0 || from >= s.len() {
        s.len() as int
    } else if symbol_index(s[from]) is None {
        from
    } else {
        first_invalid(s, from + 1)
    }
}

/// The values of the symbols of a text.
pub open spec fn symbol_values(s: Seq<char>) -> Seq<usize> {
    Seq::new(s.len(), |i: int| symbol_index(s[i]).unwrap_or(0))
}

/// What a text number stands for: the identifier in its upper 128 bits,
/// unless the check value in its lower seven bits is neither the reserved
/// value nor the checksum of that identifier.
pub open spec fn spec_verify(n: nat) -> Result<EUID, Error> {
    let value = n / 128;
    let check = n % 128;
    if check == 127 || check == checksum(value) {
        Ok(EUID::from_value(value))
    } else {
        Err(Error::InvalidCheckmod(check as usize, checksum(value) as usize))
    }
}

/// What reading a text gives: the identifier it spells, or the first
/// reason, in this order, why it spells none: its length is not 27; it
/// holds a character outside the alphabet, of which the first is reported;
/// its check value is neither the reserved value nor the checksum of the
/// identifier.
pub open spec fn spec_decode(s: Seq<char>) -> Result<EUID, Error> {
    if s.len() != 27 {
        Err(Error::InvalidLength(s.len() as usize, 27))
    } else if first_invalid(s, 0) < 27 {
        Err(Error::InvalidCharacter(s[first_invalid(s, 0)]))
    } else {
        spec_verify(number(symbol_values(s), 27))
    }
}

/// Reads the 27 characters of a text as symbols of the alphabet, and
/// reports the first that is none.
fn read_symbols(encoded: &str) -> (r: Result<[usize; 27], Error>)
    requires
        encoded@.len() == 27,
    ensures
        match r {
            Ok(slice) => first_invalid(encoded@, 0) == 27 && slice@ == symbol_values(encoded@)
                && forall|j: int| 0 <= j < 27 ==> slice[j] < 32,
            Err(e) => first_invalid(encoded@, 0) < 27 && e == Error::InvalidCharacter(
                encoded@[first_invalid(encoded@, 0)],
            ),
        },
{
    let mut slice: [usize; 27] = [0usize; 27];
    let mut i: usize = 0;
    while i < 27
        invariant
            i <= 27,
            encoded@.len() == 27,
            first_invalid(encoded@, 0) == first_invalid(encoded@, i as int),
            forall|j: int| 0 <= j < i ==> symbol_index(encoded@[j]) == Some(#[trigger] slice[j]),
            forall|j: int| 0 <= j < 27 ==> slice[j] < 32,
        decreases 27 - i,
    {
        let c: char = encoded.get_char(i);
        match decode_symbol(c) {
            Some(v) => {
                slice[i] = v;
            },
            None => {
                return Err(Error::InvalidCharacter(c));
            },
        }
        i += 1;
    }
    assert(slice@ =~= symbol_values(encoded@));
    Ok(slice)
}

/// Joins 27 groups into an identifier and verifies the check value that
/// they carry.
pub fn verify_groups(slice: &[usize; 27]) -> (r: Result<EUID, Error>)
    requires
        forall|i: int| 0 <= i < 27 ==> slice[i] < 32,
    ensures
        r == spec_verify(number(slice@, 27)),
{
    let e: (u64, u64) = to_u64_slice(slice);
    let check: usize = (slice[25] % 4) * 32 + slice[26];
    let euid: EUID = EUID(e.0, e.1);
    proof {
        let n = number(slice@, 27);
        let a = number(slice@, 25);
        reveal_with_fuel(number, 3);
        assert(n == (a * 32 + slice[25]) * 32 + slice[26]);
        vstd::arithmetic::div_mod::lemma_fundamental_div_mod_converse(
            n as int,
            128,
            (a * 8 + slice[25] / 4) as int,
            check as int,
        );
        vstd::arithmetic::div_mod::lemma_fundamental_div_mod_converse(
            euid@ as int,
            0x1_0000_0000_0000_0000,
            e.0 as int,
            e.1 as int,
        );
    }
    if check == NO_CHECK {
        Ok(euid)
    } else {
        let w: usize = m7(&euid);
        if check != w {
            Err(Error::InvalidCheckmod(check, w))
        } else {
            Ok(euid)
        }
    }
}

/// Reads a text as an identifier, and verifies its check value unless it
/// is the reserved one.
pub fn decode(encoded: &str) -> (r: Result<EUID, Error>)
    ensures
        r == spec_decode(encoded@),
{
    let len: usize = encoded.unicode_len();
    if len != ENCODED_LEN {
        return Err(Error::InvalidLength(len, ENCODED_LEN));
    }
    match read_symbols(encoded) {
        Ok(slice) => verify_groups(&slice),
        Err(e) => Err(e),
    }
}

} // verus!
