//! What holds of the text form as a whole: reading what was written gives
//! back the identifier, and texts are ordered as their identifiers are.

use vstd::prelude::*;
use vstd::arithmetic::div_mod::{
    lemma_basic_div,
    lemma_div_denominator,
    lemma_fundamental_div_mod,
    lemma_fundamental_div_mod_converse,
};
use crate::base32::{
    check_value,
    digit,
    first_invalid,
    lemma_pow32_positive,
    lemma_symbol_index_inverts_alphabet,
    number,
    pow32,
    spec_decode,
    spec_encode,
    spec_verify,
    symbol_index,
    symbol_values,
    text_number,
    ENCODING_SYMBOLS,
};
use crate::check::{checksum, lemma_checksum_is_remainder};
use crate::order::lemma_order_by_words;
use crate::{Error, EUID};

verus! {

/// The number made of the first `k` of the 27 digits of `n`.
pub open spec fn leading(n: nat, k: int) -> nat {
    n / pow32((27 - k) as nat)
}

/// One text comes before another, as strings compare: at the first place
/// where they differ the first has the smaller character, or the first
/// ends there.
pub open spec fn text_lt(s: Seq<char>, t: Seq<char>) -> bool {
    ||| exists|i: int|
        0 <= i < s.len() && i < t.len() && s[i] < t[i] && forall|j: int|
            0 <= j < i ==> s[j] == t[j]
    ||| s.len() < t.len() && forall|j: int| 0 <= j < s.len() ==> s[j] == t[j]
}

proof fn lemma_pow32_adds(a: nat, b: nat)
    ensures
        pow32(a + b) == pow32(a) * pow32(b),
        pow32(a) > 0,
        pow32(b) > 0,
    decreases a,
{
    lemma_pow32_positive(a);
    lemma_pow32_positive(b);
    if a == 0 {
        assert(pow32(0) == 1);
        assert(a + b == b);
    } else {
        lemma_pow32_adds((a - 1) as nat, b);
        assert(pow32(a + b) == 32 * pow32((a - 1 + b) as nat));
        assert(32 * (pow32((a - 1) as nat) * pow32(b)) == (32 * pow32((a - 1) as nat)) * pow32(b))
            by (nonlinear_arith);
    }
}

/// The first 27 digits of a number spell the number itself.
proof fn lemma_leading_all(n: nat)
    ensures
        leading(n, 27) == n,
{
    assert(pow32(0) == 1);
    assert(n / 1 == n);
    assert(leading(n, 27) == n / pow32(0));
}

/// A text number is below 32 to the 27th power.
proof fn lemma_text_number_bound(value: nat, check: nat)
    requires
        value < 0x1_0000_0000_0000_0000_0000_0000_0000_0000,
        check < 128,
    ensures
        text_number(value, check) < pow32(27),
        text_number(value, check) / 128 == value,
        text_number(value, check) % 128 == check,
{
    reveal_with_fuel(pow32, 28);
    lemma_fundamental_div_mod_converse(
        text_number(value, check) as int,
        128,
        value as int,
        check as int,
    );
}

/// One more leading digit: the number so far times 32, plus the digit.
proof fn lemma_leading_step(n: nat, k: int)
    requires
        0 <= k < 27,
    ensures
        leading(n, k + 1) == leading(n, k) * 32 + digit(n, k),
        leading(n, k) == leading(n, k + 1) / 32,
        digit(n, k) == leading(n, k + 1) % 32,
        digit(n, k) < 32,
{
    let p = pow32((26 - k) as nat);
    lemma_pow32_adds((26 - k) as nat, 1);
    reveal_with_fuel(pow32, 2);
    assert(pow32(1) == 32);
    assert(pow32((27 - k) as nat) == p * 32);
    lemma_div_denominator(n as int, p as int, 32);
    lemma_fundamental_div_mod((n / p) as int, 32);
}

/// The digits of a number below 32 to the 27th power spell that number.
proof fn lemma_number_of_digits(n: nat, d: Seq<usize>, k: int)
    requires
        n < pow32(27),
        d.len() == 27,
        forall|i: int| 0 <= i < 27 ==> d[i] == digit(n, i),
        0 <= k <= 27,
    ensures
        number(d, k as nat) == leading(n, k),
    decreases k,
{
    if k == 0 {
        lemma_pow32_adds(27, 0);
        lemma_basic_div(n as int, pow32(27) as int);
    } else {
        lemma_number_of_digits(n, d, k - 1);
        lemma_leading_step(n, k - 1);
    }
}

proof fn lemma_all_symbols(s: Seq<char>, from: int)
    requires
        0 <= from <= s.len(),
        forall|i: int| from <= i < s.len() ==> symbol_index(s[i]) is Some,
    ensures
        first_invalid(s, from) == s.len(),
    decreases s.len() - from,
{
    if from < s.len() {
        lemma_all_symbols(s, from + 1);
    }
}

/// Reading the text of a value and a check value gives the identifier of
/// that value where the check value is the reserved one or the checksum of
/// the value, and a checksum mismatch that carries both otherwise. No text
/// that was written fails for its length or its characters.
pub proof fn lemma_decode_of_encode(value: nat, check: nat)
    requires
        value < 0x1_0000_0000_0000_0000_0000_0000_0000_0000,
        check < 128,
    ensures
        spec_decode(spec_encode(value, check)) == spec_verify(text_number(value, check)),
        spec_decode(spec_encode(value, check)) == if check == 127 || check == checksum(value) {
            Ok::<EUID, Error>(EUID::from_value(value))
        } else {
            Err::<EUID, Error>(Error::InvalidCheckmod(check as usize, checksum(value) as usize))
        },
{
    let n = text_number(value, check);
    let s = spec_encode(value, check);
    lemma_text_number_bound(value, check);
    lemma_symbol_index_inverts_alphabet();
    assert forall|i: int| 0 <= i < 27 implies symbol_index(s[i]) == Some(digit(n, i) as usize) by {
        lemma_leading_step(n, i);
        assert(s[i] == ENCODING_SYMBOLS@[digit(n, i) as int]);
    }
    lemma_all_symbols(s, 0);
    let d = symbol_values(s);
    assert forall|i: int| 0 <= i < 27 implies d[i] == digit(n, i) by {
        lemma_leading_step(n, i);
        assert(symbol_index(s[i]) == Some(digit(n, i) as usize));
    }
    lemma_number_of_digits(n, d, 27);
    lemma_leading_all(n);
}

/// Reading what was written gives back the identifier, with its checksum
/// or without.
pub proof fn lemma_decode_encode(e: EUID, checkmod: bool)
    ensures
        spec_decode(spec_encode(e@, check_value(e@, checkmod))) == Ok::<EUID, Error>(e),
{
    lemma_order_by_words(e, e);
    lemma_checksum_is_remainder(e@);
    lemma_decode_of_encode(e@, check_value(e@, checkmod));
    lemma_fundamental_div_mod_converse(
        e@ as int,
        0x1_0000_0000_0000_0000,
        e.0 as int,
        e.1 as int,
    );
}

/// A sequence of 27 digits holds the digits of the number that it spells.
proof fn lemma_digits_of_number(d: Seq<usize>, k: int)
    requires
        d.len() == 27,
        forall|i: int| 0 <= i < 27 ==> d[i] < 32,
        0 <= k <= 27,
    ensures
        leading(number(d, 27), k) == number(d, k as nat),
        k < 27 ==> digit(number(d, 27), k) == d[k],
    decreases 27 - k,
{
    let n = number(d, 27);
    if k == 27 {
        lemma_leading_all(n);
    } else {
        lemma_digits_of_number(d, k + 1);
        lemma_leading_step(n, k);
        assert(number(d, (k + 1) as nat) == number(d, k as nat) * 32 + d[k]);
        lemma_fundamental_div_mod_converse(
            number(d, (k + 1) as nat) as int,
            32,
            number(d, k as nat) as int,
            d[k] as int,
        );
    }
}

/// A text that reads as an identifier is the text of that identifier with
/// the check value that it carries, which is the reserved value or the
/// checksum: no two texts carry the same identifier and check value.
pub proof fn lemma_encode_of_decode(s: Seq<char>)
    requires
        spec_decode(s) is Ok,
    ensures
        ({
            let e = spec_decode(s)->Ok_0;
            let check = number(symbol_values(s), 27) % 128;
            &&& s == spec_encode(e@, check)
            &&& check == 127 || check == checksum(e@)
        }),
{
    let d = symbol_values(s);
    let n = number(d, 27);
    let e = spec_decode(s)->Ok_0;
    lemma_symbol_index_inverts_alphabet();
    lemma_first_invalid(s, 0);
    assert forall|i: int| 0 <= i < 27 implies d[i] < 32 && s[i] == ENCODING_SYMBOLS@[d[i] as int] by {
        assert(symbol_index(s[i]) is Some);
    }
    lemma_digits_of_number(d, 0);
    lemma_pow32_adds(27, 0);
    lemma_fundamental_div_mod(n as int, pow32(27) as int);
    lemma_fundamental_div_mod(n as int, 128);
    assert(n / 128 < 0x1_0000_0000_0000_0000_0000_0000_0000_0000) by {
        reveal_with_fuel(pow32, 28);
        assert(n < pow32(27)) by {
            lemma_number_bound(d, 27);
        }
    }
    let value = n / 128;
    lemma_fundamental_div_mod(value as int, 0x1_0000_0000_0000_0000);
    assert(e@ == value);
    assert(text_number(e@, n % 128) == n);
    assert forall|i: int| 0 <= i < 27 implies s[i] == spec_encode(e@, n % 128)[i] by {
        lemma_digits_of_number(d, i);
    }
    assert(s =~= spec_encode(e@, n % 128));
}

/// A number spelled by `k` digits is below 32 to the power `k`.
proof fn lemma_number_bound(d: Seq<usize>, k: nat)
    requires
        d.len() >= k,
        forall|i: int| 0 <= i < k ==> d[i] < 32,
    ensures
        number(d, k) < pow32(k),
    decreases k,
{
    if k > 0 {
        lemma_number_bound(d, (k - 1) as nat);
    }
}

/// Where the first character that is no symbol lies beyond the end, every
/// character from `from` on is a symbol.
proof fn lemma_first_invalid(s: Seq<char>, from: int)
    requires
        0 <= from <= s.len(),
        first_invalid(s, from) >= s.len(),
    ensures
        forall|i: int| from <= i < s.len() ==> symbol_index(s[i]) is Some,
    decreases s.len() - from,
{
    if from < s.len() {
        lemma_first_invalid(s, from + 1);
    }
}

/// The symbols of the alphabet are in increasing order.
proof fn lemma_alphabet_increasing()
    ensures
        forall|i: int, j: int|
            0 <= i < j < 32 ==> #[trigger] ENCODING_SYMBOLS@[i] < #[trigger] ENCODING_SYMBOLS@[j],
{
}

/// Of two numbers whose first `k` digits spell a smaller and a larger
/// number, some digit among those is the first to differ, and there the
/// first number has the smaller digit.
proof fn lemma_first_difference(n: nat, m: nat, k: int) -> (i: int)
    requires
        n < pow32(27),
        m < pow32(27),
        0 <= k <= 27,
        leading(n, k) < leading(m, k),
    ensures
        0 <= i < k,
        leading(n, i) == leading(m, i),
        digit(n, i) < digit(m, i),
    decreases k,
{
    if k == 0 {
        lemma_pow32_adds(27, 0);
        lemma_basic_div(n as int, pow32(27) as int);
        lemma_basic_div(m as int, pow32(27) as int);
        0
    } else {
        lemma_leading_step(n, k - 1);
        lemma_leading_step(m, k - 1);
        if leading(n, k - 1) < leading(m, k - 1) {
            lemma_first_difference(n, m, k - 1)
        } else {
            k - 1
        }
    }
}

/// Numbers whose first `i` digits spell the same number have the same
/// digits there.
proof fn lemma_equal_prefix(n: nat, m: nat, i: int, j: int)
    requires
        0 <= j < i <= 27,
        leading(n, i) == leading(m, i),
    ensures
        digit(n, j) == digit(m, j),
    decreases i - j,
{
    if j + 1 == i {
        lemma_leading_step(n, j);
        lemma_leading_step(m, j);
    } else {
        lemma_leading_step(n, i - 1);
        lemma_leading_step(m, i - 1);
        lemma_equal_prefix(n, m, i - 1, j);
    }
}

/// Texts are ordered as their identifiers are, whatever check values they
/// carry.
pub proof fn lemma_encode_preserves_order(a: EUID, b: EUID, check_a: nat, check_b: nat)
    requires
        a@ < b@,
        check_a < 128,
        check_b < 128,
    ensures
        text_lt(spec_encode(a@, check_a), spec_encode(b@, check_b)),
{
    let n = text_number(a@, check_a);
    let m = text_number(b@, check_b);
    let s = spec_encode(a@, check_a);
    let t = spec_encode(b@, check_b);
    lemma_order_by_words(a, a);
    lemma_order_by_words(b, b);
    lemma_text_number_bound(a@, check_a);
    lemma_text_number_bound(b@, check_b);
    lemma_leading_all(n);
    lemma_leading_all(m);
    let i = lemma_first_difference(n, m, 27);
    lemma_alphabet_increasing();
    lemma_leading_step(n, i);
    lemma_leading_step(m, i);
    assert(s[i] < t[i]);
    assert forall|j: int| 0 <= j < i implies s[j] == t[j] by {
        lemma_equal_prefix(n, m, i, j);
    }
}

/// Two texts of one length differ at place `i` and nowhere else.
pub open spec fn differ_at(s: Seq<char>, t: Seq<char>, i: int) -> bool {
    &&& s.len() == t.len()
    &&& 0 <= i < s.len()
    &&& s[i] != t[i]
    &&& forall|j: int| 0 <= j < s.len() && j != i ==> s[j] == t[j]
}

/// Doubling a number that is no multiple of 127 gives no multiple of 127.
proof fn lemma_double_mod_127(x: int)
    requires
        x % 127 != 0,
    ensures
        (2 * x) % 127 != 0,
{
    let q = x / 127;
    let r = x % 127;
    if 2 * r < 127 {
        lemma_fundamental_div_mod_converse(2 * x, 127, 2 * q, 2 * r);
    } else {
        lemma_fundamental_div_mod_converse(2 * x, 127, 2 * q + 1, 2 * r - 127);
    }
}

/// A power of 32 times a number that is no multiple of 127 is no multiple
/// of 127.
proof fn lemma_times_pow32_mod_127(x: int, k: nat)
    requires
        x % 127 != 0,
    ensures
        (x * pow32(k)) % 127 != 0,
    decreases k,
{
    if k == 0 {
        assert(x * pow32(0) == x) by (nonlinear_arith)
            requires
                pow32(0) == 1,
        ;
    } else {
        lemma_times_pow32_mod_127(x, (k - 1) as nat);
        let y = x * pow32((k - 1) as nat);
        lemma_double_mod_127(y);
        lemma_double_mod_127(2 * y);
        lemma_double_mod_127(4 * y);
        lemma_double_mod_127(8 * y);
        lemma_double_mod_127(16 * y);
        assert(x * pow32(k) == 32 * y) by (nonlinear_arith)
            requires
                pow32(k) == 32 * pow32((k - 1) as nat),
                y == x * pow32((k - 1) as nat),
        ;
    }
}

/// Two sequences of digits that differ at one place spell numbers that
/// differ by the difference of the two digits, times the weight of the
/// place.
proof fn lemma_one_digit_apart(a: Seq<usize>, b: Seq<usize>, i: int, k: int)
    requires
        a.len() == 27,
        b.len() == 27,
        0 <= i < 27,
        0 <= k <= 27,
        forall|j: int| 0 <= j < 27 && j != i ==> a[j] == b[j],
    ensures
        k <= i ==> number(b, k as nat) == number(a, k as nat),
        k > i ==> number(b, k as nat) - number(a, k as nat) == (b[i] - a[i]) * pow32(
            (k - 1 - i) as nat,
        ),
    decreases k,
{
    if k > 0 {
        lemma_one_digit_apart(a, b, i, k - 1);
        if k - 1 == i {
            assert(pow32(0) == 1);
            assert((b[i] - a[i]) * pow32(0) == b[i] - a[i]) by (nonlinear_arith)
                requires
                    pow32(0) == 1,
            ;
        } else if k - 1 > i {
            let m = (k - 2 - i) as nat;
            let delta = b[i] - a[i];
            assert(pow32((k - 1 - i) as nat) == 32 * pow32(m));
            assert((delta * pow32(m)) * 32 == delta * (32 * pow32(m))) by (nonlinear_arith);
        }
    }
}

/// A text that differs in one character from the text of an identifier
/// with its checksum does not read as an identifier, unless the change
/// has put the reserved check value into the text. A change in any of the
/// first 25 characters leaves the check value as it was, and is always
/// refused.
pub proof fn lemma_one_wrong_character(e: EUID, t: Seq<char>, i: int)
    requires
        differ_at(spec_encode(e@, checksum(e@)), t, i),
    ensures
        i < 25 ==> spec_decode(t) is Err,
        spec_decode(t) is Ok ==> number(symbol_values(t), 27) % 128 == 127,
{
    if spec_decode(t) is Ok {
        let v = e@;
        let c = checksum(v);
        let s = spec_encode(v, c);
        let n = text_number(v, c);
        lemma_order_by_words(e, e);
        lemma_checksum_is_remainder(v);
        lemma_text_number_bound(v, c);
        lemma_symbol_index_inverts_alphabet();
        lemma_first_invalid(t, 0);
        let a = Seq::new(27, |j: int| digit(n, j) as usize);
        let b = symbol_values(t);
        assert forall|j: int| 0 <= j < 27 implies a[j] == digit(n, j) && a[j] < 32 && s[j]
            == ENCODING_SYMBOLS@[a[j] as int] by {
            lemma_leading_step(n, j);
        }
        assert forall|j: int| 0 <= j < 27 implies b[j] < 32 && t[j] == ENCODING_SYMBOLS@[b[j] as int] by {
            assert(symbol_index(t[j]) is Some);
        }
        assert forall|j: int| 0 <= j < 27 && j != i implies a[j] == b[j] by {
            assert(s[j] == t[j]);
            assert(symbol_index(s[j]) == Some(a[j]));
        }
        assert(a[i] != b[i]);
        lemma_number_of_digits(n, a, 27);
        lemma_leading_all(n);
        lemma_one_digit_apart(a, b, i, 27);
        let m = number(b, 27);
        let delta = b[i] - a[i];
        assert(m - n == delta * pow32((26 - i) as nat));
        lemma_changed_digit(v as int, c as int, m as int, delta, i, a[i] as int);
        lemma_checksum_is_remainder(m / 128);
    }
}

/// The arithmetic of one changed digit: where a text number with a
/// checksum has one digit changed, the number that results carries its own
/// checksum in no case, and the old check value where the digit is one of
/// the first 25.
proof fn lemma_changed_digit(v: int, c: int, m: int, delta: int, i: int, old: int)
    requires
        0 <= v,
        0 <= c <= 126,
        c == v % 127,
        0 <= i < 27,
        old == digit(text_number(v as nat, c as nat), i),
        0 <= old + delta < 32,
        delta != 0,
        m == v * 128 + c + delta * pow32((26 - i) as nat),
        m >= 0,
    ensures
        i < 25 ==> m % 128 == c,
        (m / 128) % 127 != m % 128,
{
    let n = v * 128 + c;
    if i < 25 {
        let k = (24 - i) as nat;
        lemma_pow32_adds(k, 2);
        reveal_with_fuel(pow32, 3);
        assert(pow32(2) == 1024);
        let w = delta * pow32(k);
        assert(delta * pow32((26 - i) as nat) == 1024 * w) by (nonlinear_arith)
            requires
                pow32((26 - i) as nat) == pow32(k) * 1024,
                w == delta * pow32(k),
        ;
        lemma_fundamental_div_mod_converse(m, 128, v + 8 * w, c);
        assert(delta % 127 != 0) by {
            if delta > 0 {
                lemma_fundamental_div_mod_converse(delta, 127, 0, delta);
            } else {
                lemma_fundamental_div_mod_converse(delta, 127, -1, delta + 127);
            }
        }
        lemma_times_pow32_mod_127(delta, k);
        lemma_double_mod_127(w);
        lemma_double_mod_127(2 * w);
        lemma_double_mod_127(4 * w);
        if (v + 8 * w) % 127 == c {
            let q1 = v / 127;
            let q2 = (v + 8 * w) / 127;
            lemma_fundamental_div_mod(v, 127);
            lemma_fundamental_div_mod(v + 8 * w, 127);
            lemma_fundamental_div_mod_converse(8 * w, 127, q2 - q1, 0);
        }
    } else if i == 25 {
        assert(pow32(1) == 32) by {
            reveal_with_fuel(pow32, 2);
        }
        let a = v / 8;
        let b = v % 8;
        let e = c / 32;
        let f = c % 32;
        lemma_fundamental_div_mod_converse(n, 32, 4 * v + e, f);
        lemma_fundamental_div_mod_converse(4 * v + e, 32, a, 4 * b + e);
        assert(old == 4 * b + e);
        let g = old + delta;
        let b2 = g / 4;
        let e2 = g % 4;
        assert(m == 128 * (8 * a + b2) + (32 * e2 + f));
        lemma_fundamental_div_mod_converse(m, 128, 8 * a + b2, 32 * e2 + f);
        if (8 * a + b2) % 127 == 32 * e2 + f {
            let q1 = v / 127;
            let q2 = (8 * a + b2) / 127;
            lemma_fundamental_div_mod(v, 127);
            lemma_fundamental_div_mod(8 * a + b2, 127);
            assert((b2 - b) - 32 * (e2 - e) == 127 * (q2 - q1));
        }
    } else {
        assert(pow32(0) == 1);
        let e = c / 32;
        let f = c % 32;
        lemma_fundamental_div_mod_converse(n, 32, 4 * v + e, f);
        assert(n / 1 == n);
        assert(old == f);
        assert(delta * pow32(0) == delta) by (nonlinear_arith)
            requires
                pow32(0) == 1,
        ;
        lemma_fundamental_div_mod_converse(m, 128, v, 32 * e + f + delta);
    }
}

} // verus!
