//! Identifiers as 128-bit integers and as arrays of 16 bytes, most
//! significant byte first.

use vstd::prelude::*;
use vstd::std_specs::convert::FromSpecImpl;
use crate::EUID;

verus! {

/// The byte of `word` at position `i` of 8, position 0 being the most
/// significant.
pub open spec fn word_byte(word: u64, i: int) -> u8 {
    ((word >> ((8 * (7 - i)) as u64)) & 0xff) as u8
}

/// The byte of an identifier at position `i` of 16, position 0 being the
/// most significant.
pub open spec fn be_byte(e: EUID, i: int) -> u8 {
    if i < 8 {
        word_byte(e.0, i)
    } else {
        word_byte(e.1, i - 8)
    }
}

/// The word that the eight bytes of `b` from `at` spell, most significant
/// byte first.
pub open spec fn be_word(b: Seq<u8>, at: int) -> u64 {
    (((((((b[at] as u64 * 256 + b[at + 1] as u64) * 256 + b[at + 2] as u64) * 256 + b[at
        + 3] as u64) * 256 + b[at + 4] as u64) * 256 + b[at + 5] as u64) * 256 + b[at + 6] as u64)
        * 256 + b[at + 7] as u64) as u64
}

/// The identifier that 16 bytes spell.
pub open spec fn spec_from_bytes(b: Seq<u8>) -> EUID {
    EUID(be_word(b, 0), be_word(b, 8))
}

/// Tells whether `a` holds the 16 bytes of `e`.
pub open spec fn holds_bytes(a: [u8; 16], e: EUID) -> bool {
    forall|i: int| 0 <= i < 16 ==> a[i] == be_byte(e, i)
}

proof fn lemma_join_bytes(
    b0: u64,
    b1: u64,
    b2: u64,
    b3: u64,
    b4: u64,
    b5: u64,
    b6: u64,
    b7: u64,
)
    by (bit_vector)
    requires
        b0 < 256,
        b1 < 256,
        b2 < 256,
        b3 < 256,
        b4 < 256,
        b5 < 256,
        b6 < 256,
        b7 < 256,
    ensures
        (b0 << 56) | (b1 << 48) | (b2 << 40) | (b3 << 32) | (b4 << 24) | (b5 << 16) | (b6 << 8) |
            b7 == (((((((b0 * 256 + b1) * 256 + b2) * 256 + b3) * 256 + b4) * 256 + b5) * 256 +
            b6) * 256 + b7),
{
}

proof fn lemma_split_word(word: u64)
    by (bit_vector)
    ensures
        (word >> 56) & 0xff < 256,
        (word >> 48) & 0xff < 256,
        (word >> 40) & 0xff < 256,
        (word >> 32) & 0xff < 256,
        (word >> 24) & 0xff < 256,
        (word >> 16) & 0xff < 256,
        (word >> 8) & 0xff < 256,
        (word >> 0) & 0xff < 256,
        (((word >> 56) & 0xff) << 56) | (((word >> 48) & 0xff) << 48) |
            (((word >> 40) & 0xff) << 40) | (((word >> 32) & 0xff) << 32) |
            (((word >> 24) & 0xff) << 24) | (((word >> 16) & 0xff) << 16) |
            (((word >> 8) & 0xff) << 8) | (word & 0xff) == word,
        word >> 0 == word,
{
}

proof fn lemma_wide(hi: u64, lo: u64, value: u128)
    by (bit_vector)
    ensures
        ((hi as u128) << 64) | (lo as u128) == hi as u128 * 0x1_0000_0000_0000_0000 + lo as u128,
        value >> 64 == value / 0x1_0000_0000_0000_0000,
        value & 0xffff_ffff_ffff_ffff == value % 0x1_0000_0000_0000_0000,
{
}

/// Joins eight bytes of `b`, from `at`, into a word.
fn join_word(b: &[u8; 16], at: usize) -> (r: u64)
    requires
        at + 8 <= 16,
    ensures
        r == be_word(b@, at as int),
{
    let b0: u64 = b[at + 0] as u64;
    let b1: u64 = b[at + 1] as u64;
    let b2: u64 = b[at + 2] as u64;
    let b3: u64 = b[at + 3] as u64;
    let b4: u64 = b[at + 4] as u64;
    let b5: u64 = b[at + 5] as u64;
    let b6: u64 = b[at + 6] as u64;
    let b7: u64 = b[at + 7] as u64;
    proof {
        lemma_join_bytes(b0, b1, b2, b3, b4, b5, b6, b7);
    }
    (b0 << 56) | (b1 << 48) | (b2 << 40) | (b3 << 32) | (b4 << 24) | (b5 << 16) | (b6 << 8) | b7
}

impl From<EUID> for u128 {
    fn from(val: EUID) -> (r: u128) {
        proof {
            lemma_wide(val.0, val.1, 0);
        }
        ((val.0 as u128) << 64) | (val.1 as u128)
    }
}

impl FromSpecImpl<EUID> for u128 {
    open spec fn obeys_from_spec() -> bool {
        true
    }

    /// The number of the identifier.
    open spec fn from_spec(val: EUID) -> u128 {
        val@ as u128
    }
}

impl From<u128> for EUID {
    fn from(value: u128) -> (r: EUID) {
        proof {
            lemma_wide(0, 0, value);
        }
        let hi: u64 = (value >> 64) as u64;
        let lo: u64 = (value & 0xffff_ffff_ffff_ffff) as u64;
        EUID(hi, lo)
    }
}

impl FromSpecImpl<u128> for EUID {
    open spec fn obeys_from_spec() -> bool {
        true
    }

    /// The identifier whose number is `value`.
    open spec fn from_spec(value: u128) -> EUID {
        EUID::from_value(value as nat)
    }
}

impl From<[u8; 16]> for EUID {
    fn from(value: [u8; 16]) -> (r: EUID) {
        EUID(join_word(&value, 0), join_word(&value, 8))
    }
}

impl FromSpecImpl<[u8; 16]> for EUID {
    open spec fn obeys_from_spec() -> bool {
        true
    }

    /// The identifier that the bytes spell, most significant byte first.
    open spec fn from_spec(value: [u8; 16]) -> EUID {
        spec_from_bytes(value@)
    }
}

impl From<EUID> for [u8; 16] {
    fn from(value: EUID) -> (r: [u8; 16]) {
        let r = value.to_bytes();
        proof {
            let chosen = choose|a: [u8; 16]| holds_bytes(a, value);
            assert(holds_bytes(r, value));
            assert(holds_bytes(chosen, value));
            assert forall|i: int| 0 <= i < 16 implies r@[i] == chosen@[i] by {
                assert(r[i] == be_byte(value, i));
                assert(chosen[i] == be_byte(value, i));
            }
            assert(r@ =~= chosen@);
        }
        r
    }
}

impl FromSpecImpl<EUID> for [u8; 16] {
    open spec fn obeys_from_spec() -> bool {
        true
    }

    /// The array that holds the 16 bytes of the identifier.
    open spec fn from_spec(value: EUID) -> [u8; 16] {
        choose|a: [u8; 16]| holds_bytes(a, value)
    }
}

impl EUID {
    /// Returns the 16 bytes of the identifier, most significant first.
    pub fn to_bytes(&self) -> (r: [u8; 16])
        ensures
            holds_bytes(r, *self),
            spec_from_bytes(r@) == *self,
    {
        let hi: u64 = self.0;
        let lo: u64 = self.1;
        proof {
            lemma_split_word(hi);
            lemma_split_word(lo);
        }
        let mut v: [u8; 16] = [0u8; 16];
        v[0] = ((hi >> 56) & 0xff) as u8;
        v[1] = ((hi >> 48) & 0xff) as u8;
        v[2] = ((hi >> 40) & 0xff) as u8;
        v[3] = ((hi >> 32) & 0xff) as u8;
        v[4] = ((hi >> 24) & 0xff) as u8;
        v[5] = ((hi >> 16) & 0xff) as u8;
        v[6] = ((hi >> 8) & 0xff) as u8;
        v[7] = ((hi >> 0) & 0xff) as u8;
        v[8] = ((lo >> 56) & 0xff) as u8;
        v[9] = ((lo >> 48) & 0xff) as u8;
        v[10] = ((lo >> 40) & 0xff) as u8;
        v[11] = ((lo >> 32) & 0xff) as u8;
        v[12] = ((lo >> 24) & 0xff) as u8;
        v[13] = ((lo >> 16) & 0xff) as u8;
        v[14] = ((lo >> 8) & 0xff) as u8;
        v[15] = ((lo >> 0) & 0xff) as u8;
        proof {
            lemma_bytes_round_trip(*self, v);
        }
        v
    }
}

/// Writing an identifier as bytes and reading the bytes gives it back.
pub proof fn lemma_bytes_round_trip(e: EUID, a: [u8; 16])
    requires
        holds_bytes(a, e),
    ensures
        spec_from_bytes(a@) == e,
{
    assert(a[0] == be_byte(e, 0));
    assert(a[1] == be_byte(e, 1));
    assert(a[2] == be_byte(e, 2));
    assert(a[3] == be_byte(e, 3));
    assert(a[4] == be_byte(e, 4));
    assert(a[5] == be_byte(e, 5));
    assert(a[6] == be_byte(e, 6));
    assert(a[7] == be_byte(e, 7));
    assert(a[8] == be_byte(e, 8));
    assert(a[9] == be_byte(e, 9));
    assert(a[10] == be_byte(e, 10));
    assert(a[11] == be_byte(e, 11));
    assert(a[12] == be_byte(e, 12));
    assert(a[13] == be_byte(e, 13));
    assert(a[14] == be_byte(e, 14));
    assert(a[15] == be_byte(e, 15));
    lemma_split_word(e.0);
    lemma_split_word(e.1);
    lemma_join_bytes(a[0] as u64, a[1] as u64, a[2] as u64, a[3] as u64, a[4] as u64, a[5] as u64,
        a[6] as u64, a[7] as u64);
    lemma_join_bytes(a[8] as u64, a[9] as u64, a[10] as u64, a[11] as u64, a[12] as u64,
        a[13] as u64, a[14] as u64, a[15] as u64);
}

} // verus!
