//! Secure random bits from the operating system.

use vstd::prelude::*;

verus! {

/// `getrandom::getrandom` fills a buffer with random bytes from the
/// system's source, or reports that it could not. Claimed here: where it
/// succeeds, the buffer handed back has the length asked for. Nothing is
/// claimed of the bytes.
#[verifier::external_body]
fn random_bytes(n: usize) -> (r: Option<Vec<u8>>)
    ensures
        r matches Some(v) ==> v@.len() == n,
{
    let mut buffer: Vec<u8> = vec![0u8; n];
    match getrandom::getrandom(&mut buffer) {
        Ok(_) => Some(buffer),
        Err(_) => None,
    }
}

/// Puts two bytes side by side, the first above the second.
fn join_bytes(a: u8, b: u8) -> (r: u16)
    ensures
        r == a * 0x100 + b,
{
    let high: u16 = a as u16;
    let low: u16 = b as u16;
    assert((high << 8) | low == high * 0x100 + low) by (bit_vector)
        requires
            high < 0x100,
            low < 0x100,
    ;
    (high << 8) | low
}

/// Reads four bytes of `v`, from `at`, as a big-endian number.
fn be_u32(v: &Vec<u8>, at: usize) -> (r: u32)
    requires
        at + 4 <= v@.len() <= usize::MAX,
    ensures
        r == be_value(v@, at as int),
{
    let high: u32 = join_bytes(v[at], v[at + 1]) as u32;
    let low: u32 = join_bytes(v[at + 2], v[at + 3]) as u32;
    assert((high << 16) | low == high * 0x1_0000 + low) by (bit_vector)
        requires
            high < 0x1_0000,
            low < 0x1_0000,
    ;
    (high << 16) | low
}

/// Puts two 32-bit words side by side, the first above the second.
pub fn join_words(a: u32, b: u32) -> (r: u64)
    ensures
        r == a * 0x1_0000_0000 + b,
{
    let high: u64 = a as u64;
    let low: u64 = b as u64;
    assert((high << 32) | low == high * 0x1_0000_0000 + low) by (bit_vector)
        requires
            high < 0x1_0000_0000,
            low < 0x1_0000_0000,
    ;
    (high << 32) | low
}

/// The number that four bytes of `v`, from `at`, spell, most significant
/// byte first.
pub open spec fn be_value(v: Seq<u8>, at: int) -> int {
    v[at] * 0x100_0000 + v[at + 1] * 0x1_0000 + v[at + 2] * 0x100 + v[at + 3]
}

/// What the random source's answer to a request for 4 bytes is read as:
/// the number that the bytes spell, or 0 where the source failed or gave
/// another number of bytes.
pub open spec fn spec_word_of(bytes: Option<Seq<u8>>) -> u32 {
    match bytes {
        Some(v) => if v.len() == 4 {
            be_value(v, 0) as u32
        } else {
            0
        },
        None => 0,
    }
}

/// What the random source's answer to a request for 16 bytes is read as:
/// the two words that the bytes spell, or two zeros where the source failed
/// or gave another number of bytes.
pub open spec fn spec_words_of(bytes: Option<Seq<u8>>) -> (u64, u64) {
    match bytes {
        Some(v) => if v.len() == 16 {
            (
                (be_value(v, 0) * 0x1_0000_0000 + be_value(v, 4)) as u64,
                (be_value(v, 8) * 0x1_0000_0000 + be_value(v, 12)) as u64,
            )
        } else {
            (0, 0)
        },
        None => (0, 0),
    }
}

/// The sequence held by an answer of the random source, where there is one.
pub open spec fn answer_view(bytes: Option<Vec<u8>>) -> Option<Seq<u8>> {
    match bytes {
        Some(v) => Some(v@),
        None => None,
    }
}

/// Reads the random source's answer to a request for 4 bytes as a word;
/// a failure gives 0.
pub fn word_of(bytes: Option<Vec<u8>>) -> (r: u32)
    ensures
        r == spec_word_of(answer_view(bytes)),
{
    match bytes {
        Some(v) => {
            if v.len() == 4 {
                be_u32(&v, 0)
            } else {
                0
            }
        },
        None => 0,
    }
}

/// Reads the random source's answer to a request for 16 bytes as two
/// words; a failure gives two zeros.
pub fn words_of(bytes: Option<Vec<u8>>) -> (r: (u64, u64))
    ensures
        r == spec_words_of(answer_view(bytes)),
{
    match bytes {
        Some(v) => {
            if v.len() == 16 {
                (
                    join_words(be_u32(&v, 0), be_u32(&v, 4)),
                    join_words(be_u32(&v, 8), be_u32(&v, 12)),
                )
            } else {
                (0, 0)
            }
        },
        None => (0, 0),
    }
}

/// Puts four words into `r`, in their order.
pub fn store_words(r: &mut [u32; 4], a: u32, b: u32, c: u32, d: u32)
    ensures
        final(r)@ == seq![a, b, c, d],
{
    r[0] = a;
    r[1] = b;
    r[2] = c;
    r[3] = d;
    assert(r@ =~= seq![a, b, c, d]);
}

/// Returns 32 random bits, or 0 where the system's source fails.
pub fn random_u32() -> u32 {
    word_of(random_bytes(4))
}

/// Returns 128 random bits as two words, or two zeros where the system's
/// source fails.
pub fn random_u128() -> (u64, u64) {
    words_of(random_bytes(16))
}

/// Replaces each of four words by 32 random bits.
pub fn random(r: &mut [u32; 4]) {
    let a: u32 = random_u32();
    let b: u32 = random_u32();
    let c: u32 = random_u32();
    let d: u32 = random_u32();
    store_words(r, a, b, c, d);
}

} // verus!
