//! A second text form of an identifier, for interchange: its 16 bytes in
//! Bech32m, behind a prefix of the caller's choice.

use vstd::prelude::*;
use bech32::CheckBase32;
use crate::convert::{be_word, holds_bytes, spec_from_bytes};
use crate::EUID;

verus! {

/// Why a prefixed text could not be read as an identifier.
#[derive(Copy, Clone, PartialEq, Eq, PartialOrd, Ord, Hash, Debug)]
pub enum PersingError {
    /// The text does not hold the separator character.
    MissingSeparator,
    /// The checksum does not match the rest of the text.
    InvalidChecksum,
    /// The prefix or the data is too long or too short.
    InvalidLength,
    /// Some part of the text holds an invalid character.
    InvalidChar(char),
    /// Some part of the data has an invalid value.
    InvalidData(u8),
    /// The bits left over when the data is regrouped are not zero.
    InvalidPadding,
    /// The text mixes upper and lower case.
    MixedCase,
}

/// What `bech32::convert_bits` makes of a sequence of values of `from` bits
/// each: the same bits regrouped into values of `to` bits, or the reason
/// why it refuses them.
pub uninterp spec fn bits_regrouped(data: Seq<u8>, from: u32, to: u32, pad: bool) -> Result<
    Seq<u8>,
    PersingError,
>;

/// The text that `bech32::encode` writes, in the Bech32m variant, for a
/// prefix that it accepts and a sequence of 5-bit values.
pub uninterp spec fn bech32m_text(prefix: Seq<char>, groups: Seq<u8>) -> Seq<char>;

/// What `bech32::decode` finds in a text: the 5-bit values of its data
/// part, without the checksum, or the reason why it refuses the text.
pub uninterp spec fn bech32_payload(s: Seq<char>) -> Result<Seq<u8>, PersingError>;

/// `bech32::convert_bits` regroups the bits of `data`, read as values of
/// `from` bits, into values of `to` bits. Claimed here, beside the name of
/// its result: each value that it gives fits `to` bits where `to` is 5, and
/// it refuses nothing where whole bytes are regrouped with padding. It
/// panics on widths outside 1 to 8, which the precondition leaves out.
#[verifier::external_body]
fn regroup(data: &[u8], from: u32, to: u32, pad: bool) -> (r: Result<Vec<u8>, PersingError>)
    requires
        1 <= from <= 8,
        1 <= to <= 8,
    ensures
        match r {
            Ok(v) => bits_regrouped(data@, from, to, pad) == Ok::<Seq<u8>, PersingError>(v@),
            Err(e) => bits_regrouped(data@, from, to, pad) == Err::<Seq<u8>, PersingError>(e),
        },
        to == 5 ==> (r matches Ok(v) ==> forall|i: int| 0 <= i < v@.len() ==> v@[i] < 32),
        from == 8 && pad ==> r is Ok,
{
    match bech32::convert_bits(data, from, to, pad) {
        Ok(v) => Ok(v),
        Err(bech32::Error::MissingSeparator) => Err(PersingError::MissingSeparator),
        Err(bech32::Error::InvalidChecksum) => Err(PersingError::InvalidChecksum),
        Err(bech32::Error::InvalidLength) => Err(PersingError::InvalidLength),
        Err(bech32::Error::InvalidChar(c)) => Err(PersingError::InvalidChar(c)),
        Err(bech32::Error::InvalidData(d)) => Err(PersingError::InvalidData(d)),
        Err(bech32::Error::InvalidPadding) => Err(PersingError::InvalidPadding),
        Err(bech32::Error::MixedCase) => Err(PersingError::MixedCase),
    }
}

/// Tells whether a prefix is one that Bech32 accepts: 1 to 83 printable
/// ASCII characters, its letters all of one case.
pub open spec fn valid_prefix(prefix: Seq<char>) -> bool {
    &&& 1 <= prefix.len() <= 83
    &&& forall|i: int| 0 <= i < prefix.len() ==> 33 <= #[trigger] prefix[i] as int <= 126
    &&& !((exists|i: int| 0 <= i < prefix.len() && 'a' <= #[trigger] prefix[i] <= 'z') && (
    exists|j: int| 0 <= j < prefix.len() && 'A' <= #[trigger] prefix[j] <= 'Z'))
}

/// `bech32::encode` writes a prefix and 5-bit values as Bech32m text. It
/// refuses a prefix that is empty, longer than 83 bytes, holds a byte
/// outside 33 to 126 or mixes cases, and nothing else; the values are
/// handed to it through `check_base32`, which refuses any above 31.
#[verifier::external_body]
fn bech32m_encode(prefix: &str, groups: &Vec<u8>) -> (r: Result<String, ()>)
    ensures
        r is Ok <==> valid_prefix(prefix@) && forall|i: int|
            0 <= i < groups@.len() ==> groups@[i] < 32,
        r matches Ok(s) ==> s@ == bech32m_text(prefix@, groups@),
{
    match groups.check_base32() {
        Ok(data) => match bech32::encode(prefix, data, bech32::Variant::Bech32m) {
            Ok(s) => Ok(s),
            Err(_) => Err(()),
        },
        Err(_) => Err(()),
    }
}

/// `bech32::decode` splits a text at its last separator, checks prefix,
/// characters and checksum, and gives the 5-bit values of the data part.
/// Claimed here: only that its result is a function of the text.
#[verifier::external_body]
fn bech32_decode(s: &str) -> (r: Result<Vec<u8>, PersingError>)
    ensures
        match r {
            Ok(v) => bech32_payload(s@) == Ok::<Seq<u8>, PersingError>(v@),
            Err(e) => bech32_payload(s@) == Err::<Seq<u8>, PersingError>(e),
        },
{
    match bech32::decode(s) {
        Ok((_, data, _)) => Ok(data.into_iter().map(u8::from).collect()),
        Err(bech32::Error::MissingSeparator) => Err(PersingError::MissingSeparator),
        Err(bech32::Error::InvalidChecksum) => Err(PersingError::InvalidChecksum),
        Err(bech32::Error::InvalidLength) => Err(PersingError::InvalidLength),
        Err(bech32::Error::InvalidChar(c)) => Err(PersingError::InvalidChar(c)),
        Err(bech32::Error::InvalidData(d)) => Err(PersingError::InvalidData(d)),
        Err(bech32::Error::InvalidPadding) => Err(PersingError::InvalidPadding),
        Err(bech32::Error::MixedCase) => Err(PersingError::MixedCase),
    }
}

/// The sequence of the 16 bytes of an identifier.
pub open spec fn spec_bytes(e: EUID) -> Seq<u8> {
    Seq::new(16, |i: int| crate::convert::be_byte(e, i))
}

/// The prefixed text of an identifier: its bytes regrouped into 5-bit
/// values and written behind the prefix; none where the prefix is not
/// valid.
pub open spec fn spec_to_string(e: EUID, prefix: Seq<char>) -> Result<Seq<char>, ()> {
    match bits_regrouped(spec_bytes(e), 8, 5, true) {
        Ok(groups) => if valid_prefix(prefix) {
            Ok(bech32m_text(prefix, groups))
        } else {
            Err(())
        },
        Err(_) => Err(()),
    }
}

/// The identifier that a payload of bytes holds: the one that its first 16
/// bytes spell; none where it has fewer.
pub open spec fn spec_from_payload(bytes: Seq<u8>) -> Result<EUID, PersingError> {
    if bytes.len() < 16 {
        Err(PersingError::InvalidLength)
    } else {
        Ok(spec_from_bytes(bytes))
    }
}

/// What reading a prefixed text gives: the identifier in its payload, or
/// the first reason why there is none, from the text, from the padding of
/// its data, or from the length of the payload.
pub open spec fn spec_from_bech32(s: Seq<char>) -> Result<EUID, PersingError> {
    match bech32_payload(s) {
        Ok(groups) => match bits_regrouped(groups, 5, 8, false) {
            Ok(bytes) => spec_from_payload(bytes),
            Err(e) => Err(e),
        },
        Err(e) => Err(e),
    }
}

/// Reads the identifier that the first 16 bytes of a payload spell.
pub fn from_payload(bytes: &[u8]) -> (r: Result<EUID, PersingError>)
    ensures
        r == spec_from_payload(bytes@),
{
    if bytes.len() < 16 {
        Err(PersingError::InvalidLength)
    } else {
        let mut a: [u8; 16] = [0u8; 16];
        let mut i: usize = 0;
        while i < 16
            invariant
                i <= 16,
                bytes@.len() >= 16,
                forall|j: int| 0 <= j < i ==> a[j] == bytes@[j],
            decreases 16 - i,
        {
            a[i] = bytes[i];
            i += 1;
        }
        let e: EUID = EUID::from(a);
        assert(be_word(a@, 0) == be_word(bytes@, 0));
        assert(be_word(a@, 8) == be_word(bytes@, 8));
        Ok(e)
    }
}

impl EUID {
    /// Writes the identifier as Bech32m text behind `prefix`. Fails where
    /// the prefix is not valid.
    pub fn to_string(&self, prefix: &str) -> (r: Result<String, ()>)
        ensures
            r is Ok <==> valid_prefix(prefix@),
            match r {
                Ok(s) => spec_to_string(*self, prefix@) == Ok::<Seq<char>, ()>(s@),
                Err(_) => spec_to_string(*self, prefix@) is Err,
            },
    {
        let bytes: [u8; 16] = self.to_bytes();
        assert(bytes@ =~= spec_bytes(*self));
        match regroup(bytes.as_slice(), 8, 5, true) {
            Ok(groups) => bech32m_encode(prefix, &groups),
            Err(_) => Err(()),
        }
    }

    /// Reads Bech32m text, whatever its prefix, as an identifier.
    pub fn from_bech32(s: &str) -> (r: Result<EUID, PersingError>)
        ensures
            r == spec_from_bech32(s@),
    {
        match bech32_decode(s) {
            Ok(groups) => match regroup(groups.as_slice(), 5, 8, false) {
                Ok(bytes) => from_payload(bytes.as_slice()),
                Err(e) => Err(e),
            },
            Err(e) => Err(e),
        }
    }
}

} // verus!
