//! Extendable universally unique identifiers: 128-bit, time-sortable values
//! with an optional caller-attached extension, a base-32 text form and a
//! 7-bit checksum.

use vstd::prelude::*;

pub mod base32;
pub mod bech;
pub mod check;
pub mod convert;
pub mod order;
pub mod random;
pub mod theory;
pub mod time;

use crate::random::{join_words, random, random_u128, random_u32};
use crate::time::{current_timestamp, low_word, now};

verus! {

/// Why a text could not be read as an identifier.
#[derive(Debug, PartialEq, Eq, Structural)]
pub enum Error {
    /// The text does not have 27 characters: the length found, then the
    /// length expected.
    InvalidLength(usize, usize),
    /// The text holds a character outside the alphabet.
    InvalidCharacter(char),
    /// The check value in the text is not the checksum of the identifier:
    /// the value found, then the value computed.
    InvalidCheckmod(usize, usize),
}

/// A 128-bit identifier held as two 64-bit words, most significant first.
///
/// The high word packs, from its most significant bit down: a 42-bit
/// timestamp in milliseconds, a 15-bit region shared by random padding and
/// the extension, the 4-bit extension length and the 3-bit format version.
/// The low word is random; its upper half counts the identifiers derived
/// within one millisecond.
#[derive(Clone, Copy, Debug, Hash, PartialEq, Eq, Structural, Ord)]
pub struct EUID(pub u64, pub u64);

impl View for EUID {
    type V = nat;

    /// The identifier read as one unsigned 128-bit number.
    open spec fn view(&self) -> nat {
        (self.0 as nat) * 0x1_0000_0000_0000_0000 + (self.1 as nat)
    }
}

/// The least number of bits that can hold `x`: 0 for 0, and one more than
/// the width of half of `x` otherwise.
pub open spec fn bit_width(x: nat) -> nat
    decreases x,
{
    if x == 0 {
        0
    } else {
        1 + bit_width(x / 2)
    }
}

/// The width of a 15-bit value, range by range.
spec fn width_by_range(x: u16) -> u64 {
    if x == 0 {
        0
    } else if x < 0x2 {
        1
    } else if x < 0x4 {
        2
    } else if x < 0x8 {
        3
    } else if x < 0x10 {
        4
    } else if x < 0x20 {
        5
    } else if x < 0x40 {
        6
    } else if x < 0x80 {
        7
    } else if x < 0x100 {
        8
    } else if x < 0x200 {
        9
    } else if x < 0x400 {
        10
    } else if x < 0x800 {
        11
    } else if x < 0x1000 {
        12
    } else if x < 0x2000 {
        13
    } else if x < 0x4000 {
        14
    } else {
        15
    }
}

proof fn lemma_width_by_range(x: u16)
    requires
        x <= 0x7fff,
    ensures
        width_by_range(x) == bit_width(x as nat),
{
    reveal_with_fuel(bit_width, 17);
}

/// The number of leading zero bits of a non-zero 15-bit value, found by
/// halving the range four times.
spec fn leading_zeros_search(x0: u16) -> u64 {
    let n1: u64 = if x0 <= 0x00ff { 8 } else { 0 };
    let x1: u16 = if x0 <= 0x00ff { x0 << 8 } else { x0 };
    let n2: u64 = if x1 <= 0x0fff { 4 } else { 0 };
    let x2: u16 = if x1 <= 0x0fff { x1 << 4 } else { x1 };
    let n3: u64 = if x2 <= 0x3fff { 2 } else { 0 };
    let x3: u16 = if x2 <= 0x3fff { x2 << 2 } else { x2 };
    let n4: u64 = if x3 <= 0x7fff { 1 } else { 0 };
    (n1 + n2 + n3 + n4) as u64
}

proof fn lemma_leading_zeros_search(x0: u16)
    by (bit_vector)
    requires
        0 < x0 <= 0x7fff,
    ensures
        leading_zeros_search(x0) + width_by_range(x0) == 16,
{
}

proof fn lemma_layout(hi: u64)
    by (bit_vector)
    ensures
        hi >> 22 <= 0x3ff_ffff_ffffu64,
        (hi >> 3) & 0xf <= 15,
        (hi >> 7) & 0x7fff <= 0x7fff,
        hi & 0x7 <= 7,
        hi == (hi >> 22) * 0x40_0000 + ((hi >> 7) & 0x7fff) * 0x80 + ((hi >> 3) & 0xf) * 0x8 + (hi
            & 0x7),
{
}

proof fn lemma_low_mask(len: u64, region: u64)
    by (bit_vector)
    requires
        len <= 15,
        region <= 0x7fff,
    ensures
        1u64 << len >= 1,
        ((1u64 << len) - 1) as u64 == !(0xffff_ffff_ffff_ffffu64 << len),
        region & !(0xffff_ffff_ffff_ffffu64 << len) <= 0x7fff,
        len == 0 ==> region & !(0xffff_ffff_ffff_ffffu64 << len) == 0,
{
}

proof fn lemma_pack(timestamp: u64, ext: u64, len: u64, r0: u64, version: u64)
    by (bit_vector)
    requires
        timestamp <= 0x3ff_ffff_ffff,
        ext <= 0x7fff,
        len <= 15,
        ext >> len == 0,
        version <= 7,
    ensures
        1u64 << ((15 - len) as u64) >= 1,
        ((1u64 << ((15 - len) as u64)) - 1) as u64 == !(0xffff_ffff_ffff_ffffu64 << ((15 - len) as u64)),
        ({
            let pad = r0 & !(0xffff_ffff_ffff_ffffu64 << ((15 - len) as u64));
            let hi = (timestamp << 22) | (pad << ((7 + len) as u64)) | (ext << 7) | (len << 3) | version;
            &&& hi >> 22 == timestamp
            &&& (hi >> 3) & 0xf == len
            &&& ((hi >> 7) & 0x7fff) & !(0xffff_ffff_ffff_ffffu64 << len) == ext
            &&& ((hi >> 7) & 0x7fff) >> len == pad
            &&& hi & 0x7 == version
        }),
{
}

proof fn lemma_repack(hi: u64)
    by (bit_vector)
    ensures
        ({
            let len = (hi >> 3) & 0xf;
            let region = (hi >> 7) & 0x7fff;
            let ext = region & !(0xffff_ffff_ffff_ffffu64 << len);
            let pad = (region >> len) & !(0xffff_ffff_ffff_ffffu64 << ((15 - len) as u64));
            &&& len <= 15
            &&& ext <= 0x7fff
            &&& ((hi >> 22) << 22) | (pad << ((7 + len) as u64)) | (ext << 7) | (len << 3) | (hi
                & 0x7) == hi
        }),
{
}

proof fn lemma_counter(lo: u64, fresh: u64)
    by (bit_vector)
    requires
        fresh <= 0xffff_ffff,
    ensures
        lo >> 32 <= 0xffff_ffff,
        lo >> 32 == lo / 0x1_0000_0000,
        lo >> 32 < 0xffff_ffff ==> ((((lo >> 32) + 1) as u64) << 32) | fresh == ((lo >> 32) + 1)
            * 0x1_0000_0000 + fresh,
        lo >> 32 < 0xffff_ffff ==> (((((lo >> 32) + 1) as u64) << 32) | fresh) >> 32 == (lo >> 32)
            + 1,
{
}

proof fn lemma_low_half(x: u64)
    by (bit_vector)
    ensures
        x & 0xffff_ffff == x % 0x1_0000_0000,
        x & 0xffff_ffff <= 0xffff_ffff,
{
}

proof fn lemma_fresh(fresh: u32)
    by (bit_vector)
    ensures
        ((fresh as u64) % 0x1_0000_0000) as u32 == fresh,
{
}

proof fn lemma_timestamp_mask(x: u64)
    by (bit_vector)
    ensures
        x & 0x3ff_ffff_ffff == x % 0x400_0000_0000,
{
}

proof fn lemma_width_bounds(ext: u16)
    by (bit_vector)
    requires
        ext <= 0x7fff,
    ensures
        ext & 0x7fff == ext,
        (ext as u64) >> width_by_range(ext) == 0,
{
}

impl Default for EUID {
    /// The identifier whose every bit is zero.
    fn default() -> (r: EUID)
        ensures
            r == EUID(0, 0),
    {
        EUID(0, 0)
    }
}

impl std::str::FromStr for EUID {
    type Err = Error;

    /// Reads the text form of an identifier.
    fn from_str(encoded: &str) -> (r: Result<EUID, Error>)
        ensures
            r == base32::spec_decode(encoded@),
    {
        base32::decode(encoded)
    }
}

impl EUID {
    /// Largest timestamp an identifier can hold: 42 bits.
    pub const TIMESTAMP_BITMASK: u64 = 0x3ff_ffff_ffff;

    /// Largest extension length: 4 bits.
    pub const EXT_LEN_BITMASK: u64 = 0xf;

    /// Largest extension: 15 bits.
    pub const EXT_DATA_BITMASK: u64 = 0x7fff;

    /// Largest value of the version field: 3 bits.
    pub const VERSION_BITMASK: u64 = 0x7;

    /// The version field of the identifiers made here.
    pub const VERSION: u8 = 0;

    /// The identifier whose 128-bit number is `value`.
    pub open spec fn from_value(value: nat) -> EUID {
        EUID(
            (value / 0x1_0000_0000_0000_0000) as u64,
            (value % 0x1_0000_0000_0000_0000) as u64,
        )
    }

    /// The timestamp field: the upper 42 bits of the high word.
    pub open spec fn spec_timestamp(self) -> u64 {
        self.0 >> 22
    }

    /// The 15 bits that padding and extension share.
    pub open spec fn spec_region(self) -> u64 {
        (self.0 >> 7) & 0x7fff
    }

    /// The extension length field.
    pub open spec fn spec_ext_len(self) -> u64 {
        (self.0 >> 3) & 0xf
    }

    /// The extension data: the low bits of the shared region, as many as
    /// the length field says.
    pub open spec fn spec_ext_data(self) -> u64 {
        self.spec_region() & !(0xffff_ffff_ffff_ffffu64 << self.spec_ext_len())
    }

    /// The random padding: what the shared region holds above the
    /// extension data.
    pub open spec fn spec_padding(self) -> u64 {
        self.spec_region() >> self.spec_ext_len()
    }

    /// The version field: the lowest 3 bits of the high word.
    pub open spec fn spec_version_field(self) -> u64 {
        self.0 & 0x7
    }

    /// The counter of identifiers derived within one millisecond: the upper
    /// half of the low word.
    pub open spec fn spec_counter(self) -> u64 {
        self.1 >> 32
    }

    /// The extension, present where the length field is not zero.
    pub open spec fn spec_extension(self) -> Option<u16> {
        if self.spec_ext_len() == 0 {
            None
        } else {
            Some(self.spec_ext_data() as u16)
        }
    }

    /// The fields laid side by side into an identifier: `timestamp`, then
    /// as many low bits of `r0` as the extension leaves free, the
    /// extension, its width, and the version; `r1` is the low word.
    pub open spec fn spec_pack(timestamp: u64, extension: u16, r0: u64, r1: u64) -> EUID {
        let len = bit_width(extension as nat) as u64;
        let pad = r0 & !(0xffff_ffff_ffff_ffffu64 << ((15 - len) as u64));
        EUID(
            (timestamp << 22) | (pad << ((7 + len) as u64)) | ((extension as u64) << 7) | (len << 3)
                | (Self::VERSION as u64),
            r1,
        )
    }

    /// Tells whether a timestamp and an extension fit their fields.
    pub open spec fn fits(timestamp: u64, extension: u16) -> bool {
        timestamp <= Self::TIMESTAMP_BITMASK && extension <= Self::EXT_DATA_BITMASK
    }

    /// Returns the least number of bits that hold the low 15 bits of `ext`.
    pub fn get_ext_bit_len(ext: u16) -> (r: u64)
        ensures
            r == bit_width((ext & 0x7fff) as nat),
            r <= 15,
    {
        let x0: u16 = ext & 0x7fff;
        proof {
            assert(ext & 0x7fff <= 0x7fff) by (bit_vector);
            lemma_width_by_range(x0);
        }
        if x0 == 0 {
            return 0;
        }
        proof {
            lemma_leading_zeros_search(x0);
        }
        let mut x: u16 = x0;
        let mut n: u64 = 0;
        if x <= 0x00ff {
            n += 8;
            x = x << 8;
        }
        if x <= 0x0fff {
            n += 4;
            x = x << 4;
        }
        if x <= 0x3fff {
            n += 2;
            x = x << 2;
        }
        if x <= 0x7fff {
            n += 1;
        }
        16 - n
    }

    /// Packs a timestamp, an extension and random bits into an identifier.
    /// Fails where the timestamp needs more than 42 bits or the extension
    /// more than 15.
    pub fn pack(timestamp: u64, extension: u16, r0: u64, r1: u64) -> (r: Option<EUID>)
        ensures
            r == if Self::fits(timestamp, extension) {
                Some(Self::spec_pack(timestamp, extension, r0, r1))
            } else {
                None
            },
            r matches Some(e) ==> e.made_from(timestamp, extension) && e.1 == r1,
    {
        if timestamp > Self::TIMESTAMP_BITMASK {
            None
        } else {
            let ext_data: u64 = extension as u64;
            if ext_data > Self::EXT_DATA_BITMASK {
                None
            } else {
                let ext_len: u64 = Self::get_ext_bit_len(extension);
                proof {
                    lemma_width_bounds(extension);
                    lemma_width_by_range(extension);
                    lemma_pack(timestamp, ext_data, ext_len, r0, Self::VERSION as u64);
                    Self::lemma_pack_unpack(timestamp, extension, r0, r1);
                }
                let remain_rand: u64 = r0 & ((1u64 << (15 - ext_len)) - 1);
                let hi: u64 = (timestamp << 22) | (remain_rand << (7 + ext_len)) | (ext_data << 7)
                    | (ext_len << 3) | (Self::VERSION as u64);
                Some(EUID(hi, r1))
            }
        }
    }

    /// Writes the identifier as text, with its checksum or, where
    /// `checkmod` is false, with the reserved check value.
    pub fn encode(&self, checkmod: bool) -> (r: String)
        ensures
            r@ == base32::spec_encode(self@, base32::check_value(self@, checkmod)),
    {
        base32::encode(self, checkmod)
    }

    /// Returns the timestamp in milliseconds.
    pub fn timestamp(&self) -> (t: u64)
        ensures
            t == self.spec_timestamp(),
            t <= Self::TIMESTAMP_BITMASK,
    {
        proof {
            lemma_layout(self.0);
        }
        self.0 >> 22
    }

    /// Returns the extension, or `None` where the identifier carries none.
    pub fn extension(&self) -> (r: Option<u16>)
        ensures
            r == self.spec_extension(),
            r is None ==> self.spec_ext_data() == 0,
            r matches Some(x) ==> x == self.spec_ext_data() && x <= Self::EXT_DATA_BITMASK,
    {
        let ext_len: u64 = (self.0 >> 3) & Self::EXT_LEN_BITMASK;
        proof {
            lemma_layout(self.0);
            lemma_low_mask(ext_len, self.spec_region());
        }
        if ext_len == 0 {
            None
        } else {
            Some(self.shard_id())
        }
    }

    /// Returns the extension data, which is 0 where the identifier carries
    /// no extension.
    pub fn shard_id(&self) -> (r: u16)
        ensures
            r == self.spec_ext_data(),
            r <= Self::EXT_DATA_BITMASK,
            self.spec_ext_len() == 0 ==> r == 0,
    {
        let ext_len: u64 = (self.0 >> 3) & Self::EXT_LEN_BITMASK;
        let region: u64 = (self.0 >> 7) & Self::EXT_DATA_BITMASK;
        proof {
            lemma_layout(self.0);
            lemma_low_mask(ext_len, region);
        }
        let bitmask: u64 = (1u64 << ext_len) - 1;
        (region & bitmask) as u16
    }

    /// Returns the format version: the version field plus one.
    pub fn version(&self) -> (r: u8)
        ensures
            r == self.spec_version_field() + 1,
    {
        proof {
            lemma_layout(self.0);
        }
        ((self.0 & Self::VERSION_BITMASK) + 1) as u8
    }
    /// Returns the fields of the identifier: the timestamp, the extension
    /// data, the format version and the random low word.
    pub fn unpack(&self) -> (r: (u64, u16, u8, u64))
        ensures
            r.0 == self.spec_timestamp(),
            r.1 == self.spec_ext_data(),
            r.2 == self.spec_version_field() + 1,
            r.3 == self.1,
    {
        (self.timestamp(), self.shard_id(), self.version(), self.1)
    }

    /// Returns the timestamp moved forward by `epoch`, reduced to 42 bits.
    pub fn timestamp_with_epoch(&self, epoch: u64) -> (r: u64)
        ensures
            r == (self.spec_timestamp() + epoch) % 0x400_0000_0000,
    {
        let sum: u128 = self.timestamp() as u128 + epoch as u128;
        let low: u64 = low_word(sum);
        proof {
            lemma_timestamp_mask(low);
            vstd::arithmetic::div_mod::lemma_mod_mod(sum as int, 0x400_0000_0000, 0x40_0000);
        }
        low & Self::TIMESTAMP_BITMASK
    }

    /// What holds of every identifier made from `timestamp` and
    /// `extension`, whatever the random bits: its fields hold them, the
    /// width of the extension and the version.
    pub open spec fn made_from(self, timestamp: u64, extension: u16) -> bool {
        &&& self.spec_timestamp() == timestamp
        &&& self.spec_ext_len() == bit_width(extension as nat)
        &&& self.spec_ext_data() == extension
        &&& self.spec_version_field() == Self::VERSION
    }

    /// Makes an identifier with the given timestamp and no extension.
    /// Fails where the timestamp needs more than 42 bits.
    pub fn create_with_timestamp(timestamp: u64) -> (r: Option<EUID>)
        ensures
            r is Some <==> timestamp <= Self::TIMESTAMP_BITMASK,
            r matches Some(e) ==> e.made_from(timestamp, 0) && e.spec_extension() is None,
    {
        Self::create_with_timestamp_and_extension(timestamp, 0)
    }

    /// Makes an identifier with the given timestamp and extension. Fails
    /// where the timestamp needs more than 42 bits or the extension more
    /// than 15.
    pub fn create_with_timestamp_and_extension(timestamp: u64, extension: u16) -> (r: Option<EUID>)
        ensures
            r is Some <==> Self::fits(timestamp, extension),
            r matches Some(e) ==> e.made_from(timestamp, extension),
    {
        let (r0, r1) = random_u128();
        proof {
            if Self::fits(timestamp, extension) {
                Self::lemma_pack_unpack(timestamp, extension, r0, r1);
            }
        }
        Self::pack(timestamp, extension, r0, r1)
    }

    /// Makes an identifier of the current time, without extension. Fails
    /// where the clock no longer fits 42 bits.
    pub fn create() -> (r: Option<EUID>)
        ensures
            r matches Some(e) ==> e.spec_extension() is None && e.spec_version_field()
                == Self::VERSION,
    {
        Self::create_with_timestamp(current_timestamp())
    }

    /// Makes an identifier of the current time that carries `extension`.
    /// Fails where the extension needs more than 15 bits, or the clock no
    /// longer fits 42.
    pub fn create_with_extension(extension: u16) -> (r: Option<EUID>)
        ensures
            extension > Self::EXT_DATA_BITMASK ==> r is None,
            r matches Some(e) ==> e.spec_ext_data() == extension && e.spec_ext_len() == bit_width(
                extension as nat,
            ) && e.spec_version_field() == Self::VERSION,
    {
        if extension as u64 > Self::EXT_DATA_BITMASK {
            None
        } else {
            Self::create_with_timestamp_and_extension(current_timestamp(), extension)
        }
    }

    /// Makes an identifier of the current time, counted from the Unix
    /// epoch, without extension.
    pub fn random() -> (r: Option<EUID>)
        ensures
            r matches Some(e) ==> e.spec_extension() is None && e.spec_version_field()
                == Self::VERSION,
    {
        Self::with_epoch_and_shard_id(0, 0)
    }

    /// Makes an identifier of the current time, counted from the Unix
    /// epoch, that carries `shard_id`.
    pub fn with_shard_id(shard_id: u16) -> (r: Option<EUID>)
        ensures
            shard_id > Self::EXT_DATA_BITMASK ==> r is None,
            r matches Some(e) ==> e.spec_ext_data() == shard_id && e.spec_ext_len() == bit_width(
                shard_id as nat,
            ) && e.spec_version_field() == Self::VERSION,
    {
        Self::with_epoch_and_shard_id(0, shard_id)
    }

    /// Makes an identifier of the current time, counted from `epoch`,
    /// without extension.
    pub fn with_epoch(epoch: u64) -> (r: Option<EUID>)
        ensures
            r matches Some(e) ==> e.spec_extension() is None && e.spec_version_field()
                == Self::VERSION,
    {
        Self::with_epoch_and_shard_id(epoch, 0)
    }

    /// Makes an identifier of the current time, counted from `epoch`, that
    /// carries `shard_id`. Fails where the extension needs more than 15
    /// bits, or the time more than 42.
    pub fn with_epoch_and_shard_id(epoch: u64, shard_id: u16) -> (r: Option<EUID>)
        ensures
            shard_id > Self::EXT_DATA_BITMASK ==> r is None,
            r matches Some(e) ==> e.spec_ext_data() == shard_id && e.spec_ext_len() == bit_width(
                shard_id as nat,
            ) && e.spec_version_field() == Self::VERSION,
    {
        let mut words: [u32; 4] = [0u32; 4];
        random(&mut words);
        let timestamp: u64 = now(epoch);
        let r0: u64 = join_words(words[0], words[1]);
        let r1: u64 = join_words(words[2], words[3]);
        proof {
            if Self::fits(timestamp, shard_id) {
                Self::lemma_pack_unpack(timestamp, shard_id, r0, r1);
            }
        }
        Self::pack(timestamp, shard_id, r0, r1)
    }

    /// The successor of an identifier within its millisecond: the counter
    /// one higher, the low half of the low word replaced by `fresh`. There
    /// is none where the counter has reached its maximum.
    pub open spec fn spec_increment(self, fresh: u32) -> Option<EUID> {
        if self.spec_counter() == 0xffff_ffff {
            None
        } else {
            Some(EUID(self.0, ((self.spec_counter() + 1) * 0x1_0000_0000 + fresh) as u64))
        }
    }

    /// The identifier that follows `self` when the clock reads `timestamp`:
    /// at the timestamp of `self` its successor, with the low half of `r1`
    /// as fresh bits; at any other time a new identifier of that time,
    /// packed with the extension data of `self` and the random words.
    pub open spec fn spec_next_at(self, timestamp: u64, r0: u64, r1: u64) -> Option<EUID> {
        if timestamp == self.spec_timestamp() {
            self.spec_increment((r1 % 0x1_0000_0000) as u32)
        } else if timestamp <= Self::TIMESTAMP_BITMASK {
            Some(Self::spec_pack(timestamp, self.spec_ext_data() as u16, r0, r1))
        } else {
            None
        }
    }

    /// Returns the successor of the identifier within its millisecond, or
    /// none where the counter has reached its maximum.
    pub fn increment(&self, fresh: u32) -> (r: Option<EUID>)
        ensures
            r == self.spec_increment(fresh),
            r is None <==> self.spec_counter() == 0xffff_ffff,
            r matches Some(n) ==> n.0 == self.0 && n.spec_counter() == self.spec_counter() + 1
                && self@ < n@,
    {
        let r_hi: u64 = self.1 >> 32;
        proof {
            lemma_counter(self.1, fresh as u64);
        }
        if r_hi == 0xffff_ffff {
            None
        } else {
            let n: EUID = EUID(self.0, ((r_hi + 1) << 32) | (fresh as u64));
            proof {
                self.lemma_increment_grows(n);
            }
            Some(n)
        }
    }

    /// Returns the identifier that follows `self` when the clock reads
    /// `timestamp` and the random source gives `r0` and `r1`.
    pub fn next_at(&self, timestamp: u64, r0: u64, r1: u64) -> (r: Option<EUID>)
        ensures
            r == self.spec_next_at(timestamp, r0, r1),
            r matches Some(n) ==> (timestamp >= self.spec_timestamp() ==> self@ < n@),
            r matches Some(n) ==> (timestamp == self.spec_timestamp() ==> n.0 == self.0
                && n.spec_counter() == self.spec_counter() + 1),
    {
        if timestamp == self.timestamp() {
            proof {
                lemma_low_half(r1);
            }
            self.increment((r1 & 0xffff_ffff) as u32)
        } else {
            let r = Self::pack(timestamp, self.shard_id(), r0, r1);
            proof {
                if let Some(n) = r {
                    if timestamp > self.spec_timestamp() {
                        self.lemma_order_follows_timestamp(n);
                    }
                }
            }
            r
        }
    }

    /// Derives the next identifier. Within the millisecond of `self` it is
    /// the successor of `self`, which is greater, or none where the counter
    /// is exhausted; at any other time it is a new identifier of that time
    /// with the extension data of `self`.
    pub fn next(&self) -> (r: Option<EUID>)
        ensures
            r matches Some(n) ==> {
                ||| n.0 == self.0 && n.spec_counter() == self.spec_counter() + 1 && self@ < n@
                ||| n.spec_timestamp() != self.spec_timestamp() && n.made_from(
                    n.spec_timestamp(),
                    self.spec_ext_data() as u16,
                )
            },
    {
        let timestamp: u64 = current_timestamp();
        if timestamp == self.timestamp() {
            let fresh: u32 = random_u32();
            proof {
                lemma_fresh(fresh);
            }
            self.next_at(timestamp, 0, fresh as u64)
        } else {
            let (r0, r1) = random_u128();
            let extension: u16 = self.shard_id();
            proof {
                if Self::fits(timestamp, extension) {
                    Self::lemma_pack_unpack(timestamp, extension, r0, r1);
                }
            }
            self.next_at(timestamp, r0, r1)
        }
    }

    /// Unpacking what was packed gives back the timestamp and the
    /// extension, with the width of the extension, the version, the random
    /// bits that the extension left room for, and the random low word. An
    /// extension of 0 reads back as no extension.
    pub proof fn lemma_pack_unpack(timestamp: u64, extension: u16, r0: u64, r1: u64)
        requires
            Self::fits(timestamp, extension),
        ensures
            ({
                let e = Self::spec_pack(timestamp, extension, r0, r1);
                let len = bit_width(extension as nat);
                &&& e.made_from(timestamp, extension)
                &&& len <= 15
                &&& e.spec_padding() == r0 & !(0xffff_ffff_ffff_ffffu64 << ((15 - len) as u64))
                &&& e.1 == r1
                &&& e.spec_extension() == if extension == 0 {
                    None
                } else {
                    Some(extension)
                }
            }),
    {
        lemma_width_bounds(extension);
        lemma_width_by_range(extension);
        lemma_pack(
            timestamp,
            extension as u64,
            bit_width(extension as nat) as u64,
            r0,
            Self::VERSION as u64,
        );
    }

    /// Packing what was unpacked gives back the identifier, where its
    /// version is the one made here and its length field holds the width of
    /// its extension data, as in every identifier that was packed.
    pub proof fn lemma_unpack_pack(self)
        requires
            self.spec_version_field() == Self::VERSION,
            self.spec_ext_len() == bit_width(self.spec_ext_data() as nat),
        ensures
            self.spec_ext_data() <= Self::EXT_DATA_BITMASK,
            Self::spec_pack(
                self.spec_timestamp(),
                self.spec_ext_data() as u16,
                self.spec_padding(),
                self.1,
            ) == self,
    {
        lemma_repack(self.0);
        lemma_layout(self.0);
    }

    /// The fields fill the high word: each stays within its width, and side
    /// by side, timestamp first, they make up the word.
    pub proof fn lemma_fields_fill_the_word(self)
        ensures
            self.spec_timestamp() <= Self::TIMESTAMP_BITMASK,
            self.spec_region() <= Self::EXT_DATA_BITMASK,
            self.spec_ext_data() <= Self::EXT_DATA_BITMASK,
            self.spec_ext_len() <= Self::EXT_LEN_BITMASK,
            self.spec_version_field() <= Self::VERSION_BITMASK,
            self.0 == self.spec_timestamp() * 0x40_0000 + self.spec_region() * 0x80
                + self.spec_ext_len() * 0x8 + self.spec_version_field(),
    {
        lemma_layout(self.0);
        lemma_low_mask(self.spec_ext_len(), self.spec_region());
    }

    /// Identifiers sort by their timestamps first: the one with the earlier
    /// timestamp is the smaller, whatever else the two hold.
    pub proof fn lemma_order_follows_timestamp(self, other: EUID)
        requires
            self.spec_timestamp() < other.spec_timestamp(),
        ensures
            self@ < other@,
    {
        self.lemma_fields_fill_the_word();
        other.lemma_fields_fill_the_word();
    }

    /// An identifier is smaller than any identifier with the same high
    /// word and a counter one higher.
    pub proof fn lemma_increment_grows(self, n: EUID)
        requires
            n.0 == self.0,
            n.spec_counter() == self.spec_counter() + 1,
        ensures
            self@ < n@,
    {
        lemma_counter(self.1, 0);
        lemma_counter(n.1, 0);
    }
}

} // verus!
