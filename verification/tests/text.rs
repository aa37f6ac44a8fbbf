use euid::base32::{decode, decode_symbol, encode, to_u5_slice, to_u64_slice, verify_groups};
use euid::random::random_u128;
use euid::Error;
use euid::EUID;
use std::str::FromStr;

#[test]
fn convert_bits_test() {
    for _ in 0..65536 {
        let (hi, lo) = random_u128();
        let slice: [usize; 27] = to_u5_slice(hi, lo);
        let (hi2, lo2) = to_u64_slice(&slice);
        assert_eq!(hi, hi2);
        assert_eq!(lo, lo2);
    }
}

#[test]
fn encode_test() {
    for i in 0..32767 {
        let euid = EUID::create_with_extension(i).unwrap();
        assert_eq!(euid, EUID::from_str(&euid.encode(true)).unwrap());
    }
}

#[test]
fn decode_test() {
    assert_eq!(
        "C8ZM14GR4JXG0MQXVY18S8TJNBZ",
        decode("C8ZM14GR4JXG0MQXVY18S8TJNBZ").unwrap().encode(false)
    );
    assert_eq!(
        Err(Error::InvalidCheckmod(123, 56)),
        decode("C8X2HA87098A0W837DX13FEAWVV")
    );
    assert_eq!(
        Err(Error::InvalidCharacter('U')),
        decode("C8EE934SR007G5Q94QKKXFRFV8U")
    );
    assert_eq!(
        Err(Error::InvalidCharacter('}')),
        decode("C8EE934SR007G5Q94QKKXFRFV8}")
    );
    assert_eq!(
        Err(Error::InvalidCharacter('@')),
        decode("C8EE934SR007G5Q94QKKXFRFV8@")
    );
    assert_eq!(
        Err(Error::InvalidLength(26, 27)),
        decode("C8EE934SR007G5Q94QKKXFRFV8")
    );
    assert_eq!(
        "C8EE934SR007G5Q94QKKXFRFV8B",
        decode("C8EE934SR007G5Q94QKKXFRFV8B").unwrap().encode(true)
    );
}

#[test]
fn groups_of_known_words() {
    let slice = to_u5_slice(0x0123456789abcdef, 0xfedcba9876543210);
    let expected: [usize; 27] = [
        0, 4, 17, 20, 10, 25, 28, 9, 21, 15, 6, 30, 31, 31, 22, 28, 23, 10, 12, 7, 12, 21, 1, 18,
        2, 0, 0,
    ];
    assert_eq!(expected, slice);
    assert_eq!((0x0123456789abcdef, 0xfedcba9876543210), to_u64_slice(&slice));
}

#[test]
fn joining_groups_drops_the_check_bits() {
    let mut slice = [31usize; 27];
    assert_eq!((u64::MAX, u64::MAX), to_u64_slice(&slice));
    slice[25] = 3;
    slice[26] = 0;
    assert_eq!((u64::MAX, u64::MAX - 7), to_u64_slice(&slice));
}

#[test]
fn encode_known_values() {
    let zero = EUID(0, 0);
    assert_eq!("000000000000000000000000000", encode(&zero, true));
    assert_eq!("00000000000000000000000003Z", encode(&zero, false));
    let ones = EUID(u64::MAX, u64::MAX);
    assert_eq!("ZZZZZZZZZZZZZZZZZZZZZZZZZW3", encode(&ones, true));
    assert_eq!("ZZZZZZZZZZZZZZZZZZZZZZZZZZZ", encode(&ones, false));
    let mixed = EUID(0x0123456789abcdef, 0xfedcba9876543210);
    assert_eq!("04HMASW9NF6YZZPWQAC7CN1J20J", mixed.encode(true));
    assert_eq!("04HMASW9NF6YZZPWQAC7CN1J23Z", mixed.encode(false));
}

#[test]
fn decode_known_values() {
    assert_eq!(Ok(EUID(0, 0)), decode("000000000000000000000000000"));
    assert_eq!(Ok(EUID(0, 0)), decode("00000000000000000000000003Z"));
    assert_eq!(
        Ok(EUID(u64::MAX, u64::MAX)),
        decode("ZZZZZZZZZZZZZZZZZZZZZZZZZW3")
    );
    assert_eq!(
        Ok(EUID(0x0123456789abcdef, 0xfedcba9876543210)),
        decode("04HMASW9NF6YZZPWQAC7CN1J20J")
    );
    assert_eq!(
        Ok(EUID(0x0123456789abcdef, 0xfedcba9876543210)),
        "04HMASW9NF6YZZPWQAC7CN1J23Z".parse::<EUID>()
    );
}

#[test]
fn decode_rejects_wrong_lengths() {
    assert_eq!(Err(Error::InvalidLength(0, 27)), decode(""));
    assert_eq!(
        Err(Error::InvalidLength(26, 27)),
        decode("00000000000000000000000000")
    );
    assert_eq!(
        Err(Error::InvalidLength(28, 27)),
        decode("0000000000000000000000000000")
    );
    // The length is tested before any character.
    assert_eq!(Err(Error::InvalidLength(3, 27)), decode("U@}"));
}

#[test]
fn decode_reports_the_first_bad_character() {
    assert_eq!(
        Err(Error::InvalidCharacter('U')),
        decode("00000000000U000000000000000")
    );
    assert_eq!(
        Err(Error::InvalidCharacter('I')),
        decode("0000I0000L0000O0000U0000000")
    );
    assert_eq!(
        Err(Error::InvalidCharacter('a')),
        decode("00000000000000000000000000a")
    );
    assert_eq!(
        Err(Error::InvalidCharacter('é')),
        decode("00000000000000000000000000é")
    );
    // A bad character is reported even where the check value is wrong too.
    assert_eq!(
        Err(Error::InvalidCharacter('L')),
        decode("L00000000000000000000000001")
    );
}

#[test]
fn decode_reports_both_check_values() {
    assert_eq!(
        Err(Error::InvalidCheckmod(1, 0)),
        decode("000000000000000000000000001")
    );
    assert_eq!(
        Err(Error::InvalidCheckmod(19, 18)),
        decode("04HMASW9NF6YZZPWQAC7CN1J20K")
    );
}

#[test]
fn symbols_follow_the_alphabet() {
    let alphabet = "0123456789ABCDEFGHJKMNPQRSTVWXYZ";
    for (i, c) in alphabet.chars().enumerate() {
        assert_eq!(Some(i), decode_symbol(c));
        assert_eq!(c, euid::base32::ENCODING_SYMBOLS[i]);
    }
    for c in ['I', 'L', 'O', 'U', 'a', 'z', '@', '}', ' ', '/', ':', '[', 'é'] {
        assert_eq!(None, decode_symbol(c));
    }
}

#[test]
fn verify_groups_accepts_checksum_and_reserved_value() {
    let mut slice = to_u5_slice(0x0123456789abcdef, 0xfedcba9876543210);
    // checksum 18: two high bits 0, five low bits 18
    slice[26] = 18;
    assert_eq!(
        Ok(EUID(0x0123456789abcdef, 0xfedcba9876543210)),
        verify_groups(&slice)
    );
    slice[25] += 3;
    slice[26] = 31;
    assert_eq!(
        Ok(EUID(0x0123456789abcdef, 0xfedcba9876543210)),
        verify_groups(&slice)
    );
    slice[26] = 30;
    assert_eq!(Err(Error::InvalidCheckmod(126, 18)), verify_groups(&slice));
}

#[test]
fn text_round_trip() {
    for _ in 0..4096 {
        let (hi, lo) = random_u128();
        let euid = EUID(hi, lo);
        assert_eq!(Ok(euid), decode(&euid.encode(true)));
        assert_eq!(Ok(euid), decode(&euid.encode(false)));
        assert_eq!(27, euid.encode(true).len());
    }
}

#[test]
fn text_sorts_as_identifiers_do() {
    let samples = [
        EUID(0, 0),
        EUID(0, 1),
        EUID(0, 7),
        EUID(0, 8),
        EUID(0, u64::MAX),
        EUID(1, 0),
        EUID(0x0123456789abcdef, 0xfedcba9876543210),
        EUID(0x0123456789abcdef, 0xfedcba9876543211),
        EUID(u64::MAX, 0),
        EUID(u64::MAX, u64::MAX),
    ];
    for a in samples.iter() {
        for b in samples.iter() {
            if a < b {
                for (x, y) in [(true, true), (true, false), (false, true), (false, false)] {
                    assert!(a.encode(x) < b.encode(y));
                }
            }
        }
    }
    for _ in 0..4096 {
        let (a0, a1) = random_u128();
        let (b0, b1) = random_u128();
        let (a, b) = (EUID(a0, a1), EUID(b0, b1));
        assert_eq!(a < b, a.encode(true) < b.encode(true));
    }
}

#[test]
fn single_bit_flips_are_detected() {
    let mut samples = vec![
        EUID(0, 0),
        EUID(u64::MAX, u64::MAX),
        EUID(0x0123456789abcdef, 0xfedcba9876543210),
    ];
    for _ in 0..64 {
        let (hi, lo) = random_u128();
        samples.push(EUID(hi, lo));
    }
    for euid in samples {
        let text = euid.encode(true);
        for at in 0..27 {
            for bit in 0..8 {
                let mut bytes = text.clone().into_bytes();
                bytes[at] ^= 1 << bit;
                let flipped = match String::from_utf8(bytes) {
                    Ok(s) => s,
                    Err(_) => continue,
                };
                match decode(&flipped) {
                    // Nothing is accepted but a text with the reserved value.
                    Ok(read) => assert_eq!(read.encode(false), flipped),
                    Err(Error::InvalidLength(_, _)) => panic!("the length did not change"),
                    Err(_) => {}
                }
            }
        }
        // A flipped bit of the identifier changes the checksum.
        let check = euid::check::m7(&euid);
        for bit in 0..64 {
            assert_ne!(check, euid::check::m7(&EUID(euid.0 ^ (1 << bit), euid.1)));
            assert_ne!(check, euid::check::m7(&EUID(euid.0, euid.1 ^ (1 << bit))));
        }
    }
}

#[test]
fn one_wrong_character_is_detected() {
    let alphabet: Vec<char> = "0123456789ABCDEFGHJKMNPQRSTVWXYZ".chars().collect();
    let mut samples = vec![
        EUID(0, 0),
        EUID(u64::MAX, u64::MAX),
        EUID(0x0123456789abcdef, 0xfedcba9876543210),
    ];
    for _ in 0..16 {
        let (hi, lo) = random_u128();
        samples.push(EUID(hi, lo));
    }
    for euid in samples {
        let text: Vec<char> = euid.encode(true).chars().collect();
        for at in 0..27 {
            for &symbol in alphabet.iter() {
                if symbol == text[at] {
                    continue;
                }
                let mut changed = text.clone();
                changed[at] = symbol;
                let changed: String = changed.into_iter().collect();
                match decode(&changed) {
                    Ok(read) => {
                        assert!(at >= 25);
                        assert_eq!(read.encode(false), changed);
                    }
                    Err(Error::InvalidCheckmod(found, computed)) => {
                        assert_ne!(found, computed);
                        assert_ne!(127, found);
                    }
                    Err(_) => panic!("length and alphabet did not change"),
                }
            }
        }
    }
}
