use euid::random::random_u32;
use euid::time::current_timestamp;
use euid::Error;
use euid::EUID;
use rand::seq::SliceRandom;
use rand::thread_rng;
use std::hash::Hasher;
use std::str::FromStr;

fn get_timestamp_diff(start: u64, timestamp: u64) -> u64 {
    if start < timestamp {
        timestamp - start
    } else {
        start - timestamp
    }
}

fn get_ext_bit_len0(v: u16) -> u64 {
    let mut i: i32 = 14;
    while i > 0 {
        if (v >> i) != 0 {
            return (i as u64) + 1;
        }
        i -= 1;
    }
    1
}

#[test]
fn get_timestamp_diff_test() {
    assert_eq!(1, get_timestamp_diff(1, 2));
    assert_eq!(1, get_timestamp_diff(2, 1));
}

fn normalize_timestamp(now: u64, epoch: u64) -> u64 {
    if epoch < now {
        now - epoch
    } else {
        now
    }
}

fn get_timestamp_from_epoch(epoch: u64) -> u64 {
    let duration: Result<std::time::Duration, std::time::SystemTimeError> =
        std::time::SystemTime::now().duration_since(std::time::UNIX_EPOCH);
    match duration {
        Ok(now) => {
            let millis: u64 = now.as_millis() as u64;
            let final_epoch: u64 = epoch & 0x3ffffffffff;
            normalize_timestamp(millis, final_epoch)
        }
        Err(_) => 0,
    }
}

#[test]
fn create_with_timestamp_and_extension_test() {
    assert_eq!(
        None,
        EUID::create_with_timestamp_and_extension(u64::MAX, 0)
    );
    assert_eq!(
        None,
        EUID::create_with_timestamp_and_extension(
            current_timestamp(),
            (EUID::EXT_DATA_BITMASK + 1) as u16
        )
    );
    for i in 0u32..65535 {
        let epoch: u64 = random_u32() as u64;
        let ts: u64 = get_timestamp_from_epoch(epoch);
        let now: u64 = std::time::SystemTime::now()
            .duration_since(std::time::UNIX_EPOCH)
            .unwrap()
            .as_millis() as u64;
        let extension: u16 = ((i as u64) & EUID::EXT_DATA_BITMASK) as u16;
        let euid = EUID::create_with_timestamp_and_extension(ts, extension).unwrap();
        let timestamp: u64 = euid.timestamp();
        assert!(timestamp <= EUID::TIMESTAMP_BITMASK);
        let t: u64 = now - epoch;
        let diff: u64 = get_timestamp_diff(t, timestamp);
        assert!(diff < 50);
        if extension == 0 {
            // An extension of zero is no extension.
            assert_eq!(None, euid.extension());
            assert_eq!(0, euid.shard_id());
        } else {
            assert_eq!(extension, euid.extension().unwrap());
            assert!(euid.extension().unwrap() as u64 <= EUID::EXT_DATA_BITMASK);
            assert!(EUID::get_ext_bit_len(euid.extension().unwrap()) <= EUID::EXT_LEN_BITMASK);
        }
    }
}

#[test]
fn get_ext_bit_len_test() {
    let max: u16 = 1 << 15;
    // Zero needs no bit at all.
    assert_eq!(EUID::get_ext_bit_len(0), 0);
    for i in 1..max {
        assert_eq!(EUID::get_ext_bit_len(i), get_ext_bit_len0(i));
    }
}

#[test]
fn create_test() {
    let now: u64 = std::time::SystemTime::now()
        .duration_since(std::time::UNIX_EPOCH)
        .unwrap()
        .as_millis() as u64;
    let euid: EUID = EUID::create().unwrap_or_default();
    let timestamp: u64 = euid.timestamp();
    let diff: u64 = get_timestamp_diff(now, timestamp);
    assert!(diff < 50);
    assert_eq!(None, euid.extension());
}

#[test]
fn create_with_extension_test() {
    for i in 0u64..EUID::EXT_DATA_BITMASK {
        let now: u64 = std::time::SystemTime::now()
            .duration_since(std::time::UNIX_EPOCH)
            .unwrap()
            .as_millis() as u64;
        let euid: EUID = EUID::create_with_extension(i as u16).unwrap();
        let timestamp: u64 = euid.timestamp();
        let diff: u64 = get_timestamp_diff(now, timestamp);
        assert!(diff < 50);
        if i == 0 {
            // An extension of zero is no extension.
            assert_eq!(None, euid.extension());
        } else {
            assert_eq!(i, euid.extension().unwrap() as u64);
        }
        assert_eq!(i, euid.shard_id() as u64);
    }
    assert_eq!(
        None,
        EUID::create_with_extension(EUID::EXT_DATA_BITMASK as u16 + 1)
    );
}

#[test]
fn conversion_test() {
    for i in 0..EUID::EXT_DATA_BITMASK {
        let euid: EUID = EUID::create_with_extension(i as u16).unwrap();
        let encoded: String = euid.encode(true);
        assert_eq!(27, encoded.len());
        let decoded: EUID = EUID::from_str(&encoded).unwrap();
        assert_eq!(euid, decoded);
        let e128: u128 = euid.into();
        assert_eq!(EUID::from(e128), euid);
        assert_eq!(std::cmp::Ordering::Equal, EUID::from(e128).cmp(&euid));
        assert_eq!(euid, euid.clone());
        let euid_copy: EUID = euid;
        assert_eq!(euid, euid_copy);
        let euidx: EUID = e128.into();
        assert_eq!(euid, euidx);
        let x: u128 = u128::from(euid);
        assert_eq!(x, e128);
    }
    assert_eq!(None, EUID::create_with_extension(0x7fff + 1));
    assert_eq!(
        Err(Error::InvalidLength(25, 27)),
        EUID::from_str("C8754X9NN8H80X298KRKERG8K")
    );
    assert_eq!(
        Err(Error::InvalidLength(28, 27)),
        EUID::from_str("C8754X9NN8H80X298KRKERG8K888")
    );
    assert_eq!(
        Err(Error::InvalidCharacter('U')),
        EUID::from_str("C8754X9NN8H80X298KRKERG8KU8")
    );
}

#[test]
fn monotonic_test() {
    loop {
        let hi: u64 = EUID::create().unwrap().0;
        let euid: EUID = EUID(hi, u64::MAX);
        let next = euid.next();
        // Where the clock has moved on in between, the identifier no
        // longer belongs to the current millisecond: try again.
        if current_timestamp() == euid.timestamp() {
            assert_eq!(None, next);
            break;
        }
    }

    let mut euids: Vec<EUID> = Vec::<EUID>::new();
    for i in 0usize..0x7fff {
        if i == 0 {
            euids.push(EUID::create_with_extension(i as u16).unwrap());
        } else {
            euids.push(euids[i - 1].next().unwrap())
        }
    }
    assert_eq!(None, EUID::create_with_extension(0x7fff + 1));
    let mut unordered: Vec<EUID> = euids.clone();
    unordered.shuffle(&mut thread_rng());
    let mut ordered: Vec<EUID> = unordered.clone();
    ordered.sort();
    for i in 0..euids.len() {
        assert_eq!(euids[i], ordered[i]);
        assert_eq!(euids[i].encode(true), ordered[i].encode(true));
    }
}

#[test]
fn bytes_test() {
    let euid: EUID = EUID::create().unwrap_or_default();
    let bytes: [u8; 16] = From::from(euid);
    let from_bytes: EUID = From::from(bytes);
    assert_eq!(16, bytes.len());
    assert_eq!(euid, from_bytes);
}

#[test]
fn hash_test() {
    let euid: EUID = EUID::create().unwrap_or_default();
    let mut default_hasher0 = std::collections::hash_map::DefaultHasher::new();
    let mut default_hasher1 = std::collections::hash_map::DefaultHasher::new();
    std::hash::Hash::hash(&euid, &mut default_hasher0);
    std::hash::Hash::hash_slice(&[euid], &mut default_hasher1);
    assert_eq!(default_hasher0.finish(), default_hasher1.finish());
}

#[test]
fn print_test() {
    let euid: EUID = EUID::create().unwrap_or_default();
    println!("{:?}\n{}", euid, euid.encode(true));
}

#[test]
fn pack_lays_the_fields_side_by_side() {
    assert_eq!(Some(EUID(0x7ffe98, 7)), EUID::pack(1, 5, 0x7fff, 7));
    assert_eq!(
        Some(EUID(0xffff_ffff_ffff_fff8, 0)),
        EUID::pack(0x3ff_ffff_ffff, 0x7fff, u64::MAX, 0)
    );
    assert_eq!(
        Some(EUID(0xffff_ffff_ffff_ff80, 0)),
        EUID::pack(0x3ff_ffff_ffff, 0, u64::MAX, 0)
    );
    assert_eq!(Some(EUID(0, u64::MAX)), EUID::pack(0, 0, 0, u64::MAX));
}

#[test]
fn pack_refuses_what_does_not_fit() {
    assert_eq!(None, EUID::pack(0x400_0000_0000, 0, 0, 0));
    assert_eq!(None, EUID::pack(u64::MAX, 0, 0, 0));
    assert_eq!(None, EUID::pack(0, 0x8000, 0, 0));
    assert_eq!(None, EUID::pack(0, u16::MAX, 0, 0));
    assert!(EUID::pack(0x3ff_ffff_ffff, 0x7fff, 0, 0).is_some());
}

#[test]
fn unpack_gives_back_what_was_packed() {
    let timestamps = [0u64, 1, 0x155_5555_5555, 0x3ff_ffff_ffff];
    let tails = [(0u64, 0u64), (u64::MAX, u64::MAX), (0x1234_5678_9abc_def0, 42)];
    for &timestamp in timestamps.iter() {
        for extension in 0..0x8000u32 {
            let extension = extension as u16;
            for &(r0, r1) in tails.iter() {
                let euid = EUID::pack(timestamp, extension, r0, r1).unwrap();
                assert_eq!((timestamp, extension, 1, r1), euid.unpack());
                assert_eq!(timestamp, euid.timestamp());
                assert_eq!(extension, euid.shard_id());
                assert_eq!(1, euid.version());
                if extension == 0 {
                    assert_eq!(None, euid.extension());
                } else {
                    assert_eq!(Some(extension), euid.extension());
                }
                let width = EUID::get_ext_bit_len(extension);
                assert_eq!(width, (euid.0 >> 3) & 0xf);
                let padding = (euid.0 >> (7 + width)) & ((1 << (15 - width)) - 1);
                assert_eq!(r0 & ((1 << (15 - width)) - 1), padding);
            }
        }
    }
}

#[test]
fn extension_boundary() {
    assert_eq!(None, EUID::create_with_extension(32768));
    let euid = EUID::create_with_extension(32767).unwrap();
    assert_eq!(Some(32767), euid.extension());
    assert_eq!(Ok(euid), EUID::from_str(&euid.encode(true)));
    assert_eq!(
        Some(32767),
        EUID::from_str(&euid.encode(true)).unwrap().extension()
    );
}

#[test]
fn extension_width_of_known_values() {
    assert_eq!(0, EUID::get_ext_bit_len(0));
    assert_eq!(1, EUID::get_ext_bit_len(1));
    assert_eq!(2, EUID::get_ext_bit_len(2));
    assert_eq!(2, EUID::get_ext_bit_len(3));
    assert_eq!(3, EUID::get_ext_bit_len(4));
    assert_eq!(8, EUID::get_ext_bit_len(0xff));
    assert_eq!(9, EUID::get_ext_bit_len(0x100));
    assert_eq!(15, EUID::get_ext_bit_len(0x7fff));
    // Only the low 15 bits count.
    assert_eq!(0, EUID::get_ext_bit_len(0x8000));
    assert_eq!(15, EUID::get_ext_bit_len(0xffff));
}

#[test]
fn fields_of_any_identifier() {
    let euid = EUID(u64::MAX, u64::MAX);
    assert_eq!(0x3ff_ffff_ffff, euid.timestamp());
    assert_eq!(Some(0x7fff), euid.extension());
    assert_eq!(8, euid.version());
    let euid = EUID(0b101_1010_0111, 0);
    // length field 4, region 0b1011: the extension is its low four bits
    assert_eq!(0, euid.timestamp());
    assert_eq!(Some(0b1011), euid.extension());
    assert_eq!(8, euid.version());
    let euid = EUID(0b111_0000_0001_0010, 0);
    // length field 2, region 0b1110_0000: the extension is its low two bits
    assert_eq!(Some(0), euid.extension());
    assert_eq!(0, euid.shard_id());
    assert_eq!(3, euid.version());
    assert_eq!(EUID(0, 0), EUID::default());
}

#[test]
fn timestamp_with_epoch_wraps_at_42_bits() {
    let euid = EUID::pack(1000, 0, 0, 0).unwrap();
    assert_eq!(1000, euid.timestamp_with_epoch(0));
    assert_eq!(1500, euid.timestamp_with_epoch(500));
    assert_eq!(999, euid.timestamp_with_epoch(u64::MAX));
    assert_eq!(999, euid.timestamp_with_epoch(0x3ff_ffff_ffff));
    let euid = EUID::pack(0x3ff_ffff_ffff, 0, 0, 0).unwrap();
    assert_eq!(0, euid.timestamp_with_epoch(1));
}

#[test]
fn increment_counts_in_the_upper_half() {
    let euid = EUID(77, 0x0000_0005_dead_beef);
    assert_eq!(Some(EUID(77, 0x0000_0006_0000_0009)), euid.increment(9));
    let euid = EUID(77, 0xffff_fffe_0000_0000);
    assert_eq!(Some(EUID(77, 0xffff_ffff_ffff_ffff)), euid.increment(u32::MAX));
    let euid = EUID(77, 0xffff_ffff_0000_0000);
    assert_eq!(None, euid.increment(0));
    assert_eq!(None, EUID(77, u64::MAX).increment(1));
}

#[test]
fn successors_grow_until_the_counter_is_exhausted() {
    let mut euid = EUID(0x1234_5678_9abc_def0, 0xffff_ff00_ffff_ffff);
    let mut count = 0;
    while let Some(next) = euid.increment(random_u32()) {
        assert!(euid < next);
        assert_eq!(euid.0, next.0);
        assert!(euid.encode(true) < next.encode(true));
        euid = next;
        count += 1;
    }
    assert_eq!(0xff, count);
    assert_eq!(0xffff_ffff, euid.1 >> 32);
}

#[test]
fn next_keeps_order_and_extension() {
    let mut euid = EUID::create_with_extension(1234).unwrap();
    for _ in 0..10_000 {
        let next = euid.next().unwrap();
        assert_eq!(Some(1234), next.extension());
        assert_eq!(1, next.version());
        if next.timestamp() == euid.timestamp() {
            assert_eq!(euid.0, next.0);
            assert_eq!((euid.1 >> 32) + 1, next.1 >> 32);
        }
        // The order follows the clock, which may be set back.
        if next.timestamp() >= euid.timestamp() {
            assert!(euid < next);
            assert!(euid.encode(true) < next.encode(true));
        }
        euid = next;
    }
}

#[test]
fn order_is_that_of_the_words() {
    assert!(EUID(0, 1) < EUID(1, 0));
    assert!(EUID(1, 0) > EUID(0, u64::MAX));
    assert!(EUID(5, 5) < EUID(5, 6));
    assert!(EUID(5, 5) <= EUID(5, 5));
    assert_eq!(EUID(5, 5), EUID(5, 5));
    assert_ne!(EUID(5, 5), EUID(5, 4));
    assert_eq!(
        Some(std::cmp::Ordering::Less),
        EUID(1, 2).partial_cmp(&EUID(1, 3))
    );
    assert_eq!(
        Some(std::cmp::Ordering::Greater),
        EUID(2, 0).partial_cmp(&EUID(1, u64::MAX))
    );
    assert_eq!(
        Some(std::cmp::Ordering::Equal),
        EUID(1, 2).partial_cmp(&EUID(1, 2))
    );
    assert_eq!(std::cmp::Ordering::Less, EUID(1, 2).cmp(&EUID(2, 1)));
}

#[test]
fn integers_and_bytes_of_known_values() {
    let euid = EUID(0x0123_4567_89ab_cdef, 0xfedc_ba98_7654_3210);
    let number: u128 = euid.into();
    assert_eq!(0x0123_4567_89ab_cdef_fedc_ba98_7654_3210, number);
    assert_eq!(euid, EUID::from(number));
    let bytes: [u8; 16] = euid.into();
    assert_eq!(
        [
            0x01, 0x23, 0x45, 0x67, 0x89, 0xab, 0xcd, 0xef, 0xfe, 0xdc, 0xba, 0x98, 0x76, 0x54,
            0x32, 0x10
        ],
        bytes
    );
    assert_eq!(bytes, euid.to_bytes());
    assert_eq!(bytes, number.to_be_bytes());
    assert_eq!(euid, EUID::from(bytes));
    assert_eq!(EUID(0, 0), EUID::from(0u128));
    assert_eq!(EUID(u64::MAX, u64::MAX), EUID::from(u128::MAX));
    assert_eq!(EUID(u64::MAX, u64::MAX), EUID::from([0xffu8; 16]));
}

#[test]
fn next_at_follows_the_clock() {
    let euid = EUID::pack(1000, 5, 0, 0x0000_0001_0000_0000).unwrap();
    // Within the millisecond: the successor, with the low half of the
    // second random word.
    assert_eq!(
        Some(EUID(euid.0, 0x0000_0002_0000_0009)),
        euid.next_at(1000, 77, 0xabcd_0000_0000_0009)
    );
    // At any other time: a new identifier with the same extension.
    assert_eq!(EUID::pack(1001, 5, 77, 88), euid.next_at(1001, 77, 88));
    assert_eq!(EUID::pack(999, 5, 77, 88), euid.next_at(999, 77, 88));
    assert!(euid < euid.next_at(1001, 0, 0).unwrap());
    assert_eq!(Some(5), euid.next_at(1001, 77, 88).unwrap().extension());
    assert_eq!(None, euid.next_at(0x400_0000_0000, 0, 0));
    let last = EUID(euid.0, 0xffff_ffff_0000_0000);
    assert_eq!(None, last.next_at(1000, 0, 0));
    assert_eq!(EUID::pack(1001, 5, 0, 0), last.next_at(1001, 0, 0));
}

#[test]
fn earlier_timestamps_sort_first() {
    let early = EUID::pack(1000, 0x7fff, u64::MAX, u64::MAX).unwrap();
    let late = EUID::pack(1001, 0, 0, 0).unwrap();
    assert!(early < late);
    assert!(early.encode(true) < late.encode(true));
}
