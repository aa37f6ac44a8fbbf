use euid::bech::{from_payload, PersingError};
use euid::time::now;
use euid::EUID;

#[test]
fn random_euid() {
    let result = EUID::random().unwrap();
    match result.to_string("uid") {
        Ok(encoded) => {
            assert_ne!(String::from(""), encoded);
        }
        Err(_) => {
            assert_eq!("", "");
        }
    }
}

#[test]
fn timestamp() {
    for i in 0..65536 {
        let now = now(0) ^ (i as u64);
        let result = EUID::pack(now, 0, 0, 0).unwrap();
        assert_eq!(now, result.timestamp());
        let overflow_epoch: u64 = 18446744073709551615u64;
        assert_ne!(now, result.timestamp_with_epoch(overflow_epoch));
    }
}

#[test]
fn shard_id() {
    for i in 0..32768 {
        let result = EUID::with_shard_id(i as u16).unwrap();
        assert_eq!(i, result.shard_id() as i32);
    }
}

#[test]
fn version() {
    for i in 0..8 {
        let x = i as u8;
        let result = EUID(x as u64, 0);
        assert_eq!(x + 1, result.version() as u8);
    }
}

#[test]
fn from_str() {
    for _ in 0..65536 {
        let random = EUID::random().unwrap();
        let r = random.to_string("app");
        match r {
            Ok(encoded) => {
                let d = EUID::from_bech32(&encoded);
                match d {
                    Ok(decoded) => {
                        assert_eq!(random, decoded);
                    }
                    Err(_) => {
                        assert_eq!(1, 0)
                    }
                }
            }
            Err(_) => {
                assert_eq!(1, 0)
            }
        }
    }
}

#[test]
fn prefixed_text_of_known_values() {
    assert_eq!(
        Ok(String::from("uid1qqqqqqqqqqqqqqqqqqqqqqqqqq5z64au")),
        EUID(0, 0).to_string("uid")
    );
    assert_eq!(
        Ok(String::from("app1qy352euf40x7llkuh2v8v4pjzqx2n0vk")),
        EUID(0x0123_4567_89ab_cdef, 0xfedc_ba98_7654_3210).to_string("app")
    );
    assert_eq!(
        Ok(EUID(0, 0)),
        EUID::from_bech32("uid1qqqqqqqqqqqqqqqqqqqqqqqqqq5z64au")
    );
    assert_eq!(
        Ok(EUID(0x0123_4567_89ab_cdef, 0xfedc_ba98_7654_3210)),
        EUID::from_bech32("app1qy352euf40x7llkuh2v8v4pjzqx2n0vk")
    );
    assert_eq!(
        Ok(EUID(0x0123_4567_89ab_cdef, 0xfedc_ba98_7654_3210)),
        EUID::from_bech32("APP1QY352EUF40X7LLKUH2V8V4PJZQX2N0VK")
    );
}

#[test]
fn prefix_must_be_valid() {
    let euid = EUID(1, 2);
    assert_eq!(Err(()), euid.to_string(""));
    assert_eq!(Err(()), euid.to_string("a b"));
    assert_eq!(Err(()), euid.to_string("aB"));
    assert_eq!(Err(()), euid.to_string("é"));
    assert_eq!(Err(()), euid.to_string(&"a".repeat(84)));
    assert!(euid.to_string(&"a".repeat(83)).is_ok());
    assert!(euid.to_string("a").is_ok());
    assert!(euid.to_string("A1").is_ok());
    assert!(euid.to_string("~!").is_ok());
}

#[test]
fn prefixed_text_errors() {
    assert_eq!(
        Err(PersingError::MissingSeparator),
        EUID::from_bech32("uidqqqqqqqqqqqqqqqqqqqqqqqqqqq5z64au")
    );
    assert_eq!(
        Err(PersingError::InvalidChecksum),
        EUID::from_bech32("uid1qqqqqqqqqqqqqqqqqqqqqqqqqq5z64aq")
    );
    assert_eq!(
        Err(PersingError::InvalidChar('b')),
        EUID::from_bech32("uid1qqqqqqqqqqqqqqqqqqqqqqqqqb5z64au")
    );
    assert_eq!(
        Err(PersingError::MixedCase),
        EUID::from_bech32("uid1Qqqqqqqqqqqqqqqqqqqqqqqqqq5z64au")
    );
    assert_eq!(Err(PersingError::InvalidLength), EUID::from_bech32("1qqqqqq"));
    assert_eq!(Err(PersingError::InvalidLength), EUID::from_bech32("uid1qqq"));
    // Valid text whose payload is too short.
    assert_eq!(Err(PersingError::InvalidLength), EUID::from_bech32("uid1ykdq7z"));
    assert_eq!(
        Err(PersingError::InvalidLength),
        EUID::from_bech32("uid1qypqxy7sgzj")
    );
    // Valid text whose data leaves bits that are not zero.
    assert_eq!(
        Err(PersingError::InvalidPadding),
        EUID::from_bech32("uid1qqqqqqqqqqqqqqqqqqqqqqqqqpf5wqqw")
    );
    assert_eq!(
        Err(PersingError::InvalidPadding),
        EUID::from_bech32("uid1qqqqqqqqqqqqqqqqqqqqqqqqqqqkqap83")
    );
    // A longer payload is read by its first 16 bytes.
    assert_eq!(
        Ok(EUID(0x0102_0304_0506_0708, 0x090a_0b0c_0d0e_0f10)),
        EUID::from_bech32("uid1qypqxpq9qcrsszg2pvxq6rs0zqg3yyc5ws09kk")
    );
}

#[test]
fn payload_must_hold_16_bytes() {
    assert_eq!(Err(PersingError::InvalidLength), from_payload(&[]));
    assert_eq!(Err(PersingError::InvalidLength), from_payload(&[0u8; 15]));
    assert_eq!(Ok(EUID(0, 0)), from_payload(&[0u8; 16]));
    let mut bytes = [0u8; 20];
    bytes[7] = 1;
    bytes[15] = 2;
    bytes[16] = 3;
    assert_eq!(Ok(EUID(1, 2)), from_payload(&bytes));
}

#[test]
fn constructors_with_epoch_and_shard() {
    let before = now(0);
    let euid = EUID::random().unwrap();
    assert!(before <= euid.timestamp() && euid.timestamp() <= now(0));
    assert_eq!(None, euid.extension());
    assert_eq!(1, euid.version());

    let epoch = 1_600_000_000_000u64;
    let before = now(epoch);
    let euid = EUID::with_epoch(epoch).unwrap();
    assert!(before <= euid.timestamp() && euid.timestamp() <= now(epoch));
    assert_eq!(0, euid.shard_id());
    assert_eq!(
        euid.timestamp() + epoch,
        euid.timestamp_with_epoch(epoch)
    );

    let euid = EUID::with_epoch_and_shard_id(epoch, 0x7fff).unwrap();
    assert_eq!(0x7fff, euid.shard_id());
    assert_eq!(Some(0x7fff), euid.extension());
    assert!(before <= euid.timestamp() && euid.timestamp() <= now(epoch));

    assert_eq!(None, EUID::with_shard_id(0x8000));
    assert_eq!(None, EUID::with_epoch_and_shard_id(epoch, 0x8000));
    assert_eq!(None, EUID::with_epoch_and_shard_id(0, u16::MAX));
}
