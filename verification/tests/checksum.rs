use euid::check::{add_u128, is_gt_p, m7, shift_right7, sub_u128};
use euid::random::{random_u128, random_u32};
use euid::EUID;

fn random_u64() -> u64 {
    random_u128().1
}

fn to_u128(hi: u64, lo: u64) -> u128 {
    ((hi as u128) << 64) | (lo as u128)
}

#[test]
fn add_u128_test() {
    for _ in 0..65535 {
        let hi_a: u64 = random_u32() as u64;
        let lo_a: u64 = random_u64();
        let hi_b: u64 = random_u64();
        let lo_b: u64 = random_u64();

        let a: u128 = to_u128(hi_a, lo_a);
        let b: u128 = to_u128(hi_b, lo_b);
        let ab = a.wrapping_add(b);
        let (hi, lo) = add_u128((hi_a, lo_a), (hi_b, lo_b));
        let c = to_u128(hi, lo);
        assert_eq!(ab, c);
    }
}

#[test]
fn sub_u128_test() {
    for _ in 0..65535 {
        let hi_a: u64 = random_u64();
        let lo_a: u64 = random_u64();
        let hi_b: u64 = random_u32() as u64;
        let lo_b: u64 = random_u64();

        let a: u128 = to_u128(hi_a, lo_a);
        let b: u128 = to_u128(hi_b, lo_b);
        let ab = a.wrapping_sub(b);
        let (hi, lo) = sub_u128((hi_a, lo_a), (hi_b, lo_b));
        let c = to_u128(hi, lo);
        assert_eq!(ab, c);
    }
}

#[test]
fn shift_right_test() {
    for _ in 0..65535 {
        let hi: u64 = random_u64();
        let lo: u64 = random_u64();
        let n: u128 = to_u128(hi, lo);
        let (l, r) = shift_right7((hi, lo));
        assert_eq!(n >> 7, to_u128(l, r));
    }
}

#[test]
fn check_divmod_test() {
    for _ in 0..65535 {
        let hi: u64 = random_u64() as u64;
        let lo: u64 = random_u64() as u64;
        let n = (to_u128(hi, lo) % 127) as usize;
        let code = m7(&EUID(hi, lo));
        assert_eq!(n, code);
    }
}

#[test]
fn word_pair_arithmetic_on_known_values() {
    assert_eq!((0, 0), add_u128((0, 0), (0, 0)));
    assert_eq!((1, 0), add_u128((0, u64::MAX), (0, 1)));
    assert_eq!((0, 0), add_u128((u64::MAX, u64::MAX), (0, 1)));
    assert_eq!(
        (u64::MAX, u64::MAX - 1),
        add_u128((u64::MAX, u64::MAX), (u64::MAX, u64::MAX))
    );
    assert_eq!((5, 7), add_u128((2, 3), (3, 4)));
    assert_eq!((0, u64::MAX), sub_u128((1, 0), (0, 1)));
    assert_eq!((u64::MAX, u64::MAX), sub_u128((0, 0), (0, 1)));
    assert_eq!((1, 1), sub_u128((3, 4), (2, 3)));
    assert_eq!((0, 1 << 57), shift_right7((1, 0)));
    assert_eq!((1, (0x7f << 57) | 1), shift_right7((0xff, 0xff)));
    assert!(is_gt_p((1, 0), u64::MAX));
    assert!(is_gt_p((0, 128), 127));
    assert!(!is_gt_p((0, 127), 127));
    assert!(!is_gt_p((0, 0), 0));
}

#[test]
fn checksum_of_known_values() {
    assert_eq!(0, m7(&EUID(0, 0)));
    assert_eq!(1, m7(&EUID(0, 1)));
    assert_eq!(126, m7(&EUID(0, 126)));
    // 127 folds to 127, which stands for 0.
    assert_eq!(0, m7(&EUID(0, 127)));
    assert_eq!(1, m7(&EUID(0, 128)));
    assert_eq!(0, m7(&EUID(0, 254)));
    // 2^64 = 2^(7 * 9 + 1) is 2 modulo 127.
    assert_eq!(2, m7(&EUID(1, 0)));
    // 2^128 - 1 = 127 * ... + 3
    assert_eq!(3, m7(&EUID(u64::MAX, u64::MAX)));
    assert_eq!(18, m7(&EUID(0x0123456789abcdef, 0xfedcba9876543210)));
}

#[test]
fn checksum_stays_below_the_reserved_value() {
    for _ in 0..65535 {
        let (hi, lo) = random_u128();
        assert!(m7(&EUID(hi, lo)) <= 126);
    }
    for lo in 0..100_000u64 {
        assert!(m7(&EUID(0, lo)) <= 126);
        assert_eq!((lo % 127) as usize, m7(&EUID(0, lo)));
    }
}
