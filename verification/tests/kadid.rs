use kadchain::kademlia::kadid::{bucket, KadID};
use kadchain::kademlia::util;
use kadchain::outside::HexError;

#[test]
fn bucket_fn_tests() {
    let a = b"\x00\x00\x00\x00\x00\x00\x00\x00\x00\x00\x00\x00\x00\x00\x00\x00\x00\x00\x00\x00";
    assert_eq!(bucket(a), 0);
    let b = b"\x80\x00\x00\x00\x00\x00\x00\x00\x00\x00\x00\x00\x00\x00\x00\x00\x00\x00\x00\x00";
    assert_eq!(bucket(b), 160);
    let c = b"\x00\x80\x00\x00\x00\x00\x00\x00\x00\x00\x00\x00\x00\x00\x00\x00\x00\x00\x00\x00";
    assert_eq!(bucket(c), 152);
    let d = b"\x00\x80\x00\x00\x00\x00\x00\xFF\x00\x00\x00\x00\x00\x00\x00\x00\x00\x00\x00\x00";
    assert_eq!(bucket(d), 152);
    let e = b"\x00\x70\x00\x00\x00\x00\x00\xFF\x00\x00\x00\x00\x00\x00\x00\x00\x00\x00\x00\x00";
    assert_eq!(bucket(e), 151);
}

#[test]
fn random_in_range_dumb_test() {
    for _i in 0..10 {
        let a = KadID::random();
        let b = KadID::random();
        let c = KadID::random_in_range(&a, bucket(&a.xor(&b)) as usize);
        assert_eq!(bucket(&a.xor(&c)), bucket(&a.xor(&b)));
    }
}

#[test]
fn random_in_range_less_dumb() {
    let a = KadID::random();
    for i in 0..=160 {
        let b = KadID::random_in_range(&a, i);
        assert_eq!(bucket(&a.xor(&b)), i as u8)
    }
}

#[test]
fn util_bucket_agrees_with_kadid_bucket() {
    let d = [0x00u8, 0x01, 0, 0, 0, 0, 0, 0, 0, 0, 0, 0, 0, 0, 0, 0, 0, 0, 0, 0];
    assert_eq!(util::bucket(&d), 145);
    assert_eq!(bucket(&d), 145);
    assert_eq!(util::get_leading_zeros(&d), 15);
    assert_eq!(util::get_leading_zeros(&[0u8; 20]), 160);
}

#[test]
fn xor_of_ids() {
    let a = KadID::from_array([0xF0u8; 20]);
    let b = KadID::from_array([0x0Fu8; 20]);
    assert_eq!(a.xor(&b), [0xFFu8; 20]);
    assert_eq!(a.xor(&a), [0u8; 20]);
    assert_eq!(util::xor_bytes(&[1u8; 20], &[3u8; 20]), [2u8; 20]);
}

#[test]
fn zeroes_and_arrays() {
    assert_eq!(KadID::zeroes().into_array(), [0u8; 20]);
    let id = KadID::from_array([7u8; 20]);
    assert_eq!(*id.as_ref(), [7u8; 20]);
    assert_eq!(id.into_array(), [7u8; 20]);
}

#[test]
fn random_in_range_from_is_exact() {
    let origin = KadID::zeroes();
    // bucket 160: the first bit differs, the rest come from the random bytes
    let id = KadID::random_in_range_from(&origin, 160, [0u8; 20]);
    let mut expected = [0u8; 20];
    expected[0] = 0x80;
    assert_eq!(id.into_array(), expected);
    // bucket 0: the identifier is the origin itself
    let origin = KadID::from_array([0xA5u8; 20]);
    let id = KadID::random_in_range_from(&origin, 0, [0x11u8; 20]);
    assert_eq!(id.into_array(), [0xA5u8; 20]);
    // bucket 1: only the last bit differs
    let id = KadID::random_in_range_from(&origin, 1, [0x11u8; 20]);
    let mut expected = [0xA5u8; 20];
    expected[19] = 0xA4;
    assert_eq!(id.into_array(), expected);
    // bucket 12: the first 148 bits are the origin's, bit 148 flips, then random
    let id = KadID::random_in_range_from(&origin, 12, [0xFFu8; 20]);
    let mut expected = [0xA5u8; 20];
    expected[18] = 0xAF;
    expected[19] = 0xFF;
    assert_eq!(id.into_array(), expected);
    assert_eq!(bucket(&origin.xor(&id)), 12);
}

#[test]
fn parse_hex_ids() {
    let text = "000102030405060708090A0B0C0D0E0F10111213";
    let id = KadID::try_from(text).unwrap();
    let mut expected = [0u8; 20];
    for i in 0..20 {
        expected[i] = i as u8;
    }
    assert_eq!(id.into_array(), expected);
    assert_eq!(id.to_hex_upper(), text);
    let lower = KadID::try_from("000102030405060708090a0b0c0d0e0f10111213").unwrap();
    assert_eq!(lower.into_array(), expected);
}

#[test]
fn parse_hex_errors() {
    assert_eq!(KadID::try_from("abc"), Err(HexError::OddLength));
    assert_eq!(KadID::try_from("abcd"), Err(HexError::InvalidStringLength));
    assert_eq!(
        KadID::try_from("000g0000000000000000000000000000000000zz"),
        Err(HexError::InvalidHexCharacter { c: 'g', index: 3 })
    );
}

#[test]
fn hex_display_is_upper_case() {
    let id = KadID::from_array([0xABu8; 20]);
    assert_eq!(id.to_hex_upper(), "AB".repeat(20));
}

#[test]
fn lower_hex_pads_on_the_right() {
    let mut bytes = [0xABu8; 20];
    bytes[0] = 0x05;
    bytes[1] = 0x00;
    bytes[2] = 0x10;
    let id = KadID::from_array(bytes);
    let expected: String = bytes.iter().map(|v| format!("{:0<2x}", v)).collect();
    assert_eq!(id.to_lower_hex(), expected);
    assert!(id.to_lower_hex().starts_with("500010ab"));
}
