use rustxxx::pack77::ft8_pack_callsign;
use rustxxx::payload::{free_charset, ft8_pack_0_0, ft8_pack_0_5, ft8_unpack_0_0, ft8_unpack_0_5, left_pad,
    telem_charset};

#[test]
fn test_left_pad() {
    assert_eq!(left_pad(&"fred", &free_charset()), "         fred");
    assert_eq!(left_pad(&"fred         ", &free_charset()), "         fred");
    assert_eq!(left_pad(&"fred         and more", &free_charset()), "         fred");
    assert_eq!(left_pad(&"   fred             and much more", &free_charset()), "         fred");
}

#[test]
fn test_pack_0_0() {
    assert_eq!(ft8_pack_0_0(&"0").unwrap(), 1);
    assert_eq!(ft8_pack_0_0(&"1").unwrap(), 2);
    assert_eq!(ft8_pack_0_0(&"00").unwrap(), 1 + free_charset().modulus() as u128);
    assert_eq!(ft8_pack_0_0(&"01").unwrap(), 0b00101100);
    assert_eq!(
        ft8_pack_0_0(&"TNX BOB 73 GL").unwrap(),
        0b01100011111011011100111011100010101001001010111000000111111101010000000
    );
}

#[test]
fn test_unpack_0_0() {
    assert_eq!(ft8_unpack_0_0(0).unwrap(), "");
    assert_eq!(ft8_unpack_0_0(1).unwrap(), "0");
    assert_eq!(
        ft8_unpack_0_0(0b01100011111011011100111011100010101001001010111000000111111101010000000).unwrap(),
        "TNX BOB 73 GL");
}

fn test_round_0_0(s: &str) {
    assert_eq!(ft8_unpack_0_0(ft8_pack_0_0(s).unwrap()).unwrap(), left_pad(s, &free_charset()).trim());
}

#[test]
fn payload_test_0_0() {
    test_round_0_0(&"");
    test_round_0_0(&"TNX BOB 73 GL");
    test_round_0_0(&"1");
    test_round_0_0(&"FRED 1 2 3");
}

#[test]
fn test_pack_0_5() {
    assert_eq!(ft8_pack_0_5(&"").unwrap(), 0);
    assert_eq!(ft8_pack_0_5(&"0").unwrap(), 0);
    assert_eq!(ft8_pack_0_5(&"1").unwrap(), 1);
    assert_eq!(ft8_pack_0_5(&"12").unwrap(), 0x12);
    assert_eq!(ft8_pack_0_5(&"123456781234567800").unwrap(), 0x123456781234567800);
}

#[test]
fn test_unpack_0_5() {
    assert_eq!(ft8_unpack_0_5(0x123456781234567800).unwrap(), "123456781234567800");
}

fn test_round_0_5(s: &str) {
    assert_eq!(ft8_unpack_0_5(ft8_pack_0_5(s).unwrap()).unwrap(), left_pad(s, &telem_charset()));
}

#[test]
fn payload_test_0_5() {
    test_round_0_5(&"0");
}

#[test]
fn test_pack_callsign() {
    assert_eq!(ft8_pack_callsign(&"K1JT").unwrap(), 6040944);
    assert_eq!(ft8_pack_callsign(&"VK2ZTY").unwrap(), 237001541);
    assert_eq!(ft8_pack_callsign(&"VK2EA").unwrap(), 12339350);
}

#[test]
fn pack_0_0_rejects_characters_outside_the_alphabet() {
    assert_eq!(ft8_pack_0_0(&"a"), None);
    assert_eq!(ft8_pack_0_5(&"G"), None);
}

#[test]
fn left_pad_is_exact_and_idempotent() {
    let cs = free_charset();
    for s in ["fred", "", "   fred             and much more", "ABCDEFGHIJKLMNOP", "  A B  "] {
        let r = left_pad(s, &cs);
        assert_eq!(r.len(), 13);
        assert_eq!(left_pad(&r, &cs), r);
    }
    let ts = telem_charset();
    let r = left_pad("12AB", &ts);
    assert_eq!(r, "0000000000000012AB");
    assert_eq!(left_pad(&r, &ts), r);
}
