use rustxxx::pack77::_pack77;
use rustxxx::unpack77::ft8_unpack_to_string;

fn test_roundtrip(msg: &str) {
    let mut c77 = [0u8; 12];
    let _i32_pack = _pack77(msg, &mut c77);
    let msg1 = ft8_unpack_to_string(&c77).unwrap_or_default();
    assert_eq!(msg, msg1);
}

#[test]
fn test_min1() {
    test_roundtrip("VK2TRF VK2ZTY QG61");
    test_roundtrip("CQ VK2ZTY QG61");
}

#[test]
fn test_min2() {
    test_roundtrip("CQ K1ABC QG61");
}

#[test]
fn oldpack_test_0_0() {
    test_roundtrip("TNX BOB 73 GL"); // 0.0
}

#[test]
fn pack77_standard_fields() {
    let mut c77 = [0u8; 12];
    assert_eq!(_pack77("VK2TRF VK2ZTY QG61", &mut c77), 0);
    // type 1 in bits 74..76
    assert_eq!((c77[9] >> 3) & 0x07, 1);
    let text = ft8_unpack_to_string(&c77).unwrap();
    assert_eq!(text, "VK2TRF VK2ZTY QG61");
}

#[test]
fn pack77_acknowledgements_roundtrip() {
    test_roundtrip("CQ VK2ZTY RRR");
    test_roundtrip("VK2TRF VK2ZTY RR73");
    test_roundtrip("VK2TRF VK2ZTY 73");
    test_roundtrip("DE VK2ZTY QG61");
    test_roundtrip("QRZ VK2TRF AA00");
    test_roundtrip("VK2TRF VK2ZTY RR99");
}

#[test]
fn pack77_free_text_keeps_trailing_bytes() {
    let mut c77 = [0xAAu8; 12];
    assert_eq!(_pack77("HELLO WORLD", &mut c77), 0);
    assert_eq!(c77[9], 0);
    assert_eq!(c77[10], 0xAA);
    assert_eq!(c77[11], 0xAA);
    assert_eq!(ft8_unpack_to_string(&c77).unwrap(), "HELLO WORLD");
}
