use rustxxx::callsign::{ft8_unpack_c28, ft8_unpack_callsign, ft8_unpack_stdcall};
use rustxxx::message::{CallId, Ft8Msg};
use rustxxx::pack77::_pack77;
use rustxxx::unpack77::{ft8_unpack_buff_to_msg, ft8_unpack_to_string};

#[test]
fn unpack_ft8_test() {
    const M_0: &str = "CQ VK2ZTY QG61";
    let mut c77 = [0u8; 12];
    _pack77(M_0, &mut c77);
    let msg = ft8_unpack_buff_to_msg(&c77).unwrap();
    assert_eq!(msg.call_to.id, "CQ");
    assert!(msg.call_to.special);
    assert_eq!(msg.call_from.id, "VK2ZTY");
    assert!(!msg.call_from.special);
    assert_eq!(msg.extra, "QG61");
    assert_eq!(msg.to_string().unwrap(), M_0);
}

#[test]
fn unpack_special_tokens() {
    assert_eq!(ft8_unpack_c28(0, 0, 1).unwrap().id, "DE");
    assert_eq!(ft8_unpack_c28(1, 0, 1).unwrap().id, "QRZ");
    assert_eq!(ft8_unpack_c28(2, 0, 1).unwrap().id, "CQ");
    assert!(ft8_unpack_c28(2, 0, 1).unwrap().special);
}

#[test]
fn unpack_directed_cq() {
    assert_eq!(ft8_unpack_callsign(3, 0, 1).unwrap().id, "CQ 000");
    assert_eq!(ft8_unpack_callsign(3 + 145, 0, 1).unwrap().id, "CQ 145");
    assert_eq!(ft8_unpack_callsign(1004, 0, 1).unwrap().id, "CQ A");
    assert_eq!(ft8_unpack_callsign(1029, 0, 1).unwrap().id, "CQ Z");
    assert_eq!(ft8_unpack_callsign(1031, 0, 1).unwrap().id, "CQ A");
    assert_eq!(ft8_unpack_callsign(1030 + 27 + 4, 0, 1).unwrap().id, "CQ AD");
    assert_eq!(ft8_unpack_callsign(1759 + 4 * 729 + 24 * 27 + 1, 0, 1).unwrap().id, "CQ DXA");
    assert_eq!(ft8_unpack_callsign(21442 + 20 * 19683 + 5 * 729 + 19 * 27 + 20, 0, 1).unwrap().id, "CQ TEST");
}

#[test]
fn unpack_unassigned_and_hashed_are_none() {
    assert!(ft8_unpack_callsign(1003, 0, 1).is_none());
    assert!(ft8_unpack_callsign(1030, 0, 1).is_none());
    assert!(ft8_unpack_callsign(1740, 0, 1).is_none());
    assert!(ft8_unpack_callsign(2063592, 0, 1).is_none());
    assert!(ft8_unpack_c28(6257895, 0, 1).is_none());
}

#[test]
fn unpack_standard_calls_and_suffixes() {
    assert_eq!(ft8_unpack_stdcall(237001541, 0, 1).unwrap().id, "VK2ZTY");
    assert_eq!(ft8_unpack_stdcall(237001541, 1, 1).unwrap().id, "VK2ZTY/R");
    assert_eq!(ft8_unpack_stdcall(237001541, 1, 2).unwrap().id, "VK2ZTY/P");
    assert_eq!(ft8_unpack_stdcall(237001541, 1, 3).unwrap().id, "VK2ZTY");
    assert_eq!(ft8_unpack_callsign(236997088, 0, 1).unwrap().id, "VK2TR");
    assert!(!ft8_unpack_callsign(236997088, 0, 1).unwrap().special);
}

#[test]
fn message_text() {
    let mut m = Ft8Msg::new();
    assert_eq!(m.to_string(), None);
    m.extra = String::from("RR73");
    assert_eq!(m.to_string().unwrap(), "RR73");
    m.call_to = CallId::with_id(&['K', '1', 'J', 'T'], false);
    assert_eq!(m.to_string().unwrap(), "K1JT RR73");
    let c = CallId::new();
    assert!(c.id.is_empty() && !c.special);
}

#[test]
fn unpack_reports() {
    // type 1, both calls CQ, grid field 32400 + 35 with the R flag (the
    // report after an `R` is not read)
    let mut c77 = [0u8; 12];
    _pack77("CQ CQ R-08", &mut c77);
    assert_eq!(ft8_unpack_to_string(&c77).unwrap(), "CQ CQ R+00");
    _pack77("CQ CQ +00", &mut c77);
    assert_eq!(ft8_unpack_to_string(&c77).unwrap(), "CQ CQ +00");
}

#[test]
fn unpack_telemetry() {
    // type 0.5: n3 = 5 (bits 71..73 = 101), i3 = 0
    let mut a = [0u8; 10];
    a[0] = 0x24; // payload bits shifted left by one
    a[8] = 0x01; // low bit of n3 field's top bit
    a[9] = 0x40; // n3 low bits 01
    let text = ft8_unpack_to_string(&a).unwrap();
    assert_eq!(text, "120000000000000000");
}

#[test]
fn unpack_unsupported_types() {
    let mut a = [0u8; 10];
    a[9] = 3 << 3; // type 3
    assert!(ft8_unpack_buff_to_msg(&a).is_none());
    a[9] = 5 << 3; // type 5
    assert!(ft8_unpack_buff_to_msg(&a).is_none());
    a[9] = 0x80; // type 0, subtype 2
    assert!(ft8_unpack_buff_to_msg(&a).is_none());
}

#[test]
fn unpack_type4() {
    // type 4: nonstandard callsign in n58, icq set
    let mut a = [0u8; 10];
    a[9] = (4 << 3) | 0x40;
    let m = ft8_unpack_buff_to_msg(&a).unwrap();
    assert_eq!(m.call_to.id, "CQ");
    assert_eq!(m.call_from.id, "           ");
    assert_eq!(m.extra, "");
    a[9] = (4 << 3) | 0x80; // nrpt low bit set, no cq
    a[8] = 0x02; // iflip
    let m = ft8_unpack_buff_to_msg(&a).unwrap();
    assert_eq!(m.call_to.id, "           ");
    assert_eq!(m.call_from.id, "<...>");
    assert_eq!(m.extra, "RRR");
}
