use rustxxx::pack77::{ft8_pack_grid4, ft8_pack_std_call, ft8_pack_string, _pack28, _packgrid};
use rustxxx::unpack77::ft8_unpack_to_string;

fn test_roundtrip(msg: &str) {
    let cw = ft8_pack_string(&msg).expect("Could not ft8_pack");
    let msg1 = ft8_unpack_to_string(&cw).expect("Could not ft8_unpack");
    assert_eq!(msg, msg1);
}

#[test]
fn pack_ft8_test() {
    test_roundtrip("CQ VK2ZTY QG61");
}

#[test]
fn pack_std_call_values() {
    assert_eq!(ft8_pack_std_call("DE"), Some(0));
    assert_eq!(ft8_pack_std_call("QRZ"), Some(1));
    assert_eq!(ft8_pack_std_call("CQ"), Some(2));
    assert_eq!(ft8_pack_std_call("VK2ZTY"), Some(237001541));
    assert_eq!(ft8_pack_std_call("K1ABC"), None);
    assert_eq!(ft8_pack_std_call("VK2ZTYX"), None);
    // a short call is padded on the right with spaces to six places
    assert_eq!(ft8_pack_std_call("AB1"), Some(6257896 + ((11 * 36 + 11) * 10 + 1) * 27 * 27 * 27));
    assert_eq!(ft8_pack_std_call("VK2EA"), Some(_pack28("VK2EA") as u32));
    test_roundtrip("VK2EA VK2ZTY QG61");
    test_roundtrip("CQ VK2EA RR73");
}

#[test]
fn pack28_values() {
    assert_eq!(_pack28("DE"), 0);
    assert_eq!(_pack28("QRZ"), 1);
    assert_eq!(_pack28("CQ"), 2);
    assert_eq!(_pack28("VK2ZTY"), 237001541);
    // padded on the right to six places
    assert_eq!(_pack28("VK2TR"), 236997088);
    assert_eq!(_pack28("K1ABC"), -1);
}

#[test]
fn packgrid_values() {
    assert_eq!(_packgrid("AA00"), 0);
    assert_eq!(_packgrid("QG61"), (16 * 18 + 6) * 100 + 61);
    assert_eq!(_packgrid("RR99"), 32399);
    assert_eq!(_packgrid("RRR"), 32402);
    assert_eq!(_packgrid("RR73"), 32403);
    assert_eq!(_packgrid("73"), 32404);
    assert_eq!(_packgrid("+05"), 32400 + 40);
    assert_eq!(_packgrid("-08"), 32400 + 27);
    // after an `R` only the `R` itself is read as the report: 0
    assert_eq!(_packgrid("R-08"), (32400 + 35) | 0x8000);
    assert_eq!(_packgrid("R+12"), (32400 + 35) | 0x8000);
    assert_eq!(_packgrid(" "), 32400 + 35);
    assert_eq!(ft8_pack_grid4("QG61"), Some((16 * 18 + 6) * 100 + 61));
}

#[test]
fn pack_string_falls_back_to_free_text() {
    let cw = ft8_pack_string("TNX BOB 73 GL").unwrap();
    assert_eq!(cw.len(), 12);
    assert_eq!(ft8_unpack_to_string(&cw).unwrap(), "TNX BOB 73 GL");
    let cw = ft8_pack_string("VK2TRF VK2ZTY QG61").unwrap();
    assert_eq!(cw.len(), 10);
    assert_eq!(ft8_unpack_to_string(&cw).unwrap(), "VK2TRF VK2ZTY QG61");
}

#[test]
fn reports_roundtrip() {
    test_roundtrip("VK2TRF VK2ZTY -08");
    test_roundtrip("VK2TRF VK2ZTY +12");
    let cw = ft8_pack_string("VK2TRF VK2ZTY R-08").unwrap();
    assert_eq!(ft8_unpack_to_string(&cw).unwrap(), "VK2TRF VK2ZTY R+00");
}
