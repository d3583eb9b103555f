use rustxxx::crc::{crc_check, crc_compute, crc_read, crc_store, l4_crc_add, l4_crc_remove};
use rustxxx::ecc::{ecc_check_errors, ecc_decode_bitflip, ecc_encode, _ecc_parity8};
use rustxxx::gray::{gray_decode, gray_encode};
use rustxxx::modem::Modem;
use rustxxx::protocol::{ft8, is_ft8, Protocol};
use rustxxx::sync::{sync_insert, sync_remove};
use rustxxx::units::XxxError;

/// A small code of the FT8 size: parity bit `i` repeats message bit `i`,
/// and check `i` ties the two together.
fn repetition_code() -> (Vec<Vec<u8>>, Vec<[usize; 7]>) {
    let mut generator = Vec::new();
    let mut nm = Vec::new();
    for i in 0..83usize {
        let mut row = vec![0u8; 12];
        row[i / 8] = 0x80 >> (i % 8);
        generator.push(row);
        nm.push([i + 1, 92 + i, 0, 0, 0, 0, 0]);
    }
    (generator, nm)
}

fn test_modem() -> Modem {
    let (generator, nm) = repetition_code();
    Modem::new(ft8(), generator, nm)
}

fn check(protocol: &Protocol) -> bool {
    let symbol_period = 0.16f32;
    let slot_time = 15.0f32;
    let total_frame_time = symbol_period * protocol.total_symbols_nn().0 as f32;
    (protocol.nd().0 * protocol.token_bits().0 == protocol.ldpc_n().0)
        && (protocol.total_symbols_nn().0 == protocol._ns().0 + protocol.nd().0)
        && (protocol.costas_pattern().len() == protocol._length_sync().0)
        && (protocol.gray_map().len() == protocol.token_tones().0)
        && protocol._slot_time_locked()
        && (total_frame_time <= slot_time)
}

#[test]
fn test_constant() {
    assert!(check(&ft8()));
}

#[test]
fn ft8_parameters_recognised() {
    assert!(is_ft8(&ft8()));
    let mut p = ft8();
    p.nd = rustxxx::units::SymbolCount(57);
    assert!(!is_ft8(&p));
    let mut q = ft8();
    q.costas_pattern[6] = 1;
    assert!(!is_ft8(&q));
    let mut g = ft8();
    g.gray_rmap[7] = 0;
    assert!(!is_ft8(&g));
}

fn sync_roundtrip(protocol: &Protocol, l2_tones: &Vec<u8>) {
    let l0_tones = sync_insert(protocol, l2_tones);
    let l2_tones_c = sync_remove(protocol, &l0_tones);
    assert_eq!(*l2_tones, l2_tones_c);
}

#[test]
fn test_layer1() {
    let p = ft8();
    sync_roundtrip(&p, &[0u8; 58].to_vec());
    sync_roundtrip(&p, &[5u8; 58].to_vec());
    let mut msg1 = [0u8; 58];
    let mut msg2 = [0u8; 58];
    for i in 0..p.nd().0 {
        msg1[i] = (i & 7) as u8;
        msg2[i] = ((i + 3) & 7) as u8;
    }
    sync_roundtrip(&p, &msg1.to_vec());
    sync_roundtrip(&p, &msg2.to_vec());
}

#[test]
fn sync_positions() {
    let p = ft8();
    let l0 = sync_insert(&p, &[5u8; 58]);
    assert_eq!(l0.len(), 79);
    assert_eq!(&l0[0..7], &[3, 1, 4, 0, 6, 5, 2]);
    assert_eq!(&l0[36..43], &[3, 1, 4, 0, 6, 5, 2]);
    assert_eq!(&l0[72..79], &[3, 1, 4, 0, 6, 5, 2]);
    assert_eq!(l0[7], 5);
    assert_eq!(l0[71], 5);
}

const MSG0: [u8; 22] = [
    255, 255, 255, 255, 255, 255, 255, 255, 255, 255, 255, 255, 255, 255, 255, 255, 255, 255,
    255, 255, 255, 0xfc,
];
const MSG1: [u8; 22] = [
    67, 171, 17, 12, 2, 2, 76, 47, 161, 170, 70, 55, 40, 30, 2, 1, 0, 251, 55, 25, 213, 0xfc,
];

fn gray_roundtrip(p: &Protocol, codeword_in: &Vec<u8>) {
    assert_eq!(codeword_in.len(), p.ldpc_n_bytes().0);
    let tones = gray_encode(p, codeword_in);
    let codeword_out = gray_decode(p, &tones);
    assert_eq!(codeword_out, *codeword_in);
}

#[test]
fn test_layer2() {
    let p = ft8();
    assert_eq!(p.nd().0 * p.token_bits().0, p.ldpc_n().0);
    gray_roundtrip(&p, &MSG0.to_vec());
    gray_roundtrip(&p, &MSG1.to_vec());
}

#[test]
fn gray_tones() {
    let p = ft8();
    let mut cw = vec![0u8; 22];
    cw[0] = 0b0100_1110; // groups 010, 011, 10..
    let tones = gray_encode(&p, &cw);
    assert_eq!(tones[0], 3);
    assert_eq!(tones[1], 2);
    assert_eq!(tones[2], 5);
}

const L4M0: [u8; 22] = [0xff, 1, 2, 3, 4, 5, 6, 7, 8, 9, 10, 0, 0, 0, 0, 0, 0, 0, 0, 0, 0, 0];

#[test]
fn test_layer3() {
    let modem = test_modem();
    let p = modem.protocol();
    let cw_crc_ecc = ecc_encode(&p, &modem.generator, &L4M0);
    assert_eq!(cw_crc_ecc.len(), 22);
    assert_eq!(ecc_check_errors(&p, &modem.parity_nm, &cw_crc_ecc), 0);
    // hard decisions of the soft values (-0.01 for a 0 bit, 1.0 for a 1 bit) are the codeword bits
    let decoded = ecc_decode_bitflip(&p, &modem.parity_nm, cw_crc_ecc.clone(), 20).unwrap();
    assert_eq!(decoded, cw_crc_ecc);
}

#[test]
fn ecc_parity_bits_and_repair() {
    let modem = test_modem();
    let p = modem.protocol();
    let cw = ecc_encode(&p, &modem.generator, &L4M0);
    // parity bit 91 + i repeats message bit i: byte 0 is 0xff, so parity bits 91..98 are set
    assert_eq!(cw[11] & 0x1f, 0x1f);
    assert_eq!(cw[12] & 0xe0, 0xe0);
    // one flipped parity bit: one check fails
    let mut bad = cw.clone();
    bad[21] ^= 0x04;
    assert_eq!(modem.ecc_check_errors(&bad), 1);
    assert!(matches!(modem.ecc_decode_bitflip(bad.clone(), 0), Err(XxxError::_BadEcc)));
    assert_eq!(_ecc_parity8(0b1011_0000), 1);
    assert_eq!(_ecc_parity8(0b1011_0001), 0);
}

struct CrcTestData {
    payload: u128,
    checksum: u16,
}

const L5P0: CrcTestData = CrcTestData { payload: 0, checksum: 0 };

const L5P1: CrcTestData = CrcTestData {
    payload: 0b_11100_00111111_10001010_01101010_11100010_00000111_10100001_11100011_10010100_01010001,
    checksum: 0b_1111_0011_0010,
};

fn crc_roundtrips(p: &Protocol, crctestdata: &CrcTestData) {
    // the 77 payload bits, most significant first, in ten bytes
    let codeword: Vec<u8> = (crctestdata.payload << 3).to_be_bytes()[6..16].to_vec();
    assert_eq!(codeword.len(), p._ldpc_p_bytes().0);
    let crc = crc_compute(p, &codeword);
    assert_eq!(crc, crctestdata.checksum);
    let codeword1 = crc_store(p, crc, &codeword);
    assert_eq!(crc_read(p, &codeword1), crc);
    assert_eq!(crc_compute(p, &codeword1), crc);
    assert!(crc_check(p, &codeword1));
}

#[test]
fn test_layer4() {
    let p = ft8();
    crc_roundtrips(&p, &L5P0);
    crc_roundtrips(&p, &L5P1);
}

#[test]
fn crc_errors() {
    let p = ft8();
    let codeword: Vec<u8> = (L5P1.payload << 3).to_be_bytes()[6..16].to_vec();
    let mut framed = l4_crc_add(&p, &codeword).unwrap();
    assert_eq!(framed.len(), 12);
    // the strip clears two of the three bits after the 77 payload bits; the
    // third keeps CRC bit 11, which is set for this payload
    let mut expected = codeword.clone();
    expected[9] |= 0x01;
    assert_eq!(l4_crc_remove(&p, &framed).unwrap(), expected);
    let zero = vec![0u8; 10];
    assert_eq!(l4_crc_remove(&p, &l4_crc_add(&p, &zero).unwrap()).unwrap(), zero);
    framed[0] ^= 0x01;
    assert!(matches!(l4_crc_remove(&p, &framed), Err(XxxError::_BadCrc)));
}

fn l5_roundtrip(modem: &mut Modem, cw: Vec<u8>) {
    for loopback_at in 0..6 {
        assert_eq!(cw.len(), modem.protocol()._ldpc_p_bytes().0);
        let loopback_result = modem.l5_top_outbound(loopback_at, &cw).unwrap();
        assert_eq!(loopback_result, cw, "failed at loopback {}", loopback_at);
    }
}

#[test]
fn l5_top_test() {
    let mut modem = test_modem();
    let cw00: Vec<u8> = vec![0x00u8; modem.protocol()._ldpc_p_bytes().0];
    l5_roundtrip(&mut modem, cw00);
    let cw80: Vec<u8> = vec![0x80u8; modem.protocol()._ldpc_p_bytes().0];
    l5_roundtrip(&mut modem, cw80);
    let cw58: Vec<u8> = vec![0x58u8; modem.protocol()._ldpc_p_bytes().0];
    l5_roundtrip(&mut modem, cw58);
    let cwf8: Vec<u8> = vec![0xf8u8; modem.protocol()._ldpc_p_bytes().0];
    l5_roundtrip(&mut modem, cwf8);
}

#[test]
fn layer_stack_edges() {
    let mut modem = test_modem();
    let cw = vec![0x80u8; 10];
    // past the channel tones nothing comes back
    assert_eq!(modem.l5_top_outbound(6, &cw).unwrap(), Vec::<u8>::new());
    // a frame with a broken CRC is refused at the CRC layer
    let mut framed = modem._l4_crc_add(&cw).unwrap();
    framed[3] ^= 0x10;
    assert!(matches!(modem.l4_inbound(&framed), Err(XxxError::_BadCrc)));
    // a codeword with a broken parity bit is refused at the ECC layer
    let framed = modem._l4_crc_add(&cw).unwrap();
    let mut coded = modem._l3_ecc_add(&framed).unwrap();
    coded[20] ^= 0x01;
    assert!(matches!(modem.l3_inbound(&coded), Err(XxxError::_BadEcc)));
}

#[test]
fn modem_crc_and_gray_methods() {
    let modem = test_modem();
    let codeword: Vec<u8> = (L5P1.payload << 3).to_be_bytes()[6..16].to_vec();
    let mut framed = modem._l4_crc_add(&codeword).unwrap();
    assert_eq!(modem._crc_read(&framed), L5P1.checksum);
    assert!(modem._crc_check(&framed));
    framed[2] ^= 0x40;
    assert!(!modem._crc_check(&framed));
    let coded = modem._l3_ecc_add(&modem._l4_crc_add(&codeword).unwrap()).unwrap();
    let tones = modem._l2_gray_encode(&coded).unwrap();
    assert_eq!(tones.len(), 58);
    assert_eq!(modem._gray_decode(&tones), coded);
}

#[test]
fn crc_reads_back_any_stored_value() {
    let p = ft8();
    let payload: Vec<u8> = (L5P1.payload << 3).to_be_bytes()[6..16].to_vec();
    for c in [0u16, 1, 0x1234, 0x2aaa, 0x3fff] {
        let framed = crc_store(&p, c, &payload);
        assert_eq!(crc_read(&p, &framed), c);
    }
}
