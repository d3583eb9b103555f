use vstd::prelude::*;

use crate::bits::{bit_of, get_bit, set_bit, zero_bytes, lemma_zero_byte_bits};
use crate::protocol::{Protocol, spec_ldpc_p};
use crate::units::{XxxError, spec_bytes_for};

verus! {

/// The low `w` bits set (for `1 <= w <= 16`).
pub open spec fn crc_mask(w: u8) -> u16 {
    0xffffu16 >> ((16 - w) as u16)
}

/// One step of a most-significant-bit-first CRC shift register of `w` bits
/// fed with one message bit (the Rocksoft model with refin = refout = false).
pub open spec fn crc_step(w: u8, poly: u16, reg: u16, b: bool) -> u16 {
    let top = ((reg >> ((w - 1) as u16)) & 1u16) == 1u16;
    let shifted = ((reg << 1u16) & crc_mask(w)) as u16;
    if top != b { (shifted ^ (poly & crc_mask(w))) as u16 } else { shifted }
}

/// The register after feeding the bits `bits` into a register starting at `reg`.
pub open spec fn crc_register(w: u8, poly: u16, reg: u16, bits: Seq<bool>) -> u16
    decreases bits.len(),
{
    if bits.len() == 0 {
        reg
    } else {
        crc_step(w, poly, crc_register(w, poly, reg, bits.drop_last()), bits.last())
    }
}

/// The CRC of a bit string: the register started at `init`, fed every bit,
/// then XORed with `xorout`.
pub open spec fn spec_crc_bits(w: u8, poly: u16, init: u16, xorout: u16, bits: Seq<bool>) -> u16 {
    (crc_register(w, poly, (init & crc_mask(w)) as u16, bits) ^ xorout) as u16
}

/// The bits of a byte string, most significant bit of each byte first.
pub open spec fn bits_of_bytes(s: Seq<u8>) -> Seq<bool> {
    Seq::new(8 * s.len(), |i: int| bit_of(s, i))
}

/// Computes the CRC of a byte string read most significant bit first, with a
/// `width`-bit register, polynomial `poly` (top term omitted), initial value
/// `init`, no reflection, and final XOR `xorout`.
pub fn crc_checksum(width: u8, poly: u16, init: u16, xorout: u16, bytes: &[u8]) -> (r: u16)
    requires
        1 <= width <= 16,
        8 * bytes@.len() <= usize::MAX,
    ensures
        r == spec_crc_bits(width, poly, init, xorout, bits_of_bytes(bytes@)),
{
    let mask: u16 = 0xffffu16 >> (16 - width as u16);
    let pm: u16 = poly & mask;
    let mut reg: u16 = init & mask;
    let nbits = 8 * bytes.len();
    let ghost all = bits_of_bytes(bytes@);
    let mut t: usize = 0;
    while t < nbits
        invariant
            1 <= width <= 16,
            mask == crc_mask(width),
            pm == poly & mask,
            nbits == 8 * bytes@.len(),
            all == bits_of_bytes(bytes@),
            t <= nbits,
            reg == crc_register(width, poly, (init & crc_mask(width)) as u16, all.subrange(0, t as int)),
        decreases nbits - t,
    {
        let b = get_bit(bytes, t);
        let top = ((reg >> (width as u16 - 1)) & 1u16) == 1u16;
        let shifted = (reg << 1u16) & mask;
        reg = if top != b { shifted ^ pm } else { shifted };
        proof {
            let s1 = all.subrange(0, t as int + 1);
            assert(s1.drop_last() =~= all.subrange(0, t as int));
            assert(s1.last() == b);
        }
        t += 1;
    }
    assert(all.subrange(0, nbits as int) =~= all);
    reg ^ xorout
}

/// The bits that the CRC of a payload is taken over: the first `p` payload bits,
/// placed so that `pad` zero bits follow them at the end of `nbytes` bytes.
pub open spec fn padded_payload_bits(cw: Seq<u8>, p: int, pad: int, nbytes: int) -> Seq<bool> {
    let l = 8 * nbytes;
    Seq::new(l as nat, |t: int| l - p - pad <= t < l - pad && bit_of(cw, t - (l - p - pad)))
}

/// The CRC that `crc_compute` returns for a codeword.
pub open spec fn spec_crc_compute(protocol: Protocol, cw: Seq<u8>) -> u16 {
    let p = spec_ldpc_p(protocol);
    let pad = protocol.crc_params.spec_prepad() as int;
    spec_crc_bits(
        protocol.crc_params.spec_width(),
        protocol.crc_params.spec_poly(),
        protocol.crc_params.spec_init(),
        protocol.crc_params.spec_xorout(),
        padded_payload_bits(cw, p, pad, spec_bytes_for((p + pad) as nat) as int),
    )
}

/// Conditions under which the CRC layer of a protocol can run.
pub open spec fn crc_framing_ok(protocol: Protocol) -> bool {
    let p = spec_ldpc_p(protocol);
    let pad = protocol.crc_params.spec_prepad() as int;
    &&& 1 <= protocol.crc_params.spec_width() <= 16
    &&& protocol.crc_params.spec_width() <= protocol.ldpc_k.0
    &&& 8 * spec_bytes_for((p + pad) as nat) <= usize::MAX
    &&& 8 * spec_bytes_for(protocol.ldpc_k.0 as nat) <= usize::MAX
}

/// Computes the CRC of the payload bits of a codeword, zero-extended by the
/// protocol's pad bits ("the CRC is calculated on the source-encoded message,
/// zero-extended from 77 to 82 bits").
pub fn crc_compute(protocol: &Protocol, codeword: &[u8]) -> (r: u16)
    requires
        crc_framing_ok(*protocol),
        codeword@.len() >= spec_bytes_for(spec_ldpc_p(*protocol) as nat),
    ensures
        r == spec_crc_compute(*protocol, codeword@),
{
    let p = protocol._ldpc_p().0;
    let pad = protocol._crc_pad_bits().0;
    let nbytes = protocol._ldpc_p_padded_bytes().0;
    let mut payload = zero_bytes(nbytes);
    let l = nbytes * 8;
    let start = l - p - pad;
    let ghost target = padded_payload_bits(codeword@, p as int, pad as int, nbytes as int);
    proof {
        assert forall|t: int| 0 <= t < l implies !#[trigger] bit_of(payload@, t) by {
            lemma_zero_byte_bits(payload@, t);
        }
    }
    let mut j: usize = 0;
    while j < p
        invariant
            j <= p,
            start + p + pad == l,
            l == 8 * nbytes,
            payload@.len() == nbytes,
            p <= 8 * codeword@.len(),
            target == padded_payload_bits(codeword@, p as int, pad as int, nbytes as int),
            forall|t: int| 0 <= t < l ==>
                #[trigger] bit_of(payload@, t) == (start <= t < start + j && bit_of(codeword@, t - start)),
        decreases p - j,
    {
        let b = get_bit(codeword, j);
        let ghost before = payload@;
        set_bit(&mut payload, start + j, b);
        proof {
            assert forall|t: int| 0 <= t < l implies
                #[trigger] bit_of(payload@, t) == (start <= t < start + j + 1 && bit_of(codeword@, t - start)) by {
                if t != start + j {
                    assert(bit_of(payload@, t) == bit_of(before, t));
                }
            }
        }
        j += 1;
    }
    assert(bits_of_bytes(payload@) =~= target);
    crc_checksum(protocol.crc_params.width(), protocol.crc_params.poly(), protocol.crc_params.init(),
        protocol.crc_params.xorout(), &payload)
}

/// The value `c` shifted left one place `n` times in 16 bits.
pub open spec fn shl_times(c: u16, n: nat) -> u16
    decreases n,
{
    if n == 0 { c } else { (shl_times(c, (n - 1) as nat) << 1u16) as u16 }
}

/// The CRC bit that `crc_store` writes at offset `j` after the payload: bit 13
/// of the CRC shifted left `j` times.
pub open spec fn crc_store_bit(c: u16, j: int) -> bool {
    (shl_times(c, j as nat) & 0x2000u16) != 0u16
}

/// Bit `t` of the codeword that `crc_store` builds.
pub open spec fn spec_crc_store_bit(protocol: Protocol, c: u16, payload: Seq<u8>, t: int) -> bool {
    let p = spec_ldpc_p(protocol);
    if p <= t < protocol.ldpc_k.0 {
        crc_store_bit(c, t - p)
    } else {
        t < 8 * payload.len() && bit_of(payload, t)
    }
}

/// Writes the CRC `crc_arg` into the bits that follow the payload, growing the
/// payload to the bytes needed for payload and CRC.
pub fn crc_store(protocol: &Protocol, crc_arg: u16, payload: &[u8]) -> (cw_crc: Vec<u8>)
    requires
        crc_framing_ok(*protocol),
        payload@.len() == spec_bytes_for(spec_ldpc_p(*protocol) as nat),
    ensures
        cw_crc@.len() == spec_bytes_for(protocol.ldpc_k.0 as nat),
        forall|t: int| 0 <= t < 8 * cw_crc@.len() ==>
            #[trigger] bit_of(cw_crc@, t) == spec_crc_store_bit(*protocol, crc_arg, payload@, t),
{
    let p = protocol._ldpc_p().0;
    let k = protocol.ldpc_k().0;
    let kbytes = protocol._ldpc_k_bytes().0;
    let mut cw_crc = zero_bytes(kbytes);
    let mut i: usize = 0;
    while i < payload.len()
        invariant
            i <= payload@.len(),
            payload@.len() <= kbytes,
            cw_crc@.len() == kbytes,
            forall|j: int| 0 <= j < i ==> #[trigger] cw_crc@[j] == payload@[j],
            forall|j: int| i <= j < kbytes ==> #[trigger] cw_crc@[j] == 0u8,
        decreases payload@.len() - i,
    {
        cw_crc.set(i, payload[i]);
        i += 1;
    }
    proof {
        assert forall|t: int| 0 <= t < 8 * kbytes implies
            #[trigger] bit_of(cw_crc@, t) == (t < 8 * payload@.len() && bit_of(payload@, t)) by {
            if t >= 8 * payload@.len() {
                lemma_zero_byte_bits(cw_crc@, t);
            }
        }
    }
    let mut crc = crc_arg;
    let mut i: usize = p;
    while i < k
        invariant
            p <= i <= k,
            p == spec_ldpc_p(*protocol),
            k == protocol.ldpc_k.0,
            k <= 8 * kbytes,
            cw_crc@.len() == kbytes,
            crc == shl_times(crc_arg, (i - p) as nat),
            forall|t: int| 0 <= t < 8 * kbytes ==>
                #[trigger] bit_of(cw_crc@, t) == (if p <= t < i { crc_store_bit(crc_arg, t - p) }
                    else { t < 8 * payload@.len() && bit_of(payload@, t) }),
        decreases k - i,
    {
        let ghost before = cw_crc@;
        set_bit(&mut cw_crc, i, crc & 0x2000u16 != 0u16);
        crc = crc << 1u16;
        proof {
            assert forall|t: int| 0 <= t < 8 * kbytes implies
                #[trigger] bit_of(cw_crc@, t) == (if p <= t < i + 1 { crc_store_bit(crc_arg, t - p) }
                    else { t < 8 * payload@.len() && bit_of(payload@, t) }) by {
                if t != i {
                    assert(bit_of(cw_crc@, t) == bit_of(before, t));
                }
            }
        }
        i += 1;
    }
    cw_crc
}

/// The CRC value that `crc_read` assembles from bits `p..i` of a codeword.
pub open spec fn crc_read_fold(cw: Seq<u8>, p: int, i: int) -> u16
    decreases i - p,
{
    if i <= p {
        0u16
    } else {
        (((crc_read_fold(cw, p, i - 1) << 1u16) as u16) | (if bit_of(cw, i - 1) { 1u16 } else { 0u16 })) as u16
    }
}

/// The CRC value stored after the payload bits of a codeword.
pub open spec fn spec_crc_read(protocol: Protocol, cw: Seq<u8>) -> u16 {
    crc_read_fold(cw, spec_ldpc_p(protocol), protocol.ldpc_k.0 as int)
}

/// Reads the CRC stored in the bits that follow the payload.
pub fn crc_read(protocol: &Protocol, codeword: &[u8]) -> (r: u16)
    requires
        crc_framing_ok(*protocol),
        codeword@.len() == spec_bytes_for(protocol.ldpc_k.0 as nat),
    ensures
        r == spec_crc_read(*protocol, codeword@),
{
    let p = protocol._ldpc_p().0;
    let k = protocol.ldpc_k().0;
    let mut crc: u16 = 0;
    let mut i: usize = p;
    while i < k
        invariant
            p <= i <= k,
            k <= 8 * codeword@.len(),
            crc == crc_read_fold(codeword@, p as int, i as int),
        decreases k - i,
    {
        crc = crc << 1u16;
        if get_bit(codeword, i) {
            crc = crc | 1u16;
        } else {
            crc = crc | 0u16;
        }
        i += 1;
    }
    crc
}

/// Whether the CRC stored in a codeword matches the CRC of its payload.
pub fn crc_check(protocol: &Protocol, codeword: &[u8]) -> (r: bool)
    requires
        crc_framing_ok(*protocol),
        codeword@.len() == spec_bytes_for(protocol.ldpc_k.0 as nat),
    ensures
        r == (spec_crc_read(*protocol, codeword@) == spec_crc_compute(*protocol, codeword@)),
{
    proof {
        assert(spec_bytes_for(spec_ldpc_p(*protocol) as nat) <= spec_bytes_for(protocol.ldpc_k.0 as nat));
    }
    let crc1 = crc_read(protocol, codeword);
    let crc2 = crc_compute(protocol, codeword);
    crc1 == crc2
}

/// Appends the CRC of a payload to it.
pub fn crc_add(protocol: &Protocol, codeword: &[u8]) -> (cw_crc: Vec<u8>)
    requires
        crc_framing_ok(*protocol),
        codeword@.len() == spec_bytes_for(spec_ldpc_p(*protocol) as nat),
    ensures
        cw_crc@.len() == spec_bytes_for(protocol.ldpc_k.0 as nat),
        forall|t: int| 0 <= t < 8 * cw_crc@.len() ==>
            #[trigger] bit_of(cw_crc@, t) == spec_crc_store_bit(*protocol, spec_crc_compute(*protocol, codeword@), codeword@, t),
{
    let crc = crc_compute(protocol, codeword);
    crc_store(protocol, crc, codeword)
}


proof fn lemma_crc_step_masked(w: u8, poly: u16, reg: u16, b: bool)
    requires 1 <= w <= 16, reg & crc_mask(w) == reg,
    ensures crc_step(w, poly, reg, b) & crc_mask(w) == crc_step(w, poly, reg, b),
{
    let m = crc_mask(w);
    assert(m == 0xffffu16 >> ((16 - w) as u16));
    let shifted = ((reg << 1u16) & m) as u16;
    assert(shifted & m == shifted) by (bit_vector)
        requires shifted == ((reg << 1u16) & m) as u16;
    assert(((shifted ^ (poly & m)) as u16) & m == (shifted ^ (poly & m)) as u16) by (bit_vector)
        requires shifted & m == shifted;
}

/// The CRC register never holds bits above its width.
pub proof fn lemma_crc_register_masked(w: u8, poly: u16, reg: u16, bits: Seq<bool>)
    requires 1 <= w <= 16, reg & crc_mask(w) == reg,
    ensures crc_register(w, poly, reg, bits) & crc_mask(w) == crc_register(w, poly, reg, bits),
    decreases bits.len(),
{
    if bits.len() > 0 {
        lemma_crc_register_masked(w, poly, reg, bits.drop_last());
        lemma_crc_step_masked(w, poly, crc_register(w, poly, reg, bits.drop_last()), bits.last());
    }
}

/// A 14-bit CRC with a final XOR below 2^14 is below 2^14.
pub proof fn lemma_crc14_bound(poly: u16, init: u16, xorout: u16, bits: Seq<bool>)
    requires xorout < 0x4000,
    ensures spec_crc_bits(14, poly, init, xorout, bits) < 0x4000,
{
    let m = crc_mask(14);
    assert(m == 0x3fffu16) by (bit_vector)
        requires m == 0xffffu16 >> ((16 - 14u8) as u16);
    let r0 = (init & m) as u16;
    assert(r0 & m == r0) by (bit_vector)
        requires r0 == (init & m) as u16;
    lemma_crc_register_masked(14, poly, r0, bits);
    let r = crc_register(14, poly, r0, bits);
    assert(((r ^ xorout) as u16) < 0x4000u16) by (bit_vector)
        requires r & 0x3fffu16 == r, xorout < 0x4000u16;
}

proof fn lemma_shl_times(c: u16, n: nat)
    requires n < 16,
    ensures shl_times(c, n) == (c << (n as u16)) as u16,
    decreases n,
{
    if n > 0 {
        lemma_shl_times(c, (n - 1) as nat);
        let m = (n - 1) as u16;
        assert(((c << m) << 1u16) as u16 == (c << ((m + 1) as u16)) as u16) by (bit_vector)
            requires m < 15u16;
        assert((m + 1) as u16 == n as u16);
    } else {
        assert((c << 0u16) as u16 == c) by (bit_vector);
    }
}

proof fn lemma_crc_store_bit(c: u16, j: int)
    requires 0 <= j <= 13,
    ensures crc_store_bit(c, j) == (((c >> ((13 - j) as u16)) & 1u16) == 1u16),
{
    lemma_shl_times(c, j as nat);
    let jj = j as u16;
    assert((((c << jj) as u16 & 0x2000u16) != 0u16) == (((c >> ((13 - jj) as u16)) & 1u16) == 1u16)) by (bit_vector)
        requires jj <= 13u16;
}

proof fn lemma_crc_read_store(cw: Seq<u8>, c: u16, p: int, j: int)
    requires
        0 <= p, 0 <= j <= 14, c < 0x4000,
        forall|i: int| 0 <= i < 14 ==> #[trigger] bit_of(cw, p + i) == crc_store_bit(c, i),
    ensures
        crc_read_fold(cw, p, p + j) == (c >> ((14 - j) as u16)) as u16,
    decreases j,
{
    if j == 0 {
        assert((c >> 14u16) == 0u16) by (bit_vector)
            requires c < 0x4000u16;
    } else {
        lemma_crc_read_store(cw, c, p, j - 1);
        lemma_crc_store_bit(c, j - 1);
        assert(bit_of(cw, p + (j - 1)) == crc_store_bit(c, j - 1));
        let jj = (j - 1) as u16;
        assert(((((c >> ((14 - jj) as u16)) << 1u16) as u16) | (if ((c >> ((13 - jj) as u16)) & 1u16) == 1u16 { 1u16 } else { 0u16 })) as u16
            == (c >> ((13 - jj) as u16)) as u16) by (bit_vector)
            requires jj < 14u16, c < 0x4000u16;
    }
}

/// The CRC bits read back what was stored: any 14-bit value written after a
/// payload the way `crc_store` writes it is the value `crc_read` reads.
pub proof fn law_crc_store_read(protocol: Protocol, c: u16, payload: Seq<u8>, cw: Seq<u8>)
    requires
        crc_framing_ok(protocol),
        protocol.crc_params.spec_width() == 14,
        c < 0x4000,
        cw.len() == spec_bytes_for(protocol.ldpc_k.0 as nat),
        forall|t: int| 0 <= t < 8 * cw.len() ==>
            #[trigger] bit_of(cw, t) == spec_crc_store_bit(protocol, c, payload, t),
    ensures
        spec_crc_read(protocol, cw) == c,
{
    let p = spec_ldpc_p(protocol);
    assert forall|i: int| 0 <= i < 14 implies #[trigger] bit_of(cw, p + i) == crc_store_bit(c, i) by {
        assert(p + i < protocol.ldpc_k.0);
        assert(8 * cw.len() >= protocol.ldpc_k.0);
    }
    lemma_crc_read_store(cw, c, p, 14);
    assert((c >> 0u16) == c) by (bit_vector);
}

/// Framing a payload with its CRC and then checking the frame succeeds: for a
/// 14-bit CRC whose final XOR is below 2^14, any codeword whose bits are those
/// `crc_store` writes for the payload's CRC reads back that CRC, and the CRC
/// recomputed from its payload bits is the same.
pub proof fn law_crc_check_accepts_framed(protocol: Protocol, payload: Seq<u8>, cw: Seq<u8>)
    requires
        crc_framing_ok(protocol),
        protocol.crc_params.spec_width() == 14,
        protocol.crc_params.spec_xorout() < 0x4000,
        payload.len() == spec_bytes_for(spec_ldpc_p(protocol) as nat),
        cw.len() == spec_bytes_for(protocol.ldpc_k.0 as nat),
        forall|t: int| 0 <= t < 8 * cw.len() ==>
            #[trigger] bit_of(cw, t) == spec_crc_store_bit(protocol, spec_crc_compute(protocol, payload), payload, t),
    ensures
        spec_crc_read(protocol, cw) == spec_crc_compute(protocol, payload),
        spec_crc_compute(protocol, cw) == spec_crc_compute(protocol, payload),
{
    let p = spec_ldpc_p(protocol);
    let pad = protocol.crc_params.spec_prepad() as int;
    let nb = spec_bytes_for((p + pad) as nat) as int;
    let c = spec_crc_compute(protocol, payload);
    lemma_crc14_bound(protocol.crc_params.spec_poly(), protocol.crc_params.spec_init(),
        protocol.crc_params.spec_xorout(), padded_payload_bits(payload, p, pad, nb));
    law_crc_store_read(protocol, c, payload, cw);
    assert(padded_payload_bits(cw, p, pad, nb) =~= padded_payload_bits(payload, p, pad, nb)) by {
        assert forall|t: int| 0 <= t < p implies #[trigger] bit_of(cw, t) == bit_of(payload, t) by {
            assert(8 * payload.len() >= p);
        }
    }
}

/// The payload that `l4_crc_remove` hands back: the first payload bytes of the
/// frame with the first `(k_bytes - p_bytes) % 8` bits after the payload cleared.
pub open spec fn spec_crc_remove_bit(protocol: Protocol, cw_crc: Seq<u8>, t: int) -> bool {
    let p = spec_ldpc_p(protocol);
    let resid = (spec_bytes_for(protocol.ldpc_k.0 as nat) - spec_bytes_for(p as nat)) % 8;
    if p <= t < p + resid { false } else { bit_of(cw_crc, t) }
}

/// Conditions under which the CRC layer can strip a frame.
pub open spec fn crc_remove_ok(protocol: Protocol) -> bool {
    let p = spec_ldpc_p(protocol);
    let resid = (spec_bytes_for(protocol.ldpc_k.0 as nat) - spec_bytes_for(p as nat)) % 8;
    p + resid <= 8 * spec_bytes_for(p as nat)
}

/// Frames a payload of `p_bytes` bytes with its CRC.
pub fn l4_crc_add(protocol: &Protocol, cw: &[u8]) -> (r: Result<Vec<u8>, XxxError>)
    requires
        crc_framing_ok(*protocol),
        cw@.len() == spec_bytes_for(spec_ldpc_p(*protocol) as nat),
    ensures
        r matches Ok(cw_crc) && cw_crc@.len() == spec_bytes_for(protocol.ldpc_k.0 as nat)
            && forall|t: int| 0 <= t < 8 * cw_crc@.len() ==>
                #[trigger] bit_of(cw_crc@, t) == spec_crc_store_bit(*protocol, spec_crc_compute(*protocol, cw@), cw@, t),
{
    Ok(crc_add(protocol, cw))
}

/// Checks the CRC of a frame and strips it, or reports a bad CRC.
pub fn l4_crc_remove(protocol: &Protocol, cw_crc: &[u8]) -> (r: Result<Vec<u8>, XxxError>)
    requires
        crc_framing_ok(*protocol),
        crc_remove_ok(*protocol),
        cw_crc@.len() == spec_bytes_for(protocol.ldpc_k.0 as nat),
    ensures
        (spec_crc_read(*protocol, cw_crc@) == spec_crc_compute(*protocol, cw_crc@)) <==> r is Ok,
        r matches Err(e) ==> e is _BadCrc,
        r matches Ok(cw) ==> cw@.len() == spec_bytes_for(spec_ldpc_p(*protocol) as nat)
            && forall|t: int| 0 <= t < 8 * cw@.len() ==>
                #[trigger] bit_of(cw@, t) == spec_crc_remove_bit(*protocol, cw_crc@, t),
{
    if crc_check(protocol, cw_crc) {
        let pbytes = protocol._ldpc_p_bytes().0;
        let kbytes = protocol._ldpc_k_bytes().0;
        let p = protocol._ldpc_p().0;
        proof {
            assert(spec_bytes_for(p as nat) <= spec_bytes_for(protocol.ldpc_k.0 as nat));
        }
        let mut cw: Vec<u8> = Vec::new();
        let mut i: usize = 0;
        while i < pbytes
            invariant
                i <= pbytes,
                pbytes <= cw_crc@.len(),
                cw@ == cw_crc@.subrange(0, i as int),
            decreases pbytes - i,
        {
            cw.push(cw_crc[i]);
            i += 1;
        }
        let resid = (kbytes - pbytes) % 8;
        let mut j: usize = 0;
        proof {
            assert forall|t: int| 0 <= t < 8 * pbytes implies #[trigger] bit_of(cw@, t) == bit_of(cw_crc@, t) by {
                assert(cw@[t / 8] == cw_crc@[t / 8]);
            }
        }
        while j < resid
            invariant
                j <= resid,
                resid == (spec_bytes_for(protocol.ldpc_k.0 as nat) - spec_bytes_for(p as nat)) % 8,
                p == spec_ldpc_p(*protocol),
                p + resid <= 8 * pbytes,
                cw@.len() == pbytes,
                forall|t: int| 0 <= t < 8 * pbytes ==>
                    #[trigger] bit_of(cw@, t) == (if p <= t < p + j { false } else { bit_of(cw_crc@, t) }),
            decreases resid - j,
        {
            let ghost before = cw@;
            set_bit(&mut cw, p + j, false);
            proof {
                assert forall|t: int| 0 <= t < 8 * pbytes implies
                    #[trigger] bit_of(cw@, t) == (if p <= t < p + j + 1 { false } else { bit_of(cw_crc@, t) }) by {
                    if t != p + j {
                        assert(bit_of(cw@, t) == bit_of(before, t));
                    }
                }
            }
            j += 1;
        }
        Ok(cw)
    } else {
        Err(XxxError::_BadCrc)
    }
}

} // verus!
