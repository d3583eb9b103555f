use vstd::prelude::*;

use crate::bits::{bit_of, bytes_of_bits, lemma_bytes_are_bits};
use crate::crc::{spec_crc_compute, spec_crc_read, spec_crc_store_bit, spec_crc_remove_bit, bits_of_bytes,
    l4_crc_add, l4_crc_remove, crc_read, crc_check};
use crate::ecc::{spec_ecc_encode_bit, syndrome_count, nm_entries_in, encode_rows, ecc_encode, ecc_check_errors};
use crate::gray::{spec_gray_encode, spec_gray_decode_bit, gray_encode, gray_decode};
use crate::protocol::{Protocol, spec_is_ft8, spec_ldpc_p};
use crate::sync::{spec_sync_insert, spec_sync_remove, sync_insert, sync_remove};
use crate::units::{XxxError, spec_bytes_for};

verus! {

/// The modem: a protocol and the tables of its LDPC code (the generator
/// matrix, one row of message bytes per parity bit, and the parity-check
/// matrix, the bits, numbered from 1, of each check).
pub struct Modem {
    pub protocol: Protocol,
    pub generator: Vec<Vec<u8>>,
    pub parity_nm: Vec<[usize; 7]>,
}

/// A modem whose layers can run: an FT8 protocol, generator rows that cover
/// the message bytes and parity checks that name codeword bits.
pub open spec fn modem_wf(m: Modem) -> bool {
    &&& spec_is_ft8(m.protocol)
    &&& forall|i: int| 0 <= i < encode_rows(m.protocol, m.generator@) ==> #[trigger] m.generator@[i]@.len() >= 12
    &&& nm_entries_in(m.parity_nm@, 176)
}

/// The frame `l4` builds from a payload: the payload with its CRC after it.
#[verifier::opaque]
pub open spec fn spec_crc_frame(p: Protocol, cw: Seq<u8>) -> Seq<u8> {
    bytes_of_bits(spec_bytes_for(p.ldpc_k.0 as nat), |t: int| spec_crc_store_bit(p, spec_crc_compute(p, cw), cw, t))
}

/// Whether the CRC stored in a frame matches the CRC of its payload.
#[verifier::opaque]
pub open spec fn crc_ok(p: Protocol, c: Seq<u8>) -> bool {
    spec_crc_read(p, c) == spec_crc_compute(p, c)
}

/// The payload `l4` hands up from a frame.
#[verifier::opaque]
pub open spec fn spec_crc_strip(p: Protocol, c: Seq<u8>) -> Seq<u8> {
    bytes_of_bits(spec_bytes_for(spec_ldpc_p(p) as nat), |t: int| spec_crc_remove_bit(p, c, t))
}

/// The codeword `l3` builds from a frame.
#[verifier::opaque]
pub open spec fn spec_ecc_codeword(m: Modem, c: Seq<u8>) -> Seq<u8> {
    bytes_of_bits(spec_bytes_for(m.protocol.ldpc_n.0 as nat), |t: int| spec_ecc_encode_bit(m.protocol, m.generator@, c, t))
}

/// Whether a codeword satisfies every parity check.
#[verifier::opaque]
pub open spec fn ecc_ok(m: Modem, e: Seq<u8>) -> bool {
    syndrome_count(bits_of_bytes(e), m.parity_nm@, m.parity_nm@.len() as int) == 0
}

/// The codeword `l2` rebuilds from tones.
#[verifier::opaque]
pub open spec fn spec_gray_codeword(p: Protocol, tones: Seq<u8>) -> Seq<u8> {
    bytes_of_bits(spec_bytes_for(p.ldpc_n.0 as nat), |t: int| spec_gray_decode_bit(p.gray_rmap@, tones, p.nd.0 as int, t))
}

/// What the top layer hands back: the payload itself.
pub open spec fn spec_l5_inbound(payload: Seq<u8>) -> Result<Seq<u8>, XxxError> {
    Ok(payload)
}

/// What `l4_inbound` hands back for a frame.
pub open spec fn spec_l4_inbound(m: Modem, c: Seq<u8>) -> Result<Seq<u8>, XxxError> {
    if crc_ok(m.protocol, c) { spec_l5_inbound(spec_crc_strip(m.protocol, c)) } else { Err(XxxError::_BadCrc) }
}

/// What `l3_inbound` hands back for a codeword.
pub open spec fn spec_l3_inbound(m: Modem, e: Seq<u8>) -> Result<Seq<u8>, XxxError> {
    if ecc_ok(m, e) {
        spec_l4_inbound(m, e.subrange(0, spec_bytes_for(m.protocol.ldpc_k.0 as nat) as int))
    } else {
        Err(XxxError::_BadEcc)
    }
}

/// What `l2_inbound` hands back for data tones.
pub open spec fn spec_l2_inbound(m: Modem, tones: Seq<u8>) -> Result<Seq<u8>, XxxError> {
    spec_l3_inbound(m, spec_gray_codeword(m.protocol, tones))
}

/// What `l1_inbound` hands back for channel tones.
pub open spec fn spec_l1_inbound(m: Modem, l0: Seq<u8>) -> Result<Seq<u8>, XxxError> {
    spec_l2_inbound(m, spec_sync_remove(l0, m.protocol.total_symbols_nn.0 as int))
}

/// What `l0_outbound` hands back: a loop back at `ttl` 0, else nothing.
pub open spec fn spec_l0_outbound(m: Modem, ttl: int, l0: Seq<u8>) -> Result<Seq<u8>, XxxError> {
    if ttl == 0 { spec_l1_inbound(m, l0) } else { Ok(Seq::empty()) }
}

/// What `l1_outbound` hands back.
pub open spec fn spec_l1_outbound(m: Modem, ttl: int, l2: Seq<u8>) -> Result<Seq<u8>, XxxError> {
    let l0 = spec_sync_insert(m.protocol.costas_pattern@, l2, m.protocol.total_symbols_nn.0 as int);
    if ttl == 0 { spec_l1_inbound(m, l0) } else { spec_l0_outbound(m, ttl - 1, l0) }
}

/// What `l2_outbound` hands back.
pub open spec fn spec_l2_outbound(m: Modem, ttl: int, e: Seq<u8>) -> Result<Seq<u8>, XxxError> {
    let tones = spec_gray_encode(m.protocol.gray_map@, e, m.protocol.nd.0 as int);
    if ttl == 0 { spec_l2_inbound(m, tones) } else { spec_l1_outbound(m, ttl - 1, tones) }
}

/// What `l3_outbound` hands back.
pub open spec fn spec_l3_outbound(m: Modem, ttl: int, c: Seq<u8>) -> Result<Seq<u8>, XxxError> {
    let e = spec_ecc_codeword(m, c);
    if ttl == 0 { spec_l3_inbound(m, e) } else { spec_l2_outbound(m, ttl - 1, e) }
}

/// What `l4_outbound` hands back.
pub open spec fn spec_l4_outbound(m: Modem, ttl: int, cw: Seq<u8>) -> Result<Seq<u8>, XxxError> {
    let c = spec_crc_frame(m.protocol, cw);
    if ttl == 0 { spec_l4_inbound(m, c) } else { spec_l3_outbound(m, ttl - 1, c) }
}

/// What `l5_top_outbound` hands back.
pub open spec fn spec_l5_outbound(m: Modem, ttl: int, cw: Seq<u8>) -> Result<Seq<u8>, XxxError> {
    if ttl == 0 { spec_l5_inbound(cw) } else { spec_l4_outbound(m, ttl - 1, cw) }
}

/// Whether an exec result is the given spec result.
pub open spec fn result_is(r: Result<Vec<u8>, XxxError>, s: Result<Seq<u8>, XxxError>) -> bool {
    match r {
        Ok(v) => s == Ok::<Seq<u8>, XxxError>(v@),
        Err(e) => s == Err::<Seq<u8>, XxxError>(e),
    }
}

/// Whether the tones that `l1` keeps are tone numbers below 8.
pub open spec fn data_tones_ok(l0: Seq<u8>) -> bool {
    let d = spec_sync_remove(l0, 79);
    forall|i: int| 0 <= i < d.len() ==> #[trigger] d[i] < 8
}

impl Modem {
    /// A modem for a protocol and the tables of its LDPC code.
    pub fn new(protocol: Protocol, generator: Vec<Vec<u8>>, parity_nm: Vec<[usize; 7]>) -> (r: Modem)
        ensures r.protocol == protocol, r.generator@ == generator@, r.parity_nm@ == parity_nm@,
    {
        Modem { protocol, generator, parity_nm }
    }

    /// The modem's protocol.
    pub fn protocol(&self) -> (r: Protocol)
        ensures r == self.protocol,
    {
        self.protocol
    }

    /// The top layer hands a received payload back as it is.
    pub fn l5_top_inbound(&self, payload: &Vec<u8>) -> (r: Result<Vec<u8>, XxxError>)
        ensures result_is(r, spec_l5_inbound(payload@)),
    {
        Ok(payload.clone())
    }

    /// Frames a payload with its CRC.
    pub fn _l4_crc_add(&self, cw: &[u8]) -> (r: Result<Vec<u8>, XxxError>)
        requires modem_wf(*self), cw@.len() == 10,
        ensures
            result_is(r, Ok(spec_crc_frame(self.protocol, cw@))),
            r matches Ok(c) && c@.len() == 12,
    {
        let r = l4_crc_add(&self.protocol, cw);
        match r {
            Ok(c) => {
                proof {
                    lemma_bytes_are_bits(c@, |t: int| spec_crc_store_bit(self.protocol, spec_crc_compute(self.protocol, cw@), cw@, t));
                    reveal(spec_crc_frame);
                }
                Ok(c)
            },
            Err(e) => Err(e),
        }
    }

    /// Checks and strips the CRC of a frame.
    pub fn _l4_crc_remove(&self, cw_crc: &Vec<u8>) -> (r: Result<Vec<u8>, XxxError>)
        requires modem_wf(*self), cw_crc@.len() == 12,
        ensures
            result_is(r, if crc_ok(self.protocol, cw_crc@) { Ok(spec_crc_strip(self.protocol, cw_crc@)) }
                else { Err(XxxError::_BadCrc) }),
    {
        let r = l4_crc_remove(&self.protocol, cw_crc);
        proof {
            reveal(crc_ok);
        }
        match r {
            Ok(c) => {
                proof {
                    lemma_bytes_are_bits(c@, |t: int| spec_crc_remove_bit(self.protocol, cw_crc@, t));
                    reveal(spec_crc_strip);
                    reveal(crc_ok);
                }
                Ok(c)
            },
            Err(e) => Err(e),
        }
    }

    /// Hands a frame up: strips its CRC and passes the payload to the top layer.
    pub fn l4_inbound(&self, cw_crc: &Vec<u8>) -> (r: Result<Vec<u8>, XxxError>)
        requires modem_wf(*self), cw_crc@.len() == 12,
        ensures result_is(r, spec_l4_inbound(*self, cw_crc@)),
    {
        let cw = self._l4_crc_remove(cw_crc)?;
        self.l5_top_inbound(&cw)
    }

    /// Adds the LDPC parity bits to a frame.
    pub fn _l3_ecc_add(&self, cw_crc: &[u8]) -> (r: Result<Vec<u8>, XxxError>)
        requires modem_wf(*self), cw_crc@.len() == 12,
        ensures
            result_is(r, Ok(spec_ecc_codeword(*self, cw_crc@))),
            r matches Ok(e) && e@.len() == 22,
    {
        let e = ecc_encode(&self.protocol, &self.generator, cw_crc);
        proof {
            lemma_bytes_are_bits(e@, |t: int| spec_ecc_encode_bit(self.protocol, self.generator@, cw_crc@, t));
            reveal(spec_ecc_codeword);
        }
        Ok(e)
    }

    /// Checks a codeword against the parity checks and keeps its frame bytes,
    /// or reports a bad codeword.
    pub fn _l3_ecc_remove(&self, cw_crc_ecc: &[u8]) -> (r: Result<Vec<u8>, XxxError>)
        requires modem_wf(*self), cw_crc_ecc@.len() == 22,
        ensures
            result_is(r, if ecc_ok(*self, cw_crc_ecc@) { Ok(cw_crc_ecc@.subrange(0, 12)) }
                else { Err(XxxError::_BadEcc) }),
    {
        proof {
            reveal(ecc_ok);
        }
        if ecc_check_errors(&self.protocol, &self.parity_nm, cw_crc_ecc) == 0 {
            let kb = self.protocol._ldpc_k_bytes().0;
            let mut v: Vec<u8> = Vec::new();
            let mut i: usize = 0;
            while i < kb
                invariant
                    i <= kb,
                    kb == 12,
                    cw_crc_ecc@.len() == 22,
                    v@ == cw_crc_ecc@.subrange(0, i as int),
                decreases kb - i,
            {
                v.push(cw_crc_ecc[i]);
                i += 1;
                assert(v@ =~= cw_crc_ecc@.subrange(0, i as int));
            }
            Ok(v)
        } else {
            Err(XxxError::_BadEcc)
        }
    }

    /// Hands a codeword up: checks it and passes its frame to the CRC layer.
    pub fn l3_inbound(&self, cw_crc_ecc: &Vec<u8>) -> (r: Result<Vec<u8>, XxxError>)
        requires modem_wf(*self), cw_crc_ecc@.len() == 22,
        ensures result_is(r, spec_l3_inbound(*self, cw_crc_ecc@)),
    {
        let cw_crc = self._l3_ecc_remove(cw_crc_ecc)?;
        self.l4_inbound(&cw_crc)
    }

    /// Maps a codeword to data tones.
    pub fn _l2_gray_encode(&self, codeword: &[u8]) -> (r: Result<Vec<u8>, XxxError>)
        requires modem_wf(*self), codeword@.len() >= 22,
        ensures result_is(r, Ok(spec_gray_encode(self.protocol.gray_map@, codeword@, 58))),
    {
        Ok(gray_encode(&self.protocol, codeword))
    }

    /// Maps data tones back to a codeword.
    pub fn _gray_decode(&self, l2_tones: &[u8]) -> (codeword: Vec<u8>)
        requires
            modem_wf(*self),
            forall|i: int| 0 <= i < l2_tones@.len() && i < 58 ==> #[trigger] l2_tones@[i] < 8,
        ensures
            codeword@ == spec_gray_codeword(self.protocol, l2_tones@),
            codeword@.len() == 22,
    {
        let c = gray_decode(&self.protocol, l2_tones);
        proof {
            lemma_bytes_are_bits(c@, |t: int| spec_gray_decode_bit(self.protocol.gray_rmap@, l2_tones@, 58, t));
            reveal(spec_gray_codeword);
        }
        c
    }

    /// Maps data tones back to a codeword.
    pub fn _l2_gray_decode(&self, l2_tones: &[u8]) -> (r: Result<Vec<u8>, XxxError>)
        requires
            modem_wf(*self),
            forall|i: int| 0 <= i < l2_tones@.len() && i < 58 ==> #[trigger] l2_tones@[i] < 8,
        ensures
            result_is(r, Ok(spec_gray_codeword(self.protocol, l2_tones@))),
            r matches Ok(c) && c@.len() == 22,
    {
        Ok(self._gray_decode(l2_tones))
    }

    /// The CRC stored in a frame.
    pub fn _crc_read(&self, codeword: &[u8]) -> (r: u16)
        requires
            modem_wf(*self),
            codeword@.len() == 12,
        ensures
            r == spec_crc_read(self.protocol, codeword@),
    {
        crc_read(&self.protocol, codeword)
    }

    /// Whether the CRC stored in a frame matches the CRC of its payload.
    pub fn _crc_check(&self, codeword: &[u8]) -> (r: bool)
        requires
            modem_wf(*self),
            codeword@.len() == 12,
        ensures
            r == crc_ok(self.protocol, codeword@),
    {
        proof {
            reveal(crc_ok);
        }
        crc_check(&self.protocol, codeword)
    }

    /// Hands data tones up: decodes them and passes the codeword to the ECC layer.
    pub fn l2_inbound(&self, l2_tones: &Vec<u8>) -> (r: Result<Vec<u8>, XxxError>)
        requires
            modem_wf(*self),
            forall|i: int| 0 <= i < l2_tones@.len() && i < 58 ==> #[trigger] l2_tones@[i] < 8,
        ensures result_is(r, spec_l2_inbound(*self, l2_tones@)),
    {
        let cw_crc_ecc = self._l2_gray_decode(l2_tones)?;
        self.l3_inbound(&cw_crc_ecc)
    }

    /// Inserts the Costas sync groups between the data tones.
    pub fn _l1_sync_add(&self, l2_tones: &[u8]) -> (r: Result<Vec<u8>, XxxError>)
        requires modem_wf(*self), l2_tones@.len() >= 58,
        ensures result_is(r, Ok(spec_sync_insert(self.protocol.costas_pattern@, l2_tones@, 79))),
    {
        proof {
            crate::sync::lemma_data_before_79();
        }
        Ok(sync_insert(&self.protocol, l2_tones))
    }

    /// Removes the Costas sync groups, keeping the data tones.
    pub fn _l1_sync_remove(&self, l0_tones: &[u8]) -> (r: Result<Vec<u8>, XxxError>)
        requires modem_wf(*self),
        ensures result_is(r, Ok(spec_sync_remove(l0_tones@, 79))),
    {
        Ok(sync_remove(&self.protocol, l0_tones))
    }

    /// Hands channel tones up: removes the sync groups and passes the data
    /// tones to the Gray layer.
    pub fn l1_inbound(&self, l0_tones: &Vec<u8>) -> (r: Result<Vec<u8>, XxxError>)
        requires modem_wf(*self), data_tones_ok(l0_tones@),
        ensures result_is(r, spec_l1_inbound(*self, l0_tones@)),
    {
        let l2_tones = self._l1_sync_remove(l0_tones)?;
        self.l2_inbound(&l2_tones)
    }

    /// Sends channel tones on: loops them back at `ttl` 0, else ends the chain.
    /// (The audio synthesis of the tones is floating point and belongs to the application.)
    pub fn l0_outbound(&self, ttl: isize, l0_tones: &Vec<u8>) -> (r: Result<Vec<u8>, XxxError>)
        requires modem_wf(*self), ttl == 0 ==> data_tones_ok(l0_tones@),
        ensures result_is(r, spec_l0_outbound(*self, ttl as int, l0_tones@)),
    {
        if ttl == 0 {
            self.l1_inbound(l0_tones)
        } else {
            let empty: Vec<u8> = Vec::new();
            Ok(empty)
        }
    }

    /// The channel tones of a payload, ready for audio synthesis: the payload
    /// framed with its CRC, coded, Gray-mapped to tones and interleaved with
    /// the sync groups.
    pub fn modulate_tones(&self, cw: &[u8]) -> (r: Result<Vec<u8>, XxxError>)
        requires modem_wf(*self), cw@.len() == 10,
        ensures
            result_is(r, Ok(spec_sync_insert(self.protocol.costas_pattern@,
                spec_gray_encode(self.protocol.gray_map@,
                    spec_ecc_codeword(*self, spec_crc_frame(self.protocol, cw@)), 58), 79))),
    {
        let r4 = self._l4_crc_add(cw)?;
        let r3 = self._l3_ecc_add(&r4)?;
        let r2 = self._l2_gray_encode(&r3)?;
        self._l1_sync_add(&r2)
    }

    /// Counts the parity checks that a codeword does not satisfy.
    pub fn ecc_check_errors(&self, cw_crc_ecc: &[u8]) -> (errors: usize)
        requires modem_wf(*self), cw_crc_ecc@.len() == 22,
        ensures errors == syndrome_count(bits_of_bytes(cw_crc_ecc@), self.parity_nm@, self.parity_nm@.len() as int),
    {
        ecc_check_errors(&self.protocol, &self.parity_nm, cw_crc_ecc)
    }

    /// Bit-flipping LDPC decoding of a hard-decision codeword (see
    /// `ecc::ecc_decode_bitflip`).
    pub fn ecc_decode_bitflip(&self, plain_bytes: Vec<u8>, max_iters: usize) -> (r: Result<Vec<u8>, XxxError>)
        requires
            modem_wf(*self),
            plain_bytes@.len() == 22,
            nm_entries_in(self.parity_nm@, 174),
            7 * self.parity_nm@.len() <= usize::MAX,
        ensures
            match r {
                Ok(v) => v@.len() == 22 && crate::ecc::spec_bitflip(bits_of_bytes(plain_bytes@), self.parity_nm@, 174,
                    max_iters as nat) == Some(bits_of_bytes(v@)),
                Err(e) => e is _BadEcc && crate::ecc::spec_bitflip(bits_of_bytes(plain_bytes@), self.parity_nm@, 174,
                    max_iters as nat) is None,
            },
    {
        crate::ecc::ecc_decode_bitflip(&self.protocol, &self.parity_nm, plain_bytes, max_iters)
    }

    /// Sends data tones on: inserts the sync groups, then loops back at `ttl`
    /// 0 or passes the channel tones down.
    pub fn l1_outbound(&self, ttl: isize, l2_tones: &Vec<u8>) -> (r: Result<Vec<u8>, XxxError>)
        requires
            modem_wf(*self),
            l2_tones@.len() >= 58,
            ttl > isize::MIN,
            ttl == 0 || ttl == 1 ==> forall|i: int| 0 <= i < 58 ==> #[trigger] l2_tones@[i] < 8,
        ensures result_is(r, spec_l1_outbound(*self, ttl as int, l2_tones@)),
    {
        let l0_tones = self._l1_sync_add(l2_tones)?;
        proof {
            crate::sync::lemma_data_before_79();
            crate::sync::law_sync_roundtrip(self.protocol.costas_pattern@, l2_tones@, 79);
        }
        if ttl == 0 {
            self.l1_inbound(&l0_tones)
        } else {
            self.l0_outbound(ttl - 1, &l0_tones)
        }
    }

    /// Sends a codeword on: maps it to tones, then loops back at `ttl` 0 or
    /// passes the tones down.
    pub fn l2_outbound(&self, ttl: isize, codeword: &Vec<u8>) -> (r: Result<Vec<u8>, XxxError>)
        requires modem_wf(*self), codeword@.len() >= 22, ttl > isize::MIN + 1,
        ensures result_is(r, spec_l2_outbound(*self, ttl as int, codeword@)),
    {
        let l2_tones = self._l2_gray_encode(codeword)?;
        proof {
            assert forall|i: int| 0 <= i < 58 implies #[trigger] l2_tones@[i] < 8 by {
                let v = crate::gray::bits3_at(codeword@, i);
                assert(0 <= v < 8);
            }
        }
        if ttl == 0 {
            self.l2_inbound(&l2_tones)
        } else {
            self.l1_outbound(ttl - 1, &l2_tones)
        }
    }

    /// Sends a frame on: adds its parity bits, then loops back at `ttl` 0 or
    /// passes the codeword down.
    pub fn l3_outbound(&self, ttl: isize, cw_crc: &Vec<u8>) -> (r: Result<Vec<u8>, XxxError>)
        requires modem_wf(*self), cw_crc@.len() == 12, ttl > isize::MIN + 2,
        ensures result_is(r, spec_l3_outbound(*self, ttl as int, cw_crc@)),
    {
        let cw_crc_ecc = self._l3_ecc_add(cw_crc)?;
        if ttl == 0 {
            self.l3_inbound(&cw_crc_ecc)
        } else {
            self.l2_outbound(ttl - 1, &cw_crc_ecc)
        }
    }

    /// Sends a payload on: frames it with its CRC, then loops back at `ttl` 0
    /// or passes the frame down.
    pub fn l4_outbound(&self, ttl: isize, cw: &Vec<u8>) -> (r: Result<Vec<u8>, XxxError>)
        requires modem_wf(*self), cw@.len() == 10, ttl > isize::MIN + 3,
        ensures result_is(r, spec_l4_outbound(*self, ttl as int, cw@)),
    {
        let cw_crc = self._l4_crc_add(cw)?;
        if ttl == 0 {
            self.l4_inbound(&cw_crc)
        } else {
            self.l3_outbound(ttl - 1, &cw_crc)
        }
    }

    /// Sends a payload down the layers: hands it back at `ttl` 0, else passes
    /// it to the CRC layer; the result is what comes back up from the layer
    /// where it loops back.
    pub fn l5_top_outbound(&mut self, ttl: isize, cw: &Vec<u8>) -> (r: Result<Vec<u8>, XxxError>)
        requires modem_wf(*old(self)), cw@.len() == 10, ttl > isize::MIN + 4,
        ensures
            *final(self) == *old(self),
            result_is(r, spec_l5_outbound(*old(self), ttl as int, cw@)),
    {
        if ttl == 0 {
            self.l5_top_inbound(cw)
        } else {
            self.l4_outbound(ttl - 1, cw)
        }
    }

} // impl Modem

/// Whether the LDPC tables agree: every codeword that the generator builds
/// from a frame satisfies every parity check.
pub open spec fn code_consistent(m: Modem) -> bool {
    forall|c: Seq<u8>| c.len() == 12 ==> #[trigger] ecc_ok(m, spec_ecc_codeword(m, c))
}

/// The payloads that come back unchanged through the CRC layer: the three
/// bits after the 77 message bits are zero, and so is the CRC bit that the
/// layer leaves in the last of them (it clears only the first two).
pub open spec fn loopback_payload(p: Protocol, cw: Seq<u8>) -> bool {
    &&& cw.len() == 10
    &&& !bit_of(cw, 77) && !bit_of(cw, 78) && !bit_of(cw, 79)
    &&& !crate::crc::crc_store_bit(spec_crc_compute(p, cw), 2)
}

proof fn lemma_crc_read_same(a: Seq<u8>, b: Seq<u8>, p: int, i: int)
    requires forall|t: int| p <= t < i ==> #[trigger] bit_of(a, t) == bit_of(b, t),
    ensures crate::crc::crc_read_fold(a, p, i) == crate::crc::crc_read_fold(b, p, i),
    decreases i - p,
{
    if i > p {
        lemma_crc_read_same(a, b, p, i - 1);
    }
}

/// The CRC frame of a loop-back payload: its bits are those `crc_store`
/// writes, its stored CRC and recomputed CRC agree.
proof fn lemma_crc_frame_bits(p: Protocol, cw: Seq<u8>)
    requires spec_is_ft8(p), loopback_payload(p, cw),
    ensures
        spec_crc_frame(p, cw).len() == 12,
        forall|t: int| 0 <= t < 96 ==> #[trigger] bit_of(spec_crc_frame(p, cw), t)
            == spec_crc_store_bit(p, spec_crc_compute(p, cw), cw, t),
        spec_crc_read(p, spec_crc_frame(p, cw)) == spec_crc_compute(p, cw),
        spec_crc_compute(p, spec_crc_frame(p, cw)) == spec_crc_compute(p, cw),
{
    reveal(spec_crc_frame);
    let crc = spec_crc_compute(p, cw);
    crate::bits::lemma_bytes_of_bits(12, |t: int| spec_crc_store_bit(p, crc, cw, t));
    crate::crc::law_crc_check_accepts_framed(p, cw, spec_crc_frame(p, cw));
}

/// Frames that agree on their first 91 bits agree on the CRC check.
proof fn lemma_crc_ok_same(p: Protocol, x: Seq<u8>, c: Seq<u8>)
    requires
        spec_is_ft8(p),
        x.len() == 12,
        c.len() == 12,
        forall|t: int| 0 <= t < 91 ==> #[trigger] bit_of(x, t) == bit_of(c, t),
    ensures
        spec_crc_read(p, x) == spec_crc_read(p, c),
        spec_crc_compute(p, x) == spec_crc_compute(p, c),
{
    lemma_crc_read_same(x, c, 77, 91);
    let pad = p.crc_params.spec_prepad() as int;
    assert(crate::crc::padded_payload_bits(x, 77, pad, 11) =~= crate::crc::padded_payload_bits(c, 77, pad, 11));
}

/// A frame that agrees with the CRC frame of a loop-back payload on its
/// first 91 bits passes the CRC check and strips back to the payload.
proof fn lemma_crc_layer_loop(p: Protocol, cw: Seq<u8>, x: Seq<u8>)
    requires
        spec_is_ft8(p),
        loopback_payload(p, cw),
        x.len() == 12,
        forall|t: int| 0 <= t < 91 ==> #[trigger] bit_of(x, t) == bit_of(spec_crc_frame(p, cw), t),
    ensures
        crc_ok(p, x),
        spec_crc_strip(p, x) == cw,
{
    let c = spec_crc_frame(p, cw);
    let crc = spec_crc_compute(p, cw);
    lemma_crc_frame_bits(p, cw);
    lemma_crc_ok_same(p, x, c);
    assert(crc_ok(p, x)) by {
        reveal(crc_ok);
    }
    reveal(spec_crc_strip);
    let s = spec_crc_strip(p, x);
    crate::bits::lemma_bytes_of_bits(10, |t: int| spec_crc_remove_bit(p, x, t));
    assert forall|t: int| 0 <= t < 80 implies #[trigger] bit_of(s, t) == bit_of(cw, t) by {
        assert(bit_of(s, t) == spec_crc_remove_bit(p, x, t));
        if t < 77 || t == 79 {
            assert(bit_of(c, t) == spec_crc_store_bit(p, crc, cw, t));
        }
    }
    crate::bits::lemma_bytes_eq_from_bits(s, cw);
}

/// The first twelve bytes of a codeword are its frame, but for the parity
/// bits that share the last byte.
proof fn lemma_ecc_frame_bits(m: Modem, c: Seq<u8>)
    requires modem_wf(m), c.len() == 12,
    ensures
        spec_ecc_codeword(m, c).len() == 22,
        forall|t: int| 0 <= t < 91 ==> #[trigger] bit_of(spec_ecc_codeword(m, c).subrange(0, 12), t) == bit_of(c, t),
        forall|t: int| 174 <= t < 176 ==> !#[trigger] bit_of(spec_ecc_codeword(m, c), t),
{
    reveal(spec_ecc_codeword);
    let e = spec_ecc_codeword(m, c);
    assert(spec_bytes_for(174) == 22);
    crate::bits::lemma_bytes_of_bits(22, |t: int| spec_ecc_encode_bit(m.protocol, m.generator@, c, t));
    assert forall|t: int| 0 <= t < 91 implies #[trigger] bit_of(e.subrange(0, 12), t) == bit_of(c, t) by {
        assert(e.subrange(0, 12)[t / 8] == e[t / 8]);
        assert(bit_of(e, t) == spec_ecc_encode_bit(m.protocol, m.generator@, c, t));
    }
    assert forall|t: int| 174 <= t < 176 implies !#[trigger] bit_of(e, t) by {
        assert(bit_of(e, t) == spec_ecc_encode_bit(m.protocol, m.generator@, c, t));
    }
}

/// Gray decoding gives back the codeword that Gray encoding was given.
proof fn lemma_gray_layer_loop(m: Modem, e: Seq<u8>)
    requires
        modem_wf(m),
        e.len() == 22,
        forall|t: int| 174 <= t < 176 ==> !#[trigger] bit_of(e, t),
    ensures
        spec_gray_codeword(m.protocol, spec_gray_encode(m.protocol.gray_map@, e, 58)) == e,
{
    reveal(spec_gray_codeword);
    let p = m.protocol;
    let tones = spec_gray_encode(p.gray_map@, e, 58);
    assert forall|v: int| 0 <= v < 8 implies #[trigger] p.gray_map@[v] < 8 && p.gray_rmap@[p.gray_map@[v] as int] == v by {
        assert(p.gray_map@ == seq![0u8, 1, 3, 2, 5, 6, 4, 7]);
        assert(p.gray_rmap@ == seq![0u8, 1, 3, 2, 6, 4, 5, 7]);
    }
    crate::gray::law_gray_roundtrip(p.gray_map@, p.gray_rmap@, e, 58);
    let d = spec_gray_codeword(p, tones);
    crate::bits::lemma_bytes_of_bits(22, |t: int| spec_gray_decode_bit(p.gray_rmap@, tones, 58, t));
    crate::bits::lemma_bytes_eq_from_bits(d, e);
}

/// The loop-back law of the layer stack: a payload sent down from the top
/// layer and looped back at any layer from the top (`ttl` 0) to the channel
/// tones (`ttl` 5) comes back up unchanged, when the LDPC tables agree and
/// the payload's padding bits (and the CRC bit the CRC layer leaves in them)
/// are zero.
pub proof fn law_loopback(m: Modem, cw: Seq<u8>, ttl: int)
    requires
        modem_wf(m),
        code_consistent(m),
        loopback_payload(m.protocol, cw),
        0 <= ttl <= 5,
    ensures
        spec_l5_outbound(m, ttl, cw) == Ok::<Seq<u8>, XxxError>(cw),
{
    let p = m.protocol;
    let c = spec_crc_frame(p, cw);
    assert(c.len() == 12) by {
        reveal(spec_crc_frame);
    }
    lemma_crc_layer_loop(p, cw, c);
    if ttl >= 2 {
        let e = spec_ecc_codeword(m, c);
        lemma_ecc_frame_bits(m, c);
        lemma_crc_layer_loop(p, cw, e.subrange(0, 12));
        assert(ecc_ok(m, e));
        if ttl >= 3 {
            let tones = spec_gray_encode(p.gray_map@, e, 58);
            lemma_gray_layer_loop(m, e);
            if ttl >= 4 {
                crate::sync::lemma_data_before_79();
                crate::sync::law_sync_roundtrip(p.costas_pattern@, tones, 79);
                assert(tones.subrange(0, 58) =~= tones);
            }
        }
    }
}

} // verus!
