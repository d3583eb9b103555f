use vstd::prelude::*;

use crate::units::{BitCount, BitMap, ByteCount, CrcParams, RepeatCount, SymbolCount, bits2bytes, spec_bytes_for};

verus! {

/// The integer framing parameters of a protocol of the FT8 family: symbol
/// counts, Costas sync pattern, LDPC dimensions, Gray map and CRC parameters.
/// (Timing in seconds is floating point and lives with the application.)
#[derive(Debug, Clone, Copy)]
pub struct Protocol {
    pub slot_time_locked: bool,
    pub token_bits: BitCount,
    pub nd: SymbolCount,
    pub total_symbols_nn: SymbolCount,
    pub length_sync: SymbolCount,
    pub num_sync: RepeatCount,
    pub length_ramp: SymbolCount,
    pub sync_offset: SymbolCount,
    pub costas_pattern: [u8; 7],
    pub ldpc_n: BitCount,
    pub ldpc_k: BitCount,
    pub gray_map: [u8; 8],
    pub gray_rmap: [u8; 8],
    pub crc_params: CrcParams,
    pub ramp_symbols: SymbolCount,
}

/// Number of payload bits that are not CRC bits.
pub open spec fn spec_ldpc_p(p: Protocol) -> int {
    p.ldpc_k.0 - p.crc_params.spec_width()
}

impl Protocol {
    /// Gathers the framing parameters of a protocol.
    pub fn new(
        slot_time_locked: bool,
        token_bits: BitCount,
        nd: SymbolCount,
        total_symbols_nn: SymbolCount,
        length_sync: SymbolCount,
        num_sync: RepeatCount,
        length_ramp: SymbolCount,
        sync_offset: SymbolCount,
        costas_pattern: [u8; 7],
        ldpc_n: BitCount,
        ldpc_k: BitCount,
        gray_map: [u8; 8],
        gray_rmap: [u8; 8],
        crc_params: CrcParams,
        ramp_symbols: SymbolCount,
    ) -> (r: Protocol)
        ensures
            r == (Protocol {
                slot_time_locked,
                token_bits,
                nd,
                total_symbols_nn,
                length_sync,
                num_sync,
                length_ramp,
                sync_offset,
                costas_pattern,
                ldpc_n,
                ldpc_k,
                gray_map,
                gray_rmap,
                crc_params,
                ramp_symbols,
            }),
    {
        Protocol {
            slot_time_locked,
            token_bits,
            nd,
            total_symbols_nn,
            length_sync,
            num_sync,
            length_ramp,
            sync_offset,
            costas_pattern,
            ldpc_n,
            ldpc_k,
            gray_map,
            gray_rmap,
            crc_params,
            ramp_symbols,
        }
    }

    pub fn _slot_time_locked(&self) -> (r: bool)
        ensures r == self.slot_time_locked,
    {
        self.slot_time_locked
    }

    pub fn token_bits(&self) -> (r: BitCount)
        ensures r == self.token_bits,
    {
        self.token_bits
    }

    /// Number of tones: two to the power of the bits per symbol.
    pub fn token_tones(&self) -> (r: RepeatCount)
        requires
            self.token_bits.0 < 64,
            self.token_bits.0 < usize::BITS,
        ensures
            r.0 == vstd::arithmetic::power2::pow2(self.token_bits.0 as nat),
    {
        let r = 1usize << self.token_bits.0;
        proof {
            vstd::bits::lemma_usize_pow2_no_overflow(self.token_bits.0 as nat);
            vstd::bits::lemma_usize_shl_is_mul(1, self.token_bits.0);
        }
        RepeatCount(r)
    }

    pub fn nd(&self) -> (r: SymbolCount)
        ensures r == self.nd,
    {
        self.nd
    }

    pub fn total_symbols_nn(&self) -> (r: SymbolCount)
        ensures r == self.total_symbols_nn,
    {
        self.total_symbols_nn
    }

    /// Number of sync symbols: group length times number of groups.
    pub fn _ns(&self) -> (r: SymbolCount)
        requires self.length_sync.0 * self.num_sync.0 <= usize::MAX,
        ensures r.0 == self.length_sync.0 * self.num_sync.0,
    {
        SymbolCount(self.length_sync.0 * self.num_sync.0)
    }

    pub fn _length_sync(&self) -> (r: SymbolCount)
        ensures r == self.length_sync,
    {
        self.length_sync
    }

    pub fn num_sync(&self) -> (r: RepeatCount)
        ensures r == self.num_sync,
    {
        self.num_sync
    }

    pub fn _length_ramp(&self) -> (r: SymbolCount)
        ensures r == self.length_ramp,
    {
        self.length_ramp
    }

    pub fn sync_offset(&self) -> (r: SymbolCount)
        ensures r == self.sync_offset,
    {
        self.sync_offset
    }

    pub fn costas_pattern(&self) -> (r: [u8; 7])
        ensures r == self.costas_pattern,
    {
        self.costas_pattern
    }

    pub fn ldpc_n(&self) -> (r: BitCount)
        ensures r == self.ldpc_n,
    {
        self.ldpc_n
    }

    pub fn ldpc_k(&self) -> (r: BitCount)
        ensures r == self.ldpc_k,
    {
        self.ldpc_k
    }

    /// Number of payload bits without the CRC.
    pub fn _ldpc_p(&self) -> (r: BitCount)
        requires self.crc_params.spec_width() <= self.ldpc_k.0,
        ensures r.0 == spec_ldpc_p(*self),
    {
        BitCount(self.ldpc_k.0 - self.crc_params.width() as usize)
    }

    pub fn gray_map(&self) -> (r: [u8; 8])
        ensures r == self.gray_map,
    {
        self.gray_map
    }

    pub fn _gray_rmap(&self) -> (r: [u8; 8])
        ensures r == self.gray_rmap,
    {
        self.gray_rmap
    }

    pub fn _crc_pad_bits(&self) -> (r: BitCount)
        ensures r.0 == self.crc_params.spec_prepad(),
    {
        BitCount(self.crc_params.prepad())
    }

    pub fn _crc_polynomial(&self) -> (r: BitMap)
        ensures r.0 == self.crc_params.spec_poly(),
    {
        BitMap(self.crc_params.poly() as usize)
    }

    pub fn _crc_width(&self) -> (r: BitCount)
        ensures r.0 == self.crc_params.spec_width(),
    {
        BitCount(self.crc_params.width() as usize)
    }

    pub fn _crc_start(&self) -> (r: usize)
        ensures r == self.crc_params.spec_init(),
    {
        self.crc_params.init() as usize
    }

    pub fn _crc_xor(&self) -> (r: usize)
        ensures r == self.crc_params.spec_xorout(),
    {
        self.crc_params.xorout() as usize
    }

    /// Number of LDPC parity bits.
    pub fn ldpc_m(&self) -> (r: BitCount)
        requires self.ldpc_k.0 <= self.ldpc_n.0,
        ensures r.0 == self.ldpc_n.0 - self.ldpc_k.0,
    {
        BitCount(self.ldpc_n.0 - self.ldpc_k.0)
    }

    /// Bytes needed for a whole codeword.
    pub fn ldpc_n_bytes(&self) -> (r: ByteCount)
        ensures r.0 == spec_bytes_for(self.ldpc_n.0 as nat),
    {
        bits2bytes(self.ldpc_n)
    }

    /// Bytes needed for the payload with its CRC.
    pub fn _ldpc_k_bytes(&self) -> (r: ByteCount)
        ensures r.0 == spec_bytes_for(self.ldpc_k.0 as nat),
    {
        bits2bytes(self.ldpc_k)
    }

    /// Bytes needed for the payload alone.
    pub fn _ldpc_p_bytes(&self) -> (r: ByteCount)
        requires self.crc_params.spec_width() <= self.ldpc_k.0,
        ensures r.0 == spec_bytes_for(spec_ldpc_p(*self) as nat),
    {
        bits2bytes(self._ldpc_p())
    }

    /// Bytes needed for the payload followed by the CRC pad bits.
    pub fn _ldpc_p_padded_bytes(&self) -> (r: ByteCount)
        requires
            self.crc_params.spec_width() <= self.ldpc_k.0,
            spec_ldpc_p(*self) + self.crc_params.spec_prepad() <= usize::MAX,
        ensures
            r.0 == spec_bytes_for((spec_ldpc_p(*self) + self.crc_params.spec_prepad()) as nat),
    {
        bits2bytes(BitCount(self._ldpc_p().0 + self._crc_pad_bits().0))
    }
}

/// The FT8 protocol parameters (QEX July/August 2020, Franke et al).
pub open spec fn spec_is_ft8(p: Protocol) -> bool {
    &&& p.slot_time_locked
    &&& p.token_bits.0 == 3
    &&& p.nd.0 == 58
    &&& p.total_symbols_nn.0 == 79
    &&& p.length_sync.0 == 7
    &&& p.num_sync.0 == 3
    &&& p.length_ramp.0 == 0
    &&& p.sync_offset.0 == 36
    &&& p.costas_pattern@ == seq![3u8, 1, 4, 0, 6, 5, 2]
    &&& p.ldpc_n.0 == 174
    &&& p.ldpc_k.0 == 91
    &&& p.gray_map@ == seq![0u8, 1, 3, 2, 5, 6, 4, 7]
    &&& p.gray_rmap@ == seq![0u8, 1, 3, 2, 6, 4, 5, 7]
    &&& p.crc_params.spec_prepad() == 5
    &&& p.crc_params.spec_width() == 14
    &&& p.crc_params.spec_poly() == 0x2757
    &&& p.crc_params.spec_init() == 0
    &&& p.crc_params.spec_xorout() == 0
    &&& p.ramp_symbols.0 == 1
}

/// Whether a protocol has the FT8 parameters.
pub fn is_ft8(p: &Protocol) -> (r: bool)
    ensures
        r == spec_is_ft8(*p),
{
    let costas: [u8; 7] = [3, 1, 4, 0, 6, 5, 2];
    let gray: [u8; 8] = [0, 1, 3, 2, 5, 6, 4, 7];
    let rgray: [u8; 8] = [0, 1, 3, 2, 6, 4, 5, 7];
    let mut same_costas = true;
    let mut i: usize = 0;
    while i < 7
        invariant
            i <= 7,
            same_costas == forall|j: int| 0 <= j < i ==> p.costas_pattern@[j] == costas@[j],
        decreases 7 - i,
    {
        same_costas = same_costas && p.costas_pattern[i] == costas[i];
        i += 1;
    }
    let mut same_gray = true;
    let mut i: usize = 0;
    while i < 8
        invariant
            i <= 8,
            same_gray == forall|j: int| 0 <= j < i ==> p.gray_map@[j] == gray@[j] && p.gray_rmap@[j] == rgray@[j],
        decreases 8 - i,
    {
        same_gray = same_gray && p.gray_map[i] == gray[i] && p.gray_rmap[i] == rgray[i];
        i += 1;
    }
    proof {
        assert(costas@ =~= seq![3u8, 1, 4, 0, 6, 5, 2]);
        assert(gray@ =~= seq![0u8, 1, 3, 2, 5, 6, 4, 7]);
        assert(rgray@ =~= seq![0u8, 1, 3, 2, 6, 4, 5, 7]);
        if same_costas {
            assert(p.costas_pattern@ =~= costas@);
        }
        if same_gray {
            assert(p.gray_map@ =~= gray@);
            assert(p.gray_rmap@ =~= rgray@);
        }
    }
    p.slot_time_locked && p.token_bits.0 == 3 && p.nd.0 == 58 && p.total_symbols_nn.0 == 79
        && p.length_sync.0 == 7 && p.num_sync.0 == 3 && p.length_ramp.0 == 0 && p.sync_offset.0 == 36
        && same_costas && p.ldpc_n.0 == 174 && p.ldpc_k.0 == 91 && same_gray
        && p.crc_params.prepad() == 5 && p.crc_params.width() == 14 && p.crc_params.poly() == 0x2757
        && p.crc_params.init() == 0 && p.crc_params.xorout() == 0 && p.ramp_symbols.0 == 1
}

/// The FT8 protocol.
pub fn ft8() -> (r: Protocol)
    ensures spec_is_ft8(r),
{
    let r = Protocol::new(
        true,
        BitCount(3),
        SymbolCount(58),
        SymbolCount(79),
        SymbolCount(7),
        RepeatCount(3),
        SymbolCount(0),
        SymbolCount(36),
        [3, 1, 4, 0, 6, 5, 2],
        BitCount(174),
        BitCount(91),
        [0, 1, 3, 2, 5, 6, 4, 7],
        [0, 1, 3, 2, 6, 4, 5, 7],
        CrcParams::new(BitCount(5), BitMap(0x2757), BitCount(14), 0, 0),
        SymbolCount(1),
    );
    assert(r.costas_pattern@ =~= seq![3u8, 1, 4, 0, 6, 5, 2]);
    assert(r.gray_map@ =~= seq![0u8, 1, 3, 2, 5, 6, 4, 7]);
    assert(r.gray_rmap@ =~= seq![0u8, 1, 3, 2, 6, 4, 5, 7]);
    r
}

} // verus!
