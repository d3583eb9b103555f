use vstd::prelude::*;

use crate::bits::{bit_of, get_bit, set_bit, zero_bytes, lemma_zero_byte_bits};
use crate::protocol::Protocol;
use crate::units::spec_bytes_for;

verus! {

/// The 3-bit group that tone `i` carries: codeword bits `3i`, `3i+1`, `3i+2`, most significant first.
pub open spec fn bits3_at(cw: Seq<u8>, i: int) -> int {
    (if bit_of(cw, 3 * i) { 4int } else { 0int })
        + (if bit_of(cw, 3 * i + 1) { 2int } else { 0int })
        + (if bit_of(cw, 3 * i + 2) { 1int } else { 0int })
}

/// Bit `j` (0 = most significant of three) of a 3-bit group.
pub open spec fn bit_of3(v: u8, j: int) -> bool {
    if j == 0 { (v & 4u8) != 0u8 } else if j == 1 { (v & 2u8) != 0u8 } else { (v & 1u8) != 0u8 }
}

/// The tones that `gray_encode` produces for `nd` data symbols.
pub open spec fn spec_gray_encode(map: Seq<u8>, cw: Seq<u8>, nd: int) -> Seq<u8> {
    Seq::new(nd as nat, |i: int| map[bits3_at(cw, i)])
}

/// Number of tones that `gray_decode` reads.
pub open spec fn gray_decode_count(tones: Seq<u8>, nd: int) -> int {
    if tones.len() < nd { tones.len() as int } else { nd }
}

/// Bit `t` of the codeword that `gray_decode` rebuilds.
pub open spec fn spec_gray_decode_bit(rmap: Seq<u8>, tones: Seq<u8>, nd: int, t: int) -> bool {
    t < 3 * gray_decode_count(tones, nd) && bit_of3(rmap[tones[t / 3] as int], t % 3)
}

/// Maps each group of three codeword bits (most significant first) to a tone
/// through the protocol's Gray map, so that neighbouring tones differ in one bit.
pub fn gray_encode(protocol: &Protocol, codeword: &[u8]) -> (l2_tones: Vec<u8>)
    requires
        3 * protocol.nd.0 <= 8 * codeword@.len(),
        3 * protocol.nd.0 <= usize::MAX,
    ensures l2_tones@ == spec_gray_encode(protocol.gray_map@, codeword@, protocol.nd.0 as int),
{
    let nd = protocol.nd.0;
    let map = protocol.gray_map;
    let mut l2_tones: Vec<u8> = Vec::new();
    let mut i: usize = 0;
    while i < nd
        invariant
            i <= nd,
            nd == protocol.nd.0,
            map == protocol.gray_map,
            3 * nd <= 8 * codeword@.len(),
            3 * nd <= usize::MAX,
            l2_tones@ == spec_gray_encode(map@, codeword@, i as int),
        decreases nd - i,
    {
        let mut bits3: usize = 0;
        if get_bit(codeword, 3 * i) {
            bits3 += 4;
        }
        if get_bit(codeword, 3 * i + 1) {
            bits3 += 2;
        }
        if get_bit(codeword, 3 * i + 2) {
            bits3 += 1;
        }
        assert(bits3 == bits3_at(codeword@, i as int));
        l2_tones.push(map[bits3]);
        i += 1;
        assert(l2_tones@ =~= spec_gray_encode(map@, codeword@, i as int));
    }
    l2_tones
}

/// Maps each tone back to its three codeword bits through the inverse Gray
/// map; the codeword has `ldpc_n_bytes` bytes and bits past the tones are zero.
pub fn gray_decode(protocol: &Protocol, l2_tones: &[u8]) -> (codeword: Vec<u8>)
    requires
        forall|i: int| 0 <= i < gray_decode_count(l2_tones@, protocol.nd.0 as int) ==> #[trigger] l2_tones@[i] < 8,
        3 * gray_decode_count(l2_tones@, protocol.nd.0 as int) <= 8 * spec_bytes_for(protocol.ldpc_n.0 as nat),
        3 * gray_decode_count(l2_tones@, protocol.nd.0 as int) <= usize::MAX,
    ensures
        codeword@.len() == spec_bytes_for(protocol.ldpc_n.0 as nat),
        forall|t: int| 0 <= t < 8 * codeword@.len() ==>
            #[trigger] bit_of(codeword@, t) == spec_gray_decode_bit(protocol.gray_rmap@, l2_tones@, protocol.nd.0 as int, t),
{
    let nbytes = protocol.ldpc_n_bytes().0;
    let nd = protocol.nd.0;
    let rmap = protocol.gray_rmap;
    let upto = if l2_tones.len() < nd { l2_tones.len() } else { nd };
    let mut codeword = zero_bytes(nbytes);
    proof {
        assert forall|t: int| 0 <= t < 8 * codeword@.len() implies !#[trigger] bit_of(codeword@, t) by {
            lemma_zero_byte_bits(codeword@, t);
        }
    }
    let mut i: usize = 0;
    while i < upto
        invariant
            i <= upto,
            upto == gray_decode_count(l2_tones@, nd as int),
            nd == protocol.nd.0,
            rmap == protocol.gray_rmap,
            codeword@.len() == nbytes,
            nbytes == spec_bytes_for(protocol.ldpc_n.0 as nat),
            3 * upto <= 8 * nbytes,
            3 * upto <= usize::MAX,
            forall|j: int| 0 <= j < upto ==> #[trigger] l2_tones@[j] < 8,
            forall|t: int| 0 <= t < 8 * nbytes ==>
                #[trigger] bit_of(codeword@, t) == (t < 3 * i && bit_of3(rmap@[l2_tones@[t / 3] as int], t % 3)),
        decreases upto - i,
    {
        let bits3 = rmap[l2_tones[i] as usize];
        let ghost before = codeword@;
        set_bit(&mut codeword, 3 * i, (bits3 & 4u8) != 0u8);
        set_bit(&mut codeword, 3 * i + 1, (bits3 & 2u8) != 0u8);
        set_bit(&mut codeword, 3 * i + 2, (bits3 & 1u8) != 0u8);
        proof {
            assert forall|t: int| 0 <= t < 8 * nbytes implies
                #[trigger] bit_of(codeword@, t) == (t < 3 * (i + 1) && bit_of3(rmap@[l2_tones@[t / 3] as int], t % 3)) by {
                if t == 3 * i || t == 3 * i + 1 || t == 3 * i + 2 {
                    assert(t / 3 == i as int);
                } else {
                    assert(bit_of(codeword@, t) == bit_of(before, t));
                }
            }
        }
        i += 1;
    }
    codeword
}

/// Gray decoding undoes Gray encoding: a codeword of `ldpc_n_bytes` bytes whose
/// bits past the `3 * nd` carried bits are zero comes back unchanged, provided
/// the inverse map undoes the map on the eight 3-bit values.
pub proof fn law_gray_roundtrip(map: Seq<u8>, rmap: Seq<u8>, cw: Seq<u8>, nd: int)
    requires
        map.len() == 8,
        rmap.len() == 8,
        forall|v: int| 0 <= v < 8 ==> #[trigger] map[v] < 8 && rmap[map[v] as int] == v,
        0 <= nd,
        3 * nd <= 8 * cw.len(),
        forall|t: int| 3 * nd <= t < 8 * cw.len() ==> !#[trigger] bit_of(cw, t),
    ensures
        forall|t: int| 0 <= t < 8 * cw.len() ==>
            #[trigger] spec_gray_decode_bit(rmap, spec_gray_encode(map, cw, nd), nd, t) == bit_of(cw, t),
{
    let tones = spec_gray_encode(map, cw, nd);
    assert forall|t: int| 0 <= t < 8 * cw.len() implies
        #[trigger] spec_gray_decode_bit(rmap, tones, nd, t) == bit_of(cw, t) by {
        if t < 3 * nd {
            let i = t / 3;
            let v = bits3_at(cw, i);
            assert(0 <= v < 8);
            assert(tones[i] == map[v]);
            assert(rmap[tones[i] as int] == v);
            let vv = v as u8;
            assert(bit_of3(vv, 0) == (vv >= 4)) by (bit_vector)
                requires vv < 8u8;
            assert(bit_of3(vv, 1) == (vv % 4 >= 2)) by (bit_vector)
                requires vv < 8u8;
            assert(bit_of3(vv, 2) == (vv % 2 == 1)) by (bit_vector)
                requires vv < 8u8;
        }
    }
}

} // verus!
