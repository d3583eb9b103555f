use vstd::prelude::*;

use crate::protocol::Protocol;

verus! {

/// Whether channel symbol `i` belongs to one of the three Costas sync groups
/// (symbols 0..7, 36..43 and 72..79 of the frame S7 D29 S7 D29 S7).
pub open spec fn is_sync_pos(i: int) -> bool {
    (0 <= i < 7) || (36 <= i < 43) || (72 <= i < 79)
}

/// First symbol of the sync group that holds symbol `i`.
pub open spec fn sync_base(i: int) -> int {
    if i < 7 { 0 } else if i < 43 { 36 } else { 72 }
}

/// Number of sync symbols among the first `i` channel symbols of a group starting at `base`.
pub open spec fn sync_in_group(i: int, base: int) -> int {
    if i <= base { 0 } else if i >= base + 7 { 7 } else { i - base }
}

/// Number of data symbols among channel symbols `0..i`.
pub open spec fn data_before(i: int) -> int {
    i - sync_in_group(i, 0) - sync_in_group(i, 36) - sync_in_group(i, 72)
}

pub proof fn lemma_data_before_79()
    ensures data_before(79) == 58,
{
}

/// Channel position of data symbol `k`.
pub open spec fn data_pos(k: int) -> int {
    if k < 29 { k + 7 } else if k < 58 { k + 14 } else { k + 21 }
}

pub proof fn lemma_data_pos(k: int)
    requires 0 <= k,
    ensures
        !is_sync_pos(data_pos(k)),
        data_before(data_pos(k)) == k,
        data_pos(k) >= 0,
{
}

pub proof fn lemma_data_before_of_data(i: int)
    requires 0 <= i, !is_sync_pos(i),
    ensures
        data_pos(data_before(i)) == i,
        0 <= data_before(i),
{
}

pub proof fn lemma_data_before_step(i: int)
    requires 0 <= i,
    ensures
        0 <= data_before(i) <= i,
        data_before(i + 1) == data_before(i) + (if is_sync_pos(i) { 0int } else { 1int }),
{
}

/// The channel symbols that `sync_insert` produces.
pub open spec fn spec_sync_insert(costas: Seq<u8>, data: Seq<u8>, nn: int) -> Seq<u8> {
    Seq::new(nn as nat, |i: int| if is_sync_pos(i) { costas[i - sync_base(i)] } else { data[data_before(i)] })
}

/// The data symbols that `sync_remove` keeps.
pub open spec fn spec_sync_remove(tones: Seq<u8>, nn: int) -> Seq<u8> {
    let upto = if tones.len() < nn { tones.len() as int } else { nn };
    Seq::new(data_before(upto) as nat, |k: int| tones[data_pos(k)])
}

/// Interleaves the data tones with the three Costas sync groups to form the
/// channel symbols of one frame.
pub fn sync_insert(protocol: &Protocol, l2_tones: &[u8]) -> (l0_tones: Vec<u8>)
    requires
        protocol.length_ramp.0 == 0,
        l2_tones@.len() >= data_before(protocol.total_symbols_nn.0 as int),
    ensures
        l0_tones@ == spec_sync_insert(protocol.costas_pattern@, l2_tones@, protocol.total_symbols_nn.0 as int),
{
    let nn = protocol.total_symbols_nn.0;
    let costas = protocol.costas_pattern;
    let mut l0_tones: Vec<u8> = Vec::new();
    let mut in_tone: usize = 0;
    let mut i_tone: usize = 0;
    while i_tone < nn
        invariant
            i_tone <= nn,
            nn == protocol.total_symbols_nn.0,
            costas == protocol.costas_pattern,
            l2_tones@.len() >= data_before(nn as int),
            in_tone == data_before(i_tone as int),
            l0_tones@ == spec_sync_insert(costas@, l2_tones@, i_tone as int),
        decreases nn - i_tone,
    {
        proof {
            lemma_data_before_step(i_tone as int);
        }
        if i_tone < 7 {
            l0_tones.push(costas[i_tone]);
        } else if 36 <= i_tone && i_tone < 43 {
            l0_tones.push(costas[i_tone - 36]);
        } else if 72 <= i_tone && i_tone < 79 {
            l0_tones.push(costas[i_tone - 72]);
        } else {
            proof {
                lemma_data_before_step(nn as int);
                assert(data_before(i_tone as int + 1) <= data_before(nn as int)) by {
                    lemma_data_before_monotone(i_tone as int + 1, nn as int);
                }
            }
            l0_tones.push(l2_tones[in_tone]);
            in_tone += 1;
        }
        i_tone += 1;
        assert(l0_tones@ =~= spec_sync_insert(costas@, l2_tones@, i_tone as int));
    }
    l0_tones
}

pub proof fn lemma_data_before_monotone(a: int, b: int)
    requires 0 <= a <= b,
    ensures data_before(a) <= data_before(b),
{
}

/// Drops the sync symbols from the channel symbols of one frame, keeping the data tones.
pub fn sync_remove(protocol: &Protocol, l0_tones: &[u8]) -> (l2_tones: Vec<u8>)
    requires protocol.length_ramp.0 == 0,
    ensures l2_tones@ == spec_sync_remove(l0_tones@, protocol.total_symbols_nn.0 as int),
{
    let nn = protocol.total_symbols_nn.0;
    let upto = if l0_tones.len() < nn { l0_tones.len() } else { nn };
    let mut l2_tones: Vec<u8> = Vec::new();
    let mut i: usize = 0;
    while i < upto
        invariant
            i <= upto,
            upto <= l0_tones@.len(),
            l2_tones@.len() == data_before(i as int),
            forall|k: int| 0 <= k < l2_tones@.len() ==> #[trigger] l2_tones@[k] == l0_tones@[data_pos(k)],
        decreases upto - i,
    {
        proof {
            lemma_data_before_step(i as int);
        }
        if i < 7 {
        } else if 36 <= i && i < 43 {
        } else if 72 <= i && i < 79 {
        } else {
            proof {
                lemma_data_before_of_data(i as int);
            }
            l2_tones.push(l0_tones[i]);
        }
        i += 1;
    }
    assert(l2_tones@ =~= spec_sync_remove(l0_tones@, nn as int));
    l2_tones
}

/// Removing the sync symbols undoes inserting them: the data tones come back.
pub proof fn law_sync_roundtrip(costas: Seq<u8>, data: Seq<u8>, nn: int)
    requires
        0 <= nn,
        data.len() >= data_before(nn),
    ensures
        spec_sync_remove(spec_sync_insert(costas, data, nn), nn) == data.subrange(0, data_before(nn)),
{
    let ins = spec_sync_insert(costas, data, nn);
    lemma_data_before_step(nn);
    assert forall|k: int| 0 <= k < data_before(nn) implies #[trigger] spec_sync_remove(ins, nn)[k] == data[k] by {
        lemma_data_pos(k);
        lemma_data_before_of_data(data_pos(k));
        if data_pos(k) >= nn {
            lemma_data_before_monotone(nn, data_pos(k));
        }
    }
    assert(spec_sync_remove(ins, nn) =~= data.subrange(0, data_before(nn)));
}

/// Channel symbol read for data symbol `k` by the receiver: `k + 7` in the
/// first data group and `k + 14` after it.
pub open spec fn data_symbol(k: int) -> int {
    if k < 29 { k + 7 } else { k + 14 }
}

/// The waterfall lines that hold the `nd` data symbols of a frame whose
/// first symbol is at line `time_index`, with `time_osr` lines per symbol.
pub fn data_symbol_lines(time_index: usize, time_osr: usize, nd: usize) -> (r: Vec<usize>)
    requires
        nd + 14 <= usize::MAX,
        time_index + (nd + 14) * time_osr <= usize::MAX,
    ensures
        r@.len() == nd,
        forall|k: int| 0 <= k < nd ==> r@[k] == time_index + data_symbol(k) * time_osr,
{
    let mut r: Vec<usize> = Vec::new();
    let mut k: usize = 0;
    while k < nd
        invariant
            k <= nd,
            nd + 14 <= usize::MAX,
            time_index + (nd + 14) * time_osr <= usize::MAX,
            r@.len() == k,
            forall|j: int| 0 <= j < k ==> r@[j] == time_index + data_symbol(j) * time_osr,
        decreases nd - k,
    {
        let sym: usize = if k < 29 { k + 7 } else { k + 14 };
        assert(sym * time_osr <= (nd + 14) * time_osr) by (nonlinear_arith)
            requires
                sym <= nd + 14,
        ;
        r.push(time_index + sym * time_osr);
        k += 1;
    }
    r
}

/// The layout of an FT8 frame, S7 D29 S7 D29 S7: inserting the sync groups
/// puts the Costas pattern at channel symbols 0..7, 36..43 and 72..79, data
/// tone `k` at channel symbol `k + 7` for `k < 29` and at `k + 14` for
/// `29 <= k < 58`, in order; removing the sync groups reads the data tones
/// back from the same places.
pub proof fn law_sync_layout(costas: Seq<u8>, data: Seq<u8>, tones: Seq<u8>)
    requires
        costas.len() == 7,
        data.len() >= 58,
        tones.len() >= 79,
    ensures
        spec_sync_insert(costas, data, 79).len() == 79,
        forall|i: int| 0 <= i < 7 ==> #[trigger] spec_sync_insert(costas, data, 79)[i] == costas[i],
        forall|i: int| 0 <= i < 7 ==> #[trigger] spec_sync_insert(costas, data, 79)[36 + i] == costas[i],
        forall|i: int| 0 <= i < 7 ==> #[trigger] spec_sync_insert(costas, data, 79)[72 + i] == costas[i],
        forall|k: int| 0 <= k < 29 ==> #[trigger] spec_sync_insert(costas, data, 79)[k + 7] == data[k],
        forall|k: int| 29 <= k < 58 ==> #[trigger] spec_sync_insert(costas, data, 79)[k + 14] == data[k],
        spec_sync_remove(tones, 79).len() == 58,
        forall|k: int| 0 <= k < 29 ==> #[trigger] spec_sync_remove(tones, 79)[k] == tones[k + 7],
        forall|k: int| 29 <= k < 58 ==> #[trigger] spec_sync_remove(tones, 79)[k] == tones[k + 14],
{
    lemma_data_before_79();
    assert forall|k: int| 0 <= k < 29 implies #[trigger] spec_sync_insert(costas, data, 79)[k + 7] == data[k] by {
        lemma_data_pos(k);
    }
    assert forall|k: int| 29 <= k < 58 implies #[trigger] spec_sync_insert(costas, data, 79)[k + 14] == data[k] by {
        lemma_data_pos(k);
    }
}

} // verus!
