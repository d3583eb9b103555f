use vstd::prelude::*;

use crate::bits::{bit_of, byte_bit, get_bit, set_bit, zero_bytes, lemma_zero_byte_bits, lemma_bit_of_byte};
use crate::crc::bits_of_bytes;
use crate::protocol::Protocol;
use crate::units::{XxxError, spec_bytes_for};

verus! {

/// The parity of a byte: 1 when an odd number of its bits are set.
pub open spec fn parity8_spec(x: u8) -> u8 {
    ((x ^ (x >> 1u8) ^ (x >> 2u8) ^ (x >> 3u8) ^ (x >> 4u8) ^ (x >> 5u8) ^ (x >> 6u8) ^ (x >> 7u8)) & 1u8) as u8
}

/// Returns 1 if an odd number of bits are set in x, zero otherwise.
pub fn _ecc_parity8(x: u8) -> (r: u8)
    ensures r == parity8_spec(x), r < 2,
{
    let mut x = x;
    let ghost x0 = x;
    x ^= x >> 4u8;
    x ^= x >> 2u8;
    x ^= x >> 1u8;
    assert(x % 2 == parity8_spec(x0) && x % 2 < 2) by (bit_vector)
        requires x == ({
            let a = x0 ^ (x0 >> 4u8);
            let b = a ^ (a >> 2u8);
            b ^ (b >> 1u8)
        });
    x % 2
}

/// The parity (0 or 1) of the bitwise product of the first `j` bytes of a
/// message with a row of the generator matrix.
pub open spec fn row_dot_parity(cw: Seq<u8>, row: Seq<u8>, j: int) -> u8
    decreases j,
{
    if j <= 0 { 0u8 } else { (row_dot_parity(cw, row, j - 1) ^ parity8_spec(cw[j - 1] & row[j - 1])) as u8 }
}

pub proof fn lemma_row_dot_parity_bit(cw: Seq<u8>, row: Seq<u8>, j: int)
    ensures row_dot_parity(cw, row, j) < 2,
    decreases j,
{
    if j > 0 {
        lemma_row_dot_parity_bit(cw, row, j - 1);
        let a = row_dot_parity(cw, row, j - 1);
        let x = cw[j - 1] & row[j - 1];
        assert(((a ^ parity8_spec(x)) as u8) < 2u8) by (bit_vector)
            requires a < 2u8;
    }
}

/// Number of generator rows that `ecc_encode` uses.
pub open spec fn encode_rows(protocol: Protocol, generator: Seq<Vec<u8>>) -> int {
    let m = protocol.ldpc_n.0 - protocol.ldpc_k.0;
    if generator.len() < m { generator.len() as int } else { m }
}

/// Number of message bytes that `ecc_encode` multiplies with each row.
pub open spec fn encode_cols(protocol: Protocol, cw: Seq<u8>) -> int {
    let kb = spec_bytes_for(protocol.ldpc_k.0 as nat) as int;
    if cw.len() < kb { cw.len() as int } else { kb }
}

/// Bit `t` of the codeword that `ecc_encode` produces: the message (padded
/// with zeros to `ldpc_n_bytes`), with parity bit `k + i` set when the message
/// has odd parity against generator row `i`.
pub open spec fn spec_ecc_encode_bit(protocol: Protocol, generator: Seq<Vec<u8>>, cw: Seq<u8>, t: int) -> bool {
    let k = protocol.ldpc_k.0 as int;
    let nb = spec_bytes_for(protocol.ldpc_n.0 as nat) as int;
    if k <= t < k + encode_rows(protocol, generator)
        && row_dot_parity(cw, generator[t - k]@, encode_cols(protocol, cw)) == 1 {
        true
    } else {
        t < 8 * cw.len() && t < 8 * nb && bit_of(cw, t)
    }
}

/// The GF(2) dot product of the first `t` bits of a generator row with the
/// first `t` bits of a message: whether an odd number of bit positions below
/// `t` are set in both.
pub open spec fn bit_dot(row: Seq<u8>, msg: Seq<u8>, t: int) -> bool
    decreases t,
{
    if t <= 0 { false } else { bit_dot(row, msg, t - 1) != (bit_of(row, t - 1) && bit_of(msg, t - 1)) }
}

proof fn lemma_parity8_and(x: u8, y: u8)
    ensures
        (parity8_spec(x & y) == 1) == ((((((((byte_bit(x, 0) && byte_bit(y, 0)) != (byte_bit(x, 1) && byte_bit(y, 1)))
            != (byte_bit(x, 2) && byte_bit(y, 2))) != (byte_bit(x, 3) && byte_bit(y, 3)))
            != (byte_bit(x, 4) && byte_bit(y, 4))) != (byte_bit(x, 5) && byte_bit(y, 5)))
            != (byte_bit(x, 6) && byte_bit(y, 6))) != (byte_bit(x, 7) && byte_bit(y, 7))),
{
    let z = x & y;
    assert((((z ^ (z >> 1u8) ^ (z >> 2u8) ^ (z >> 3u8) ^ (z >> 4u8) ^ (z >> 5u8) ^ (z >> 6u8) ^ (z >> 7u8)) & 1u8) == 1u8)
        == ((((((((((x >> 7u8) & 1u8 == 1u8) && ((y >> 7u8) & 1u8 == 1u8)) != (((x >> 6u8) & 1u8 == 1u8) && ((y >> 6u8) & 1u8 == 1u8)))
            != (((x >> 5u8) & 1u8 == 1u8) && ((y >> 5u8) & 1u8 == 1u8))) != (((x >> 4u8) & 1u8 == 1u8) && ((y >> 4u8) & 1u8 == 1u8)))
            != (((x >> 3u8) & 1u8 == 1u8) && ((y >> 3u8) & 1u8 == 1u8))) != (((x >> 2u8) & 1u8 == 1u8) && ((y >> 2u8) & 1u8 == 1u8)))
            != (((x >> 1u8) & 1u8 == 1u8) && ((y >> 1u8) & 1u8 == 1u8))) != (((x >> 0u8) & 1u8 == 1u8) && ((y >> 0u8) & 1u8 == 1u8))))
        by (bit_vector)
        requires z == x & y;
}

/// The byte-wise parity sum of `ecc_encode` over the first `j` bytes is the
/// bit-wise dot product over their `8 * j` bits.
proof fn lemma_row_dot_parity_bits(cw: Seq<u8>, row: Seq<u8>, j: int)
    requires
        0 <= j <= cw.len(),
        j <= row.len(),
    ensures
        (row_dot_parity(cw, row, j) == 1) == bit_dot(row, cw, 8 * j),
    decreases j,
{
    if j > 0 {
        lemma_row_dot_parity_bits(cw, row, j - 1);
        lemma_row_dot_parity_bit(cw, row, j - 1);
        let b = 8 * (j - 1);
        lemma_parity8_and(cw[j - 1], row[j - 1]);
        assert forall|k: int| 0 <= k < 8 implies #[trigger] byte_bit(cw[j - 1], k) == bit_of(cw, b + k)
            && byte_bit(row[j - 1], k) == bit_of(row, b + k) by {
            lemma_bit_of_byte(cw, b + k);
            lemma_bit_of_byte(row, b + k);
            assert((b + k) / 8 == j - 1);
            assert((b + k) % 8 == k);
        }
        let a = row_dot_parity(cw, row, j - 1);
        let x = cw[j - 1] & row[j - 1];
        assert(((a ^ parity8_spec(x)) as u8 == 1u8) == ((a == 1u8) != (parity8_spec(x) == 1u8))) by (bit_vector)
            requires a < 2u8;
        reveal_with_fuel(bit_dot, 9);
    }
}

/// Message bits that are all zero add nothing to a dot product.
proof fn lemma_bit_dot_zero_tail(row: Seq<u8>, msg: Seq<u8>, k: int, t: int)
    requires
        0 <= k <= t,
        forall|u: int| k <= u < t ==> !#[trigger] bit_of(msg, u),
    ensures
        bit_dot(row, msg, t) == bit_dot(row, msg, k),
    decreases t - k,
{
    if t > k {
        lemma_bit_dot_zero_tail(row, msg, k, t - 1);
    }
}

/// LDPC encoding keeps the message bits and makes parity bit `k + i` the
/// GF(2) dot product of generator row `i` with all `k` message bits, for a
/// message of `ldpc_k_bytes` bytes whose bits past the first `k` are zero (as
/// the CRC layer leaves them).
pub proof fn law_ecc_encode_parity(protocol: Protocol, generator: Seq<Vec<u8>>, cw: Seq<u8>)
    requires
        protocol.ldpc_k.0 <= protocol.ldpc_n.0,
        cw.len() == spec_bytes_for(protocol.ldpc_k.0 as nat),
        forall|u: int| protocol.ldpc_k.0 <= u < 8 * cw.len() ==> !#[trigger] bit_of(cw, u),
        forall|i: int| 0 <= i < encode_rows(protocol, generator) ==> #[trigger] generator[i]@.len() >= cw.len(),
    ensures
        forall|t: int| 0 <= t < protocol.ldpc_k.0 ==>
            #[trigger] spec_ecc_encode_bit(protocol, generator, cw, t) == bit_of(cw, t),
        forall|i: int| 0 <= i < encode_rows(protocol, generator) ==>
            #[trigger] spec_ecc_encode_bit(protocol, generator, cw, protocol.ldpc_k.0 + i)
                == bit_dot(generator[i]@, cw, protocol.ldpc_k.0 as int),
{
    let k = protocol.ldpc_k.0 as int;
    assert(k <= 8 * cw.len());
    assert(spec_bytes_for(protocol.ldpc_k.0 as nat) <= spec_bytes_for(protocol.ldpc_n.0 as nat));
    assert(encode_cols(protocol, cw) == cw.len());
    assert forall|i: int| 0 <= i < encode_rows(protocol, generator) implies
        #[trigger] spec_ecc_encode_bit(protocol, generator, cw, k + i) == bit_dot(generator[i]@, cw, k) by {
        let row = generator[i]@;
        lemma_row_dot_parity_bits(cw, row, cw.len() as int);
        lemma_bit_dot_zero_tail(row, cw, k, 8 * cw.len() as int);
        if !(row_dot_parity(cw, row, cw.len() as int) == 1) {
            if k + i < 8 * cw.len() {
                assert(!bit_of(cw, k + i));
            }
        }
    }
}

/// Encodes a message (payload and CRC) into an LDPC codeword: the message
/// bits followed by the parity bits given by the generator matrix (one row of
/// message-length bytes per parity bit).
pub fn ecc_encode(protocol: &Protocol, generator: &Vec<Vec<u8>>, cw_crc: &[u8]) -> (cw_crc_ecc: Vec<u8>)
    requires
        protocol.ldpc_k.0 <= protocol.ldpc_n.0,
        8 * spec_bytes_for(protocol.ldpc_n.0 as nat) <= usize::MAX,
        forall|i: int| 0 <= i < encode_rows(*protocol, generator@) ==>
            #[trigger] generator@[i]@.len() >= encode_cols(*protocol, cw_crc@),
    ensures
        cw_crc_ecc@.len() == spec_bytes_for(protocol.ldpc_n.0 as nat),
        forall|t: int| 0 <= t < 8 * cw_crc_ecc@.len() ==>
            #[trigger] bit_of(cw_crc_ecc@, t) == spec_ecc_encode_bit(*protocol, generator@, cw_crc@, t),
{
    let nbytes = protocol.ldpc_n_bytes().0;
    let k = protocol.ldpc_k().0;
    let m = protocol.ldpc_m().0;
    let kbytes = protocol._ldpc_k_bytes().0;
    let rows = if generator.len() < m { generator.len() } else { m };
    let cols = if cw_crc.len() < kbytes { cw_crc.len() } else { kbytes };
    let mut out = zero_bytes(nbytes);
    let copy = if cw_crc.len() < nbytes { cw_crc.len() } else { nbytes };
    let mut i: usize = 0;
    while i < copy
        invariant
            i <= copy,
            copy <= cw_crc@.len(),
            copy <= nbytes,
            out@.len() == nbytes,
            forall|j: int| 0 <= j < i ==> #[trigger] out@[j] == cw_crc@[j],
            forall|j: int| i <= j < nbytes ==> #[trigger] out@[j] == 0u8,
        decreases copy - i,
    {
        out.set(i, cw_crc[i]);
        i += 1;
    }
    proof {
        assert forall|t: int| 0 <= t < 8 * nbytes implies
            #[trigger] bit_of(out@, t) == (t < 8 * cw_crc@.len() && t < 8 * nbytes && bit_of(cw_crc@, t)) by {
            if t >= 8 * copy {
                lemma_zero_byte_bits(out@, t);
            }
        }
    }
    let mut i: usize = 0;
    while i < rows
        invariant
            i <= rows,
            rows == encode_rows(*protocol, generator@),
            cols == encode_cols(*protocol, cw_crc@),
            cols <= cw_crc@.len(),
            k == protocol.ldpc_k.0,
            k + rows <= 8 * nbytes,
            nbytes == spec_bytes_for(protocol.ldpc_n.0 as nat),
            out@.len() == nbytes,
            forall|r: int| 0 <= r < rows ==> #[trigger] generator@[r]@.len() >= cols,
            forall|t: int| 0 <= t < 8 * nbytes ==>
                #[trigger] bit_of(out@, t) == (if k <= t < k + i && row_dot_parity(cw_crc@, generator@[t - k]@, cols as int) == 1 {
                    true
                } else {
                    t < 8 * cw_crc@.len() && t < 8 * nbytes && bit_of(cw_crc@, t)
                }),
        decreases rows - i,
    {
        let row = &generator[i];
        let mut nsum: u8 = 0;
        let mut j: usize = 0;
        while j < cols
            invariant
                j <= cols,
                cols <= cw_crc@.len(),
                cols <= row@.len(),
                nsum == row_dot_parity(cw_crc@, row@, j as int),
            decreases cols - j,
        {
            let bits = cw_crc[j] & row[j];
            nsum ^= _ecc_parity8(bits);
            j += 1;
        }
        proof {
            lemma_row_dot_parity_bit(cw_crc@, row@, cols as int);
        }
        if nsum % 2 != 0 {
            let ghost before = out@;
            set_bit(&mut out, k + i, true);
            proof {
                assert forall|t: int| 0 <= t < 8 * nbytes implies
                    #[trigger] bit_of(out@, t) == (if k <= t < k + i + 1 && row_dot_parity(cw_crc@, generator@[t - k]@, cols as int) == 1 {
                        true
                    } else {
                        t < 8 * cw_crc@.len() && t < 8 * nbytes && bit_of(cw_crc@, t)
                    }) by {
                    if t != k + i {
                        assert(bit_of(out@, t) == bit_of(before, t));
                    }
                }
            }
        }
        i += 1;
    }
    out
}

/// The parity of the codeword bits that a parity-check row names among its
/// first `s` entries (entries are 1-based bit numbers; 0 marks an unused entry).
pub open spec fn check_row_parity(bits: Seq<bool>, row: Seq<usize>, s: int) -> bool
    decreases s,
{
    if s <= 0 {
        false
    } else {
        let e = row[s - 1];
        if e != 0 { check_row_parity(bits, row, s - 1) != bits[e - 1] } else { check_row_parity(bits, row, s - 1) }
    }
}

/// Number of parity-check rows, among the first `r`, that a codeword violates.
pub open spec fn syndrome_count(bits: Seq<bool>, nm: Seq<[usize; 7]>, r: int) -> nat
    decreases r,
{
    if r <= 0 {
        0
    } else {
        syndrome_count(bits, nm, r - 1) + (if check_row_parity(bits, nm[r - 1]@, 7) { 1nat } else { 0nat })
    }
}

pub proof fn lemma_syndrome_count_bound(bits: Seq<bool>, nm: Seq<[usize; 7]>, r: int)
    requires 0 <= r,
    ensures syndrome_count(bits, nm, r) <= r,
    decreases r,
{
    if r > 0 {
        lemma_syndrome_count_bound(bits, nm, r - 1);
    }
}

/// Whether every entry of a parity-check table names a bit of a codeword of `nbits` bits.
pub open spec fn nm_entries_in(nm: Seq<[usize; 7]>, nbits: nat) -> bool {
    forall|r: int, s: int| 0 <= r < nm.len() && 0 <= s < 7 ==> #[trigger] nm[r][s] <= nbits
}

/// Counts the parity-check rows that a codeword does not satisfy; 0 means the
/// codeword satisfies the check matrix.
pub fn ecc_check_errors(protocol: &Protocol, nm: &Vec<[usize; 7]>, cw_crc_ecc: &[u8]) -> (errors: usize)
    requires
        cw_crc_ecc@.len() == spec_bytes_for(protocol.ldpc_n.0 as nat),
        nm_entries_in(nm@, 8 * cw_crc_ecc@.len()),
    ensures
        errors == syndrome_count(bits_of_bytes(cw_crc_ecc@), nm@, nm@.len() as int),
{
    let ghost bits = bits_of_bytes(cw_crc_ecc@);
    let mut errors: usize = 0;
    let mut r: usize = 0;
    while r < nm.len()
        invariant
            r <= nm@.len(),
            bits == bits_of_bytes(cw_crc_ecc@),
            nm_entries_in(nm@, 8 * cw_crc_ecc@.len()),
            errors == syndrome_count(bits, nm@, r as int),
        decreases nm@.len() - r,
    {
        proof {
            lemma_syndrome_count_bound(bits, nm@, r as int);
        }
        let row = nm[r];
        let mut odd = false;
        let mut s: usize = 0;
        while s < 7
            invariant
                s <= 7,
                r < nm@.len(),
                row == nm@[r as int],
                bits == bits_of_bytes(cw_crc_ecc@),
                nm_entries_in(nm@, 8 * cw_crc_ecc@.len()),
                odd == check_row_parity(bits, row@, s as int),
            decreases 7 - s,
        {
            let e = row[s];
            if e != 0 {
                assert(row@[s as int] == nm@[r as int][s as int]);
                odd = odd != get_bit(cw_crc_ecc, e - 1);
            }
            s += 1;
        }
        if odd {
            errors += 1;
        }
        r += 1;
    }
    errors
}


/// The parity of the codeword bits named among the first `s` entries of a
/// parity-check row, leaving out the entries equal to `bi`.
pub open spec fn others_parity(bits: Seq<bool>, row: Seq<usize>, s: int, bi: usize) -> bool
    decreases s,
{
    if s <= 0 {
        false
    } else {
        let e = row[s - 1];
        if e != 0 && e != bi { others_parity(bits, row, s - 1, bi) != bits[e - 1] } else { others_parity(bits, row, s - 1, bi) }
    }
}

/// How often `v` occurs among the first `s` entries of a row.
pub open spec fn occurrences(row: Seq<usize>, s: int, v: usize) -> nat
    decreases s,
{
    if s <= 0 { 0 } else { occurrences(row, s - 1, v) + (if row[s - 1] == v { 1nat } else { 0nat }) }
}

pub proof fn lemma_occurrences_bound(row: Seq<usize>, s: int, v: usize)
    requires 0 <= s,
    ensures occurrences(row, s, v) <= s,
    decreases s,
{
    if s > 0 {
        lemma_occurrences_bound(row, s - 1, v);
    }
}

/// The votes that one parity-check row casts for codeword bit `b` to hold `val`:
/// one per entry naming the bit, when the other bits of the row have parity `val`.
pub open spec fn row_votes(bits: Seq<bool>, row: Seq<usize>, b: int, val: bool) -> nat {
    if others_parity(bits, row, 7, (b + 1) as usize) == val { occurrences(row, 7, (b + 1) as usize) } else { 0 }
}

/// The votes of the first `r` rows of a parity-check table for bit `b` to hold `val`.
pub open spec fn votes(bits: Seq<bool>, nm: Seq<[usize; 7]>, r: int, b: int, val: bool) -> nat
    decreases r,
{
    if r <= 0 { 0 } else { votes(bits, nm, r - 1, b, val) + row_votes(bits, nm[r - 1]@, b, val) }
}

pub proof fn lemma_votes_bound(bits: Seq<bool>, nm: Seq<[usize; 7]>, r: int, b: int, val: bool)
    requires 0 <= r,
    ensures votes(bits, nm, r, b, val) <= 7 * r,
    decreases r,
{
    if r > 0 {
        lemma_votes_bound(bits, nm, r - 1, b, val);
        lemma_occurrences_bound(nm[r - 1]@, 7, (b + 1) as usize);
    }
}

/// One bit-flipping round: each of the first `n` bits takes the value that a
/// strict majority of its check votes asks for, otherwise it stays.
pub open spec fn bitflip_step(bits: Seq<bool>, nm: Seq<[usize; 7]>, n: int) -> Seq<bool> {
    Seq::new(bits.len(), |i: int|
        if i < n {
            let v0 = votes(bits, nm, nm.len() as int, i, false);
            let v1 = votes(bits, nm, nm.len() as int, i, true);
            if !bits[i] && v1 > v0 { true } else if bits[i] && v0 > v1 { false } else { bits[i] }
        } else {
            bits[i]
        })
}

/// The bit-flipping decoder: up to `iters` rounds, stopping at the first round
/// after which every parity check holds; `None` when no round gets there.
pub open spec fn spec_bitflip(bits: Seq<bool>, nm: Seq<[usize; 7]>, n: int, iters: nat) -> Option<Seq<bool>>
    decreases iters,
{
    if iters == 0 {
        None
    } else {
        let next = bitflip_step(bits, nm, n);
        if syndrome_count(next, nm, nm.len() as int) == 0 { Some(next) } else { spec_bitflip(next, nm, n, (iters - 1) as nat) }
    }
}

/// No parity-check row names any of the first `n` bits more than once.
pub open spec fn rows_name_bits_once(nm: Seq<[usize; 7]>, n: int) -> bool {
    forall|r: int, v: usize| 0 <= r < nm.len() && 1 <= v <= n ==> #[trigger] occurrences(nm[r]@, 7, v) <= 1
}

/// The parity of a row is the parity of its other bits, together with bit
/// `b` where the row names it once.
proof fn lemma_check_vs_others(bits: Seq<bool>, row: Seq<usize>, s: int, b: int)
    requires
        0 <= s,
        0 <= b,
        b + 1 <= usize::MAX,
        occurrences(row, s, (b + 1) as usize) <= 1,
    ensures
        check_row_parity(bits, row, s) == (others_parity(bits, row, s, (b + 1) as usize)
            != (occurrences(row, s, (b + 1) as usize) == 1 && bits[b])),
    decreases s,
{
    if s > 0 {
        lemma_check_vs_others(bits, row, s - 1, b);
    }
}

/// Where every check holds and no row names bit `b` twice, no row votes
/// against the value bit `b` has.
proof fn lemma_no_votes_against(bits: Seq<bool>, nm: Seq<[usize; 7]>, r: int, b: int)
    requires
        0 <= r <= nm.len(),
        0 <= b,
        b + 1 <= usize::MAX,
        syndrome_count(bits, nm, r) == 0,
        forall|rr: int| 0 <= rr < r ==> #[trigger] occurrences(nm[rr]@, 7, (b + 1) as usize) <= 1,
    ensures
        votes(bits, nm, r, b, !bits[b]) == 0,
    decreases r,
{
    if r > 0 {
        lemma_no_votes_against(bits, nm, r - 1, b);
        let row = nm[r - 1]@;
        assert(occurrences(row, 7, (b + 1) as usize) <= 1);
        lemma_check_vs_others(bits, row, 7, b);
    }
}

/// A codeword that satisfies every parity check is left as it is by a
/// bit-flipping round, where no row names a bit twice.
proof fn lemma_bitflip_step_fixed(bits: Seq<bool>, nm: Seq<[usize; 7]>, n: int)
    requires
        0 <= n <= usize::MAX - 1,
        syndrome_count(bits, nm, nm.len() as int) == 0,
        rows_name_bits_once(nm, n),
    ensures
        bitflip_step(bits, nm, n) == bits,
{
    assert forall|i: int| 0 <= i < bits.len() implies #[trigger] bitflip_step(bits, nm, n)[i] == bits[i] by {
        if i < n {
            assert forall|rr: int| 0 <= rr < nm.len() implies #[trigger] occurrences(nm[rr]@, 7, (i + 1) as usize) <= 1 by {
                assert(1 <= (i + 1) as usize <= n);
            }
            lemma_no_votes_against(bits, nm, nm.len() as int, i);
        }
    }
    assert(bitflip_step(bits, nm, n) =~= bits);
}

/// Bit-flip decoding hands a codeword that already satisfies every parity
/// check back unchanged, given at least one round and a check table that
/// names no bit twice in a row.
pub proof fn law_bitflip_keeps_codeword(bits: Seq<bool>, nm: Seq<[usize; 7]>, n: int, iters: nat)
    requires
        iters >= 1,
        0 <= n <= usize::MAX - 1,
        syndrome_count(bits, nm, nm.len() as int) == 0,
        rows_name_bits_once(nm, n),
    ensures
        spec_bitflip(bits, nm, n, iters) == Some(bits),
{
    lemma_bitflip_step_fixed(bits, nm, n);
}

/// How many of the first `r` check rows name bit `b` (bits numbered from 0).
pub open spec fn rows_naming(nm: Seq<[usize; 7]>, r: int, b: int) -> nat
    decreases r,
{
    if r <= 0 {
        0
    } else {
        rows_naming(nm, r - 1, b) + (if occurrences(nm[r - 1]@, 7, (b + 1) as usize) >= 1 { 1nat } else { 0nat })
    }
}

/// How many of the first `r` check rows name both bit `b` and bit `c`.
pub open spec fn rows_naming_both(nm: Seq<[usize; 7]>, r: int, b: int, c: int) -> nat
    decreases r,
{
    if r <= 0 {
        0
    } else {
        rows_naming_both(nm, r - 1, b, c) + (if occurrences(nm[r - 1]@, 7, (b + 1) as usize) >= 1
            && occurrences(nm[r - 1]@, 7, (c + 1) as usize) >= 1 { 1nat } else { 0nat })
    }
}

/// A check table fit for single-error correction by bit flipping: no row
/// names a bit twice, every bit is in at least two checks, and no two bits
/// share more than one check.
pub open spec fn corrects_single_errors(nm: Seq<[usize; 7]>, n: int) -> bool {
    &&& rows_name_bits_once(nm, n)
    &&& forall|b: int| 0 <= b < n ==> #[trigger] rows_naming(nm, nm.len() as int, b) >= 2
    &&& forall|b: int, c: int| 0 <= b < n && 0 <= c < n && b != c
        ==> #[trigger] rows_naming_both(nm, nm.len() as int, b, c) <= 1
}

/// Flipping bit `j` flips the parity of the other bits of a row exactly where
/// the row names bit `j` an odd number of times and `j` is not the bit left out.
proof fn lemma_others_parity_flip(c: Seq<bool>, row: Seq<usize>, s: int, v: usize, j: int)
    requires
        0 <= s <= 7,
        row.len() == 7,
        0 <= j < c.len(),
        c.len() + 1 <= usize::MAX,
        forall|t: int| 0 <= t < 7 ==> #[trigger] row[t] <= c.len(),
    ensures
        others_parity(c.update(j, !c[j]), row, s, v)
            == (others_parity(c, row, s, v) != (occurrences(row, s, (j + 1) as usize) % 2 == 1 && j + 1 != v)),
    decreases s,
{
    if s > 0 {
        lemma_others_parity_flip(c, row, s - 1, v, j);
        let e = row[s - 1];
        assert(e <= c.len());
        assert((j + 1) as usize == j + 1);
        assert(occurrences(row, s, (j + 1) as usize)
            == occurrences(row, s - 1, (j + 1) as usize) + (if e == j + 1 { 1nat } else { 0nat }));
        if e != 0 && e != v {
            assert(c.update(j, !c[j])[e - 1] == (if e - 1 == j { !c[j] } else { c[e - 1] }));
        }
    }
}

/// The votes of one row on bit `b` after bit `j` of a codeword that satisfies
/// the row was flipped.
proof fn lemma_row_votes_flip(c: Seq<bool>, row: Seq<usize>, b: int, j: int, val: bool)
    requires
        row.len() == 7,
        0 <= b < c.len(),
        0 <= j < c.len(),
        c.len() + 1 <= usize::MAX,
        forall|t: int| 0 <= t < 7 ==> #[trigger] row[t] <= c.len(),
        occurrences(row, 7, (b + 1) as usize) <= 1,
        occurrences(row, 7, (j + 1) as usize) <= 1,
        !check_row_parity(c, row, 7),
    ensures
        row_votes(c.update(j, !c[j]), row, b, val) == (if occurrences(row, 7, (b + 1) as usize) == 1
            && (c[b] != (occurrences(row, 7, (j + 1) as usize) == 1 && j != b)) == val { 1nat } else { 0nat }),
{
    lemma_check_vs_others(c, row, 7, b);
    lemma_others_parity_flip(c, row, 7, (b + 1) as usize, j);
}

/// The votes of the whole table on bit `b` after bit `j` of a codeword that
/// satisfies every check was flipped.
proof fn lemma_votes_flip(c: Seq<bool>, nm: Seq<[usize; 7]>, r: int, b: int, j: int, n: int)
    requires
        0 <= r <= nm.len(),
        0 <= b < n,
        0 <= j < n,
        n <= c.len(),
        c.len() + 1 <= usize::MAX,
        nm_entries_in(nm, n as nat),
        rows_name_bits_once(nm, n),
        syndrome_count(c, nm, r) == 0,
    ensures
        b == j ==> votes(c.update(j, !c[j]), nm, r, b, c[b]) == rows_naming(nm, r, b)
            && votes(c.update(j, !c[j]), nm, r, b, !c[b]) == 0,
        b != j ==> votes(c.update(j, !c[j]), nm, r, b, !c[b]) == rows_naming_both(nm, r, b, j)
            && votes(c.update(j, !c[j]), nm, r, b, c[b]) + rows_naming_both(nm, r, b, j) == rows_naming(nm, r, b),
    decreases r,
{
    if r > 0 {
        lemma_votes_flip(c, nm, r - 1, b, j, n);
        let row = nm[r - 1]@;
        assert forall|t: int| 0 <= t < 7 implies #[trigger] row[t] <= c.len() by {
            assert(nm[r - 1][t] <= n);
        }
        assert(occurrences(nm[r - 1]@, 7, (b + 1) as usize) <= 1);
        assert(occurrences(nm[r - 1]@, 7, (j + 1) as usize) <= 1);
        lemma_row_votes_flip(c, row, b, j, c[b]);
        lemma_row_votes_flip(c, row, b, j, !c[b]);
    }
}

/// Bit flipping corrects a single error: on a check table over the first `n`
/// bits where no row names a bit twice, every bit is in at least two checks
/// and no two bits share two checks, a codeword that satisfies every check,
/// received with any one of those bits flipped, is put right by one round
/// (the flipped bit takes back its value, whether that was 0 or 1, and no
/// other bit moves), so decoding gives the codeword back.
pub proof fn law_bitflip_corrects_single_error(c: Seq<bool>, nm: Seq<[usize; 7]>, n: int, j: int, iters: nat)
    requires
        iters >= 1,
        n <= c.len(),
        c.len() + 1 <= usize::MAX,
        0 <= j < n,
        nm_entries_in(nm, n as nat),
        corrects_single_errors(nm, n),
        syndrome_count(c, nm, nm.len() as int) == 0,
    ensures
        bitflip_step(c.update(j, !c[j]), nm, n) == c,
        spec_bitflip(c.update(j, !c[j]), nm, n, iters) == Some(c),
{
    let f = c.update(j, !c[j]);
    let len = nm.len() as int;
    assert forall|i: int| 0 <= i < c.len() implies #[trigger] bitflip_step(f, nm, n)[i] == c[i] by {
        if i < n {
            lemma_votes_flip(c, nm, len, i, j, n);
            assert(rows_naming(nm, len, i) >= 2);
            if i != j {
                assert(rows_naming_both(nm, len, i, j) <= 1);
                assert(f[i] == c[i]);
            } else {
                assert(f[i] == !c[i]);
            }
        } else {
            assert(f[i] == c[i]);
        }
    }
    assert(bitflip_step(f, nm, n) =~= c);
}

/// Bit-flipping LDPC decoder working on hard decisions: `plain_bytes` holds
/// the received codeword bits (a bit is 1 where the received log-likelihood
/// is not negative).  Each round, every check row votes on each of its bits
/// by the parity of its other bits and bits flip where the vote asks for it;
/// the codeword is returned once all checks hold.
pub fn ecc_decode_bitflip(protocol: &Protocol, nm: &Vec<[usize; 7]>, plain_bytes: Vec<u8>, max_iters: usize)
    -> (r: Result<Vec<u8>, XxxError>)
    requires
        plain_bytes@.len() == spec_bytes_for(protocol.ldpc_n.0 as nat),
        nm_entries_in(nm@, protocol.ldpc_n.0 as nat),
        7 * nm@.len() <= usize::MAX,
    ensures
        match r {
            Ok(v) => v@.len() == plain_bytes@.len()
                && spec_bitflip(bits_of_bytes(plain_bytes@), nm@, protocol.ldpc_n.0 as int, max_iters as nat) == Some(bits_of_bytes(v@)),
            Err(e) => e is _BadEcc
                && spec_bitflip(bits_of_bytes(plain_bytes@), nm@, protocol.ldpc_n.0 as int, max_iters as nat) is None,
        },
{
    let n = protocol.ldpc_n().0;
    let mut plain = plain_bytes;
    let ghost start = bits_of_bytes(plain_bytes@);
    proof {
        assert(n <= 8 * plain@.len());
        assert(plain@ == plain_bytes@);
    }
    let mut it: usize = 0;
    while it < max_iters
        invariant
            it <= max_iters,
            n == protocol.ldpc_n.0,
            n <= 8 * plain@.len(),
            plain@.len() == spec_bytes_for(protocol.ldpc_n.0 as nat),
            nm_entries_in(nm@, n as nat),
            7 * nm@.len() <= usize::MAX,
            start == bits_of_bytes(plain_bytes@),
            plain@.len() == plain_bytes@.len(),
            spec_bitflip(start, nm@, n as int, max_iters as nat)
                == spec_bitflip(bits_of_bytes(plain@), nm@, n as int, (max_iters - it) as nat),
        decreases max_iters - it,
    {
        let ghost bits = bits_of_bytes(plain@);
        let mut v0 = zero_counts(n);
        let mut v1 = zero_counts(n);
        let mut r: usize = 0;
        while r < nm.len()
            invariant
                r <= nm@.len(),
                bits == bits_of_bytes(plain@),
                n <= 8 * plain@.len(),
                nm_entries_in(nm@, n as nat),
                7 * nm@.len() <= usize::MAX,
                v0@.len() == n,
                v1@.len() == n,
                forall|b: int| 0 <= b < n ==> #[trigger] v0@[b] == votes(bits, nm@, r as int, b, false),
                forall|b: int| 0 <= b < n ==> #[trigger] v1@[b] == votes(bits, nm@, r as int, b, true),
            decreases nm@.len() - r,
        {
            let row = nm[r];
            let mut s: usize = 0;
            while s < 7
                invariant
                    s <= 7,
                    r < nm@.len(),
                    row == nm@[r as int],
                    bits == bits_of_bytes(plain@),
                    n <= 8 * plain@.len(),
                    nm_entries_in(nm@, n as nat),
                    7 * nm@.len() <= usize::MAX,
                    v0@.len() == n,
                    v1@.len() == n,
                    forall|b: int| 0 <= b < n ==> #[trigger] v0@[b] == votes(bits, nm@, r as int, b, false)
                        + (if others_parity(bits, row@, 7, (b + 1) as usize) == false { occurrences(row@, s as int, (b + 1) as usize) } else { 0 }),
                    forall|b: int| 0 <= b < n ==> #[trigger] v1@[b] == votes(bits, nm@, r as int, b, true)
                        + (if others_parity(bits, row@, 7, (b + 1) as usize) == true { occurrences(row@, s as int, (b + 1) as usize) } else { 0 }),
                decreases 7 - s,
            {
                let bi = row[s];
                if bi != 0 {
                    assert(row@[s as int] == nm@[r as int][s as int]);
                    let mut x = false;
                    let mut s2: usize = 0;
                    while s2 < 7
                        invariant
                            s2 <= 7,
                            r < nm@.len(),
                            row == nm@[r as int],
                            bits == bits_of_bytes(plain@),
                            n <= 8 * plain@.len(),
                            nm_entries_in(nm@, n as nat),
                            x == others_parity(bits, row@, s2 as int, bi),
                        decreases 7 - s2,
                    {
                        let e = row[s2];
                        if e != 0 && e != bi {
                            assert(row@[s2 as int] == nm@[r as int][s2 as int]);
                            x = x != get_bit(&plain, e - 1);
                        }
                        s2 += 1;
                    }
                    let b = bi - 1;
                    proof {
                        lemma_votes_bound(bits, nm@, r as int, b as int, x);
                        lemma_occurrences_bound(row@, s as int, bi);
                        assert(r + 1 <= nm@.len());
                    }
                    if x {
                        let c = v1[b];
                        v1.set(b, c + 1);
                    } else {
                        let c = v0[b];
                        v0.set(b, c + 1);
                    }
                }
                s += 1;
            }
            r += 1;
        }
        let ghost votes_done = bits;
        let mut i: usize = 0;
        while i < n
            invariant
                i <= n,
                n <= 8 * plain@.len(),
                plain@.len() == spec_bytes_for(protocol.ldpc_n.0 as nat),
                v0@.len() == n,
                v1@.len() == n,
                forall|b: int| 0 <= b < n ==> #[trigger] v0@[b] == votes(bits, nm@, nm@.len() as int, b, false),
                forall|b: int| 0 <= b < n ==> #[trigger] v1@[b] == votes(bits, nm@, nm@.len() as int, b, true),
                bits.len() == 8 * plain@.len(),
                forall|t: int| 0 <= t < 8 * plain@.len() ==>
                    #[trigger] bit_of(plain@, t) == (if t < i { bitflip_step(bits, nm@, n as int)[t] } else { bits[t] }),
            decreases n - i,
        {
            let cur = get_bit(&plain, i);
            let ghost before = plain@;
            if !cur && v1[i] > v0[i] {
                set_bit(&mut plain, i, true);
            } else if cur && v0[i] > v1[i] {
                set_bit(&mut plain, i, false);
            }
            proof {
                assert forall|t: int| 0 <= t < 8 * plain@.len() implies
                    #[trigger] bit_of(plain@, t) == (if t < i + 1 { bitflip_step(bits, nm@, n as int)[t] } else { bits[t] }) by {
                    if t != i {
                        assert(bit_of(plain@, t) == bit_of(before, t));
                    }
                }
            }
            i += 1;
        }
        proof {
            assert(bits_of_bytes(plain@) =~= bitflip_step(bits, nm@, n as int));
        }
        let errors = ecc_check_errors(protocol, nm, &plain);
        if errors == 0 {
            assert(spec_bitflip(bits, nm@, n as int, (max_iters - it) as nat) == Some(bits_of_bytes(plain@)));
            return Ok(plain);
        }
        it += 1;
    }
    Err(XxxError::_BadEcc)
}

/// A vector of `n` zero counters.
fn zero_counts(n: usize) -> (r: Vec<usize>)
    ensures
        r@.len() == n,
        forall|i: int| 0 <= i < n ==> #[trigger] r@[i] == 0,
{
    let mut r: Vec<usize> = Vec::new();
    let mut i: usize = 0;
    while i < n
        invariant
            i <= n,
            r@.len() == i,
            forall|j: int| 0 <= j < i ==> #[trigger] r@[j] == 0,
        decreases n - i,
    {
        r.push(0);
        i += 1;
    }
    r
}

} // verus!
