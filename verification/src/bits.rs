use vstd::prelude::*;

verus! {

/// Bit `i` of a byte string read most significant bit first, as a bit view
/// of the bytes (bit 0 is the top bit of byte 0).
pub open spec fn bit_of(s: Seq<u8>, i: int) -> bool {
    ((s[i / 8] >> ((7 - i % 8) as u8)) & 1u8) == 1u8
}

/// Bit `k` (counted from the top, `k < 8`) of a byte.
pub open spec fn byte_bit(b: u8, k: int) -> bool {
    ((b >> ((7 - k) as u8)) & 1u8) == 1u8
}

pub proof fn lemma_bit_of_byte(s: Seq<u8>, i: int)
    requires 0 <= i,
    ensures bit_of(s, i) == byte_bit(s[i / 8], i % 8),
{
}

proof fn lemma_set_bit_in_byte(b: u8, k: u8, j: u8)
    requires k < 8, j < 8,
    ensures
        (((b | (0x80u8 >> k)) >> (7 - j) as u8) & 1u8 == 1u8) == (j == k || ((b >> (7 - j) as u8) & 1u8 == 1u8)),
        (((b & !(0x80u8 >> k)) >> (7 - j) as u8) & 1u8 == 1u8) == (j != k && ((b >> (7 - j) as u8) & 1u8 == 1u8)),
{
    assert((((b | (0x80u8 >> k)) >> (7 - j) as u8) & 1u8 == 1u8) == (j == k || ((b >> (7 - j) as u8) & 1u8 == 1u8))) by (bit_vector)
        requires k < 8u8, j < 8u8;
    assert((((b & !(0x80u8 >> k)) >> (7 - j) as u8) & 1u8 == 1u8) == (j != k && ((b >> (7 - j) as u8) & 1u8 == 1u8))) by (bit_vector)
        requires k < 8u8, j < 8u8;
}

/// Reads bit `i` (most significant bit first).
pub fn get_bit(s: &[u8], i: usize) -> (r: bool)
    requires i < 8 * s@.len(),
    ensures r == bit_of(s@, i as int),
{
    let b = s[i / 8];
    let k = (i % 8) as u8;
    ((b >> (7 - k)) & 1u8) == 1u8
}

/// Writes bit `i` (most significant bit first), leaving every other bit as it was.
pub fn set_bit(s: &mut Vec<u8>, i: usize, val: bool)
    requires i < 8 * old(s)@.len(),
    ensures
        final(s)@.len() == old(s)@.len(),
        bit_of(final(s)@, i as int) == val,
        forall|j: int| 0 <= j < 8 * old(s)@.len() && j != i ==> bit_of(final(s)@, j) == bit_of(old(s)@, j),
{
    let ghost os = s@;
    let idx = i / 8;
    let k = (i % 8) as u8;
    let b = s[idx];
    let nb = if val { b | (0x80u8 >> k) } else { b & !(0x80u8 >> k) };
    s.set(idx, nb);
    proof {
        assert forall|j: int| 0 <= j < 8 * os.len() implies bit_of(s@, j) == (if j == i { val } else { bit_of(os, j) }) by {
            let jj = (j % 8) as u8;
            lemma_set_bit_in_byte(b, k, jj);
            if j / 8 == idx as int {
                assert(s@[j / 8] == nb);
                if j != i {
                    assert(jj != k);
                }
            } else {
                assert(s@[j / 8] == os[j / 8]);
            }
        }
    }
}


/// A byte string of `n` zero bytes.
pub fn zero_bytes(n: usize) -> (r: Vec<u8>)
    ensures
        r@.len() == n,
        forall|i: int| 0 <= i < n ==> #[trigger] r@[i] == 0u8,
{
    let mut r: Vec<u8> = Vec::new();
    let mut i: usize = 0;
    while i < n
        invariant
            i <= n,
            r@.len() == i,
            forall|j: int| 0 <= j < i ==> #[trigger] r@[j] == 0u8,
        decreases n - i,
    {
        r.push(0u8);
        i += 1;
    }
    r
}

pub proof fn lemma_zero_byte_bits(s: Seq<u8>, i: int)
    requires 0 <= i < 8 * s.len(), s[i / 8] == 0u8,
    ensures !bit_of(s, i),
{
    let k = (7 - i % 8) as u8;
    assert(((0u8 >> k) & 1u8) == 0u8) by (bit_vector);
}

proof fn lemma_byte_from_bits(a: u8, b: u8)
    requires
        ((a >> 7u8) & 1u8) == ((b >> 7u8) & 1u8),
        ((a >> 6u8) & 1u8) == ((b >> 6u8) & 1u8),
        ((a >> 5u8) & 1u8) == ((b >> 5u8) & 1u8),
        ((a >> 4u8) & 1u8) == ((b >> 4u8) & 1u8),
        ((a >> 3u8) & 1u8) == ((b >> 3u8) & 1u8),
        ((a >> 2u8) & 1u8) == ((b >> 2u8) & 1u8),
        ((a >> 1u8) & 1u8) == ((b >> 1u8) & 1u8),
        ((a >> 0u8) & 1u8) == ((b >> 0u8) & 1u8),
    ensures a == b,
{
    assert(a == b) by (bit_vector)
        requires
            ((a >> 7u8) & 1u8) == ((b >> 7u8) & 1u8),
            ((a >> 6u8) & 1u8) == ((b >> 6u8) & 1u8),
            ((a >> 5u8) & 1u8) == ((b >> 5u8) & 1u8),
            ((a >> 4u8) & 1u8) == ((b >> 4u8) & 1u8),
            ((a >> 3u8) & 1u8) == ((b >> 3u8) & 1u8),
            ((a >> 2u8) & 1u8) == ((b >> 2u8) & 1u8),
            ((a >> 1u8) & 1u8) == ((b >> 1u8) & 1u8),
            ((a >> 0u8) & 1u8) == ((b >> 0u8) & 1u8);
}

proof fn lemma_and1_eq(x: u8, y: u8)
    requires ((x & 1u8) == 1u8) == ((y & 1u8) == 1u8),
    ensures (x & 1u8) == (y & 1u8),
{
    assert((x & 1u8) == (y & 1u8)) by (bit_vector)
        requires ((x & 1u8) == 1u8) == ((y & 1u8) == 1u8);
}

/// Two byte strings of the same length with the same bits are equal.
pub proof fn lemma_bytes_eq_from_bits(a: Seq<u8>, b: Seq<u8>)
    requires
        a.len() == b.len(),
        forall|i: int| 0 <= i < 8 * a.len() ==> #[trigger] bit_of(a, i) == bit_of(b, i),
    ensures a == b,
{
    assert forall|j: int| 0 <= j < a.len() implies a[j] == b[j] by {
        assert forall|k: int| 0 <= k < 8 implies #[trigger] byte_bit(a[j], k) == byte_bit(b[j], k) by {
            let i = 8 * j + k;
            assert(i / 8 == j && i % 8 == k);
            assert(bit_of(a, i) == bit_of(b, i));
        }
        assert(byte_bit(a[j], 0) == byte_bit(b[j], 0));
        assert(byte_bit(a[j], 1) == byte_bit(b[j], 1));
        assert(byte_bit(a[j], 2) == byte_bit(b[j], 2));
        assert(byte_bit(a[j], 3) == byte_bit(b[j], 3));
        assert(byte_bit(a[j], 4) == byte_bit(b[j], 4));
        assert(byte_bit(a[j], 5) == byte_bit(b[j], 5));
        assert(byte_bit(a[j], 6) == byte_bit(b[j], 6));
        assert(byte_bit(a[j], 7) == byte_bit(b[j], 7));
        lemma_and1_eq(a[j] >> 7u8, b[j] >> 7u8);
        lemma_and1_eq(a[j] >> 6u8, b[j] >> 6u8);
        lemma_and1_eq(a[j] >> 5u8, b[j] >> 5u8);
        lemma_and1_eq(a[j] >> 4u8, b[j] >> 4u8);
        lemma_and1_eq(a[j] >> 3u8, b[j] >> 3u8);
        lemma_and1_eq(a[j] >> 2u8, b[j] >> 2u8);
        lemma_and1_eq(a[j] >> 1u8, b[j] >> 1u8);
        lemma_and1_eq(a[j] >> 0u8, b[j] >> 0u8);
        lemma_byte_from_bits(a[j], b[j]);
    }
    assert(a =~= b);
}

/// The byte whose bits, most significant first, are `f(base)` to `f(base + 7)`.
pub open spec fn bits_byte(f: spec_fn(int) -> bool, base: int) -> u8 {
    ((if f(base) { 128u8 } else { 0u8 }) | (if f(base + 1) { 64u8 } else { 0u8 })
        | (if f(base + 2) { 32u8 } else { 0u8 }) | (if f(base + 3) { 16u8 } else { 0u8 })
        | (if f(base + 4) { 8u8 } else { 0u8 }) | (if f(base + 5) { 4u8 } else { 0u8 })
        | (if f(base + 6) { 2u8 } else { 0u8 }) | (if f(base + 7) { 1u8 } else { 0u8 })) as u8
}

/// The `n` bytes whose bits, most significant first, are `f(0)` to `f(8n - 1)`.
pub open spec fn bytes_of_bits(n: nat, f: spec_fn(int) -> bool) -> Seq<u8> {
    Seq::new(n, |i: int| bits_byte(f, 8 * i))
}

proof fn lemma_byte_of_flags(b0: bool, b1: bool, b2: bool, b3: bool, b4: bool, b5: bool, b6: bool, b7: bool)
    by (bit_vector)
    ensures
        ({
            let x = ((if b0 { 128u8 } else { 0u8 }) | (if b1 { 64u8 } else { 0u8 })
                | (if b2 { 32u8 } else { 0u8 }) | (if b3 { 16u8 } else { 0u8 })
                | (if b4 { 8u8 } else { 0u8 }) | (if b5 { 4u8 } else { 0u8 })
                | (if b6 { 2u8 } else { 0u8 }) | (if b7 { 1u8 } else { 0u8 })) as u8;
            &&& ((x >> 7u8) & 1u8 == 1u8) == b0
            &&& ((x >> 6u8) & 1u8 == 1u8) == b1
            &&& ((x >> 5u8) & 1u8 == 1u8) == b2
            &&& ((x >> 4u8) & 1u8 == 1u8) == b3
            &&& ((x >> 3u8) & 1u8 == 1u8) == b4
            &&& ((x >> 2u8) & 1u8 == 1u8) == b5
            &&& ((x >> 1u8) & 1u8 == 1u8) == b6
            &&& ((x >> 0u8) & 1u8 == 1u8) == b7
        }),
{
}

/// The bits of `bytes_of_bits(n, f)` are the values of `f`.
pub proof fn lemma_bytes_of_bits(n: nat, f: spec_fn(int) -> bool)
    ensures
        bytes_of_bits(n, f).len() == n,
        forall|t: int| 0 <= t < 8 * n ==> #[trigger] bit_of(bytes_of_bits(n, f), t) == f(t),
{
    assert forall|t: int| 0 <= t < 8 * n implies #[trigger] bit_of(bytes_of_bits(n, f), t) == f(t) by {
        let i = t / 8;
        let k = t % 8;
        let base = 8 * i;
        lemma_byte_of_flags(f(base), f(base + 1), f(base + 2), f(base + 3), f(base + 4), f(base + 5),
            f(base + 6), f(base + 7));
        assert(t == base + k);
        lemma_bit_of_byte(bytes_of_bits(n, f), t);
    }
}

/// A byte string whose bits are the values of `f` is `bytes_of_bits` of `f`.
pub proof fn lemma_bytes_are_bits(s: Seq<u8>, f: spec_fn(int) -> bool)
    requires forall|t: int| 0 <= t < 8 * s.len() ==> #[trigger] bit_of(s, t) == f(t),
    ensures s == bytes_of_bits(s.len(), f),
{
    lemma_bytes_of_bits(s.len(), f);
    lemma_bytes_eq_from_bits(s, bytes_of_bits(s.len(), f));
}

} // verus!
