use vstd::prelude::*;

use crate::callsign::{U28, C28_DE, C28_QRZ, C28_CQ, C28_STD_CALLS};
use crate::charsets::{free_set, free_chars, call1_set, call1_chars, call2_set, call2_chars, call3_set, call3_chars,
    call4_set, call4_chars};
use crate::payload::{set_index, lemma_set_index, find_char, call1_charset, left_pad, spec_left_pad,
    truncate_ok, prefix_within, truncate_bytes, repeat_char};
use crate::text::{chars_of, trim, trim_chars, string_of};
use crate::base::{pw, digits_value, valid_digits, lemma_digits_prefix, lemma_digits_value_bound, lemma_pw_monotone};
use crate::bignum::{be_value, mul_bytes, add_bytes, lemma_be_last, lemma_pw256_9};
use crate::alnum::{spec_dd_to_int, dd_to_int};

verus! {

/// Whether `s` begins with `p`.
pub open spec fn starts_with(s: Seq<char>, p: Seq<char>) -> bool {
    p.len() <= s.len() && s.subrange(0, p.len() as int) == p
}

/// The alphabet of place `k` of a standard callsign.
pub open spec fn call_place_set(k: int) -> Seq<char> {
    if k == 0 {
        call1_set()
    } else if k == 1 {
        call2_set()
    } else if k == 2 {
        call3_set()
    } else {
        call4_set()
    }
}

/// The digit of place `k` of a callsign: the position of its character in
/// the place's alphabet, or -1 when it is not there.
pub open spec fn place_digit(c: Seq<char>, k: int) -> int {
    set_index(call_place_set(k), c[k])
}

/// The mixed-radix number of the first `k` places of a callsign.
pub open spec fn call_number(c: Seq<char>, k: nat) -> int
    decreases k,
{
    if k == 0 {
        0
    } else {
        call_number(c, (k - 1) as nat) * call_place_set(k - 1).len() + place_digit(c, k - 1)
    }
}

/// Whether each of the first `k` places of `c` is in its alphabet.
pub open spec fn call_places_valid(c: Seq<char>, k: nat) -> bool {
    forall|i: int| 0 <= i < k ==> place_digit(c, i) >= 0
}

/// `s` cut or padded on the right with spaces to six characters.
pub open spec fn pad6(s: Seq<char>) -> Seq<char> {
    if s.len() >= 6 { s.subrange(0, 6) } else { s + repeat_char(' ', (6 - s.len()) as nat) }
}

/// The 28-bit field of a token as `_pack28` computes it: a special token,
/// a standard callsign, or -1.
pub open spec fn spec_pack28(s: Seq<char>) -> int {
    if starts_with(s, seq!['D', 'E']) {
        0
    } else if starts_with(s, seq!['Q', 'R', 'Z']) {
        1
    } else if starts_with(s, seq!['C', 'Q']) {
        2
    } else if call_places_valid(pad6(s), 6) {
        C28_STD_CALLS + call_number(pad6(s), 6)
    } else {
        -1
    }
}

/// The alphabet of callsign place `k` as a vector.
fn place_chars(k: usize) -> (r: Vec<char>)
    ensures r@ == call_place_set(k as int),
{
    if k == 0 {
        call1_chars()
    } else if k == 1 {
        call2_chars()
    } else if k == 2 {
        call3_chars()
    } else {
        call4_chars()
    }
}

pub proof fn lemma_call_number_bound(c: Seq<char>, k: nat)
    requires
        k <= 6,
        call_places_valid(c, k),
    ensures
        0 <= call_number(c, k) < call_number_limit(k),
    decreases k,
{
    if k > 0 {
        lemma_call_number_bound(c, (k - 1) as nat);
        lemma_set_index(call_place_set(k - 1), c[k - 1]);
        let v = call_number(c, (k - 1) as nat);
        let m = call_place_set(k - 1).len() as int;
        let l = call_number_limit((k - 1) as nat);
        assert(v * m + place_digit(c, k - 1) < l * m) by (nonlinear_arith)
            requires 0 <= v < l, 0 <= place_digit(c, k - 1) < m;
        assert(v * m >= 0) by (nonlinear_arith)
            requires 0 <= v, m >= 0;
    }
}

/// The number of standard callsigns of `k` places.
pub open spec fn call_number_limit(k: nat) -> int
    decreases k,
{
    if k == 0 { 1 } else { call_number_limit((k - 1) as nat) * call_place_set(k - 1).len() }
}

/// Computes the mixed-radix callsign number of the first `k` places, or
/// `None` when a place holds a character outside its alphabet.
fn call_digits_number(c: &[char], k: usize) -> (r: Option<u32>)
    requires k <= 6, k <= c@.len(),
    ensures
        match r {
            Some(n) => call_places_valid(c@, k as nat) && n == call_number(c@, k as nat),
            None => !call_places_valid(c@, k as nat),
        },
{
    let mut n28: u32 = 0;
    let mut i: usize = 0;
    while i < k
        invariant
            i <= k <= 6,
            k <= c@.len(),
            call_places_valid(c@, i as nat),
            n28 == call_number(c@, i as nat),
        decreases k - i,
    {
        let set = place_chars(i);
        let l = set.len() as u32;
        match find_char(&set, c[i]) {
            Some(n) => {
                proof {
                    lemma_call_number_bound(c@, i as nat);
                    lemma_call_limits();
                    lemma_limit_monotone(i as nat, 5);
                    assert(n28 * l + n < 0x1_0000_0000) by (nonlinear_arith)
                        requires n28 < 9710280, l <= 37, n < l;
                }
                n28 = n28 * l + n as u32;
                proof {
                    assert forall|j: int| 0 <= j < i + 1 implies place_digit(c@, j) >= 0 by {
                        if j == i as int {
                            assert(place_digit(c@, j) == n);
                        }
                    }
                }
            },
            None => {
                assert(place_digit(c@, i as int) == -1);
                return None;
            },
        }
        i += 1;
    }
    Some(n28)
}

pub proof fn lemma_call_limits()
    ensures
        call_number_limit(5) == 9710280,
        call_number_limit(6) == 262177560,
        call_place_set(0).len() == 37,
        call_place_set(1).len() == 36,
        call_place_set(2).len() == 10,
        call_place_set(3).len() == 27,
        call_place_set(4).len() == 27,
        call_place_set(5).len() == 27,
{
    assert(call1_set().len() == 37);
    assert(call2_set().len() == 36);
    assert(call3_set().len() == 10);
    assert(call4_set().len() == 27);
    assert(call_place_set(0).len() == 37);
    assert(call_place_set(1).len() == 36);
    assert(call_place_set(2).len() == 10);
    assert(call_place_set(3).len() == 27);
    assert(call_place_set(4).len() == 27);
    assert(call_place_set(5).len() == 27);
    assert(call_number_limit(0) == 1);
    assert(call_number_limit(1) == call_number_limit(0) * call_place_set(0).len());
    assert(call_number_limit(1) == 37);
    assert(call_number_limit(2) == call_number_limit(1) * call_place_set(1).len());
    assert(call_number_limit(2) == 1332);
    assert(call_number_limit(3) == call_number_limit(2) * call_place_set(2).len());
    assert(call_number_limit(3) == 13320);
    assert(call_number_limit(4) == call_number_limit(3) * call_place_set(3).len());
    assert(call_number_limit(4) == 359640);
    assert(call_number_limit(5) == call_number_limit(4) * call_place_set(4).len());
    assert(call_number_limit(5) == 9710280);
    assert(call_number_limit(6) == call_number_limit(5) * call_place_set(5).len());
    assert(call_number_limit(6) == 262177560);
}

proof fn lemma_limit_monotone(a: nat, b: nat)
    requires a <= b,
    ensures call_number_limit(a) <= call_number_limit(b),
    decreases b,
{
    if a < b {
        lemma_limit_monotone(a, (b - 1) as nat);
        assert(call_place_set(b - 1).len() >= 1);
        let x = call_number_limit((b - 1) as nat);
        assert(x >= 0) by {
            lemma_limit_pos((b - 1) as nat);
        }
        assert(x * call_place_set(b - 1).len() >= x) by (nonlinear_arith)
            requires x >= 0, call_place_set(b - 1).len() >= 1;
    }
}

proof fn lemma_limit_pos(k: nat)
    ensures call_number_limit(k) >= 1,
    decreases k,
{
    if k > 0 {
        lemma_limit_pos((k - 1) as nat);
        let x = call_number_limit((k - 1) as nat);
        assert(x * call_place_set(k - 1).len() >= 1) by (nonlinear_arith)
            requires x >= 1, call_place_set(k - 1).len() >= 1;
    }
}

/// Packs a special token or a standard callsign into a 28-bit field; -1 when
/// the token is neither. A callsign shorter than six characters is padded on
/// the right with spaces.
pub fn _pack28(callsign: &str) -> (r: i32)
    ensures r == spec_pack28(callsign@),
{
    let s = chars_of(callsign);
    if s.len() >= 2 && s[0] == 'D' && s[1] == 'E' {
        assert(s@.subrange(0, 2) =~= seq!['D', 'E']);
        return 0;
    }
    assert(!starts_with(s@, seq!['D', 'E']));
    if s.len() >= 3 && s[0] == 'Q' && s[1] == 'R' && s[2] == 'Z' {
        assert(s@.subrange(0, 3) =~= seq!['Q', 'R', 'Z']);
        return 1;
    }
    assert(!starts_with(s@, seq!['Q', 'R', 'Z']));
    if s.len() >= 2 && s[0] == 'C' && s[1] == 'Q' {
        assert(s@.subrange(0, 2) =~= seq!['C', 'Q']);
        return 2;
    }
    assert(!starts_with(s@, seq!['C', 'Q']));
    let mut call: Vec<char> = Vec::new();
    let mut i: usize = 0;
    while i < 6
        invariant
            i <= 6,
            call@ == pad6(s@).subrange(0, i as int),
        decreases 6 - i,
    {
        if i < s.len() {
            call.push(s[i]);
        } else {
            call.push(' ');
        }
        i += 1;
        assert(call@ =~= pad6(s@).subrange(0, i as int));
    }
    assert(call@ =~= pad6(s@));
    match call_digits_number(&call, 6) {
        Some(n28) => {
            proof {
                lemma_call_number_bound(call@, 6);
                lemma_call_limits();
            }
            (C28_STD_CALLS + n28) as i32
        },
        None => -1,
    }
}

/// The 28-bit field of a token as `ft8_pack_std_call` computes it: a special
/// token, or a standard callsign of up to six places, padded on the right
/// with spaces to six places (as `_pack28` pads it and as the unpacker reads
/// six places) and read as a mixed-radix number; `None` for anything else.
pub open spec fn spec_pack_std_call(s: Seq<char>) -> Option<U28> {
    if starts_with(s, seq!['D', 'E']) {
        Some(C28_DE)
    } else if starts_with(s, seq!['Q', 'R', 'Z']) {
        Some(C28_QRZ)
    } else if starts_with(s, seq!['C', 'Q']) {
        Some(C28_CQ)
    } else if s.len() <= 6 && call_places_valid(pad6(s), 6) {
        Some((C28_STD_CALLS + call_number(pad6(s), 6)) as U28)
    } else {
        None
    }
}

/// Packs a special token or a standard callsign into a 28-bit field.
pub fn ft8_pack_std_call(callsign: &str) -> (r: Option<U28>)
    ensures r == spec_pack_std_call(callsign@),
{
    let s = chars_of(callsign);
    if s.len() >= 2 && s[0] == 'D' && s[1] == 'E' {
        assert(s@.subrange(0, 2) =~= seq!['D', 'E']);
        return Some(C28_DE);
    }
    assert(!starts_with(s@, seq!['D', 'E']));
    if s.len() >= 3 && s[0] == 'Q' && s[1] == 'R' && s[2] == 'Z' {
        assert(s@.subrange(0, 3) =~= seq!['Q', 'R', 'Z']);
        return Some(C28_QRZ);
    }
    assert(!starts_with(s@, seq!['Q', 'R', 'Z']));
    if s.len() >= 2 && s[0] == 'C' && s[1] == 'Q' {
        assert(s@.subrange(0, 2) =~= seq!['C', 'Q']);
        return Some(C28_CQ);
    }
    assert(!starts_with(s@, seq!['C', 'Q']));
    if s.len() > 6 {
        return None;
    }
    let mut call: Vec<char> = Vec::new();
    let mut i: usize = 0;
    while i < 6
        invariant
            i <= 6,
            call@ == pad6(s@).subrange(0, i as int),
        decreases 6 - i,
    {
        if i < s.len() {
            call.push(s[i]);
        } else {
            call.push(' ');
        }
        i += 1;
        assert(call@ =~= pad6(s@).subrange(0, i as int));
    }
    assert(call@ =~= pad6(s@));
    match call_digits_number(&call, 6) {
        Some(n28) => {
            proof {
                lemma_call_number_bound(call@, 6);
                lemma_call_limits();
            }
            Some(C28_STD_CALLS + n28)
        },
        None => None,
    }
}

/// The weighted sum that `ft8_pack_callsign` forms from the six places of a
/// callsign, a place outside its alphabet counting as -1.
pub open spec fn call_weighted(c: Seq<char>) -> int {
    C28_STD_CALLS + 7085880 * place_digit(c, 0) + 196830 * place_digit(c, 1) + 19683 * place_digit(c, 2)
        + 729 * place_digit(c, 3) + 27 * place_digit(c, 4) + place_digit(c, 5)
}

/// A value taken modulo `2^32`, as an `i32` converted to `u32` is.
pub open spec fn wrap32(v: int) -> int {
    if v < 0 { v + 0x1_0000_0000 } else { v }
}

/// Packs a callsign right-justified to six places, each place read in its
/// alphabet (a character outside it counting as -1, as the reference packer
/// does), into a 28-bit field.
pub fn ft8_pack_callsign(c28: &str) -> (r: Option<U28>)
    requires
        truncate_ok(trim(c28@), 6),
        spec_left_pad(c28@, 6, ' ').len() >= 6,
    ensures
        r == Some(wrap32(call_weighted(spec_left_pad(c28@, 6, ' '))) as U28),
{
    let cs = call1_charset();
    let padded = left_pad(c28, &cs);
    let char6 = chars_of(padded.as_str());
    let mut i: [i32; 6] = [0; 6];
    let mut k: usize = 0;
    while k < 6
        invariant
            k <= 6,
            char6@.len() >= 6,
            forall|j: int| 0 <= j < k ==> #[trigger] i@[j] == place_digit(char6@, j),
        decreases 6 - k,
    {
        let set = place_chars(k);
        proof {
            lemma_set_index(call_place_set(k as int), char6@[k as int]);
        }
        i[k] = match find_char(&set, char6[k]) {
            Some(n) => n as i32,
            None => -1,
        };
        k += 1;
    }
    proof {
        lemma_call_limits();
        lemma_set_index(call_place_set(0), char6@[0]);
        lemma_set_index(call_place_set(1), char6@[1]);
        lemma_set_index(call_place_set(2), char6@[2]);
        lemma_set_index(call_place_set(3), char6@[3]);
        lemma_set_index(call_place_set(4), char6@[4]);
        lemma_set_index(call_place_set(5), char6@[5]);
        assert(i@[0] == place_digit(char6@, 0));
        assert(i@[1] == place_digit(char6@, 1));
        assert(i@[2] == place_digit(char6@, 2));
        assert(i@[3] == place_digit(char6@, 3));
        assert(i@[4] == place_digit(char6@, 4));
        assert(i@[5] == place_digit(char6@, 5));
    }
    let (i0, i1, i2, i3, i4, i5) = (i[0], i[1], i[2], i[3], i[4], i[5]);
    assert(-1 <= i0 <= 36 && -1 <= i1 <= 35 && -1 <= i2 <= 9);
    assert(-1 <= i3 <= 26 && -1 <= i4 <= 26 && -1 <= i5 <= 26);
    let base: i32 = 6257896;
    assert(base == C28_STD_CALLS);
    let w0: i32 = 36 * 10 * 27 * 27 * 27;
    let w1: i32 = 10 * 27 * 27 * 27;
    let w2: i32 = 27 * 27 * 27;
    let w3: i32 = 27 * 27;
    assert(w0 == 7085880 && w1 == 196830 && w2 == 19683 && w3 == 729);
    let n28: i32 = base + w0 * i0 + w1 * i1 + w2 * i2 + w3 * i3 + 27 * i4 + i5;
    let r = n28 as U28;
    proof {
        assert(n28 == call_weighted(char6@));
        assert(n28 < 0 ==> r as int == n28 as int + 0x1_0000_0000) by (bit_vector)
            requires r == n28 as u32;
        assert(n28 >= 0 ==> r as int == n28 as int) by (bit_vector)
            requires r == n28 as u32;
    }
    Some(r)
}

/// The 28-bit field of a token as `ft8_pack_c28` computes it, from its
/// first three bytes: `DE `, `QRZ`, `CQ `, else a callsign.
pub open spec fn spec_pack_c28(s: Seq<char>) -> Option<U28> {
    let head = prefix_within(s, 3);
    if head == seq!['D', 'E', ' '] {
        Some(C28_DE)
    } else if head == seq!['Q', 'R', 'Z'] {
        Some(C28_QRZ)
    } else if head == seq!['C', 'Q', ' '] {
        Some(C28_CQ)
    } else {
        Some(wrap32(call_weighted(spec_left_pad(s, 6, ' '))) as U28)
    }
}

/// Packs a special token or a callsign into a 28-bit field, by its first
/// three bytes. Directed CQs (`CQ_`) and hashed callsigns (`<..`) are not
/// packed here: `requires` leaves them out.
pub fn ft8_pack_c28(c28: &str) -> (r: Option<U28>)
    requires
        truncate_ok(c28@, 3),
        crate::text::utf8_len(c28@) >= 3,
        prefix_within(c28@, 3) != seq!['C', 'Q', '_'],
        prefix_within(c28@, 3) != seq!['<', '.', '.'],
        prefix_within(c28@, 3) == seq!['D', 'E', ' '] || prefix_within(c28@, 3) == seq!['Q', 'R', 'Z']
            || prefix_within(c28@, 3) == seq!['C', 'Q', ' '] || (truncate_ok(trim(c28@), 6)
            && spec_left_pad(c28@, 6, ' ').len() >= 6),
    ensures r == spec_pack_c28(c28@),
{
    let s = chars_of(c28);
    let head = truncate_bytes(&s, 3);
    if head.len() == 3 && head[0] == 'D' && head[1] == 'E' && head[2] == ' ' {
        assert(head@ =~= seq!['D', 'E', ' ']);
        Some(C28_DE)
    } else if head.len() == 3 && head[0] == 'Q' && head[1] == 'R' && head[2] == 'Z' {
        assert(head@ =~= seq!['Q', 'R', 'Z']);
        Some(C28_QRZ)
    } else if head.len() == 3 && head[0] == 'C' && head[1] == 'Q' && head[2] == ' ' {
        assert(head@ =~= seq!['C', 'Q', ' ']);
        Some(C28_CQ)
    } else {
        assert(head@ != seq!['D', 'E', ' ']);
        assert(head@ != seq!['Q', 'R', 'Z']);
        assert(head@ != seq!['C', 'Q', ' ']);
        ft8_pack_callsign(c28)
    }
}

/// The largest 15-bit grid field that holds a 4-character locator.
pub const MAXGRID4: u16 = 32400;

/// Whether a token is a 4-character grid locator (two letters `A`..`R`, two digits).
pub open spec fn is_grid4(g: Seq<char>) -> bool {
    g.len() >= 4 && 'A' <= g[0] <= 'R' && 'A' <= g[1] <= 'R' && '0' <= g[2] <= '9' && '0' <= g[3] <= '9'
}

/// The number of a grid locator.
pub open spec fn grid_number(g: Seq<char>) -> int {
    (((g[0] as int - 65) * 18 + (g[1] as int - 65)) * 10 + (g[2] as int - 48)) * 10 + (g[3] as int - 48)
}

/// Whether the locator test stays within the token: it reads a character
/// only while the ones before it look like a locator.
pub open spec fn grid_access_ok(g: Seq<char>) -> bool {
    g.len() >= 1 && ('A' <= g[0] <= 'R' ==> g.len() >= 2 && ('A' <= g[1] <= 'R' ==> g.len() >= 3
        && ('0' <= g[2] <= '9' ==> g.len() >= 4)))
}

/// The signal report read from a token: `+dd` or `-dd`. For a token that
/// starts with `R` only that first character is read as the report, so it
/// counts as 0 whatever follows (`R-08` packs as `R+00`).
pub open spec fn report_dd(g: Seq<char>) -> int {
    if g.len() > 0 && g[0] == 'R' { spec_dd_to_int(g.subrange(0, 1), 3) } else { spec_dd_to_int(g, 3) }
}

/// The acknowledgements that have grid fields of their own.
pub open spec fn is_grid_token(g: Seq<char>) -> bool {
    g == seq!['R', 'R', 'R'] || g == seq!['R', 'R', '7', '3'] || g == seq!['7', '3']
}

/// The tokens `_packgrid` accepts: an acknowledgement, a locator, or a report
/// of at least -35 (a lower report overflows the field).
pub open spec fn packgrid_ok(g: Seq<char>) -> bool {
    is_grid_token(g) || (grid_access_ok(g) && (!is_grid4(g) ==> report_dd(g) >= -35))
}

/// The 15-bit grid field of a token, with the `R` flag in bit 15.
pub open spec fn spec_packgrid(g: Seq<char>) -> u16 {
    if g == seq!['R', 'R', 'R'] {
        (MAXGRID4 + 2) as u16
    } else if g == seq!['R', 'R', '7', '3'] {
        (MAXGRID4 + 3) as u16
    } else if g == seq!['7', '3'] {
        (MAXGRID4 + 4) as u16
    } else if is_grid4(g) {
        grid_number(g) as u16
    } else if g[0] == 'R' {
        ((MAXGRID4 + 35 + report_dd(g)) as u16) | 0x8000u16
    } else {
        (MAXGRID4 + 35 + report_dd(g)) as u16
    }
}

/// Packs a locator, an acknowledgement or a report token into the grid field.
fn packgrid_chars(gstr: &[char]) -> (r: u16)
    requires packgrid_ok(gstr@),
    ensures r == spec_packgrid(gstr@),
{
    let n = gstr.len();
    if n == 3 && gstr[0] == 'R' && gstr[1] == 'R' && gstr[2] == 'R' {
        assert(gstr@ =~= seq!['R', 'R', 'R']);
        return MAXGRID4 + 2;
    }
    if n == 4 && gstr[0] == 'R' && gstr[1] == 'R' && gstr[2] == '7' && gstr[3] == '3' {
        assert(gstr@ =~= seq!['R', 'R', '7', '3']);
        return MAXGRID4 + 3;
    }
    if n == 2 && gstr[0] == '7' && gstr[1] == '3' {
        assert(gstr@ =~= seq!['7', '3']);
        return MAXGRID4 + 4;
    }
    assert(gstr@ != seq!['R', 'R', 'R']);
    assert(gstr@ != seq!['R', 'R', '7', '3']);
    assert(gstr@ != seq!['7', '3']);
    if 'A' <= gstr[0] && gstr[0] <= 'R' && 'A' <= gstr[1] && gstr[1] <= 'R' && '0' <= gstr[2]
        && gstr[2] <= '9' && '0' <= gstr[3] && gstr[3] <= '9' {
        let mut igrid4: u16 = gstr[0] as u16 - 'A' as u16;
        igrid4 = igrid4 * 18 + (gstr[1] as u16 - 'A' as u16);
        igrid4 = igrid4 * 10 + (gstr[2] as u16 - '0' as u16);
        igrid4 = igrid4 * 10 + (gstr[3] as u16 - '0' as u16);
        return igrid4;
    }
    if gstr[0] == 'R' {
        let first = slice_to(gstr, 1);
        let dd = dd_to_int(&first, 3);
        let irpt = (35 + dd) as u16;
        (MAXGRID4 + irpt) | 0x8000
    } else {
        let dd = dd_to_int(gstr, 3);
        let irpt = (35 + dd) as u16;
        MAXGRID4 + irpt
    }
}

/// The first `end` characters of `s`.
fn slice_to(s: &[char], end: usize) -> (r: Vec<char>)
    requires end <= s@.len(),
    ensures r@ == s@.subrange(0, end as int),
{
    let mut r: Vec<char> = Vec::new();
    let mut i: usize = 0;
    while i < end
        invariant
            i <= end <= s@.len(),
            r@ == s@.subrange(0, i as int),
        decreases end - i,
    {
        r.push(s[i]);
        i += 1;
        assert(r@ =~= s@.subrange(0, i as int));
    }
    r
}

/// The characters of `s` from position `start` on.
fn slice_from(s: &[char], start: usize) -> (r: Vec<char>)
    requires start <= s@.len(),
    ensures r@ == s@.subrange(start as int, s@.len() as int),
{
    let mut r: Vec<char> = Vec::new();
    let mut i = start;
    while i < s.len()
        invariant
            start <= i <= s@.len(),
            r@ == s@.subrange(start as int, i as int),
        decreases s@.len() - i,
    {
        r.push(s[i]);
        i += 1;
        assert(r@ =~= s@.subrange(start as int, i as int));
    }
    r
}

/// Packs a locator (`AB12`), `RRR`, `RR73`, `73`, or a signal report
/// (`+dd`, `-dd`) into the 15-bit grid field. A token starting with `R`
/// sets bit 15 with a report of 0: only its `R` is read as the report.
pub fn _packgrid(grid4: &str) -> (r: u16)
    requires packgrid_ok(grid4@),
    ensures r == spec_packgrid(grid4@),
{
    let gstr = chars_of(grid4);
    packgrid_chars(&gstr)
}

/// Packs a locator, acknowledgement or report into the 15-bit grid field.
pub fn ft8_pack_grid4(grid4: &str) -> (r: Option<u16>)
    requires packgrid_ok(grid4@),
    ensures r == Some(spec_packgrid(grid4@)),
{
    let gstr = chars_of(grid4);
    Some(packgrid_chars(&gstr))
}

/// `s` cut at its first space: the text before it, and the text after it
/// when there is one.
pub open spec fn split_space(s: Seq<char>) -> (Seq<char>, Option<Seq<char>>) {
    let i = set_index(s, ' ');
    if i < 0 { (s, None) } else { (s.subrange(0, i), Some(s.subrange(i + 1, s.len() as int))) }
}

/// Splits characters at the first space.
fn split_first_space(s: &[char]) -> (r: (Vec<char>, Option<Vec<char>>))
    ensures
        r.0@ == split_space(s@).0,
        match r.1 {
            Some(v) => split_space(s@).1 == Some(v@),
            None => split_space(s@).1 is None,
        },
{
    proof {
        lemma_set_index(s@, ' ');
    }
    match find_char(s, ' ') {
        Some(i) => {
            let mut head: Vec<char> = Vec::new();
            let mut k: usize = 0;
            while k < i
                invariant
                    k <= i < s@.len(),
                    head@ == s@.subrange(0, k as int),
                decreases i - k,
            {
                head.push(s[k]);
                k += 1;
                assert(head@ =~= s@.subrange(0, k as int));
            }
            let len = s.len();
            assert(i < len);
            (head, Some(slice_from(s, i + 1)))
        },
        None => {
            let all = slice_from(s, 0);
            assert(all@ =~= s@);
            (all, None)
        },
    }
}

/// Whether a message has at least two space-separated tokens.
pub open spec fn has_two_tokens(m: Seq<char>) -> bool {
    split_space(m).1 is Some
}

/// The first token of a message.
pub open spec fn token0(m: Seq<char>) -> Seq<char> {
    split_space(m).0
}

/// The second token of a message.
pub open spec fn token1(m: Seq<char>) -> Seq<char> {
    split_space(split_space(m).1.unwrap()).0
}

/// The third token of a message, or a single space when it has two.
pub open spec fn token2(m: Seq<char>) -> Seq<char> {
    match split_space(split_space(m).1.unwrap()).1 {
        Some(rest) => split_space(rest).0,
        None => seq![' '],
    }
}

/// The first ten bytes of a type 1 message: the two callsign fields (each
/// already shifted left over its flag bit), the grid field and the type.
pub open spec fn type1_bytes(na: u32, nb: u32, g: u16, i3: u8) -> Seq<u8> {
    seq![
        (na >> 21) as u8,
        (na >> 13) as u8,
        (na >> 5) as u8,
        ((na << 3) as u8) | ((nb >> 26) as u8),
        (nb >> 18) as u8,
        (nb >> 10) as u8,
        (nb >> 2) as u8,
        ((nb << 6) as u8) | ((g >> 10) as u8),
        (g >> 2) as u8,
        ((g << 6) as u8) | (i3 << 3),
    ]
}

/// Writes the first ten bytes of a type 1 message.
fn store_type1(b77: &mut [u8; 12], na: u32, nb: u32, igrid4: u16, i3: u8)
    requires i3 < 32,
    ensures
        final(b77)@.subrange(0, 10) == type1_bytes(na, nb, igrid4, i3),
        final(b77)@.subrange(10, 12) == old(b77)@.subrange(10, 12),
{
    b77[0] = (na >> 21) as u8;
    b77[1] = (na >> 13) as u8;
    b77[2] = (na >> 5) as u8;
    b77[3] = (na << 3) as u8 | (nb >> 26) as u8;
    b77[4] = (nb >> 18) as u8;
    b77[5] = (nb >> 10) as u8;
    b77[6] = (nb >> 2) as u8;
    b77[7] = (nb << 6) as u8 | (igrid4 >> 10) as u8;
    b77[8] = (igrid4 >> 2) as u8;
    b77[9] = (igrid4 << 6) as u8 | (i3 << 3);
    assert(b77@.subrange(0, 10) =~= type1_bytes(na, nb, igrid4, i3));
    assert(b77@.subrange(10, 12) =~= old(b77)@.subrange(10, 12));
}

/// What `_pack77_1` requires of a message: two tokens, and a third token
/// that `_packgrid` accepts when both callsigns pack.
pub open spec fn pack77_1_ok(m: Seq<char>) -> bool {
    has_two_tokens(m) && (spec_pack28(token0(m)) >= 0 && spec_pack28(token1(m)) >= 0
        ==> packgrid_ok(token2(m)))
}

/// Packs a standard message (type 1): two callsigns or tokens and a grid,
/// acknowledgement or report. Returns 0 and fills the first ten bytes, or
/// returns -1 and leaves them when a callsign does not pack.
pub fn _pack77_1(msg: &str, b77: &mut [u8; 12]) -> (r: i32)
    requires pack77_1_ok(msg@),
    ensures
        ({
            let na = spec_pack28(token0(msg@));
            let nb = spec_pack28(token1(msg@));
            if na < 0 || nb < 0 {
                r == -1 && final(b77)@ == old(b77)@
            } else {
                &&& r == 0
                &&& final(b77)@.subrange(0, 10) == type1_bytes(((na as u32) << 1) as u32,
                    ((nb as u32) << 1) as u32, spec_packgrid(token2(msg@)), 1)
                &&& final(b77)@.subrange(10, 12) == old(b77)@.subrange(10, 12)
            }
        }),
{
    let m = chars_of(msg);
    let (t0, rest) = split_first_space(&m);
    let rest = match rest {
        Some(v) => v,
        None => {
            assert(false);
            Vec::new()
        },
    };
    let (t1, rest2) = split_first_space(&rest);
    let n28a = _pack28(string_of(&t0).as_str());
    let n28b = _pack28(string_of(&t1).as_str());
    if n28a < 0 || n28b < 0 {
        return -1;
    }
    let tg: Vec<char> = match rest2 {
        Some(r2) => split_first_space(&r2).0,
        None => vec![' '],
    };
    let igrid4 = packgrid_chars(&tg);
    let i3 = 1u8;
    let n28a = (n28a as u32) << 1;
    let n28b = (n28b as u32) << 1;
    store_type1(b77, n28a, n28b, igrid4, i3);
    0
}

/// What `ft8_pack_type1` requires of a message: two tokens, and a third
/// token that the grid packer accepts when both callsigns pack.
pub open spec fn pack_type1_ok(m: Seq<char>) -> bool {
    has_two_tokens(m) && (spec_pack_std_call(token0(m)) is Some && spec_pack_std_call(token1(m)) is Some
        ==> packgrid_ok(token2(m)))
}

/// Packs a standard message (type 1) into ten bytes: two callsigns or tokens
/// and a grid, acknowledgement or report; `None` when a callsign does not pack.
pub fn ft8_pack_type1(type1_msg: &str) -> (r: Option<Vec<u8>>)
    requires pack_type1_ok(type1_msg@),
    ensures
        match (spec_pack_std_call(token0(type1_msg@)), spec_pack_std_call(token1(type1_msg@))) {
            (Some(na), Some(nb)) => r matches Some(v)
                && v@ == type1_bytes(na << 1, nb << 1, spec_packgrid(token2(type1_msg@)), 1),
            _ => r is None,
        },
{
    let m = chars_of(type1_msg);
    let (t0, rest) = split_first_space(&m);
    let rest = match rest {
        Some(v) => v,
        None => {
            assert(false);
            Vec::new()
        },
    };
    let (t1, rest2) = split_first_space(&rest);
    let n28a = ft8_pack_std_call(string_of(&t0).as_str());
    let n28b = ft8_pack_std_call(string_of(&t1).as_str());
    let (n28a, n28b) = match (n28a, n28b) {
        (Some(a), Some(b)) => (a, b),
        _ => {
            return None;
        },
    };
    let tg: Vec<char> = match rest2 {
        Some(r2) => split_first_space(&r2).0,
        None => vec![' '],
    };
    let igrid4 = packgrid_chars(&tg);
    let i3 = 1u8;
    let n28a = n28a << 1;
    let n28b = n28b << 1;
    let mut b77: Vec<u8> = Vec::new();
    b77.push((n28a >> 21) as u8);
    b77.push((n28a >> 13) as u8);
    b77.push((n28a >> 5) as u8);
    b77.push((n28a << 3) as u8 | (n28b >> 26) as u8);
    b77.push((n28b >> 18) as u8);
    b77.push((n28b >> 10) as u8);
    b77.push((n28b >> 2) as u8);
    b77.push((n28b << 6) as u8 | (igrid4 >> 10) as u8);
    b77.push((igrid4 >> 2) as u8);
    b77.push((igrid4 << 6) as u8 | (i3 << 3));
    assert(b77@ =~= type1_bytes(n28a, n28b, igrid4, i3));
    Some(b77)
}

/// The base-42 digit of character `j` of free text: its position in the
/// free-text alphabet, 0 (a space) past the end or for a character outside it.
pub open spec fn text_digit(t: Seq<char>, j: int) -> int {
    if j < t.len() && set_index(free_set(), t[j]) >= 0 { set_index(free_set(), t[j]) } else { 0 }
}

/// The 13 base-42 digits of a trimmed free-text message.
pub open spec fn text_digits(m: Seq<char>) -> Seq<int> {
    Seq::new(13, |j: int| text_digit(trim(m), j))
}

/// The number of a free-text message: its first 13 characters read as
/// base-42 digits, padded on the right with spaces.
pub open spec fn text_number(m: Seq<char>) -> int {
    digits_value(text_digits(m), 42)
}

pub proof fn lemma_pw42_13()
    ensures pw(42, 13) == 1265437718438866624512,
{
    assert(pw(42, 13) == 1265437718438866624512) by {
        reveal_with_fuel(pw, 14);
    }
}

/// Twice the number of a free-text message (left-aligned in 72 bits), as
/// nine big-endian bytes: multiply by 42 and add each digit, doubled.
fn text77_number(text: &str) -> (r: [u8; 9])
    ensures be_value(r@) == 2 * text_number(text@),
{
    let t = trim_chars(&chars_of(text));
    let set = free_chars();
    let ghost d = text_digits(text@);
    let mut b: [u8; 9] = [0; 9];
    proof {
        assert(valid_digits(d, 42)) by {
            assert forall|i: int| 0 <= i < d.len() implies 0 <= #[trigger] d[i] < 42 by {
                lemma_set_index(free_set(), trim(text@)[i]);
            }
        }
        assert(Seq::new(9, |i: int| b@[i] as int) =~= Seq::new(9, |i: int| 0int));
        assert(digits_value(Seq::new(9, |i: int| 0int), 256) == 0) by {
            lemma_zero_digits(9);
        }
        assert(d.subrange(0, 0) =~= Seq::<int>::empty());
        lemma_pw256_9();
        lemma_pw42_13();
    }
    let mut j: usize = 0;
    while j < 13
        invariant
            j <= 13,
            t@ == trim(text@),
            set@ == free_set(),
            d == text_digits(text@),
            valid_digits(d, 42),
            be_value(b@) == 2 * digits_value(d.subrange(0, j as int), 42),
            pw(256, 9) == 4722366482869645213696,
            pw(42, 13) == 1265437718438866624512,
        decreases 13 - j,
    {
        let ghost dv = digits_value(d.subrange(0, j as int), 42);
        proof {
            assert(valid_digits(d.subrange(0, j as int), 42));
            lemma_digits_value_bound(d.subrange(0, j as int), 42);
            lemma_pw_monotone(42, j as nat, 12);
            assert(pw(42, 13) == pw(42, 12) * 42);
            assert(dv * 42 + 41 < pw(42, 13)) by (nonlinear_arith)
                requires dv < pw(42, j as nat), pw(42, j as nat) <= pw(42, 12), pw(42, 13) == pw(42, 12) * 42;
        }
        mul_bytes(&mut b, 42);
        let x: u16 = if j < t.len() {
            match find_char(&set, t[j]) {
                Some(q) => q as u16,
                None => 0,
            }
        } else {
            0
        };
        proof {
            lemma_set_index(free_set(), trim(text@)[j as int]);
            assert(x == d[j as int]);
            lemma_digits_prefix(d, 42, j as int);
        }
        add_bytes(&mut b, x * 2);
        j += 1;
    }
    assert(d.subrange(0, 13) =~= d);
    b
}

proof fn lemma_zero_digits(n: nat)
    ensures digits_value(Seq::new(n, |i: int| 0int), 256) == 0,
    decreases n,
{
    if n > 0 {
        assert(Seq::new(n, |i: int| 0int).drop_last() =~= Seq::new((n - 1) as nat, |i: int| 0int));
        lemma_zero_digits((n - 1) as nat);
    }
}

/// Packs free text (type 0.0): the trimmed text, up to 13 characters of the
/// free-text alphabet, as a 71-bit base-42 number left-aligned in the first
/// nine bytes; the subtype and type bits are cleared.
pub fn _packtext77(text: &str, b77: &mut [u8; 12])
    ensures
        be_value(final(b77)@.subrange(0, 9)) == 2 * text_number(text@),
        final(b77)@[9] == 0,
        final(b77)@.subrange(10, 12) == old(b77)@.subrange(10, 12),
{
    let b = text77_number(text);
    let mut i: usize = 0;
    while i < 9
        invariant
            i <= 9,
            forall|k: int| 0 <= k < i ==> #[trigger] b77@[k] == b@[k],
            b77@.subrange(10, 12) == old(b77)@.subrange(10, 12),
        decreases 9 - i,
    {
        b77[i] = b[i];
        i += 1;
        assert(b77@.subrange(10, 12) =~= old(b77)@.subrange(10, 12));
    }
    proof {
        assert(b77@.subrange(0, 9) =~= b@);
        lemma_be_last(b@);
        assert(b@.drop_last() =~= b@.subrange(0, 8));
    }
    let b8 = b77[8];
    let b9 = b77[9];
    assert(b8 % 2 == 0);
    b77[8] &= 0xFE;
    b77[9] &= 0x00;
    proof {
        assert((b8 % 2 == 0 ==> b8 & 0xFE == b8) && b9 & 0 == 0) by (bit_vector);
        assert(b77@.subrange(0, 9) =~= b@);
        assert(b77@.subrange(10, 12) =~= old(b77)@.subrange(10, 12));
    }
}

/// Packs free text into twelve bytes: the 71-bit base-42 number
/// left-aligned in the first nine, the rest zero.
pub fn ft8_pack_type3(type3_msg: &str) -> (r: Option<Vec<u8>>)
    ensures
        r matches Some(v) && v@.len() == 12 && be_value(v@.subrange(0, 9)) == 2 * text_number(type3_msg@)
            && v@[9] == 0 && v@[10] == 0 && v@[11] == 0,
{
    let mut b77: [u8; 12] = [0; 12];
    let ghost z = b77@;
    assert(z[10] == 0 && z[11] == 0);
    _packtext77(type3_msg, &mut b77);
    assert(b77@[10] == b77@.subrange(10, 12)[0] && b77@[11] == b77@.subrange(10, 12)[1]);
    assert(z[10] == z.subrange(10, 12)[0] && z[11] == z.subrange(10, 12)[1]);
    let mut v: Vec<u8> = Vec::new();
    let mut i: usize = 0;
    while i < 12
        invariant
            i <= 12,
            v@ == b77@.subrange(0, i as int),
        decreases 12 - i,
    {
        v.push(b77[i]);
        i += 1;
        assert(v@ =~= b77@.subrange(0, i as int));
    }
    assert(v@ =~= b77@);
    Some(v)
}

/// Packs a message: as a standard message (type 1) when its two callsigns
/// pack, else as free text. Always returns 0.
pub fn _pack77(msg: &str, c77: &mut [u8; 12]) -> (r: i32)
    requires pack77_1_ok(msg@),
    ensures
        r == 0,
        ({
            let na = spec_pack28(token0(msg@));
            let nb = spec_pack28(token1(msg@));
            if na >= 0 && nb >= 0 {
                final(c77)@.subrange(0, 10) == type1_bytes(((na as u32) << 1) as u32,
                    ((nb as u32) << 1) as u32, spec_packgrid(token2(msg@)), 1)
            } else {
                &&& be_value(final(c77)@.subrange(0, 9)) == 2 * text_number(msg@)
                &&& final(c77)@[9] == 0
            }
        }),
        final(c77)@.subrange(10, 12) == old(c77)@.subrange(10, 12),
{
    if _pack77_1(msg, c77) == 0 {
        return 0;
    }
    _packtext77(msg, c77);
    0
}

/// Packs a message into bytes: as a standard message (type 1) when its two
/// callsigns pack, else as free text.
pub fn ft8_pack_string(msg: &str) -> (r: Option<Vec<u8>>)
    requires pack_type1_ok(msg@),
    ensures
        match (spec_pack_std_call(token0(msg@)), spec_pack_std_call(token1(msg@))) {
            (Some(na), Some(nb)) => r matches Some(v)
                && v@ == type1_bytes(na << 1, nb << 1, spec_packgrid(token2(msg@)), 1),
            _ => r matches Some(v) && v@.len() == 12
                && be_value(v@.subrange(0, 9)) == 2 * text_number(msg@)
                && v@[9] == 0 && v@[10] == 0 && v@[11] == 0,
        },
{
    match ft8_pack_type1(msg) {
        Some(b77) => Some(b77),
        None => ft8_pack_type3(msg),
    }
}

} // verus!
