use vstd::prelude::*;

use crate::alnum::{charn_table, digit_char};
use crate::base::pw;
use crate::callsign::std_call_chars;
use crate::pack77::{call_number, call_places_valid, call_place_set, place_digit, is_grid4, grid_number,
    split_space, starts_with, pad6, is_grid_token, lemma_call_limits, spec_packgrid, spec_pack28,
    token0, token1, token2, has_two_tokens, packgrid_ok, pack77_1_ok, grid_access_ok};
use crate::callsign::C28_STD_CALLS;
use crate::unpack77::{spec_unpack_text, spec_type1or2, spec_type0_0, n3_of};
use crate::pack77::{pack_type1_ok, spec_pack_std_call, text_digits, text_number};
use crate::bignum::{be_value, lemma_be_last};
use crate::base::{digit_at, valid_digits, lemma_digits_value_bound, lemma_digit_at_value};
use crate::charsets::free_set;
use crate::message::msg_text;
use crate::payload::repeat_char;
use crate::text::{trim, trim_start, trim_end};
use crate::payload::{lemma_set_index, set_index};
use crate::charsets::{call1_set, call2_set, call3_set, call4_set};
use crate::text::is_ws;
use crate::unpack77::{grid_chars, letter_char, n28a_of, n28b_of, igrid4_of, ir_of, i3_of};
use crate::pack77::type1_bytes;

verus! {

/// Bits of the type 1 layout: the fields written by `type1_bytes` read back.
proof fn lemma_type1_bits(na: u32, nb: u32, g: u16, i3: u8)
    by (bit_vector)
    requires
        na < 0x2000_0000,
        nb < 0x2000_0000,
        i3 < 8,
    ensures
        ((((na >> 21) as u8) as u32) << 21) | ((((na >> 13) as u8) as u32) << 13)
            | ((((na >> 5) as u8) as u32) << 5)
            | (((((na << 3) as u8) | ((nb >> 26) as u8)) as u32) >> 3) == na,
        (((((((na << 3) as u8) | ((nb >> 26) as u8)) & 0x07) as u32) << 26)
            | ((((nb >> 18) as u8) as u32) << 18) | ((((nb >> 10) as u8) as u32) << 10)
            | ((((nb >> 2) as u8) as u32) << 2)
            | (((((nb << 6) as u8) | ((g >> 10) as u8)) as u32) >> 6)) == nb,
        ((((((nb << 6) as u8) | ((g >> 10) as u8)) & 0x1F) as u16) << 10)
            | ((((g >> 2) as u8) as u16) << 2)
            | (((((g << 6) as u8) | (i3 << 3)) as u16) >> 6) == g & 0x7FFF,
        (((((nb << 6) as u8) | ((g >> 10) as u8)) & 0x20) as u16) >> 5 == g >> 15,
        (((((g << 6) as u8) | (i3 << 3)) >> 3) & 0x07) == i3,
{
}

proof fn lemma_char_roundtrip(c: char)
    ensures
        digit_char(c as int - 48) == c || !('0' <= c <= '9'),
        letter_char(c as int - 65) == c || !('A' <= c <= 'Z'),
{
}

/// The type 1 layout: the callsign, grid and type fields written by
/// `type1_bytes` are the ones the decoder reads back (the `R` flag being
/// bit 15 of the grid field).
pub proof fn law_type1_layout(na: u32, nb: u32, g: u16, i3: u8)
    requires
        na < 0x2000_0000,
        nb < 0x2000_0000,
        i3 < 8,
    ensures
        n28a_of(type1_bytes(na, nb, g, i3)) == na,
        n28b_of(type1_bytes(na, nb, g, i3)) == nb,
        igrid4_of(type1_bytes(na, nb, g, i3)) == g & 0x7FFF,
        ir_of(type1_bytes(na, nb, g, i3)) == g >> 15,
        i3_of(type1_bytes(na, nb, g, i3)) == i3,
{
    lemma_type1_bits(na, nb, g, i3);
}

proof fn lemma_divmod(n: int, q: int, m: int, r: int)
    requires m > 0, 0 <= r < m, n == q * m + r,
    ensures n / m == q, n % m == r,
{
    vstd::arithmetic::div_mod::lemma_fundamental_div_mod_converse(n, m, q, r);
}

/// The six places of a standard callsign come back from its number.
pub proof fn lemma_std_call_roundtrip(c: Seq<char>)
    requires
        c.len() == 6,
        call_places_valid(c, 6),
    ensures
        std_call_chars(call_number(c, 6)) == c,
{
    let d0 = place_digit(c, 0);
    let d1 = place_digit(c, 1);
    let d2 = place_digit(c, 2);
    let d3 = place_digit(c, 3);
    let d4 = place_digit(c, 4);
    let d5 = place_digit(c, 5);
    crate::pack77::lemma_call_limits();
    lemma_set_index(call_place_set(0), c[0]);
    lemma_set_index(call_place_set(1), c[1]);
    lemma_set_index(call_place_set(2), c[2]);
    lemma_set_index(call_place_set(3), c[3]);
    lemma_set_index(call_place_set(4), c[4]);
    lemma_set_index(call_place_set(5), c[5]);
    assert(0 <= d0 < 37 && 0 <= d1 < 36 && 0 <= d2 < 10);
    assert(0 <= d3 < 27 && 0 <= d4 < 27 && 0 <= d5 < 27);
    let a1 = d0 * 36 + d1;
    let a2 = a1 * 10 + d2;
    let a3 = a2 * 27 + d3;
    let a4 = a3 * 27 + d4;
    let n = a4 * 27 + d5;
    assert(call_number(c, 0) == 0);
    assert(call_number(c, 1) == d0);
    assert(call_number(c, 2) == a1);
    assert(call_number(c, 3) == a2);
    assert(call_number(c, 4) == a3);
    assert(call_number(c, 5) == a4);
    assert(call_number(c, 6) == n);
    assert(a1 >= 0 && a2 >= 0 && a3 >= 0 && a4 >= 0) by (nonlinear_arith)
        requires d0 >= 0, d1 >= 0, d2 >= 0, d3 >= 0, d4 >= 0, a1 == d0 * 36 + d1, a2 == a1 * 10 + d2,
            a3 == a2 * 27 + d3, a4 == a3 * 27 + d4;
    lemma_divmod(n, a4, 27, d5);
    lemma_divmod(a4, a3, 27, d4);
    lemma_divmod(a3, a2, 27, d3);
    lemma_divmod(a2, a1, 10, d2);
    lemma_divmod(a1, d0, 36, d1);
    lemma_divmod(d0, 0, 37, d0);
    vstd::arithmetic::div_mod::lemma_div_denominator(n, 27, 27);
    vstd::arithmetic::div_mod::lemma_div_denominator(n, 729, 27);
    vstd::arithmetic::div_mod::lemma_div_denominator(n, 19683, 10);
    vstd::arithmetic::div_mod::lemma_div_denominator(n, 196830, 36);
    assert(n / 27 == a4);
    assert(n / 729 == a3);
    assert(n / 19683 == a2);
    assert(n / 196830 == a1);
    assert(n / 7085880 == d0);
    assert(charn_table(1) == call_place_set(0));
    assert(charn_table(2) == call_place_set(1));
    assert(charn_table(3) == call_place_set(2));
    assert(charn_table(4) == call_place_set(3));
    assert(std_call_chars(n) =~= c);
}

/// A 4-character locator comes back from its number, which is below the
/// first report value.
pub proof fn lemma_grid_roundtrip(g: Seq<char>)
    requires
        g.len() == 4,
        is_grid4(g),
    ensures
        0 <= grid_number(g) < 32400,
        grid_chars(grid_number(g)) == g,
{
    let l0 = g[0] as int - 65;
    let l1 = g[1] as int - 65;
    let n2 = g[2] as int - 48;
    let n3 = g[3] as int - 48;
    let a1 = l0 * 18 + l1;
    let a2 = a1 * 10 + n2;
    let n = a2 * 10 + n3;
    assert(0 <= a1 < 324);
    assert(0 <= a2 < 3240);
    assert(n == grid_number(g));
    lemma_divmod(n, a2, 10, n3);
    lemma_divmod(a2, a1, 10, n2);
    lemma_divmod(a1, l0, 18, l1);
    lemma_divmod(l0, 0, 18, l0);
    vstd::arithmetic::div_mod::lemma_div_denominator(n, 10, 10);
    vstd::arithmetic::div_mod::lemma_div_denominator(n, 100, 18);
    lemma_char_roundtrip(g[0]);
    lemma_char_roundtrip(g[1]);
    lemma_char_roundtrip(g[2]);
    lemma_char_roundtrip(g[3]);
    assert(grid_chars(n) =~= g);
}

/// Shifting a callsign field over its flag bit, and a grid field without
/// the `R` flag.
proof fn lemma_flag_bits(x: u32, g: u16)
    by (bit_vector)
    requires
        x < 0x1000_0000,
        g < 0x8000,
    ensures
        (x << 1) < 0x2000_0000,
        (x << 1) / 2 == x,
        (x << 1) % 2 == 0,
        g & 0x7FFF == g,
        g >> 15 == 0,
{
}

proof fn lemma_call_chars_not_ws(k: int, c: char)
    requires
        0 <= k < 6,
        set_index(call_place_set(k), c) >= 0,
        c != ' ',
    ensures !is_ws(c),
{
    lemma_set_index(call_place_set(k), c);
    let s = call_place_set(k);
    let i = set_index(s, c);
    assert(s[i] == c);
    assert(forall|j: int| 0 <= j < call1_set().len() ==> #[trigger] call1_set()[j] == ' '
        || ('0' <= call1_set()[j] <= '9') || ('A' <= call1_set()[j] <= 'Z'));
    assert(forall|j: int| 0 <= j < call2_set().len() ==> ('0' <= #[trigger] call2_set()[j] <= '9')
        || ('A' <= call2_set()[j] <= 'Z'));
    assert(forall|j: int| 0 <= j < call3_set().len() ==> ('0' <= #[trigger] call3_set()[j] <= '9'));
    assert(forall|j: int| 0 <= j < call4_set().len() ==> #[trigger] call4_set()[j] == ' '
        || ('A' <= call4_set()[j] <= 'Z'));
}

/// Whether `t` holds no space.
pub open spec fn no_space(t: Seq<char>) -> bool {
    forall|i: int| 0 <= i < t.len() ==> t[i] != ' '
}

proof fn lemma_split_at(a: Seq<char>, b: Seq<char>)
    requires no_space(a),
    ensures split_space(a + seq![' '] + b) == (a, Some(b)),
{
    let m = a + seq![' '] + b;
    lemma_set_index(m, ' ');
    let i = set_index(m, ' ');
    assert(m[a.len() as int] == ' ');
    if i < a.len() {
        assert(m[i] == a[i]);
    }
    assert(i == a.len());
    assert(m.subrange(0, i) =~= a);
    assert(m.subrange(i + 1, m.len() as int) =~= b);
}

proof fn lemma_split_none(a: Seq<char>)
    requires no_space(a),
    ensures split_space(a) == (a, None::<Seq<char>>),
{
    lemma_set_index(a, ' ');
    if set_index(a, ' ') >= 0 {
        assert(a[set_index(a, ' ')] == ' ');
    }
}

proof fn lemma_trim_end_spaces(t: Seq<char>, n: nat)
    requires t.len() > 0, !is_ws(t.last()),
    ensures trim_end(t + repeat_char(' ', n)) == t,
    decreases n,
{
    let s = t + repeat_char(' ', n);
    if n == 0 {
        assert(s =~= t);
    } else {
        assert(s.last() == ' ');
        assert(s.drop_last() =~= t + repeat_char(' ', (n - 1) as nat));
        lemma_trim_end_spaces(t, (n - 1) as nat);
    }
}

/// Text without surrounding whitespace, padded on the right with spaces,
/// trims back to itself.
proof fn lemma_trim_padded(t: Seq<char>, n: nat)
    requires t.len() > 0, !is_ws(t[0]), !is_ws(t.last()),
    ensures trim(t + repeat_char(' ', n)) == t,
{
    let s = t + repeat_char(' ', n);
    assert(s[0] == t[0]);
    assert(trim_start(s) == s);
    lemma_trim_end_spaces(t, n);
}

/// A special token: `DE`, `QRZ` or `CQ`.
pub open spec fn special_token(t: Seq<char>) -> bool {
    t == seq!['D', 'E'] || t == seq!['Q', 'R', 'Z'] || t == seq!['C', 'Q']
}

/// A standard callsign token of up to six places, each in its alphabet once
/// padded on the right with spaces (and not beginning like a special token).
pub open spec fn std_call_token(t: Seq<char>) -> bool {
    &&& t.len() <= 6
    &&& no_space(t)
    &&& !starts_with(t, seq!['D', 'E']) && !starts_with(t, seq!['Q', 'R', 'Z']) && !starts_with(t, seq!['C', 'Q'])
    &&& call_places_valid(pad6(t), 6)
}

/// A grid token given back as written: a 4-character locator, `RRR`,
/// `RR73` or `73`.
pub open spec fn grid_word(t: Seq<char>) -> bool {
    (t.len() == 4 && is_grid4(t)) || is_grid_token(t)
}

/// A standard callsign token decodes to itself from its number.
proof fn lemma_std_token_text(t: Seq<char>)
    requires std_call_token(t),
    ensures
        t.len() >= 2,
        0 <= call_number(pad6(t), 6) < 262177560,
        trim(std_call_chars(call_number(pad6(t), 6))) == t,
{
    let p = pad6(t);
    lemma_call_limits();
    if t.len() < 2 {
        assert(p[1] == ' ');
        lemma_set_index(call_place_set(1), ' ');
        assert(place_digit(p, 1) >= 0);
        assert(false);
    }
    crate::pack77::lemma_call_number_bound(p, 6);
    lemma_std_call_roundtrip(p);
    assert(p[0] == t[0]);
    assert(place_digit(p, 0) >= 0);
    lemma_call_chars_not_ws(0, t[0]);
    let k = t.len() - 1;
    assert(p[k] == t[k]);
    assert(place_digit(p, k) >= 0);
    lemma_call_chars_not_ws(k, t[k]);
    if t.len() < 6 {
        assert(p =~= t + repeat_char(' ', (6 - t.len()) as nat));
        lemma_trim_padded(t, (6 - t.len()) as nat);
    } else {
        assert(p =~= t + repeat_char(' ', 0));
        lemma_trim_padded(t, 0);
    }
}

/// The 28-bit field of a special or standard callsign token.
pub open spec fn token_c28(t: Seq<char>) -> int {
    if t == seq!['D', 'E'] {
        0
    } else if t == seq!['Q', 'R', 'Z'] {
        1
    } else if t == seq!['C', 'Q'] {
        2
    } else {
        C28_STD_CALLS + call_number(pad6(t), 6)
    }
}

/// A type 1 message built from two callsign tokens and a grid token decodes
/// to the three tokens, separated by spaces.
proof fn lemma_type1_message_text(t0: Seq<char>, t1: Seq<char>, t2: Seq<char>)
    requires
        special_token(t0) || std_call_token(t0),
        special_token(t1) || std_call_token(t1),
        grid_word(t2),
    ensures
        0 <= token_c28(t0) < 0x1000_0000,
        0 <= token_c28(t1) < 0x1000_0000,
        spec_unpack_text(type1_bytes((token_c28(t0) as u32) << 1, (token_c28(t1) as u32) << 1,
            spec_packgrid(t2), 1)) == Some(t0 + seq![' '] + t1 + seq![' '] + t2),
{
    let ca = token_c28(t0);
    let cb = token_c28(t1);
    if std_call_token(t0) && !special_token(t0) {
        lemma_std_token_text(t0);
    }
    if std_call_token(t1) && !special_token(t1) {
        lemma_std_token_text(t1);
    }
    assert(0 <= ca < 0x1000_0000);
    assert(0 <= cb < 0x1000_0000);
    let g = spec_packgrid(t2);
    if !is_grid_token(t2) {
        lemma_grid_roundtrip(t2);
        assert(g == grid_number(t2));
    }
    assert(g < 0x8000);
    let na = (ca as u32) << 1;
    let nb = (cb as u32) << 1;
    lemma_flag_bits(ca as u32, g);
    lemma_flag_bits(cb as u32, g);
    law_type1_layout(na, nb, g, 1);
    let b = type1_bytes(na, nb, g, 1);
    assert(i3_of(b) == 1);
    let f = spec_type1or2(b, 1);
    assert(n28a_of(b) as int / 2 == ca && n28a_of(b) as int % 2 == 0);
    assert(n28b_of(b) as int / 2 == cb && n28b_of(b) as int % 2 == 0);
    assert(f.0 == t0);
    assert(f.2 == t1);
    assert(igrid4_of(b) == g && ir_of(b) == 0);
    if !is_grid_token(t2) {
        assert(f.4 =~= t2);
    } else {
        assert(f.4 == t2);
    }
    assert(msg_text(f.0, f.2, f.4) =~= t0 + seq![' '] + t1 + seq![' '] + t2);
}

/// The standard-message round trip of `_pack77`: a message of two callsign
/// tokens (`DE`, `QRZ`, `CQ` or a standard callsign of up to six places) and
/// a locator or acknowledgement, separated by single spaces, packs as type 1
/// and decodes to the same text.
pub proof fn law_pack77_standard_roundtrip(t0: Seq<char>, t1: Seq<char>, t2: Seq<char>)
    requires
        special_token(t0) || std_call_token(t0),
        special_token(t1) || std_call_token(t1),
        grid_word(t2),
    ensures
        ({
            let m = t0 + seq![' '] + t1 + seq![' '] + t2;
            &&& pack77_1_ok(m)
            &&& spec_pack28(token0(m)) >= 0
            &&& spec_pack28(token1(m)) >= 0
            &&& spec_unpack_text(type1_bytes(((spec_pack28(token0(m)) as u32) << 1) as u32,
                ((spec_pack28(token1(m)) as u32) << 1) as u32, spec_packgrid(token2(m)), 1)) == Some(m)
        }),
{
    let m = t0 + seq![' '] + t1 + seq![' '] + t2;
    lemma_tokens(t0, t1, t2);
    lemma_pack28_token(t0);
    lemma_pack28_token(t1);
    lemma_type1_message_text(t0, t1, t2);
}

proof fn lemma_tokens(t0: Seq<char>, t1: Seq<char>, t2: Seq<char>)
    requires
        special_token(t0) || std_call_token(t0),
        special_token(t1) || std_call_token(t1),
        grid_word(t2),
    ensures
        ({
            let m = t0 + seq![' '] + t1 + seq![' '] + t2;
            &&& has_two_tokens(m)
            &&& token0(m) == t0
            &&& token1(m) == t1
            &&& token2(m) == t2
            &&& packgrid_ok(t2)
        }),
{
    lemma_token_no_space(t0);
    lemma_token_no_space(t1);
    assert(no_space(t2)) by {
        if t2.len() == 4 && is_grid4(t2) {
        } else {
            assert(t2 == seq!['R', 'R', 'R'] || t2 == seq!['R', 'R', '7', '3'] || t2 == seq!['7', '3']);
        }
    }
    let m = t0 + seq![' '] + t1 + seq![' '] + t2;
    assert(m =~= t0 + seq![' '] + (t1 + seq![' '] + t2));
    lemma_split_at(t0, t1 + seq![' '] + t2);
    lemma_split_at(t1, t2);
    lemma_split_none(t2);
    if t2.len() == 4 && is_grid4(t2) {
        assert(grid_access_ok(t2));
    }
}

proof fn lemma_token_no_space(t: Seq<char>)
    requires special_token(t) || std_call_token(t),
    ensures no_space(t),
{
}

proof fn lemma_pack28_token(t: Seq<char>)
    requires special_token(t) || std_call_token(t),
    ensures spec_pack28(t) == token_c28(t),
{
    if t == seq!['D', 'E'] {
        assert(t.subrange(0, 2) =~= seq!['D', 'E']);
    } else if t == seq!['Q', 'R', 'Z'] {
        assert(t.subrange(0, 2) != seq!['D', 'E']);
        assert(t.subrange(0, 3) =~= seq!['Q', 'R', 'Z']);
    } else if t == seq!['C', 'Q'] {
        assert(t.subrange(0, 2) != seq!['D', 'E']);
        assert(t.subrange(0, 2) =~= seq!['C', 'Q']);
    }
}

/// The standard-message round trip of `ft8_pack_string`: a message of two
/// callsign tokens (`DE`, `QRZ`, `CQ` or a standard callsign of up to six places)
/// and a locator or acknowledgement, separated by single spaces, packs as
/// type 1 and decodes to the same text.
pub proof fn law_pack_string_standard_roundtrip(t0: Seq<char>, t1: Seq<char>, t2: Seq<char>)
    requires
        special_token(t0) || std_call_token(t0),
        special_token(t1) || std_call_token(t1),
        grid_word(t2),
    ensures
        ({
            let m = t0 + seq![' '] + t1 + seq![' '] + t2;
            &&& pack_type1_ok(m)
            &&& match (spec_pack_std_call(token0(m)), spec_pack_std_call(token1(m))) {
                (Some(na), Some(nb)) =>
                    spec_unpack_text(type1_bytes(na << 1, nb << 1, spec_packgrid(token2(m)), 1)) == Some(m),
                _ => false,
            }
        }),
{
    lemma_tokens(t0, t1, t2);
    lemma_std_call_token(t0);
    lemma_std_call_token(t1);
    lemma_type1_message_text(t0, t1, t2);
}

proof fn lemma_std_call_token(t: Seq<char>)
    requires special_token(t) || std_call_token(t),
    ensures
        0 <= token_c28(t) < 0x1000_0000,
        spec_pack_std_call(t) == Some(token_c28(t) as u32),
{
    if t == seq!['D', 'E'] {
        assert(t.subrange(0, 2) =~= seq!['D', 'E']);
    } else if t == seq!['Q', 'R', 'Z'] {
        assert(t.subrange(0, 2) != seq!['D', 'E']);
        assert(t.subrange(0, 3) =~= seq!['Q', 'R', 'Z']);
    } else if t == seq!['C', 'Q'] {
        assert(t.subrange(0, 2) != seq!['D', 'E']);
        assert(t.subrange(0, 2) =~= seq!['C', 'Q']);
    } else {
        lemma_std_token_text(t);
    }
}

proof fn lemma_trim_start_first(s: Seq<char>)
    ensures
        trim_start(s).len() > 0 ==> !is_ws(trim_start(s)[0]),
        trim_start(s).len() <= s.len(),
    decreases s.len(),
{
    if s.len() > 0 && is_ws(s[0]) {
        lemma_trim_start_first(s.drop_first());
    }
}

proof fn lemma_trim_end_prefix(s: Seq<char>)
    ensures
        trim_end(s).len() <= s.len(),
        trim_end(s) == s.subrange(0, trim_end(s).len() as int),
        trim_end(s).len() > 0 ==> !is_ws(trim_end(s).last()),
    decreases s.len(),
{
    if s.len() > 0 && is_ws(s.last()) {
        lemma_trim_end_prefix(s.drop_last());
        assert(s.drop_last().subrange(0, trim_end(s).len() as int) =~= s.subrange(0, trim_end(s).len() as int));
    } else {
        assert(s.subrange(0, s.len() as int) =~= s);
    }
}

/// Trimmed text neither begins nor ends with whitespace.
proof fn lemma_trim_ends(s: Seq<char>)
    requires trim(s).len() > 0,
    ensures !is_ws(trim(s)[0]), !is_ws(trim(s).last()),
{
    lemma_trim_start_first(s);
    lemma_trim_end_prefix(trim_start(s));
    assert(trim(s)[0] == trim_start(s)[0]);
}

/// The type 0 header of the free-text packers: type 0, subtype 0.
proof fn lemma_text_header_bits(b8: u8, b9: u8)
    by (bit_vector)
    requires b8 % 2 == 0, b9 == 0,
    ensures
        (b9 >> 3) & 0x07 == 0,
        ((b8 << 2) & 0x04) | ((b9 >> 6) & 0x03) == 0,
{
}

/// Free text that fits (1 to 13 characters of the free-text alphabet once
/// trimmed).
pub open spec fn free_text_ok(m: Seq<char>) -> bool {
    let t = trim(m);
    0 < t.len() <= 13 && forall|i: int| 0 <= i < t.len() ==> set_index(free_set(), #[trigger] t[i]) >= 0
}

/// The free-text round trip: the bytes the free-text packers write (twice
/// the text number in the first nine bytes, the type byte cleared) decode to
/// the trimmed text.
pub proof fn law_free_text_message_roundtrip(m: Seq<char>, b: Seq<u8>)
    requires
        free_text_ok(m),
        b.len() >= 10,
        be_value(b.subrange(0, 9)) == 2 * text_number(m),
        b[9] == 0,
    ensures
        spec_unpack_text(b) == Some(trim(m)),
{
    let t = trim(m);
    let d = text_digits(m);
    let n = text_number(m);
    lemma_be_last(b.subrange(0, 9));
    assert(b.subrange(0, 9).drop_last() =~= b.subrange(0, 8));
    assert(b.subrange(0, 9).last() == b[8]);
    assert(b[8] % 2 == 0);
    lemma_text_header_bits(b[8], b[9]);
    assert(i3_of(b) == 0 && n3_of(b) == 0);
    assert(valid_digits(d, 42)) by {
        assert forall|i: int| 0 <= i < d.len() implies 0 <= #[trigger] d[i] < 42 by {
            lemma_set_index(free_set(), t[i]);
        }
    }
    lemma_digits_value_bound(d, 42);
    crate::pack77::lemma_pw42_13();
    crate::unpack77::lemma_pw2_71();
    assert((be_value(b.subrange(0, 9)) / 2) == n);
    let v = ((be_value(b.subrange(0, 9)) / 2) as u128) as int % pw(2, 71);
    assert(v == n);
    let body = Seq::new(13, |i: int| free_set()[digit_at(n, 42, (13 - 1 - i) as nat)]);
    assert(body =~= t + repeat_char(' ', (13 - t.len()) as nat)) by {
        assert forall|i: int| 0 <= i < 13 implies #[trigger] body[i] == (t + repeat_char(' ', (13 - t.len()) as nat))[i] by {
            lemma_digit_at_value(d, 42, i);
            if i < t.len() {
                lemma_set_index(free_set(), t[i]);
            }
        }
    }
    lemma_trim_ends(m);
    lemma_trim_padded(t, (13 - t.len()) as nat);
    assert(spec_type0_0(b) == t);
    assert(msg_text(Seq::empty(), Seq::empty(), t) =~= t);
}

proof fn lemma_r_flag_bits(g: u16)
    by (bit_vector)
    requires
        g < 0x8000,
    ensures
        (g | 0x8000u16) & 0x7FFF == g,
        (g | 0x8000u16) >> 15 == 1,
        g & 0x7FFF == g,
        g >> 15 == 0,
{
}

/// The `R` flag of a standard message is never lost: decoding a type 1
/// message whose grid field holds a locator (at most 32400) gives, with the
/// flag set, the text decoded without it with `R ` put before the four
/// characters of the locator.
pub proof fn law_type1_r_flag(na: u32, nb: u32, g: u16)
    requires
        na < 0x2000_0000,
        nb < 0x2000_0000,
        g <= 32400,
    ensures
        ({
            let x = spec_unpack_text(type1_bytes(na, nb, g, 1));
            let y = spec_unpack_text(type1_bytes(na, nb, g | 0x8000u16, 1));
            &&& x is Some && y is Some
            &&& x.unwrap().len() >= 4
            &&& y.unwrap() == x.unwrap().subrange(0, x.unwrap().len() - 4) + seq!['R', ' ']
                + x.unwrap().subrange(x.unwrap().len() - 4, x.unwrap().len() as int)
        }),
{
    lemma_r_flag_bits(g);
    let gr = (g | 0x8000u16) as u16;
    law_type1_layout(na, nb, g, 1);
    law_type1_layout(na, nb, gr, 1);
    let a = type1_bytes(na, nb, g, 1);
    let b = type1_bytes(na, nb, gr, 1);
    let fa = spec_type1or2(a, 1);
    let fb = spec_type1or2(b, 1);
    assert(fa.0 == fb.0 && fa.2 == fb.2);
    let gc = crate::unpack77::grid_chars(g as int);
    assert(fa.4 =~= gc);
    assert(fb.4 =~= seq!['R', ' '] + gc);
    let p = crate::message::spaced(fa.0) + crate::message::spaced(fa.2);
    let x = msg_text(fa.0, fa.2, fa.4);
    let y = msg_text(fb.0, fb.2, fb.4);
    assert(x =~= p + gc);
    assert(y =~= p + (seq!['R', ' '] + gc));
    assert(x.subrange(0, x.len() - 4) =~= p);
    assert(x.subrange(x.len() - 4, x.len() as int) =~= gc);
    assert(y =~= x.subrange(0, x.len() - 4) + seq!['R', ' '] + x.subrange(x.len() - 4, x.len() as int));
}

/// A standard message with `R` before its locator: two callsign tokens and a
/// locator (other than `RR73`, which is the acknowledgement), packed with the
/// `R` flag set, decode to the tokens, `R` and the locator, separated by
/// single spaces.
pub proof fn law_type1_r_locator_text(t0: Seq<char>, t1: Seq<char>, t2: Seq<char>)
    requires
        special_token(t0) || std_call_token(t0),
        special_token(t1) || std_call_token(t1),
        t2.len() == 4,
        is_grid4(t2),
        !is_grid_token(t2),
    ensures
        0 <= token_c28(t0) < 0x1000_0000,
        0 <= token_c28(t1) < 0x1000_0000,
        spec_unpack_text(type1_bytes((token_c28(t0) as u32) << 1, (token_c28(t1) as u32) << 1,
            (grid_number(t2) as u16) | 0x8000u16, 1))
            == Some(t0 + seq![' '] + t1 + seq![' ', 'R', ' '] + t2),
{
    let ca = token_c28(t0);
    let cb = token_c28(t1);
    let g = grid_number(t2) as u16;
    let x = t0 + seq![' '] + t1 + seq![' '] + t2;
    assert(0 <= ca < 0x1000_0000 && 0 <= cb < 0x1000_0000 && g < 32400
        && spec_unpack_text(type1_bytes((ca as u32) << 1, (cb as u32) << 1, g, 1)) == Some(x)) by {
        lemma_type1_message_text(t0, t1, t2);
        lemma_grid_roundtrip(t2);
        assert(spec_packgrid(t2) == g);
    }
    let na = (ca as u32) << 1;
    let nb = (cb as u32) << 1;
    assert(na < 0x2000_0000 && nb < 0x2000_0000) by {
        lemma_flag_bits(ca as u32, g);
        lemma_flag_bits(cb as u32, g);
    }
    law_type1_r_flag(na, nb, g);
    assert(x.subrange(0, x.len() - 4) =~= t0 + seq![' '] + t1 + seq![' ']);
    assert(x.subrange(x.len() - 4, x.len() as int) =~= t2);
    assert(t0 + seq![' '] + t1 + seq![' '] + seq!['R', ' '] + t2 =~= t0 + seq![' '] + t1 + seq![' ', 'R', ' '] + t2);
}

} // verus!
