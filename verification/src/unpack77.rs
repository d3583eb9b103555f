use vstd::prelude::*;

use crate::base::{pw, digit_at, lemma_pw_pos, lemma_div_pw_step};
use crate::alnum::{charn, digit_char, spec_int_to_dd, int_to_dd};
use crate::callsign::{spec_c28_text, spec_c28_special, ft8_unpack_callsign};
use crate::charsets::{free_set, telem_set};
use crate::message::{CallId, Ft8Msg, msg_text};
use crate::payload::spec_unpack_0_stg;
use crate::bignum::{be_value, lemma_be_prefix, lemma_be_bound, div_bytes};
use crate::text::{trim_chars, string_of};

verus! {

/// The largest 15-bit grid field that holds a 4-character locator.
pub const MAXGRID4: u16 = 32400;

/// The first 28+1 bits of a type 1 or 2 message: the first callsign and its flag bit.
pub open spec fn n28a_of(a: Seq<u8>) -> u32 {
    ((a[0] as u32) << 21) | ((a[1] as u32) << 13) | ((a[2] as u32) << 5) | ((a[3] as u32) >> 3)
}

/// The next 28+1 bits of a type 1 or 2 message: the second callsign and its flag bit.
pub open spec fn n28b_of(a: Seq<u8>) -> u32 {
    (((a[3] & 0x07) as u32) << 26) | ((a[4] as u32) << 18) | ((a[5] as u32) << 10)
        | ((a[6] as u32) << 2) | ((a[7] as u32) >> 6)
}

/// The `R` flag bit of a type 1 or 2 message.
pub open spec fn ir_of(a: Seq<u8>) -> u16 {
    ((a[7] & 0x20) as u16) >> 5
}

/// The 15-bit grid or report field of a type 1 or 2 message.
pub open spec fn igrid4_of(a: Seq<u8>) -> u16 {
    (((a[7] & 0x1F) as u16) << 10) | ((a[8] as u16) << 2) | ((a[9] as u16) >> 6)
}

/// The message type, bits 74 to 76.
pub open spec fn i3_of(a: Seq<u8>) -> u8 {
    (a[9] >> 3) & 0x07
}

/// The subtype of a type 0 message, bits 71 to 73.
pub open spec fn n3_of(a: Seq<u8>) -> u8 {
    ((a[8] << 2) & 0x04) | ((a[9] >> 6) & 0x03)
}

/// The letter `'A' + k`.
pub open spec fn letter_char(k: int) -> char {
    ((65 + k) as u32) as char
}

/// A 4-character grid locator numbered `n`.
pub open spec fn grid_chars(n: int) -> Seq<char> {
    seq![letter_char((n / 1800) % 18), letter_char((n / 100) % 18), digit_char((n / 10) % 10), digit_char(n % 10)]
}

/// What follows the callsigns of a type 1 or 2 message: a locator
/// (with `R ` before it when the `R` flag is set), `RRR`, `RR73`, `73`, or a
/// signed report (with `R` before it when the flag is set).
pub open spec fn spec_extra(igrid4: int, ir: int) -> Seq<char> {
    if igrid4 <= MAXGRID4 {
        (if ir > 0 { seq!['R', ' '] } else { Seq::empty() }) + grid_chars(igrid4)
    } else {
        let irpt = igrid4 - MAXGRID4;
        if irpt == 1 {
            Seq::empty()
        } else if irpt == 2 {
            seq!['R', 'R', 'R']
        } else if irpt == 3 {
            seq!['R', 'R', '7', '3']
        } else if irpt == 4 {
            seq!['7', '3']
        } else {
            (if ir > 0 { seq!['R'] } else { Seq::empty() }) + spec_int_to_dd(irpt - 35, 2, true)
        }
    }
}

/// The fields of a decoded message: callsign to, whether it is a special
/// token, callsign from, whether it is one, and the rest.
pub type MsgFields = (Seq<char>, bool, Seq<char>, bool, Seq<char>);

/// The fields of a type 1 or 2 message.
pub open spec fn spec_type1or2(a: Seq<u8>, i3: int) -> MsgFields {
    let na = n28a_of(a) as int;
    let nb = n28b_of(a) as int;
    let to = spec_c28_text(na / 2, na % 2, i3);
    let from = spec_c28_text(nb / 2, nb % 2, i3);
    (to, to.len() > 0 && spec_c28_special(na / 2), from, from.len() > 0 && spec_c28_special(nb / 2),
        spec_extra(igrid4_of(a) as int, ir_of(a) as int))
}

/// Decodes a standard message (type 1) or its `/P` form (type 2).
fn ft8_unpack_type1or2(a77: &[u8], i3: u8) -> (r: Option<Ft8Msg>)
    requires a77@.len() >= 10,
    ensures
        r matches Some(m) && {
            let f = spec_type1or2(a77@, i3 as int);
            &&& m.call_to.id@ == f.0 && m.call_to.special == f.1
            &&& m.call_from.id@ == f.2 && m.call_from.special == f.3
            &&& m.extra@ == f.4
        },
{
    let mut ft8_msg = Ft8Msg::new();

    let n28a: u32 = ((a77[0] as u32) << 21) | ((a77[1] as u32) << 13) | ((a77[2] as u32) << 5)
        | ((a77[3] as u32) >> 3);
    let n28b: u32 = (((a77[3] & 0x07) as u32) << 26) | ((a77[4] as u32) << 18)
        | ((a77[5] as u32) << 10) | ((a77[6] as u32) << 2) | ((a77[7] as u32) >> 6);
    let ir: u16 = ((a77[7] & 0x20) as u16) >> 5;
    let (x7, x8, x9) = (a77[7], a77[8], a77[9]);
    let igrid4: u16 = (((x7 & 0x1F) as u16) << 10) | ((x8 as u16) << 2) | ((x9 as u16) >> 6);
    assert(igrid4 < 32768) by (bit_vector)
        requires igrid4 == (((x7 & 0x1F) as u16) << 10) | ((x8 as u16) << 2) | ((x9 as u16) >> 6);

    let call = ft8_unpack_callsign(n28a / 2, (n28a % 2) as u8, i3);
    match call {
        Some(c) => {
            ft8_msg.call_to = c;
        },
        None => {},
    }
    let call = ft8_unpack_callsign(n28b / 2, (n28b % 2) as u8, i3);
    match call {
        Some(c) => {
            ft8_msg.call_from = c;
        },
        None => {},
    }

    let mut extra: Vec<char> = Vec::new();
    if igrid4 <= MAXGRID4 {
        if ir > 0 {
            extra.push('R');
            extra.push(' ');
        }
        let n = igrid4;
        let d0 = (48u8 + (n % 10) as u8) as char;
        let d1 = (48u8 + ((n / 10) % 10) as u8) as char;
        let l0 = (65u8 + ((n / 100) % 18) as u8) as char;
        let l1 = (65u8 + ((n / 1800) % 18) as u8) as char;
        extra.push(l1);
        extra.push(l0);
        extra.push(d1);
        extra.push(d0);
    } else {
        let irpt = igrid4 - MAXGRID4;
        if irpt == 1 {
        } else if irpt == 2 {
            extra = vec!['R', 'R', 'R'];
        } else if irpt == 3 {
            extra = vec!['R', 'R', '7', '3'];
        } else if irpt == 4 {
            extra = vec!['7', '3'];
        } else {
            if ir > 0 {
                extra.push('R');
            }
            let mut dd = int_to_dd(irpt as i32 - 35, 2, true);
            extra.append(&mut dd);
        }
    }
    assert(extra@ =~= spec_extra(igrid4 as int, ir as int));
    ft8_msg.extra = string_of(&extra);
    Some(ft8_msg)
}

/// The first 72 bits shifted right by one bit, as bytes.
pub open spec fn shifted9(a: Seq<u8>) -> Seq<u8> {
    Seq::new(9, |k: int| ((if k > 0 { (a[k - 1] % 2) * 128 } else { 0 }) + a[k] / 2) as u8)
}

/// The 71-bit payload of a type 0 message, right-aligned in nine bytes.
fn payload71(a71: &[u8]) -> (r: [u8; 9])
    requires a71@.len() >= 9,
    ensures
        r@ == shifted9(a71@),
        be_value(r@) == be_value(a71@.subrange(0, 9)) / 2,
{
    let mut b71: [u8; 9] = [0; 9];
    let mut carry: u8 = 0;
    let mut i: usize = 0;
    while i < 9
        invariant
            i <= 9,
            a71@.len() >= 9,
            carry <= 1,
            i > 0 ==> carry == a71@[i - 1] % 2,
            i == 0 ==> carry == 0,
            forall|k: int| 0 <= k < i ==> #[trigger] b71@[k] == shifted9(a71@)[k],
            be_value(b71@.subrange(0, i as int)) * 2 + carry == be_value(a71@.subrange(0, i as int)),
        decreases 9 - i,
    {
        proof {
            lemma_be_prefix(a71@, i as int);
        }
        let ghost prev = b71@;
        let ghost old_carry = carry;
        b71[i] = carry * 128 + a71[i] / 2;
        proof {
            lemma_be_prefix(b71@, i as int);
            assert(b71@.subrange(0, i as int) =~= prev.subrange(0, i as int));
            let x = a71@[i as int];
            assert(x == 2 * (x / 2) + x % 2);
            assert(be_value(b71@.subrange(0, i as int + 1)) * 2 + x % 2
                == (be_value(prev.subrange(0, i as int)) * 2 + old_carry) * 256 + x);
        }
        carry = a71[i] % 2;
        i += 1;
    }
    assert(b71@ =~= shifted9(a71@));
    assert(b71@.subrange(0, 9) =~= b71@);
    b71
}

pub proof fn lemma_pw2_71()
    ensures pw(2, 71) == 2361183241434822606848, pw(256, 9) == 4722366482869645213696,
{
    assert(pw(2, 8) == 256) by {
        reveal_with_fuel(pw, 9);
    }
    crate::base::lemma_pw_add(2, 8, 8);
    assert(pw(2, 16) == 0x1_0000);
    crate::base::lemma_pw_add(2, 16, 16);
    assert(pw(2, 32) == 0x1_0000_0000);
    crate::base::lemma_pw_add(2, 32, 32);
    assert(pw(2, 64) == 0x1_0000_0000_0000_0000);
    assert(pw(2, 7) == 128) by {
        reveal_with_fuel(pw, 8);
    }
    crate::base::lemma_pw_add(2, 64, 7);
    assert(pw(256, 9) == 4722366482869645213696) by {
        reveal_with_fuel(pw, 10);
    }
}

/// The free text of a type 0.0 message.
pub open spec fn spec_type0_0(a: Seq<u8>) -> Seq<char> {
    spec_unpack_0_stg((be_value(a.subrange(0, 9)) / 2) as u128, 71, 13, free_set())
}

/// Decodes free text (type 0.0): the 71-bit payload read as 13 base-42 digits.
fn ft8_unpack_type0_0(a71: &[u8]) -> (r: Option<String>)
    requires a71@.len() >= 9,
    ensures r matches Some(t) && t@ == spec_type0_0(a71@),
{
    let mut b71 = payload71(a71);
    let ghost v = be_value(b71@);
    proof {
        lemma_be_bound(a71@.subrange(0, 9));
        lemma_pw2_71();
    }
    let mut c14: Vec<char> = Vec::new();
    let mut idx: usize = 0;
    while idx < 13
        invariant
            idx <= 13,
            v >= 0,
            be_value(b71@) == v / pw(42, idx as nat),
            c14@.len() == idx,
            forall|k: int| 0 <= k < idx ==> #[trigger] c14@[k] == free_set()[digit_at(v, 42, k as nat)],
        decreases 13 - idx,
    {
        proof {
            lemma_div_pw_step(v, 42, idx as nat);
            lemma_pw_pos(42, idx as nat);
        }
        let rem = div_bytes(&mut b71, 42);
        c14.push(charn(rem as u8, 0));
        idx += 1;
    }
    let mut rev: Vec<char> = Vec::new();
    let mut k: usize = 0;
    while k < 13
        invariant
            k <= 13,
            c14@.len() == 13,
            rev@ == Seq::new(k as nat, |i: int| c14@[12 - i]),
        decreases 13 - k,
    {
        rev.push(c14[12 - k]);
        k += 1;
        assert(rev@ =~= Seq::new(k as nat, |i: int| c14@[12 - i]));
    }
    let text = trim_chars(&rev);
    proof {
        let vv = ((be_value(a71@.subrange(0, 9)) / 2) as u128) as int % pw(2, 71);
        assert(vv == v);
        assert(rev@ =~= Seq::new(13, |i: int| free_set()[digit_at(v, 42, (13 - 1 - i) as nat)]));
    }
    Some(string_of(&text))
}

/// Telemetry (type 0.5): the two hexadecimal digits of each byte of the
/// right-aligned 71-bit payload.
pub open spec fn spec_type0_5(a: Seq<u8>) -> Seq<char> {
    let b = shifted9(a);
    Seq::new(18, |j: int| telem_set()[if j % 2 == 0 { b[j / 2] / 16 } else { b[j / 2] % 16 } as int])
}

/// Decodes telemetry (type 0.5) as 18 hexadecimal digits.
fn ft8_unpack_type0_5(a71: &[u8]) -> (r: Option<String>)
    requires a71@.len() >= 9,
    ensures r matches Some(t) && t@ == spec_type0_5(a71@),
{
    let b71 = payload71(a71);
    let hex = crate::charsets::telem_chars();
    let mut telemetry: Vec<char> = Vec::new();
    let mut k: usize = 0;
    while k < 9
        invariant
            k <= 9,
            hex@ == telem_set(),
            b71@ == shifted9(a71@),
            telemetry@ == spec_type0_5(a71@).subrange(0, 2 * k as int),
        decreases 9 - k,
    {
        let b = b71[k];
        let nibble1 = b / 16;
        let nibble2 = b % 16;
        telemetry.push(hex[nibble1 as usize]);
        telemetry.push(hex[nibble2 as usize]);
        k += 1;
        assert(telemetry@ =~= spec_type0_5(a71@).subrange(0, 2 * k as int));
    }
    assert(spec_type0_5(a71@).subrange(0, 18) =~= spec_type0_5(a71@));
    Some(string_of(&telemetry))
}

/// The 58-bit nonstandard callsign of a type 4 message.
pub open spec fn n58_of(a: Seq<u8>) -> u64 {
    (((a[1] & 0x0F) as u64) << 54) | ((a[2] as u64) << 46) | ((a[3] as u64) << 38)
        | ((a[4] as u64) << 30) | ((a[5] as u64) << 22) | ((a[6] as u64) << 14)
        | ((a[7] as u64) << 6) | ((a[8] as u64) >> 2)
}

/// The hashed-callsign placeholder of a type 4 message.
pub open spec fn hashed_call() -> Seq<char> {
    seq!['<', '.', '.', '.', '>']
}

/// The fields of a type 4 message: one hashed and one nonstandard callsign
/// (their order set by the flip bit), or `CQ` and the nonstandard callsign,
/// and an optional `RRR`, `RR73` or `73`.
pub open spec fn spec_type4(a: Seq<u8>) -> MsgFields {
    let iflip = ((a[8] as u32) >> 1) & 0x01;
    let nrpt = (((a[8] as u32) & 0x01) << 1) | ((a[9] as u32) >> 7);
    let icq = ((a[9] as u32) >> 6) & 0x01;
    let c11 = crate::alnum::spec_charn_digits(n58_of(a) as int, 38, 11, 5);
    let call_1 = if iflip != 0 { c11 } else { hashed_call() };
    let call_2 = if iflip != 0 { hashed_call() } else { c11 };
    let to = if icq == 0 { call_1 } else { seq!['C', 'Q'] };
    let extra = if icq != 0 {
        Seq::empty()
    } else if nrpt == 1 {
        seq!['R', 'R', 'R']
    } else if nrpt == 2 {
        seq!['R', 'R', '7', '3']
    } else if nrpt == 3 {
        seq!['7', '3']
    } else {
        Seq::empty()
    };
    (to, false, call_2, false, extra)
}

/// Decodes a message with a nonstandard callsign (type 4).
fn ft8_unpack_type4(a77: &[u8]) -> (r: Option<Ft8Msg>)
    requires a77@.len() >= 10,
    ensures
        r matches Some(m) && {
            let f = spec_type4(a77@);
            &&& m.call_to.id@ == f.0 && m.call_to.special == f.1
            &&& m.call_from.id@ == f.2 && m.call_from.special == f.3
            &&& m.extra@ == f.4
        },
{
    let n58: u64 = (((a77[1] & 0x0F) as u64) << 54) | ((a77[2] as u64) << 46) | ((a77[3] as u64) << 38)
        | ((a77[4] as u64) << 30) | ((a77[5] as u64) << 22) | ((a77[6] as u64) << 14)
        | ((a77[7] as u64) << 6) | ((a77[8] as u64) >> 2);
    let iflip: u32 = ((a77[8] as u32) >> 1) & 0x01;
    let nrpt: u32 = (((a77[8] as u32) & 0x01) << 1) | ((a77[9] as u32) >> 7);
    let icq: u32 = ((a77[9] as u32) >> 6) & 0x01;

    let c11r = crate::alnum::charn_digits(n58, 38, 11, 5);
    let call_3: Vec<char> = vec!['<', '.', '.', '.', '>'];
    let (call_1, call_2) = if iflip != 0 { (c11r, call_3) } else { (call_3, c11r) };

    let mut to: Vec<char> = Vec::new();
    let mut extra: Vec<char> = Vec::new();
    if icq == 0 {
        to = call_1;
        if nrpt == 1 {
            extra = vec!['R', 'R', 'R'];
        } else if nrpt == 2 {
            extra = vec!['R', 'R', '7', '3'];
        } else if nrpt == 3 {
            extra = vec!['7', '3'];
        }
    } else {
        to = vec!['C', 'Q'];
    }
    let ghost f = spec_type4(a77@);
    assert(to@ =~= f.0);
    assert(call_2@ =~= f.2);
    assert(extra@ =~= f.4);
    Some(Ft8Msg {
        call_to: CallId::with_id(&to, false),
        call_from: CallId::with_id(&call_2, false),
        extra: string_of(&extra),
    })
}

/// The fields of a 77-bit message, by its type and subtype; `None` for the
/// types this decoder does not handle (0.1 to 0.4, 0.6, 0.7, 3, 5 and above).
pub open spec fn spec_msg_fields(a: Seq<u8>) -> Option<MsgFields> {
    let i3 = i3_of(a);
    if i3 == 0 {
        let n3 = n3_of(a);
        if n3 == 0 {
            Some((Seq::empty(), false, Seq::empty(), false, spec_type0_0(a)))
        } else if n3 == 5 {
            Some((Seq::empty(), false, Seq::empty(), false, spec_type0_5(a)))
        } else {
            None
        }
    } else if i3 == 1 || i3 == 2 {
        Some(spec_type1or2(a, i3 as int))
    } else if i3 == 4 {
        Some(spec_type4(a))
    } else {
        None
    }
}

/// Decodes a 77-bit message (the first ten bytes) into its fields.
pub fn ft8_unpack_buff_to_msg(a77: &[u8]) -> (r: Option<Ft8Msg>)
    requires a77@.len() >= 10,
    ensures
        match r {
            Some(m) => spec_msg_fields(a77@) matches Some(f) && {
                &&& m.call_to.id@ == f.0 && m.call_to.special == f.1
                &&& m.call_from.id@ == f.2 && m.call_from.special == f.3
                &&& m.extra@ == f.4
            },
            None => spec_msg_fields(a77@) is None,
        },
{
    let i3 = (a77[9] >> 3) & 0x07;
    if i3 == 0 {
        let n3 = ((a77[8] << 2) & 0x04) | ((a77[9] >> 6) & 0x03);
        if n3 == 0 {
            match ft8_unpack_type0_0(a77) {
                Some(field) => {
                    let mut ret = Ft8Msg::new();
                    ret.extra = field;
                    return Some(ret);
                },
                None => {},
            }
        } else if n3 == 5 {
            match ft8_unpack_type0_5(a77) {
                Some(field) => {
                    let mut ret = Ft8Msg::new();
                    ret.extra = field;
                    return Some(ret);
                },
                None => {},
            }
        }
    } else if i3 == 1 || i3 == 2 {
        return ft8_unpack_type1or2(a77, i3);
    } else if i3 == 4 {
        return ft8_unpack_type4(a77);
    }
    None
}

/// The text of a decoded 77-bit message, when it has one.
pub open spec fn spec_unpack_text(a: Seq<u8>) -> Option<Seq<char>> {
    match spec_msg_fields(a) {
        Some(f) => {
            let t = msg_text(f.0, f.2, f.4);
            if t.len() > 0 { Some(t) } else { None }
        },
        None => None,
    }
}

/// Decodes a 77-bit message (the first ten bytes) into text.
pub fn ft8_unpack_to_string(a77: &[u8]) -> (r: Option<String>)
    requires a77@.len() >= 10,
    ensures
        match r {
            Some(t) => spec_unpack_text(a77@) == Some(t@),
            None => spec_unpack_text(a77@) is None,
        },
{
    match ft8_unpack_buff_to_msg(a77) {
        Some(ft8_msg) => ft8_msg.to_string(),
        None => None,
    }
}

} // verus!
