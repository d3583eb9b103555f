use vstd::prelude::*;

use crate::base::pw;
use crate::alnum::{spec_charn, charn, spec_int_to_dd, int_to_dd, charn_digits};
use crate::message::CallId;
use crate::text::{trim, trim_chars};

verus! {

/// A 28-bit callsign field.
pub type U28 = u32;

// The layout of the 28-bit callsign field: special tokens, directed CQs,
// hashed callsigns, then standard callsigns.
pub const C28_DE: U28 = 0;
pub const C28_QRZ: U28 = 1;
pub const C28_CQ: U28 = 2;

pub const C28_CQ_DDD: U28 = 3;
pub const C28_CQ_DDD_BLOCK: U28 = 1002 - 3 + 1;
pub const C28_CQ_DDD_UNDEF: U28 = C28_CQ_DDD + C28_CQ_DDD_BLOCK;
pub const C28_CQ_DDD_UNDEF_BLOCK: U28 = 1004 - C28_CQ_DDD_UNDEF;

pub const C28_CQ_A: U28 = C28_CQ_DDD + C28_CQ_DDD_BLOCK + C28_CQ_DDD_UNDEF_BLOCK;
pub const C28_CQ_A_BLOCK: U28 = 1029 - 1004 + 1;
pub const C28_CQ_A_UNDEF: U28 = C28_CQ_A + C28_CQ_A_BLOCK;
pub const C28_CQ_A_UNDEF_BLOCK: U28 = 1031 - C28_CQ_A_UNDEF;

pub const C28_CQ_AA: U28 = C28_CQ_A_UNDEF + C28_CQ_A_UNDEF_BLOCK;
pub const C28_CQ_AA_BLOCK: U28 = 1731 - 1031 + 1;
pub const C28_CQ_AA_UNDEF: U28 = C28_CQ_AA + C28_CQ_AA_BLOCK;
pub const C28_CQ_AA_UNDEF_BLOCK: U28 = 1760 - C28_CQ_AA_UNDEF;

pub const C28_CQ_AAA: U28 = C28_CQ_AA_UNDEF + C28_CQ_AA_UNDEF_BLOCK;
pub const C28_CQ_AAA_BLOCK: U28 = 20685 - 1760 + 1;
pub const C28_CQ_AAA_UNDEF: U28 = C28_CQ_AAA + C28_CQ_AAA_BLOCK;
pub const C28_CQ_AAA_UNDEF_BLOCK: U28 = 21443 - C28_CQ_AAA_UNDEF;

pub const C28_CQ_AAAA: U28 = C28_CQ_AAA_UNDEF + C28_CQ_AAA_UNDEF_BLOCK;
pub const C28_CQ_AAAA_BLOCK: U28 = 532443 - 21443 + 1;
pub const C28_CQ_AAAA_UNDEF: U28 = C28_CQ_AAAA + C28_CQ_AAAA_BLOCK;
pub const C28_CQ_AAAA_UNDEF_BLOCK: U28 = 2063592 - C28_CQ_AAAA_UNDEF;

pub const C28_HASH_CALL: U28 = C28_CQ_AAAA_UNDEF + C28_CQ_AAAA_UNDEF_BLOCK;
pub const C28_HASH_CALL_BLOCK: U28 = 0x400000;
pub const C28_HASH_CALL_UNDEF: U28 = C28_HASH_CALL + C28_HASH_CALL_BLOCK;
pub const C28_HASH_CALL_UNDEF_BLOCK: U28 = 6257896 - C28_HASH_CALL_UNDEF;

pub const C28_STD_CALLS: U28 = C28_HASH_CALL_UNDEF + C28_HASH_CALL_UNDEF_BLOCK;

pub const U28_MAX: U28 = 0xFFFF_FFFF;

/// The six characters of standard callsign number `n`, padded with spaces.
pub open spec fn std_call_chars(n: int) -> Seq<char> {
    seq![
        spec_charn((n / 7085880) % 37, 1),
        spec_charn((n / 196830) % 36, 2),
        spec_charn((n / 19683) % 10, 3),
        spec_charn((n / 729) % 27, 4),
        spec_charn((n / 27) % 27, 4),
        spec_charn(n % 27, 4),
    ]
}

/// The `/R` or `/P` suffix that a set `ip` bit adds to a callsign in a
/// message of type `i3`.
pub open spec fn call_suffix(ip: int, i3: int) -> Seq<char> {
    if ip != 0 && i3 == 1 {
        seq!['/', 'R']
    } else if ip != 0 && i3 == 2 {
        seq!['/', 'P']
    } else {
        Seq::empty()
    }
}

/// The text of a standard callsign field.
pub open spec fn spec_stdcall(c28: int, ip: int, i3: int) -> Seq<char> {
    let t = trim(std_call_chars(c28 - C28_STD_CALLS));
    if t.len() > 0 { t + call_suffix(ip, i3) } else { t }
}

/// The `k` letters of a directed CQ numbered `n`, most significant first.
pub open spec fn cq_letters(n: int, k: nat) -> Seq<char> {
    Seq::new(k, |j: int| spec_charn((n / pw(27, (k - 1 - j) as nat)) % 27, 4))
}

/// `CQ ` followed by the given text.
pub open spec fn cq_then(t: Seq<char>) -> Seq<char> {
    seq!['C', 'Q', ' '] + t
}

/// The text of a 28-bit callsign field; empty for the values that name no
/// callsign (unassigned ranges and hashed callsigns).
pub open spec fn spec_c28_text(c28: int, ip: int, i3: int) -> Seq<char> {
    if c28 == C28_DE {
        seq!['D', 'E']
    } else if c28 == C28_QRZ {
        seq!['Q', 'R', 'Z']
    } else if c28 == C28_CQ {
        seq!['C', 'Q']
    } else if C28_CQ_DDD <= c28 < C28_CQ_DDD_UNDEF {
        cq_then(spec_int_to_dd(c28 - 3, 3, false))
    } else if C28_CQ_A <= c28 < C28_CQ_A_UNDEF {
        cq_then(trim(cq_letters(c28 - (C28_CQ_A - 1), 1)))
    } else if C28_CQ_AA <= c28 < C28_CQ_AA_UNDEF {
        cq_then(trim(cq_letters(c28 - (C28_CQ_AA - 1), 2)))
    } else if C28_CQ_AAA <= c28 < C28_CQ_AAA_UNDEF {
        cq_then(trim(cq_letters(c28 - (C28_CQ_AAA - 1), 3)))
    } else if C28_CQ_AAAA <= c28 < C28_CQ_AAAA_UNDEF {
        cq_then(trim(cq_letters(c28 - (C28_CQ_AAAA - 1), 4)))
    } else if C28_STD_CALLS <= c28 {
        spec_stdcall(c28, ip, i3)
    } else {
        Seq::empty()
    }
}

/// Whether a 28-bit callsign field holds a special token rather than a callsign.
pub open spec fn spec_c28_special(c28: int) -> bool {
    c28 < C28_CQ_DDD_UNDEF || (C28_CQ_A <= c28 < C28_CQ_A_UNDEF) || (C28_CQ_AA <= c28 < C28_CQ_AA_UNDEF)
        || (C28_CQ_AAA <= c28 < C28_CQ_AAA_UNDEF) || (C28_CQ_AAAA <= c28 < C28_CQ_AAAA_UNDEF)
}

/// Appends `CQ ` and the given characters.
fn cq_prefixed(t: Vec<char>) -> (r: Vec<char>)
    ensures r@ == cq_then(t@),
{
    let mut r: Vec<char> = vec!['C', 'Q', ' '];
    let mut t = t;
    r.append(&mut t);
    r
}

/// Decodes the `k` letters of a directed CQ, as the trimmed text.
fn cq_suffix(n: u32, k: usize) -> (r: Vec<char>)
    requires 1 <= k <= 4,
    ensures r@ == trim(cq_letters(n as int, k as nat)),
{
    let letters = charn_digits(n as u64, 27, k, 4);
    assert(letters@ =~= cq_letters(n as int, k as nat));
    trim_chars(&letters)
}

/// Decodes a standard callsign field, adding `/R` or `/P` when `ip` is set
/// in a message of type 1 or 2.
pub fn ft8_unpack_stdcall(c28: U28, ip: u8, i3: u8) -> (r: Option<CallId>)
    requires c28 >= C28_STD_CALLS,
    ensures
        match r {
            Some(c) => c.id@ == spec_stdcall(c28 as int, ip as int, i3 as int)
                && c.id@.len() > 0 && !c.special,
            None => spec_stdcall(c28 as int, ip as int, i3 as int).len() == 0,
        },
{
    let mut n: U28 = c28 - C28_STD_CALLS;
    let ghost n0 = n as int;
    let c5 = charn((n % 27) as u8, 4);
    n /= 27;
    let c4 = charn((n % 27) as u8, 4);
    n /= 27;
    proof {
        vstd::arithmetic::div_mod::lemma_div_denominator(n0, 27, 27);
    }
    let c3 = charn((n % 27) as u8, 4);
    n /= 27;
    proof {
        vstd::arithmetic::div_mod::lemma_div_denominator(n0, 729, 27);
    }
    let c2 = charn((n % 10) as u8, 3);
    n /= 10;
    proof {
        vstd::arithmetic::div_mod::lemma_div_denominator(n0, 19683, 10);
    }
    let c1 = charn((n % 36) as u8, 2);
    n /= 36;
    proof {
        vstd::arithmetic::div_mod::lemma_div_denominator(n0, 196830, 36);
    }
    let c0 = charn((n % 37) as u8, 1);
    let callsign: Vec<char> = vec![c0, c1, c2, c3, c4, c5];
    assert(callsign@ =~= std_call_chars(n0));
    let mut id = trim_chars(&callsign);
    if id.len() > 0 {
        if ip != 0 {
            if i3 == 1 {
                id.push('/');
                id.push('R');
            } else if i3 == 2 {
                id.push('/');
                id.push('P');
            }
        }
    }
    assert(id@ =~= spec_stdcall(c28 as int, ip as int, i3 as int));
    if id.len() == 0 {
        None
    } else {
        Some(CallId::with_id(&id, false))
    }
}

/// Decodes a field below the standard callsigns: a special token or a
/// directed CQ, or nothing for the unassigned and hashed values.
fn unpack_token(c28: U28) -> (r: Vec<char>)
    requires c28 < C28_STD_CALLS,
    ensures r@ == spec_c28_text(c28 as int, 0, 0),
{
    if c28 == C28_DE {
        vec!['D', 'E']
    } else if c28 == C28_QRZ {
        vec!['Q', 'R', 'Z']
    } else if c28 == C28_CQ {
        vec!['C', 'Q']
    } else if C28_CQ_DDD <= c28 && c28 < C28_CQ_DDD_UNDEF {
        cq_prefixed(int_to_dd(c28 as i32 - 3, 3, false))
    } else if C28_CQ_A <= c28 && c28 < C28_CQ_A_UNDEF {
        cq_prefixed(cq_suffix(c28 - (C28_CQ_A - 1), 1))
    } else if C28_CQ_AA <= c28 && c28 < C28_CQ_AA_UNDEF {
        cq_prefixed(cq_suffix(c28 - (C28_CQ_AA - 1), 2))
    } else if C28_CQ_AAA <= c28 && c28 < C28_CQ_AAA_UNDEF {
        cq_prefixed(cq_suffix(c28 - (C28_CQ_AAA - 1), 3))
    } else if C28_CQ_AAAA <= c28 && c28 < C28_CQ_AAAA_UNDEF {
        cq_prefixed(cq_suffix(c28 - (C28_CQ_AAAA - 1), 4))
    } else {
        Vec::new()
    }
}

/// Decodes a 28-bit callsign field: a special token, a directed CQ or a
/// standard callsign; `None` for the values that name no callsign.
pub fn ft8_unpack_c28(c28: U28, ip: u8, i3: u8) -> (r: Option<CallId>)
    ensures
        match r {
            Some(c) => c.id@ == spec_c28_text(c28 as int, ip as int, i3 as int)
                && c.id@.len() > 0 && c.special == spec_c28_special(c28 as int),
            None => spec_c28_text(c28 as int, ip as int, i3 as int).len() == 0,
        },
{
    if c28 >= C28_STD_CALLS {
        ft8_unpack_stdcall(c28, ip, i3)
    } else {
        let id = unpack_token(c28);
        if id.len() == 0 {
            None
        } else {
            Some(CallId::with_id(&id, true))
        }
    }
}

/// Decodes the callsign fields of a type 1 or 2 message: a special token, a
/// directed CQ or a standard callsign; `None` for the values that name no callsign.
pub fn ft8_unpack_callsign(c28: u32, ip: u8, i3: u8) -> (r: Option<CallId>)
    ensures
        match r {
            Some(c) => c.id@ == spec_c28_text(c28 as int, ip as int, i3 as int)
                && c.id@.len() > 0 && c.special == spec_c28_special(c28 as int),
            None => spec_c28_text(c28 as int, ip as int, i3 as int).len() == 0,
        },
{
    if c28 < C28_STD_CALLS {
        let id = unpack_token(c28);
        return if id.len() == 0 { None } else { Some(CallId::with_id(&id, true)) };
    }
    let mut n = c28 - C28_STD_CALLS;
    let ghost n0 = n as int;
    let mut low_first: Vec<char> = Vec::new();
    low_first.push(charn((n % 27) as u8, 4));
    n /= 27;
    low_first.push(charn((n % 27) as u8, 4));
    n /= 27;
    proof {
        vstd::arithmetic::div_mod::lemma_div_denominator(n0, 27, 27);
    }
    low_first.push(charn((n % 27) as u8, 4));
    n /= 27;
    proof {
        vstd::arithmetic::div_mod::lemma_div_denominator(n0, 729, 27);
    }
    low_first.push(charn((n % 10) as u8, 3));
    n /= 10;
    proof {
        vstd::arithmetic::div_mod::lemma_div_denominator(n0, 19683, 10);
    }
    low_first.push(charn((n % 36) as u8, 2));
    n /= 36;
    proof {
        vstd::arithmetic::div_mod::lemma_div_denominator(n0, 196830, 36);
    }
    low_first.push(charn((n % 37) as u8, 1));
    let callsign: Vec<char> = vec![low_first[5], low_first[4], low_first[3], low_first[2], low_first[1], low_first[0]];
    assert(callsign@ =~= std_call_chars(n0));
    let mut id = trim_chars(&callsign);
    if id.len() > 0 {
        if ip != 0 {
            if i3 == 1 {
                id.push('/');
                id.push('R');
            } else if i3 == 2 {
                id.push('/');
                id.push('P');
            }
        }
    }
    assert(id@ =~= spec_stdcall(c28 as int, ip as int, i3 as int));
    if id.len() == 0 {
        None
    } else {
        Some(CallId::with_id(&id, false))
    }
}

} // verus!
