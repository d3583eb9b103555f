use vstd::prelude::*;

use crate::base::{pw, digits_value, valid_digits, digit_at, lemma_pw_pos, lemma_pw_monotone,
    lemma_digits_prefix, lemma_digits_value_bound, lemma_digit_at_value, lemma_div_pw_step};
use crate::charsets::{free_chars, free_set, telem_chars, telem_set, call1_chars, call1_set};
use crate::text::{is_ws, char_len, utf8_len, all_ascii, trim, trim_start, trim_end, chars_of, string_of, trim_chars, lemma_utf8_len_ascii, lemma_utf8_len_ge_len, lemma_utf8_len_concat};

verus! {

/// An alphabet for packing text as a base-N number: the message length in
/// characters, the pad character used to right-justify shorter text, and the
/// characters whose positions are the digits.
pub struct CharSet {
    pub msg_len: usize,
    pub pad: char,
    pub set: Vec<char>,
}

/// A usable alphabet: one to 256 ASCII characters (positions fit in a byte,
/// and a position in characters is a position in bytes).
pub open spec fn charset_wf(cs: &CharSet) -> bool {
    &&& 1 <= cs.set@.len() <= 256
    &&& all_ascii(cs.set@)
    &&& cs.msg_len <= isize::MAX
}

impl CharSet {
    /// The base of the packing: the number of characters of the alphabet.
    pub fn modulus(&self) -> (r: usize)
        requires charset_wf(self),
        ensures
            r == self.set@.len(),
            r == utf8_len(self.set@),
    {
        proof {
            lemma_utf8_len_ascii(self.set@);
        }
        self.set.len()
    }
}

/// Free text: 13 characters of `free_set`, padded with spaces.
pub fn free_charset() -> (r: CharSet)
    ensures r.msg_len == 13, r.pad == ' ', r.set@ == free_set(),
{
    CharSet { msg_len: 13, pad: ' ', set: free_chars() }
}

/// Telemetry: 18 hexadecimal digits, padded with zeros.
pub fn telem_charset() -> (r: CharSet)
    ensures r.msg_len == 18, r.pad == '0', r.set@ == telem_set(),
{
    CharSet { msg_len: 18, pad: '0', set: telem_chars() }
}

/// First place of a standard callsign.
pub fn call1_charset() -> (r: CharSet)
    ensures r.msg_len == 6, r.pad == ' ', r.set@ == call1_set(),
{
    CharSet { msg_len: 6, pad: ' ', set: call1_chars() }
}

/// Position of the first `c` in `s`, or -1.
pub open spec fn set_index(s: Seq<char>, c: char) -> int
    decreases s.len(),
{
    if s.len() == 0 {
        -1
    } else if s[0] == c {
        0
    } else {
        let r = set_index(s.drop_first(), c);
        if r < 0 { -1 } else { r + 1 }
    }
}

pub proof fn lemma_set_index(s: Seq<char>, c: char)
    ensures
        -1 <= set_index(s, c) < s.len(),
        set_index(s, c) >= 0 ==> s[set_index(s, c)] == c,
        set_index(s, c) >= 0 ==> forall|k: int| 0 <= k < set_index(s, c) ==> s[k] != c,
        set_index(s, c) == -1 <==> forall|k: int| 0 <= k < s.len() ==> s[k] != c,
    decreases s.len(),
{
    if s.len() > 0 && s[0] != c {
        lemma_set_index(s.drop_first(), c);
        let r = set_index(s.drop_first(), c);
        if r >= 0 {
            assert forall|k: int| 0 <= k < r + 1 implies s[k] != c by {
                if k > 0 {
                    assert(s[k] == s.drop_first()[k - 1]);
                }
            }
        } else {
            assert forall|k: int| 0 <= k < s.len() implies s[k] != c by {
                if k > 0 {
                    assert(s[k] == s.drop_first()[k - 1]);
                }
            }
        }
    }
}

/// Position of the first `c` in `s` (what `str::find` returns on an ASCII alphabet).
pub fn find_char(s: &[char], c: char) -> (r: Option<usize>)
    ensures
        match r {
            Some(i) => i == set_index(s@, c) && i < s@.len(),
            None => set_index(s@, c) == -1,
        },
{
    proof {
        lemma_set_index(s@, c);
    }
    let mut i: usize = 0;
    while i < s.len()
        invariant
            i <= s@.len(),
            forall|k: int| 0 <= k < i ==> s@[k] != c,
            -1 <= set_index(s@, c) < s@.len(),
            set_index(s@, c) >= 0 ==> s@[set_index(s@, c)] == c,
            set_index(s@, c) >= 0 ==> forall|k: int| 0 <= k < set_index(s@, c) ==> s@[k] != c,
            set_index(s@, c) == -1 <==> forall|k: int| 0 <= k < s@.len() ==> s@[k] != c,
        decreases s@.len() - i,
    {
        if s[i] == c {
            return Some(i);
        }
        i += 1;
    }
    None
}

/// The longest prefix of `s` whose UTF-8 encoding fits in `n` bytes.
pub open spec fn prefix_within(s: Seq<char>, n: int) -> Seq<char>
    decreases s.len(),
{
    if s.len() == 0 {
        s
    } else if char_len(s[0]) <= n {
        seq![s[0]] + prefix_within(s.drop_first(), n - char_len(s[0]))
    } else {
        Seq::empty()
    }
}

/// Whether truncating `s` to `n` bytes cuts between characters (else `String::truncate` panics).
pub open spec fn truncate_ok(s: Seq<char>, n: int) -> bool {
    utf8_len(s) <= n || utf8_len(prefix_within(s, n)) == n
}

/// Bytes of the UTF-8 encoding of one character.
pub fn char_utf8_len(c: char) -> (r: usize)
    ensures r == char_len(c),
{
    let u = c as u32;
    if u < 0x80 { 1 } else if u < 0x800 { 2 } else if u < 0x10000 { 3 } else { 4 }
}

proof fn lemma_prefix_within_step(s: Seq<char>, i: int, n: int)
    requires 0 <= i < s.len(),
    ensures
        prefix_within(s.subrange(i, s.len() as int), n) == (if char_len(s[i]) <= n {
            seq![s[i]] + prefix_within(s.subrange(i + 1, s.len() as int), n - char_len(s[i]))
        } else {
            Seq::<char>::empty()
        }),
{
    let a = s.subrange(i, s.len() as int);
    assert(a.drop_first() =~= s.subrange(i + 1, s.len() as int));
}

pub proof fn lemma_prefix_within_len(s: Seq<char>, n: int)
    ensures
        0 <= n ==> utf8_len(prefix_within(s, n)) <= n,
        prefix_within(s, n).len() <= s.len(),
        utf8_len(s) <= n ==> prefix_within(s, n) == s,
        forall|k: int| 0 <= k < prefix_within(s, n).len() ==> #[trigger] prefix_within(s, n)[k] == s[k],
    decreases s.len(),
{
    if s.len() > 0 {
        lemma_prefix_within_len(s.drop_first(), n - char_len(s[0]));
        lemma_utf8_len_first(s);
        if char_len(s[0]) <= n {
            let rest = prefix_within(s.drop_first(), n - char_len(s[0]));
            lemma_utf8_len_concat(seq![s[0]], rest);
            lemma_utf8_len_single(s[0]);
            if utf8_len(s) <= n {
                assert(seq![s[0]] + s.drop_first() =~= s);
            }
            assert forall|k: int| 0 <= k < prefix_within(s, n).len() implies #[trigger] prefix_within(s, n)[k] == s[k] by {
                if k > 0 {
                    assert(prefix_within(s, n)[k] == rest[k - 1]);
                }
            }
        } else {
            if utf8_len(s) <= n {
                lemma_utf8_len_ge_len(s.drop_first());
            }
        }
    }
}

pub proof fn lemma_utf8_len_single(c: char)
    ensures utf8_len(seq![c]) == char_len(c),
{
    let s = seq![c];
    assert(s.drop_last() =~= Seq::<char>::empty());
    assert(utf8_len(Seq::<char>::empty()) == 0);
    assert(s.last() == c);
}

pub proof fn lemma_utf8_len_first(s: Seq<char>)
    requires s.len() > 0,
    ensures utf8_len(s) == char_len(s[0]) + utf8_len(s.drop_first()),
{
    lemma_utf8_len_concat(seq![s[0]], s.drop_first());
    assert(seq![s[0]] + s.drop_first() =~= s);
    lemma_utf8_len_single(s[0]);
}

/// Truncates a character string to at most `n` UTF-8 bytes, as `String::truncate` does.
pub fn truncate_bytes(v: &[char], n: usize) -> (r: Vec<char>)
    requires truncate_ok(v@, n as int),
    ensures r@ == prefix_within(v@, n as int),
{
    let mut r: Vec<char> = Vec::new();
    let mut used: usize = 0;
    let mut i: usize = 0;
    assert(v@.subrange(0, v@.len() as int) =~= v@);
    while i < v.len()
        invariant
            i <= v@.len(),
            used <= n,
            prefix_within(v@, n as int) == r@ + prefix_within(v@.subrange(i as int, v@.len() as int), n - used),
        decreases v@.len() - i,
    {
        let cl = char_utf8_len(v[i]);
        proof {
            lemma_prefix_within_step(v@, i as int, n - used);
        }
        if cl > n - used {
            assert(r@ + Seq::<char>::empty() =~= r@);
            return r;
        }
        let ghost old_r = r@;
        r.push(v[i]);
        used += cl;
        i += 1;
        proof {
            assert(old_r + (seq![v@[i - 1]] + prefix_within(v@.subrange(i as int, v@.len() as int), n - used))
                =~= r@ + prefix_within(v@.subrange(i as int, v@.len() as int), n - used));
        }
    }
    assert(v@.subrange(i as int, v@.len() as int) =~= Seq::<char>::empty());
    assert(r@ + Seq::<char>::empty() =~= r@);
    r
}

/// `n` copies of `c`.
pub open spec fn repeat_char(c: char, n: nat) -> Seq<char> {
    Seq::new(n, |i: int| c)
}

/// The text that `left_pad` returns: trimmed, truncated to `msg_len` bytes,
/// trimmed again, then right-justified to `msg_len` bytes with the pad character.
pub open spec fn spec_left_pad(s: Seq<char>, msg_len: int, pad: char) -> Seq<char> {
    let t = trim(prefix_within(trim(s), msg_len));
    let n = msg_len - utf8_len(t);
    if n > 0 { repeat_char(pad, n as nat) + t } else { t }
}

/// Right-justifies characters as `left_pad` does.
pub fn left_pad_chars(input: &[char], charset: &CharSet) -> (r: Vec<char>)
    requires
        charset.msg_len <= isize::MAX,
        truncate_ok(trim(input@), charset.msg_len as int),
    ensures r@ == spec_left_pad(input@, charset.msg_len as int, charset.pad),
{
    let t1 = trim_chars(input);
    let t2 = truncate_bytes(&t1, charset.msg_len);
    let t3 = trim_chars(&t2);
    let mut len: usize = 0;
    let mut i: usize = 0;
    proof {
        lemma_prefix_within_len(t1@, charset.msg_len as int);
        lemma_trim_utf8_len(t2@);
    }
    while i < t3.len()
        invariant
            i <= t3@.len(),
            len == utf8_len(t3@.subrange(0, i as int)),
            utf8_len(t3@) <= charset.msg_len,
        decreases t3@.len() - i,
    {
        proof {
            lemma_utf8_len_concat(t3@.subrange(0, i as int), t3@.subrange(i as int, t3@.len() as int));
            assert(t3@.subrange(0, i as int) + t3@.subrange(i as int, t3@.len() as int) =~= t3@);
            lemma_utf8_len_first(t3@.subrange(i as int, t3@.len() as int));
            assert(t3@.subrange(i as int, t3@.len() as int).drop_first() =~= t3@.subrange(i as int + 1, t3@.len() as int));
            lemma_utf8_len_concat(t3@.subrange(0, i as int), seq![t3@[i as int]]);
            assert(t3@.subrange(0, i as int) + seq![t3@[i as int]] =~= t3@.subrange(0, i as int + 1));
            lemma_utf8_len_single(t3@[i as int]);
            lemma_utf8_len_nonneg(t3@.subrange(i as int + 1, t3@.len() as int));
        }
        len += char_utf8_len(t3[i]);
        i += 1;
    }
    assert(t3@.subrange(0, t3@.len() as int) =~= t3@);
    let mut r: Vec<char> = Vec::new();
    if len < charset.msg_len {
        let n = charset.msg_len - len;
        let mut k: usize = 0;
        while k < n
            invariant
                k <= n,
                r@ == repeat_char(charset.pad, k as nat),
            decreases n - k,
        {
            r.push(charset.pad);
            k += 1;
            assert(r@ =~= repeat_char(charset.pad, k as nat));
        }
    }
    let ghost head = r@;
    let mut k: usize = 0;
    while k < t3.len()
        invariant
            k <= t3@.len(),
            r@ == head + t3@.subrange(0, k as int),
        decreases t3@.len() - k,
    {
        r.push(t3[k]);
        k += 1;
        assert(r@ =~= head + t3@.subrange(0, k as int));
    }
    assert(t3@.subrange(0, t3@.len() as int) =~= t3@);
    proof {
        if len >= charset.msg_len {
            assert(head =~= Seq::<char>::empty());
            assert(r@ =~= t3@);
        }
    }
    r
}

pub proof fn lemma_utf8_len_nonneg(s: Seq<char>)
    ensures utf8_len(s) >= 0,
{
}

proof fn lemma_trim_start_utf8_len(s: Seq<char>)
    ensures utf8_len(trim_start(s)) <= utf8_len(s),
    decreases s.len(),
{
    if s.len() > 0 && is_ws(s[0]) {
        lemma_trim_start_utf8_len(s.drop_first());
        lemma_utf8_len_first(s);
    }
}

proof fn lemma_trim_end_utf8_len(s: Seq<char>)
    ensures utf8_len(trim_end(s)) <= utf8_len(s),
    decreases s.len(),
{
    if s.len() > 0 && is_ws(s.last()) {
        lemma_trim_end_utf8_len(s.drop_last());
    }
}

/// Trimming never makes a string longer.
pub proof fn lemma_trim_utf8_len(s: Seq<char>)
    ensures utf8_len(trim(s)) <= utf8_len(s),
{
    lemma_trim_start_utf8_len(s);
    lemma_trim_end_utf8_len(trim_start(s));
}

/// Leading and trailing whitespace removed, truncated to the alphabet's
/// message length, trimmed again and right-justified with the pad character.
pub fn left_pad(input_string: &str, charset: &CharSet) -> (r: String)
    requires
        charset.msg_len <= isize::MAX,
        truncate_ok(trim(input_string@), charset.msg_len as int),
    ensures r@ == spec_left_pad(input_string@, charset.msg_len as int, charset.pad),
{
    let v = chars_of(input_string);
    let p = left_pad_chars(&v, charset);
    string_of(&p)
}


/// `2` to the power `bits`.
pub fn pow2_u128(bits: usize) -> (r: u128)
    requires bits < 128,
    ensures r == pw(2, bits as nat),
{
    let mut r: u128 = 1;
    let mut i: usize = 0;
    while i < bits
        invariant
            i <= bits,
            bits < 128,
            r == pw(2, i as nat),
        decreases bits - i,
    {
        proof {
            crate::base::lemma_pw2_127();
            lemma_pw_monotone(2, (i + 1) as nat, 127);
        }
        r = r * 2;
        i += 1;
    }
    r
}

/// The digits of `s` in the alphabet `set`: the position of each character.
pub open spec fn spec_digits(s: Seq<char>, set: Seq<char>) -> Seq<int> {
    Seq::new(s.len(), |i: int| set_index(set, s[i]))
}

/// Whether every character of `s` is in the alphabet `set`.
pub open spec fn all_in(s: Seq<char>, set: Seq<char>) -> bool {
    forall|i: int| 0 <= i < s.len() ==> set_index(set, #[trigger] s[i]) >= 0
}

/// What `ft8_pack_0_stg` returns: the right-justified text read as a base-N
/// number, N the alphabet size, when every character is in the alphabet and
/// the number is below `2^bits`; `None` otherwise.
pub open spec fn spec_pack_0_stg(s: Seq<char>, msg_len: int, pad: char, set: Seq<char>, bits: nat) -> Option<u128> {
    let p = spec_left_pad(s, msg_len, pad);
    let v = digits_value(spec_digits(p, set), set.len() as int);
    if all_in(p, set) && v < pw(2, bits) { Some(v as u128) } else { None }
}

/// The number of characters of `spec_left_pad` is at most the message length.
pub proof fn lemma_left_pad_len(s: Seq<char>, msg_len: int, pad: char)
    requires 0 <= msg_len,
    ensures spec_left_pad(s, msg_len, pad).len() <= msg_len,
{
    let t2 = prefix_within(trim(s), msg_len);
    lemma_prefix_within_len(trim(s), msg_len);
    lemma_trim_utf8_len(t2);
    lemma_utf8_len_ge_len(trim(t2));
}

/// Packs text in an alphabet: right-justified, each character replaced by its
/// position, the positions read as a base-N number (N the alphabet size), kept
/// when below `2^bits`.
pub fn ft8_pack_0_stg(cn: &str, charset: &CharSet, bits: usize) -> (r: Option<u128>)
    requires
        charset_wf(charset),
        bits < 128,
        truncate_ok(trim(cn@), charset.msg_len as int),
        pw(charset.set@.len() as int, charset.msg_len as nat) <= 0x1_0000_0000_0000_0000_0000_0000_0000_0000,
    ensures
        r == spec_pack_0_stg(cn@, charset.msg_len as int, charset.pad, charset.set@, bits as nat),
{
    let v = chars_of(cn);
    let p = left_pad_chars(&v, charset);
    let m = charset.modulus();
    let ghost d = spec_digits(p@, charset.set@);
    proof {
        lemma_left_pad_len(cn@, charset.msg_len as int, charset.pad);
        lemma_pw_monotone(m as int, p@.len(), charset.msg_len as nat);
    }
    let mut val: u128 = 0;
    let mut i: usize = 0;
    while i < p.len()
        invariant
            i <= p@.len(),
            p@.len() <= charset.msg_len,
            m == charset.set@.len(),
            1 <= m <= 256,
            d == spec_digits(p@, charset.set@),
            p@ == spec_left_pad(cn@, charset.msg_len as int, charset.pad),
            pw(m as int, p@.len()) <= 0x1_0000_0000_0000_0000_0000_0000_0000_0000,
            forall|k: int| 0 <= k < i ==> set_index(charset.set@, #[trigger] p@[k]) >= 0,
            val == digits_value(d.subrange(0, i as int), m as int),
        decreases p@.len() - i,
    {
        match find_char(&charset.set, p[i]) {
            Some(j) => {
                proof {
                    lemma_set_index(charset.set@, p@[i as int]);
                    assert(valid_digits(d.subrange(0, i as int + 1), m as int)) by {
                        assert forall|k: int| 0 <= k < i + 1 implies 0 <= #[trigger] d.subrange(0, i as int + 1)[k] < m by {
                            lemma_set_index(charset.set@, p@[k]);
                        }
                    }
                    lemma_digits_value_bound(d.subrange(0, i as int + 1), m as int);
                    lemma_pw_monotone(m as int, (i + 1) as nat, p@.len());
                    lemma_digits_prefix(d, m as int, i as int);
                    assert(d.subrange(0, i as int + 1).len() == i + 1);
                }
                let jj = j as u8;
                val = val * (m as u128) + jj as u128;
            },
            None => {
                proof {
                    lemma_set_index(charset.set@, p@[i as int]);
                    assert(set_index(charset.set@, p@[i as int]) < 0);
                    assert(!all_in(p@, charset.set@));
                    assert(p@ == spec_left_pad(cn@, charset.msg_len as int, charset.pad));
                }
                return None;
            },
        }
        i += 1;
    }
    assert(d.subrange(0, p@.len() as int) =~= d);
    let val_max = pow2_u128(bits);
    if val < val_max {
        Some(val)
    } else {
        None
    }
}

/// What `ft8_unpack_0_stg` returns: the `msg_len` base-N digits of the value
/// (reduced below `2^bits`), most significant first, as alphabet characters, trimmed.
pub open spec fn spec_unpack_0_stg(a: u128, bits: nat, msg_len: int, set: Seq<char>) -> Seq<char> {
    let v = a as int % pw(2, bits);
    let m = set.len() as int;
    trim(Seq::new(msg_len as nat, |i: int| set[digit_at(v, m, (msg_len - 1 - i) as nat)]))
}

/// Unpacks a number into text in an alphabet: the low `bits` bits read as
/// `msg_len` base-N digits, each digit replaced by its character, trimmed.
pub fn ft8_unpack_0_stg(a71: u128, bits: usize, charset: &CharSet) -> (r: Option<String>)
    requires
        charset_wf(charset),
        bits < 128,
    ensures
        r matches Some(t) && t@ == spec_unpack_0_stg(a71, bits as nat, charset.msg_len as int, charset.set@),
{
    let val_max = pow2_u128(bits);
    proof {
        lemma_pw_pos(2, bits as nat);
    }
    let mut a = a71 % val_max;
    let ghost v = a as int;
    let m = charset.modulus();
    let l = charset.msg_len;
    let mut text: Vec<char> = Vec::new();
    let mut j: usize = 0;
    proof {
        assert(pw(m as int, 0) == 1);
    }
    while j < l
        invariant
            j <= l,
            l == charset.msg_len,
            m == charset.set@.len(),
            1 <= m <= 256,
            v >= 0,
            a as int == v / pw(m as int, j as nat),
            text@.len() == j,
            forall|k: int| 0 <= k < j ==> #[trigger] text@[k] == charset.set@[digit_at(v, m as int, k as nat)],
        decreases l - j,
    {
        proof {
            lemma_div_pw_step(v, m as int, j as nat);
        }
        let n = a % (m as u128);
        a = a / (m as u128);
        text.push(charset.set[n as usize]);
        j += 1;
    }
    let mut rev: Vec<char> = Vec::new();
    let mut k: usize = 0;
    while k < l
        invariant
            k <= l,
            text@.len() == l,
            rev@ == Seq::new(k as nat, |i: int| text@[l - 1 - i]),
        decreases l - k,
    {
        rev.push(text[l - 1 - k]);
        k += 1;
        assert(rev@ =~= Seq::new(k as nat, |i: int| text@[l - 1 - i]));
    }
    let t = trim_chars(&rev);
    proof {
        let m_int = m as int;
        let target = Seq::new(l as nat, |i: int| charset.set@[digit_at(v, m_int, (l - 1 - i) as nat)]);
        assert(rev@ =~= target);
    }
    Some(string_of(&t))
}

proof fn lemma_all_in_ascii(p: Seq<char>, set: Seq<char>)
    requires all_in(p, set), all_ascii(set),
    ensures all_ascii(p),
{
    assert forall|i: int| 0 <= i < p.len() implies (#[trigger] p[i] as u32) < 0x80 by {
        lemma_set_index(set, p[i]);
        assert(set[set_index(set, p[i])] == p[i]);
    }
}

/// Unpacking what was packed gives back the packed text, trimmed: the text
/// right-justified in the alphabet's message length, without its padding
/// whitespace.
pub proof fn law_pack_unpack_0_stg(s: Seq<char>, msg_len: int, pad: char, set: Seq<char>, bits: nat)
    requires
        1 <= set.len() <= 256,
        all_ascii(set),
        0 <= msg_len,
        bits < 128,
        spec_pack_0_stg(s, msg_len, pad, set, bits) is Some,
    ensures
        spec_unpack_0_stg(spec_pack_0_stg(s, msg_len, pad, set, bits).unwrap(), bits, msg_len, set)
            == trim(spec_left_pad(s, msg_len, pad)),
{
    let l = msg_len;
    let p = spec_left_pad(s, l, pad);
    let m = set.len() as int;
    let d = spec_digits(p, set);
    let v = digits_value(d, m);
    assert(valid_digits(d, m)) by {
        assert forall|k: int| 0 <= k < d.len() implies 0 <= #[trigger] d[k] < m by {
            lemma_set_index(set, p[k]);
        }
    }
    lemma_digits_value_bound(d, m);
    lemma_all_in_ascii(p, set);
    // the right-justified text is exactly `msg_len` characters long
    let t = trim(prefix_within(trim(s), l));
    lemma_prefix_within_len(trim(s), l);
    lemma_trim_utf8_len(prefix_within(trim(s), l));
    let n = l - utf8_len(t);
    if n > 0 {
        assert(t =~= p.subrange(n, p.len() as int));
        assert(all_ascii(t));
        lemma_utf8_len_ascii(t);
    } else {
        assert(t == p);
        lemma_utf8_len_ascii(t);
    }
    assert(p.len() == l);
    let u = spec_pack_0_stg(s, msg_len, pad, set, bits).unwrap();
    crate::base::lemma_pw2_127();
    lemma_pw_monotone(2, bits, 127);
    assert(u as int == v);
    lemma_pw_pos(2, bits);
    vstd::arithmetic::div_mod::lemma_small_mod(v as nat, pw(2, bits) as nat);
    let target = Seq::new(l as nat, |i: int| set[digit_at(v, m, (l - 1 - i) as nat)]);
    assert forall|i: int| 0 <= i < l implies #[trigger] target[i] == p[i] by {
        lemma_digit_at_value(d, m, i);
        lemma_set_index(set, p[i]);
    }
    assert(target =~= p);
}


pub proof fn lemma_free_pack_fits()
    ensures pw(42, 13) <= 0x1_0000_0000_0000_0000_0000_0000_0000_0000,
{
    assert(pw(42, 13) == 1265437718438866624512) by {
        reveal_with_fuel(pw, 14);
    }
}

pub proof fn lemma_telem_pack_fits()
    ensures pw(16, 18) <= 0x1_0000_0000_0000_0000_0000_0000_0000_0000,
{
    assert(pw(16, 18) == 4722366482869645213696) by {
        reveal_with_fuel(pw, 19);
    }
}

pub proof fn lemma_free_charset_wf(cs: &CharSet)
    requires cs.set@ == free_set(), cs.msg_len == 13,
    ensures charset_wf(cs),
{
    assert(all_ascii(free_set())) by {
        assert forall|i: int| 0 <= i < free_set().len() implies (#[trigger] free_set()[i] as u32) < 0x80 by {
        }
    }
}

pub proof fn lemma_telem_charset_wf(cs: &CharSet)
    requires cs.set@ == telem_set(), cs.msg_len == 18,
    ensures charset_wf(cs),
{
    assert(all_ascii(telem_set())) by {
        assert forall|i: int| 0 <= i < telem_set().len() implies (#[trigger] telem_set()[i] as u32) < 0x80 by {
        }
    }
}

/// Free-text payload width in bits.
pub const FT8_MESSAGE_BITS: usize = 71;

/// Packs up to 13 characters of free text into a 71-bit number.
pub fn ft8_pack_0_0(c13: &str) -> (r: Option<u128>)
    requires truncate_ok(trim(c13@), 13),
    ensures
        r == spec_pack_0_stg(c13@, 13, ' ', free_set(), 71),
{
    let cs = free_charset();
    proof {
        lemma_free_charset_wf(&cs);
        lemma_free_pack_fits();
    }
    ft8_pack_0_stg(c13, &cs, FT8_MESSAGE_BITS)
}

/// Packs up to 18 hexadecimal digits of telemetry into a 71-bit number.
pub fn ft8_pack_0_5(c18: &str) -> (r: Option<u128>)
    requires truncate_ok(trim(c18@), 18),
    ensures
        r == spec_pack_0_stg(c18@, 18, '0', telem_set(), 71),
{
    let cs = telem_charset();
    proof {
        lemma_telem_charset_wf(&cs);
        lemma_telem_pack_fits();
    }
    ft8_pack_0_stg(c18, &cs, FT8_MESSAGE_BITS)
}

/// Unpacks a 71-bit number into free text.
pub fn ft8_unpack_0_0(a71: u128) -> (r: Option<String>)
    ensures
        r matches Some(t) && t@ == spec_unpack_0_stg(a71, 71, 13, free_set()),
{
    let cs = free_charset();
    proof {
        lemma_free_charset_wf(&cs);
    }
    ft8_unpack_0_stg(a71, FT8_MESSAGE_BITS, &cs)
}

/// Unpacks a 71-bit number into 18 hexadecimal digits of telemetry.
pub fn ft8_unpack_0_5(a71: u128) -> (r: Option<String>)
    ensures
        r matches Some(t) && t@ == spec_unpack_0_stg(a71, 71, 18, telem_set()),
{
    let cs = telem_charset();
    proof {
        lemma_telem_charset_wf(&cs);
    }
    ft8_unpack_0_stg(a71, FT8_MESSAGE_BITS, &cs)
}

/// No whitespace at either end.
pub open spec fn is_trimmed(t: Seq<char>) -> bool {
    t.len() == 0 || (!is_ws(t[0]) && !is_ws(t.last()))
}

proof fn lemma_trim_start_first(x: Seq<char>)
    ensures
        trim_start(x).len() == 0 || !is_ws(trim_start(x)[0]),
        all_ascii(x) ==> all_ascii(trim_start(x)),
    decreases x.len(),
{
    if x.len() > 0 && is_ws(x[0]) {
        lemma_trim_start_first(x.drop_first());
        if all_ascii(x) {
            assert forall|i: int| 0 <= i < x.drop_first().len() implies (#[trigger] x.drop_first()[i] as u32) < 0x80 by {
                assert(x.drop_first()[i] == x[i + 1]);
            }
        }
    }
}

proof fn lemma_trim_end_ends(y: Seq<char>)
    ensures
        trim_end(y).len() == 0 || !is_ws(trim_end(y).last()),
        (y.len() == 0 || !is_ws(y[0])) ==> (trim_end(y).len() == 0 || !is_ws(trim_end(y)[0])),
        all_ascii(y) ==> all_ascii(trim_end(y)),
    decreases y.len(),
{
    if y.len() > 0 && is_ws(y.last()) {
        let d = y.drop_last();
        lemma_trim_end_ends(d);
        if d.len() > 0 {
            assert(d[0] == y[0]);
        }
        if all_ascii(y) {
            assert forall|i: int| 0 <= i < d.len() implies (#[trigger] d[i] as u32) < 0x80 by {
                assert(d[i] == y[i]);
            }
        }
    }
}

/// Trimming leaves no whitespace at either end, and ASCII text ASCII.
proof fn lemma_trim_trimmed(x: Seq<char>)
    ensures
        is_trimmed(trim(x)),
        all_ascii(x) ==> all_ascii(trim(x)),
{
    lemma_trim_start_first(x);
    lemma_trim_end_ends(trim_start(x));
}

/// Trimming text without whitespace at its ends changes nothing.
proof fn lemma_trimmed_fixed(t: Seq<char>)
    requires
        is_trimmed(t),
    ensures
        trim(t) == t,
{
}

/// Leading whitespace padding is trimmed away.
proof fn lemma_trim_start_ws_pad(pad: char, n: nat, t: Seq<char>)
    requires
        is_ws(pad),
    ensures
        trim_start(repeat_char(pad, n) + t) == trim_start(t),
    decreases n,
{
    if n > 0 {
        assert((repeat_char(pad, n) + t).drop_first() =~= repeat_char(pad, (n - 1) as nat) + t);
        lemma_trim_start_ws_pad(pad, (n - 1) as nat, t);
    } else {
        assert(repeat_char(pad, n) + t =~= t);
    }
}

proof fn lemma_prefix_ascii(x: Seq<char>, n: int)
    requires
        all_ascii(x),
    ensures
        all_ascii(prefix_within(x, n)),
{
    lemma_prefix_within_len(x, n);
    let p = prefix_within(x, n);
    assert forall|i: int| 0 <= i < p.len() implies (#[trigger] p[i] as u32) < 0x80 by {
        assert(p[i] == x[i]);
    }
}

/// `left_pad` right-justifies ASCII text to exactly `msg_len` characters
/// with an ASCII pad character, and padding its result again changes nothing.
pub proof fn law_left_pad_exact_and_idempotent(s: Seq<char>, msg_len: int, pad: char)
    requires
        0 <= msg_len,
        all_ascii(s),
        (pad as u32) < 0x80,
    ensures
        spec_left_pad(s, msg_len, pad).len() == msg_len,
        spec_left_pad(spec_left_pad(s, msg_len, pad), msg_len, pad) == spec_left_pad(s, msg_len, pad),
{
    let t1 = trim(s);
    lemma_trim_trimmed(s);
    let t2 = prefix_within(t1, msg_len);
    lemma_prefix_within_len(t1, msg_len);
    lemma_prefix_ascii(t1, msg_len);
    let t = trim(t2);
    lemma_trim_trimmed(t2);
    lemma_trim_utf8_len(t2);
    lemma_utf8_len_ascii(t);
    assert(t.len() <= msg_len);
    let n = msg_len - t.len();
    let rep = repeat_char(pad, n as nat);
    assert(all_ascii(rep));
    lemma_utf8_len_ascii(rep);
    let r = spec_left_pad(s, msg_len, pad);
    assert(r == if n > 0 { rep + t } else { t });
    assert(all_ascii(r)) by {
        if n > 0 {
            assert forall|i: int| 0 <= i < r.len() implies (#[trigger] r[i] as u32) < 0x80 by {
                if i < n {
                    assert(r[i] == rep[i]);
                } else {
                    assert(r[i] == t[i - n]);
                }
            }
        }
    }
    lemma_utf8_len_ascii(r);
    assert(r.len() == msg_len);
    lemma_trimmed_fixed(t);
    let tr = trim(r);
    if n > 0 {
        if is_ws(pad) {
            lemma_trim_start_ws_pad(pad, n as nat, t);
            assert(tr == t);
        } else {
            assert(r[0] == pad);
            if t.len() > 0 {
                assert(r.last() == t.last());
            } else {
                assert(r.last() == pad);
            }
            assert(is_trimmed(r));
            lemma_trimmed_fixed(r);
            assert(tr == r);
        }
    } else {
        assert(tr == t);
    }
    lemma_trim_trimmed(r);
    lemma_utf8_len_ascii(tr);
    lemma_prefix_within_len(tr, msg_len);
    lemma_trimmed_fixed(tr);
}

/// Free text comes back from packing and unpacking as `left_pad` then `trim`
/// leave it (the round trip of the free-text payload).
pub proof fn law_free_text_roundtrip(s: Seq<char>)
    requires spec_pack_0_stg(s, 13, ' ', free_set(), 71) is Some,
    ensures
        spec_unpack_0_stg(spec_pack_0_stg(s, 13, ' ', free_set(), 71).unwrap(), 71, 13, free_set())
            == trim(spec_left_pad(s, 13, ' ')),
{
    assert(all_ascii(free_set())) by {
        assert forall|i: int| 0 <= i < free_set().len() implies (#[trigger] free_set()[i] as u32) < 0x80 by {}
    }
    law_pack_unpack_0_stg(s, 13, ' ', free_set(), 71);
}

/// Telemetry comes back from packing and unpacking as `left_pad` then `trim`
/// leave it (the round trip of the telemetry payload).
pub proof fn law_telemetry_roundtrip(s: Seq<char>)
    requires spec_pack_0_stg(s, 18, '0', telem_set(), 71) is Some,
    ensures
        spec_unpack_0_stg(spec_pack_0_stg(s, 18, '0', telem_set(), 71).unwrap(), 71, 18, telem_set())
            == trim(spec_left_pad(s, 18, '0')),
{
    assert(all_ascii(telem_set())) by {
        assert forall|i: int| 0 <= i < telem_set().len() implies (#[trigger] telem_set()[i] as u32) < 0x80 by {}
    }
    law_pack_unpack_0_stg(s, 18, '0', telem_set(), 71);
}

} // verus!
