use vstd::prelude::*;

use crate::base::{pw, digits_value, lemma_pw_pos, lemma_div_pw_step};
use crate::charsets::{free_set, free_chars, call1_set, call1_chars, call2_set, call2_chars,
    call3_set, call3_chars, call4_set, call4_chars, hash_set, hash_chars};

verus! {

/// The alphabet of decoding table `t`: 0 free text, 1 to 4 the places of a
/// standard callsign, 5 the characters of a nonstandard callsign.
pub open spec fn charn_table(t: int) -> Seq<char> {
    if t == 0 {
        free_set()
    } else if t == 1 {
        call1_set()
    } else if t == 2 {
        call2_set()
    } else if t == 3 {
        call3_set()
    } else if t == 4 {
        call4_set()
    } else {
        hash_set()
    }
}

/// The character at position `c` of table `t`, or `_` past its end.
pub open spec fn spec_charn(c: int, t: int) -> char {
    if 0 <= c < charn_table(t).len() { charn_table(t)[c] } else { '_' }
}

/// Decodes one base-N digit into its character of table `table_idx`.
pub fn charn(c: u8, table_idx: u8) -> (r: char)
    requires table_idx <= 5,
    ensures r == spec_charn(c as int, table_idx as int),
{
    let table = if table_idx == 0 {
        free_chars()
    } else if table_idx == 1 {
        call1_chars()
    } else if table_idx == 2 {
        call2_chars()
    } else if table_idx == 3 {
        call3_chars()
    } else if table_idx == 4 {
        call4_chars()
    } else {
        hash_chars()
    };
    if (c as usize) < table.len() {
        table[c as usize]
    } else {
        '_'
    }
}

/// The character `'0' + d`.
pub open spec fn digit_char(d: int) -> char {
    ((48 + d) as u32) as char
}

/// `width` decimal digits of `v`, zero-filled on the left; the first holds
/// whatever is left above the other digits.
pub open spec fn dd_digits(v: int, width: nat) -> Seq<char> {
    Seq::new(width, |k: int|
        if k == 0 {
            digit_char(v / pw(10, (width - 1) as nat))
        } else {
            digit_char((v / pw(10, (width - 1 - k) as nat)) % 10)
        })
}

/// A signed number as `int_to_dd` writes it: `-` for a negative value, `+`
/// for a non-negative one when a full sign is asked for, then its digits.
pub open spec fn spec_int_to_dd(value: int, width: nat, full_sign: bool) -> Seq<char> {
    if value < 0 {
        seq!['-'] + dd_digits(-value, width)
    } else if full_sign {
        seq!['+'] + dd_digits(value, width)
    } else {
        dd_digits(value, width)
    }
}

/// `10` to the power `e`, for `e` up to 2.
fn pow10(e: usize) -> (r: u32)
    requires e <= 2,
    ensures r == pw(10, e as nat), r >= 1,
{
    proof {
        reveal_with_fuel(pw, 3);
    }
    if e == 0 { 1 } else if e == 1 { 10 } else { 100 }
}

/// Writes `value` as a signed number of `width` digits.
pub fn int_to_dd(value: i32, width: usize, full_sign: bool) -> (r: Vec<char>)
    requires
        2 <= width <= 3,
        -1000 < value < 1000,
    ensures r@ == spec_int_to_dd(value as int, width as nat, full_sign),
{
    let mut r: Vec<char> = Vec::new();
    let v: u32;
    if value < 0 {
        r.push('-');
        v = (0 - value) as u32;
    } else {
        if full_sign {
            r.push('+');
        }
        v = value as u32;
    }
    let ghost head = r@;
    let ghost digits = dd_digits(v as int, width as nat);
    let mut k: usize = 0;
    while k < width
        invariant
            k <= width,
            2 <= width <= 3,
            v < 1000,
            digits == dd_digits(v as int, width as nat),
            r@ == head + digits.subrange(0, k as int),
        decreases width - k,
    {
        let p = pow10(width - 1 - k);
        proof {
            if k == 0 {
                reveal_with_fuel(pw, 3);
                assert(p >= 10);
                assert(v / p < 100) by (nonlinear_arith)
                    requires v < 1000, p >= 10;
            }
        }
        let mut d = v / p;
        if k > 0 {
            d = d % 10;
        }
        assert(d < 100);
        let c = (48u8 + d as u8) as char;
        assert(c == digits[k as int]);
        r.push(c);
        k += 1;
        assert(r@ =~= head + digits.subrange(0, k as int));
    }
    assert(digits.subrange(0, width as int) =~= digits);
    proof {
        if value < 0 {
            assert(-(value as int) == v);
        }
    }
    r
}

/// Whether a character is a decimal digit.
pub open spec fn is_digit(c: char) -> bool {
    '0' <= c <= '9'
}

/// Where the digits of a report begin: after a leading sign, if any.
pub open spec fn dd_start(s: Seq<char>) -> int {
    if s.len() > 0 && (s[0] == '-' || s[0] == '+') { 1 } else { 0 }
}

/// The end of the run of digits that begins at `i`, stopping at `end`.
pub open spec fn digit_run_end(s: Seq<char>, i: int, end: int) -> int
    decreases end - i,
{
    if 0 <= i < end && i < s.len() && is_digit(s[i]) { digit_run_end(s, i + 1, end) } else { i }
}

/// The values of decimal digit characters.
pub open spec fn char_digits(t: Seq<char>) -> Seq<int> {
    Seq::new(t.len(), |k: int| t[k] as int - 48)
}

/// The number `dd_to_int` reads: an optional sign, then the digits that
/// follow it within the first `length` characters.
pub open spec fn spec_dd_to_int(s: Seq<char>, length: int) -> int {
    let st = dd_start(s);
    let v = digits_value(char_digits(s.subrange(st, digit_run_end(s, st, length))), 10);
    if s.len() > 0 && s[0] == '-' { -v } else { v }
}

proof fn lemma_digit_run_end(s: Seq<char>, i: int, end: int)
    requires 0 <= i <= s.len(),
    ensures
        i <= digit_run_end(s, i, end) <= s.len(),
        digit_run_end(s, i, end) <= if i <= end { end } else { i },
    decreases end - i,
{
    if 0 <= i < end && i < s.len() && is_digit(s[i]) {
        lemma_digit_run_end(s, i + 1, end);
    }
}

/// Reads a signed report such as `-08` or `+12` from the first `length`
/// characters of `s`.
pub fn dd_to_int(s: &[char], length: usize) -> (r: i32)
    requires length <= 3,
    ensures
        r == spec_dd_to_int(s@, length as int),
        -999 <= r <= 999,
{
    let negative = s.len() > 0 && s[0] == '-';
    let st: usize = if s.len() > 0 && (s[0] == '-' || s[0] == '+') { 1 } else { 0 };
    let mut result: i32 = 0;
    let mut i = st;
    proof {
        lemma_digit_run_end(s@, st as int, length as int);
    }
    while i < length && i < s.len() && '0' <= s[i] && s[i] <= '9'
        invariant
            st <= i <= s@.len(),
            st as int == dd_start(s@),
            i <= st || i <= length,
            length <= 3,
            digit_run_end(s@, i as int, length as int) == digit_run_end(s@, st as int, length as int),
            result == digits_value(char_digits(s@.subrange(st as int, i as int)), 10),
            0 <= result < pw(10, (i - st) as nat),
        decreases length - i,
    {
        let d = (s[i] as u32 - 48) as i32;
        proof {
            let a = char_digits(s@.subrange(st as int, i as int));
            let b = char_digits(s@.subrange(st as int, i as int + 1));
            assert(b.drop_last() =~= a);
            assert(b.last() == d);
            assert(pw(10, (i + 1 - st) as nat) == pw(10, (i - st) as nat) * 10);
            assert(pw(10, (i - st) as nat) <= 100) by {
                reveal_with_fuel(pw, 3);
            }
        }
        result = result * 10 + d;
        i += 1;
    }
    proof {
        assert(pw(10, (i - st) as nat) <= 1000) by {
            reveal_with_fuel(pw, 4);
        }
    }
    if negative { -result } else { result }
}

/// The `k` base-`base` digits of `n`, most significant first, each decoded
/// with table `t`.
pub open spec fn spec_charn_digits(n: int, base: int, k: nat, t: int) -> Seq<char> {
    Seq::new(k, |j: int| spec_charn((n / pw(base, (k - 1 - j) as nat)) % base, t))
}

/// Decodes the `k` lowest base-`base` digits of `n` with table `table_idx`,
/// most significant first.
pub fn charn_digits(n: u64, base: u64, k: usize, table_idx: u8) -> (r: Vec<char>)
    requires
        2 <= base <= 256,
        table_idx <= 5,
    ensures r@ == spec_charn_digits(n as int, base as int, k as nat, table_idx as int),
{
    let mut low_first: Vec<char> = Vec::new();
    let mut m = n;
    let mut j: usize = 0;
    while j < k
        invariant
            j <= k,
            2 <= base <= 256,
            table_idx <= 5,
            m == n as int / pw(base as int, j as nat),
            low_first@.len() == j,
            forall|i: int| 0 <= i < j ==> #[trigger] low_first@[i]
                == spec_charn((n as int / pw(base as int, i as nat)) % base as int, table_idx as int),
        decreases k - j,
    {
        proof {
            lemma_div_pw_step(n as int, base as int, j as nat);
            lemma_pw_pos(base as int, j as nat);
        }
        low_first.push(charn((m % base) as u8, table_idx));
        m = m / base;
        j += 1;
    }
    let mut high_first: Vec<char> = Vec::new();
    let mut i: usize = k;
    while i > 0
        invariant
            i <= k,
            low_first@.len() == k,
            high_first@.len() == k - i,
            forall|t: int| 0 <= t < k - i ==> #[trigger] high_first@[t] == low_first@[k - 1 - t],
        decreases i,
    {
        high_first.push(low_first[i - 1]);
        i -= 1;
    }
    assert(high_first@ =~= spec_charn_digits(n as int, base as int, k as nat, table_idx as int)) by {
        assert forall|t: int| 0 <= t < k implies #[trigger] high_first@[t]
            == spec_charn_digits(n as int, base as int, k as nat, table_idx as int)[t] by {
            assert(high_first@[t] == low_first@[k - 1 - t]);
        }
    }
    high_first
}

} // verus!
