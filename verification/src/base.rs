use vstd::prelude::*;

use vstd::arithmetic::div_mod::{lemma_fundamental_div_mod_converse, lemma_div_denominator};
use vstd::arithmetic::mul::lemma_mul_is_commutative;

verus! {

/// `m` to the power `e`.
pub open spec fn pw(m: int, e: nat) -> int
    decreases e,
{
    if e == 0 { 1 } else { pw(m, (e - 1) as nat) * m }
}

/// The number whose base-`m` digits, most significant first, are `d`.
pub open spec fn digits_value(d: Seq<int>, m: int) -> int
    decreases d.len(),
{
    if d.len() == 0 { 0 } else { digits_value(d.drop_last(), m) * m + d.last() }
}

/// Whether every entry of `d` is a base-`m` digit.
pub open spec fn valid_digits(d: Seq<int>, m: int) -> bool {
    forall|i: int| 0 <= i < d.len() ==> 0 <= #[trigger] d[i] < m
}

/// Digit `j` (counted from the least significant) of `v` in base `m`.
pub open spec fn digit_at(v: int, m: int, j: nat) -> int {
    (v / pw(m, j)) % m
}

pub proof fn lemma_pw_pos(m: int, e: nat)
    requires m >= 1,
    ensures pw(m, e) >= 1,
    decreases e,
{
    if e > 0 {
        lemma_pw_pos(m, (e - 1) as nat);
        let p = pw(m, (e - 1) as nat);
        assert(p * m >= 1) by (nonlinear_arith)
            requires p >= 1, m >= 1;
    }
}

pub proof fn lemma_pw_monotone(m: int, a: nat, b: nat)
    requires m >= 1, a <= b,
    ensures pw(m, a) <= pw(m, b),
    decreases b,
{
    if a < b {
        lemma_pw_monotone(m, a, (b - 1) as nat);
        lemma_pw_pos(m, (b - 1) as nat);
        let p = pw(m, (b - 1) as nat);
        assert(p <= p * m) by (nonlinear_arith)
            requires p >= 1, m >= 1;
    }
}

pub proof fn lemma_digits_prefix(d: Seq<int>, m: int, i: int)
    requires 0 <= i < d.len(),
    ensures digits_value(d.subrange(0, i + 1), m) == digits_value(d.subrange(0, i), m) * m + d[i],
{
    let s = d.subrange(0, i + 1);
    assert(s.drop_last() =~= d.subrange(0, i));
}

/// A number with `len` base-`m` digits is below `m` to the power `len`.
pub proof fn lemma_digits_value_bound(d: Seq<int>, m: int)
    requires m >= 1, valid_digits(d, m),
    ensures 0 <= digits_value(d, m) < pw(m, d.len()),
    decreases d.len(),
{
    if d.len() > 0 {
        let dl = d.drop_last();
        assert(valid_digits(dl, m)) by {
            assert forall|i: int| 0 <= i < dl.len() implies 0 <= #[trigger] dl[i] < m by {
                assert(dl[i] == d[i]);
            }
        }
        lemma_digits_value_bound(dl, m);
        let v = digits_value(dl, m);
        let p = pw(m, dl.len());
        let l = d.last();
        assert(0 <= l < m);
        assert(0 <= v * m + l < p * m) by (nonlinear_arith)
            requires 0 <= v < p, 0 <= l < m, m >= 1;
    }
}

/// Reading the digits of a number back gives the digits it was built from.
pub proof fn lemma_digit_at_value(d: Seq<int>, m: int, i: int)
    requires m >= 1, valid_digits(d, m), 0 <= i < d.len(),
    ensures digit_at(digits_value(d, m), m, (d.len() - 1 - i) as nat) == d[i],
    decreases d.len(),
{
    let dl = d.drop_last();
    assert(valid_digits(dl, m)) by {
        assert forall|k: int| 0 <= k < dl.len() implies 0 <= #[trigger] dl[k] < m by {
            assert(dl[k] == d[k]);
        }
    }
    let v = digits_value(dl, m);
    let l = d.last();
    lemma_digits_value_bound(dl, m);
    lemma_fundamental_div_mod_converse(v * m + l, m, v, l);
    if i == d.len() - 1 {
        assert(pw(m, 0) == 1);
        assert((v * m + l) / 1 == v * m + l);
    } else {
        let j = (d.len() - 1 - i) as nat;
        lemma_pw_pos(m, (j - 1) as nat);
        let q = pw(m, (j - 1) as nat);
        lemma_div_denominator(v * m + l, m, q);
        lemma_mul_is_commutative(m, q);
        assert(pw(m, j) == q * m);
        assert((v * m + l) / pw(m, j) == v / q);
        lemma_digit_at_value(dl, m, i);
        assert(dl[i] == d[i]);
    }
}

/// Dividing by `m` once more moves to the next digit.
pub proof fn lemma_div_pw_step(v: int, m: int, j: nat)
    requires v >= 0, m >= 1,
    ensures (v / pw(m, j)) / m == v / pw(m, j + 1),
        (v / pw(m, j)) % m == digit_at(v, m, j),
{
    lemma_pw_pos(m, j);
    lemma_div_denominator(v, pw(m, j), m);
}

} // verus!

verus! {

pub proof fn lemma_pw_add(m: int, a: nat, b: nat)
    ensures pw(m, a + b) == pw(m, a) * pw(m, b),
    decreases b,
{
    if b > 0 {
        lemma_pw_add(m, a, (b - 1) as nat);
        let x = pw(m, a);
        let y = pw(m, (b - 1) as nat);
        assert(pw(m, (a + b) as nat) == pw(m, (a + b - 1) as nat) * m);
        assert((x * y) * m == x * (y * m)) by (nonlinear_arith);
    }
}

pub proof fn lemma_pw2_127()
    ensures pw(2, 127) == 0x8000_0000_0000_0000_0000_0000_0000_0000,
{
    assert(pw(2, 8) == 256) by {
        reveal_with_fuel(pw, 9);
    }
    lemma_pw_add(2, 8, 8);
    assert(pw(2, 16) == 0x1_0000);
    lemma_pw_add(2, 16, 16);
    assert(pw(2, 32) == 0x1_0000_0000);
    lemma_pw_add(2, 32, 32);
    assert(pw(2, 64) == 0x1_0000_0000_0000_0000);
    assert(pw(2, 7) == 128) by {
        reveal_with_fuel(pw, 8);
    }
    lemma_pw_add(2, 7, 8);
    assert(pw(2, 15) == 0x8000);
    lemma_pw_add(2, 15, 16);
    assert(pw(2, 31) == 0x8000_0000);
    lemma_pw_add(2, 31, 32);
    assert(pw(2, 63) == 0x8000_0000_0000_0000);
    lemma_pw_add(2, 63, 64);
}

} // verus!
