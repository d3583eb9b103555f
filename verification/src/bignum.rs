use vstd::prelude::*;

use crate::base::{pw, digits_value};

verus! {

/// The big-endian value of a byte string.
pub open spec fn be_value(s: Seq<u8>) -> int {
    digits_value(Seq::new(s.len(), |i: int| s[i] as int), 256)
}

pub proof fn lemma_be_prefix(s: Seq<u8>, i: int)
    requires 0 <= i < s.len(),
    ensures be_value(s.subrange(0, i + 1)) == be_value(s.subrange(0, i)) * 256 + s[i],
{
    let a = Seq::new((i + 1) as nat, |k: int| s.subrange(0, i + 1)[k] as int);
    let b = Seq::new(i as nat, |k: int| s.subrange(0, i)[k] as int);
    assert(a.drop_last() =~= b);
}

pub proof fn lemma_be_bound(s: Seq<u8>)
    ensures 0 <= be_value(s) < pw(256, s.len()),
{
    let d = Seq::new(s.len(), |i: int| s[i] as int);
    crate::base::lemma_digits_value_bound(d, 256);
}

/// Divides the big-endian number in `b` by `d` in place (long division),
/// returning the remainder.
pub fn div_bytes(b: &mut [u8; 9], d: u16) -> (rem: u16)
    requires 2 <= d <= 256,
    ensures
        be_value(final(b)@) == be_value(old(b)@) / (d as int),
        rem as int == be_value(old(b)@) % (d as int),
{
    let mut rem: u16 = 0;
    let mut i: usize = 0;
    while i < 9
        invariant
            i <= 9,
            2 <= d <= 256,
            rem < d,
            forall|k: int| i <= k < 9 ==> #[trigger] b@[k] == old(b)@[k],
            be_value(old(b)@.subrange(0, i as int)) == be_value(b@.subrange(0, i as int)) * d + rem,
        decreases 9 - i,
    {
        proof {
            lemma_be_prefix(old(b)@, i as int);
        }
        let ghost prev = b@;
        let ghost old_rem = rem;
        let x = b[i];
        let r2: u16 = rem * 256 + x as u16;
        proof {
            assert(r2 < d * 256) by (nonlinear_arith)
                requires r2 == rem * 256 + x, rem < d, x < 256;
            assert(r2 / d < 256) by (nonlinear_arith)
                requires r2 < d * 256, d >= 2;
        }
        b[i] = (r2 / d) as u8;
        rem = r2 % d;
        proof {
            lemma_be_prefix(b@, i as int);
            assert(b@.subrange(0, i as int) =~= prev.subrange(0, i as int));
            let q = r2 as int / d as int;
            let m = r2 as int % d as int;
            let vb = be_value(prev.subrange(0, i as int));
            assert(r2 as int == q * d + m) by (nonlinear_arith)
                requires d > 0, q == r2 as int / d as int, m == r2 as int % d as int;
            assert((vb * 256 + q) * d + m == (vb * d + old_rem) * 256 + x) by (nonlinear_arith)
                requires r2 as int == q * d + m, r2 == old_rem * 256 + x;
        }
        i += 1;
    }
    proof {
        assert(b@.subrange(0, 9) =~= b@);
        assert(old(b)@.subrange(0, 9) =~= old(b)@);
        vstd::arithmetic::div_mod::lemma_fundamental_div_mod_converse(
            be_value(old(b)@), d as int, be_value(b@), rem as int);
    }
    rem
}

pub proof fn lemma_be_concat(a: Seq<u8>, b: Seq<u8>)
    ensures be_value(a + b) == be_value(a) * pw(256, b.len()) + be_value(b),
    decreases b.len(),
{
    if b.len() == 0 {
        assert(a + b =~= a);
        assert(Seq::new(b.len(), |i: int| b[i] as int) =~= Seq::<int>::empty());
    } else {
        let b1 = b.drop_last();
        lemma_be_concat(a, b1);
        lemma_be_last(a + b);
        lemma_be_last(b);
        assert((a + b).drop_last() =~= a + b1);
        let va = be_value(a);
        let p = pw(256, b1.len());
        assert((va * p + be_value(b1)) * 256 + b.last() == va * (p * 256) + (be_value(b1) * 256 + b.last()))
            by (nonlinear_arith);
    }
}

pub proof fn lemma_be_last(s: Seq<u8>)
    requires s.len() > 0,
    ensures be_value(s) == be_value(s.drop_last()) * 256 + s.last(),
{
    let a = Seq::new(s.len(), |i: int| s[i] as int);
    let b = Seq::new(s.drop_last().len(), |i: int| s.drop_last()[i] as int);
    assert(a.drop_last() =~= b);
}

proof fn lemma_be_single(x: u8)
    ensures be_value(seq![x]) == x,
{
    lemma_be_last(seq![x]);
    assert(seq![x].drop_last() =~= Seq::<u8>::empty());
    assert(Seq::new(0, |i: int| Seq::<u8>::empty()[i] as int) =~= Seq::<int>::empty());
}

/// Multiplies the big-endian number in `b` by `k` in place.
pub fn mul_bytes(b: &mut [u8; 9], k: u16)
    requires
        1 <= k <= 255,
        be_value(old(b)@) * k < pw(256, 9),
    ensures be_value(final(b)@) == be_value(old(b)@) * k,
{
    let mut carry: u16 = 0;
    let mut i: usize = 9;
    assert(b@.subrange(9, 9) =~= Seq::<u8>::empty());
    assert(Seq::new(0, |j: int| Seq::<u8>::empty()[j] as int) =~= Seq::<int>::empty());
    while i > 0
        invariant
            i <= 9,
            1 <= k <= 255,
            carry < k,
            forall|j: int| 0 <= j < i ==> #[trigger] b@[j] == old(b)@[j],
            be_value(old(b)@.subrange(i as int, 9)) * k
                == be_value(b@.subrange(i as int, 9)) + carry * pw(256, (9 - i) as nat),
        decreases i,
    {
        let idx = i - 1;
        let ghost prev = b@;
        let ghost p = pw(256, (9 - i) as nat);
        proof {
            assert(b[idx as int] * k <= 255 * k) by (nonlinear_arith)
                requires b[idx as int] <= 255, k >= 0;
            assert(255 * k <= 255 * 255) by (nonlinear_arith)
                requires k <= 255;
        }
        let x: u16 = b[idx] as u16 * k + carry;
        b[idx] = (x % 256) as u8;
        let ghost old_carry = carry;
        carry = x / 256;
        proof {
            assert(carry < k) by (nonlinear_arith)
                requires carry == x / 256, x <= 255 * k + old_carry, old_carry < k;
            let o = old(b)@;
            assert(o.subrange(idx as int, 9) =~= seq![o[idx as int]] + o.subrange(i as int, 9));
            lemma_be_concat(seq![o[idx as int]], o.subrange(i as int, 9));
            lemma_be_single(o[idx as int]);
            assert(b@.subrange(idx as int, 9) =~= seq![b@[idx as int]] + b@.subrange(i as int, 9));
            assert(b@.subrange(i as int, 9) =~= prev.subrange(i as int, 9));
            lemma_be_concat(seq![b@[idx as int]], b@.subrange(i as int, 9));
            lemma_be_single(b@[idx as int]);
            assert(pw(256, (9 - idx) as nat) == p * 256);
            let vo = be_value(o.subrange(i as int, 9));
            let vb = be_value(prev.subrange(i as int, 9));
            assert((o[idx as int] * p + vo) * k == (x % 256) * p + vb + (x / 256) * (p * 256))
                by (nonlinear_arith)
                requires vo * k == vb + old_carry * p, x == o[idx as int] * k + old_carry;
        }
        i = idx;
    }
    proof {
        assert(b@.subrange(0, 9) =~= b@);
        assert(old(b)@.subrange(0, 9) =~= old(b)@);
        lemma_be_bound(b@);
        assert(carry * pw(256, 9) < pw(256, 9));
        assert(carry == 0) by (nonlinear_arith)
            requires carry * pw(256, 9) < pw(256, 9), pw(256, 9) > 0;
    }
}

/// Adds `x0` to the big-endian number in `b` in place, stopping as soon as
/// no carry is left.
pub fn add_bytes(b: &mut [u8; 9], x0: u16)
    requires
        x0 < 512,
        be_value(old(b)@) + x0 < pw(256, 9),
    ensures be_value(final(b)@) == be_value(old(b)@) + x0,
{
    let mut x: u16 = x0;
    let mut i: usize = 9;
    assert(b@.subrange(9, 9) =~= Seq::<u8>::empty());
    assert(Seq::new(0, |j: int| Seq::<u8>::empty()[j] as int) =~= Seq::<int>::empty());
    while i > 0
        invariant
            i <= 9,
            x < 512,
            forall|j: int| 0 <= j < i ==> #[trigger] b@[j] == old(b)@[j],
            be_value(old(b)@.subrange(i as int, 9)) + x0
                == be_value(b@.subrange(i as int, 9)) + x * pw(256, (9 - i) as nat),
        ensures
            i <= 9,
            x == 0 || i == 0,
            forall|j: int| 0 <= j < i ==> #[trigger] b@[j] == old(b)@[j],
            be_value(old(b)@.subrange(i as int, 9)) + x0
                == be_value(b@.subrange(i as int, 9)) + x * pw(256, (9 - i) as nat),
        decreases i,
    {
        if x == 0 {
            break;
        }
        let idx = i - 1;
        let ghost prev = b@;
        let ghost p = pw(256, (9 - i) as nat);
        let ghost old_x = x;
        x = x + b[idx] as u16;
        b[idx] = (x % 256) as u8;
        x = x / 256;
        proof {
            let o = old(b)@;
            assert(o.subrange(idx as int, 9) =~= seq![o[idx as int]] + o.subrange(i as int, 9));
            lemma_be_concat(seq![o[idx as int]], o.subrange(i as int, 9));
            lemma_be_single(o[idx as int]);
            assert(b@.subrange(idx as int, 9) =~= seq![b@[idx as int]] + b@.subrange(i as int, 9));
            assert(b@.subrange(i as int, 9) =~= prev.subrange(i as int, 9));
            lemma_be_concat(seq![b@[idx as int]], b@.subrange(i as int, 9));
            lemma_be_single(b@[idx as int]);
            assert(pw(256, (9 - idx) as nat) == p * 256);
            let vo = be_value(o.subrange(i as int, 9));
            let vb = be_value(prev.subrange(i as int, 9));
            let y = old_x + o[idx as int];
            assert(o[idx as int] * p + vo + x0 == (y % 256) * p + vb + (y / 256) * (p * 256))
                by (nonlinear_arith)
                requires vo + x0 == vb + old_x * p, y == old_x + o[idx as int];
        }
        i = idx;
    }
    proof {
        let o = old(b)@;
        assert(o =~= o.subrange(0, i as int) + o.subrange(i as int, 9));
        assert(b@ =~= b@.subrange(0, i as int) + b@.subrange(i as int, 9));
        assert(b@.subrange(0, i as int) =~= o.subrange(0, i as int));
        lemma_be_concat(o.subrange(0, i as int), o.subrange(i as int, 9));
        lemma_be_concat(b@.subrange(0, i as int), b@.subrange(i as int, 9));
        if x > 0 {
            assert(i == 0);
            assert(o.subrange(0, 9) =~= o);
            assert(b@.subrange(0, 9) =~= b@);
            lemma_be_bound(b@);
            assert(x * pw(256, 9) >= pw(256, 9)) by (nonlinear_arith)
                requires x >= 1, pw(256, 9) > 0;
            assert(false);
        }
    }
}

pub proof fn lemma_pw256_9()
    ensures pw(256, 9) == 4722366482869645213696,
{
    assert(pw(256, 9) == 4722366482869645213696) by {
        reveal_with_fuel(pw, 10);
    }
}

} // verus!
