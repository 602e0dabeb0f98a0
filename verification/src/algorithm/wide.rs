//! Whole numbers of any size, as far as the keys of the trimmer need them:
//! a number is a list of digits to the base 2^32, the least digit first.

use vstd::prelude::*;

verus! {

/// The base of the digits.
pub open spec fn radix() -> int {
    0x1_0000_0000
}

/// The base to the power `i`.
pub open spec fn power(i: nat) -> int
    decreases i,
{
    if i == 0 {
        1
    } else {
        radix() * power((i - 1) as nat)
    }
}

/// The digit at place `i`; zero beyond the last digit.
pub open spec fn digit_at(s: Seq<u32>, i: int) -> int {
    if 0 <= i < s.len() {
        s[i] as int
    } else {
        0
    }
}

/// The number that the first `i` digits of `s` write.
pub open spec fn value_upto(s: Seq<u32>, i: nat) -> int
    decreases i,
{
    if i == 0 {
        0
    } else {
        value_upto(s, (i - 1) as nat) + digit_at(s, i - 1) * power((i - 1) as nat)
    }
}

/// The number that the digits of `s` write.
pub open spec fn value(s: Seq<u32>) -> int {
    value_upto(s, s.len())
}

proof fn lemma_power_positive(i: nat)
    ensures
        power(i) >= 1,
    decreases i,
{
    if i > 0 {
        lemma_power_positive((i - 1) as nat);
        assert(radix() * power((i - 1) as nat) >= 1) by (nonlinear_arith)
            requires
                power((i - 1) as nat) >= 1,
                radix() == 0x1_0000_0000,
        ;
    }
}

/// The first `i` digits write a number below the base to the power `i`.
pub proof fn lemma_value_bound(s: Seq<u32>, i: nat)
    ensures
        0 <= value_upto(s, i) < power(i),
    decreases i,
{
    if i > 0 {
        lemma_value_bound(s, (i - 1) as nat);
        lemma_power_positive((i - 1) as nat);
        let p = power((i - 1) as nat);
        let d = digit_at(s, i - 1);
        assert(0 <= d * p && d * p + p <= radix() * p) by (nonlinear_arith)
            requires
                0 <= d <= 0xffff_ffff,
                p >= 1,
                radix() == 0x1_0000_0000,
        ;
    } else {
        lemma_power_positive(0);
    }
}

/// Digits beyond the last add nothing.
pub proof fn lemma_value_beyond(s: Seq<u32>, i: nat)
    requires
        i >= s.len(),
    ensures
        value_upto(s, i) == value(s),
    decreases i,
{
    if i > s.len() {
        lemma_value_beyond(s, (i - 1) as nat);
        assert(digit_at(s, i - 1) * power((i - 1) as nat) == 0) by (nonlinear_arith)
            requires
                digit_at(s, i - 1) == 0,
        ;
    }
}

/// Lists with the same first `i` digits write the same number with them.
pub proof fn lemma_value_agree(a: Seq<u32>, b: Seq<u32>, i: nat)
    requires
        forall|j: int| 0 <= j < i ==> digit_at(a, j) == digit_at(b, j),
    ensures
        value_upto(a, i) == value_upto(b, i),
    decreases i,
{
    if i > 0 {
        lemma_value_agree(a, b, (i - 1) as nat);
    }
}

/// One digit more adds the digit times the power of its place.
pub proof fn lemma_value_push(s: Seq<u32>, x: u32)
    ensures
        value(s.push(x)) == value(s) + x * power(s.len()),
{
    lemma_value_agree(s, s.push(x), s.len());
}

/// The number one.
pub fn one() -> (r: Vec<u32>)
    ensures
        value(r@) == 1,
{
    let mut r: Vec<u32> = Vec::new();
    r.push(1);
    proof {
        lemma_value_push(Seq::<u32>::empty(), 1);
        assert(r@ =~= Seq::<u32>::empty().push(1u32));
    }
    r
}

/// The number zero.
pub fn zero() -> (r: Vec<u32>)
    ensures
        value(r@) == 0,
{
    Vec::new()
}

/// The product of a number and a small number.
pub fn times(a: &Vec<u32>, m: u64) -> (r: Vec<u32>)
    ensures
        value(r@) == value(a@) * m,
{
    let mut out: Vec<u32> = Vec::new();
    let mut carry: u64 = 0;
    let mut i: usize = 0;
    assert(value_upto(a@, 0) * m == 0) by (nonlinear_arith)
        requires
            value_upto(a@, 0) == 0,
    ;
    assert(carry * power(0) == 0) by (nonlinear_arith)
        requires
            carry == 0,
    ;
    while i < a.len()
        invariant
            i <= a.len(),
            out.len() == i,
            carry <= m,
            value(out@) + carry * power(i as nat) == value_upto(a@, i as nat) * m,
        decreases a.len() - i,
    {
        let d = a[i] as u128;
        assert(d * m + carry <= 0x1_0000_0000 * m) by (nonlinear_arith)
            requires
                0 <= d <= 0xffff_ffff,
                0 <= carry <= m,
        ;
        assert(0x1_0000_0000 * m <= 0x1_0000_0000 * 0xffff_ffff_ffff_ffff) by (nonlinear_arith)
            requires
                m <= 0xffff_ffff_ffff_ffff,
        ;
        let t: u128 = d * (m as u128) + carry as u128;
        let low = (t % 0x1_0000_0000) as u32;
        let next = (t / 0x1_0000_0000) as u64;
        proof {
            let p = power(i as nat);
            lemma_value_push(out@, low);
            assert(t == next * 0x1_0000_0000 + low);
            assert(low * p + next * (radix() * p) == t * p) by (nonlinear_arith)
                requires
                    t == next * 0x1_0000_0000 + low,
                    radix() == 0x1_0000_0000,
            ;
            assert(t * p == d * m * p + carry * p) by (nonlinear_arith)
                requires
                    t == d * m + carry,
            ;
            assert((value_upto(a@, i as nat) + d * p) * m == value_upto(a@, i as nat) * m + d * m
                * p) by (nonlinear_arith);
            assert(digit_at(a@, i as int) == d);
        }
        out.push(low);
        carry = next;
        i += 1;
    }
    let low = (carry % 0x1_0000_0000) as u32;
    let high = (carry / 0x1_0000_0000) as u32;
    proof {
        let n = a.len() as nat;
        let p = power(n);
        lemma_value_push(out@, low);
        lemma_value_push(out@.push(low), high);
        assert(low * p + high * (radix() * p) == carry * p) by (nonlinear_arith)
            requires
                carry == high * 0x1_0000_0000 + low,
                radix() == 0x1_0000_0000,
        ;
        assert(power((n + 1) as nat) == radix() * p);
    }
    out.push(low);
    out.push(high);
    out
}

fn digit_of(a: &Vec<u32>, i: usize) -> (d: u32)
    ensures
        d == digit_at(a@, i as int),
{
    if i < a.len() {
        a[i]
    } else {
        0
    }
}

/// The sum of two numbers.
pub fn plus(a: &Vec<u32>, b: &Vec<u32>) -> (r: Vec<u32>)
    ensures
        value(r@) == value(a@) + value(b@),
{
    let n = if a.len() >= b.len() {
        a.len()
    } else {
        b.len()
    };
    let mut out: Vec<u32> = Vec::new();
    let mut carry: u64 = 0;
    let mut i: usize = 0;
    assert(carry * power(0) == 0) by (nonlinear_arith)
        requires
            carry == 0,
    ;
    while i < n
        invariant
            i <= n,
            out.len() == i,
            carry <= 1,
            value(out@) + carry * power(i as nat) == value_upto(a@, i as nat) + value_upto(
                b@,
                i as nat,
            ),
        decreases n - i,
    {
        let x = digit_of(a, i) as u64;
        let y = digit_of(b, i) as u64;
        let t: u64 = x + y + carry;
        let low = (t % 0x1_0000_0000) as u32;
        let next = t / 0x1_0000_0000;
        proof {
            let p = power(i as nat);
            lemma_value_push(out@, low);
            assert(low * p + next * (radix() * p) == t * p) by (nonlinear_arith)
                requires
                    t == next * 0x1_0000_0000 + low,
                    radix() == 0x1_0000_0000,
            ;
            assert(t * p == x * p + y * p + carry * p) by (nonlinear_arith)
                requires
                    t == x + y + carry,
            ;
        }
        out.push(low);
        carry = next;
        i += 1;
    }
    proof {
        lemma_value_push(out@, carry as u32);
        lemma_value_beyond(a@, n as nat);
        lemma_value_beyond(b@, n as nat);
    }
    out.push(carry as u32);
    out
}

/// Tells whether the first number is less than the second.
pub fn less(a: &Vec<u32>, b: &Vec<u32>) -> (r: bool)
    ensures
        r == (value(a@) < value(b@)),
{
    let n = if a.len() >= b.len() {
        a.len()
    } else {
        b.len()
    };
    proof {
        lemma_value_beyond(a@, n as nat);
        lemma_value_beyond(b@, n as nat);
    }
    let mut i: usize = n;
    while i > 0
        invariant
            i <= n,
            value(a@) - value_upto(a@, i as nat) == value(b@) - value_upto(b@, i as nat),
        decreases i,
    {
        let x = digit_of(a, i - 1);
        let y = digit_of(b, i - 1);
        if x != y {
            proof {
                let p = power((i - 1) as nat);
                lemma_value_bound(a@, (i - 1) as nat);
                lemma_value_bound(b@, (i - 1) as nat);
                if x < y {
                    assert(x * p + p <= y * p) by (nonlinear_arith)
                        requires
                            x + 1 <= y,
                            p >= 1,
                    ;
                } else {
                    assert(y * p + p <= x * p) by (nonlinear_arith)
                        requires
                            y + 1 <= x,
                            p >= 1,
                    ;
                }
            }
            return x < y;
        }
        i -= 1;
    }
    false
}

} // verus!
