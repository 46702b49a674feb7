//! The arithmetic that every scan in this crate is measured against.
//!
//! Elements are `i64` and addition wraps, so the elements form a commutative
//! group and every partial sum is exact modulo 2^64.

use vstd::prelude::*;

verus! {

/// The `i64` that is congruent to `x` modulo 2^64.
pub open spec fn wrap(x: int) -> i64 {
    let r = x % 0x1_0000_0000_0000_0000;
    if r >= 0x8000_0000_0000_0000 {
        (r - 0x1_0000_0000_0000_0000) as i64
    } else {
        r as i64
    }
}

/// The mathematical sum of the first `k` elements of `s`.
pub open spec fn sum_upto(s: Seq<i64>, k: int) -> int
    decreases k,
{
    if k <= 0 {
        0
    } else {
        sum_upto(s, k - 1) + s[k - 1]
    }
}

/// The mathematical sum of `s[lo..hi]`.
pub open spec fn range_sum(s: Seq<i64>, lo: int, hi: int) -> int {
    sum_upto(s, hi) - sum_upto(s, lo)
}

/// The inclusive prefix sum of `s`: element `k` is the wrapped sum of
/// `s[0..=k]`.
pub open spec fn inclusive_scan(s: Seq<i64>) -> Seq<i64> {
    Seq::new(s.len(), |k: int| wrap(sum_upto(s, k + 1)))
}

/// The exclusive prefix sum of `s`: element `k` is the wrapped sum of
/// `s[0..k]`.
pub open spec fn exclusive_scan(s: Seq<i64>) -> Seq<i64> {
    Seq::new(s.len(), |k: int| wrap(sum_upto(s, k)))
}

/// The distance between `x` and `wrap(x)`, counted in multiples of 2^64.
pub open spec fn wrap_turns(x: int) -> int {
    let q = x / 0x1_0000_0000_0000_0000;
    if x % 0x1_0000_0000_0000_0000 >= 0x8000_0000_0000_0000 {
        q + 1
    } else {
        q
    }
}

/// `wrap(x)` differs from `x` by a whole number of turns.
pub proof fn lemma_wrap_turns(x: int)
    ensures
        x == wrap(x) + wrap_turns(x) * 0x1_0000_0000_0000_0000,
{
    vstd::arithmetic::div_mod::lemma_fundamental_div_mod(x, 0x1_0000_0000_0000_0000);
}

/// Two integers a whole number of turns apart wrap to the same value.
pub proof fn lemma_wrap_congruent(a: int, b: int, k: int)
    requires
        a == b + k * 0x1_0000_0000_0000_0000,
    ensures
        wrap(a) == wrap(b),
{
    vstd::arithmetic::div_mod::lemma_mod_multiples_vanish(k, b, 0x1_0000_0000_0000_0000);
}

/// Wrapping may be done early or late: only the residue matters.
pub proof fn lemma_wrap_add(x: int, y: int)
    ensures
        wrap(wrap(x) + y) == wrap(x + y),
        wrap(x + wrap(y)) == wrap(x + y),
        wrap(wrap(x) + wrap(y)) == wrap(x + y),
{
    lemma_wrap_turns(x);
    lemma_wrap_turns(y);
    let kx = wrap_turns(x);
    let ky = wrap_turns(y);
    lemma_wrap_congruent(x + y, wrap(x) + y, kx);
    lemma_wrap_congruent(x + y, x + wrap(y), ky);
    assert((kx + ky) * 0x1_0000_0000_0000_0000 == kx * 0x1_0000_0000_0000_0000 + ky
        * 0x1_0000_0000_0000_0000);
    lemma_wrap_congruent(x + y, wrap(x) + wrap(y), kx + ky);
}

/// Sums over ranges on which two sequences agree are equal.
pub proof fn lemma_range_sum_agree(a: Seq<i64>, b: Seq<i64>, lo: int, hi: int)
    requires
        0 <= lo <= hi,
        forall|i: int| lo <= i < hi ==> a[i] == b[i],
    ensures
        range_sum(a, lo, hi) == range_sum(b, lo, hi),
    decreases hi - lo,
{
    if hi > lo {
        lemma_range_sum_agree(a, b, lo, hi - 1);
    }
}

/// Wrapping addition of two values.
pub fn add_wrapping(a: i64, b: i64) -> (r: i64)
    ensures
        r == wrap(a + b),
{
    a.wrapping_add(b)
}

} // verus!
