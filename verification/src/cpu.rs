//! The sequential scan: one lane, one pass, element by element. Every other
//! scan in this crate is proved to agree with it.

use vstd::prelude::*;
use crate::sums::{add_wrapping, inclusive_scan, lemma_wrap_add, sum_upto, wrap};

verus! {

/// Computes the inclusive prefix sum of `data` serially:
/// `out[0] = data[0]` and `out[i] = out[i - 1] + data[i]`, with wrapping
/// addition. An empty input gives an empty output.
pub fn run(data: &[i64]) -> (prefix_sum: Vec<i64>)
    ensures
        prefix_sum@ == inclusive_scan(data@),
{
    let n = data.len();
    let mut prefix_sum: Vec<i64> = Vec::new();
    let mut last: i64 = 0;
    let mut i: usize = 0;
    while i < n
        invariant
            n == data@.len(),
            i <= n,
            prefix_sum@.len() == i,
            last == wrap(sum_upto(data@, i as int)),
            forall|k: int| 0 <= k < i ==> prefix_sum@[k] == wrap(sum_upto(data@, k + 1)),
        decreases n - i,
    {
        proof {
            lemma_wrap_add(sum_upto(data@, i as int), data@[i as int] as int);
        }
        last = add_wrapping(last, data[i]);
        prefix_sum.push(last);
        i += 1;
    }
    prefix_sum
}

} // verus!
