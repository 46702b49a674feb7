//! The block reducer: the work that one workgroup does on its own block,
//! with no word to or from any other workgroup.

use vstd::prelude::*;
use crate::layout::{block_end, block_start};
use crate::sums::{add_wrapping, lemma_wrap_add, range_sum, wrap};

verus! {

/// The sum of block `b` of `s`: its aggregate.
pub open spec fn aggregate_of(s: Seq<i64>, b: int, cap: int) -> i64 {
    wrap(range_sum(s, block_start(b, cap), block_end(b, s.len() as int, cap)))
}

/// `data` with the window `lo..hi` replaced by its own running sums.
pub open spec fn reduced(data: Seq<i64>, lo: int, hi: int) -> Seq<i64> {
    Seq::new(
        data.len(),
        |i: int|
            if lo <= i < hi {
                wrap(range_sum(data, lo, i + 1))
            } else {
                data[i]
            },
    )
}

/// `data` with `offset` added to every element of the window `lo..hi`.
pub open spec fn shifted(data: Seq<i64>, lo: int, hi: int, offset: i64) -> Seq<i64> {
    Seq::new(
        data.len(),
        |i: int|
            if lo <= i < hi {
                wrap(data[i] + offset)
            } else {
                data[i]
            },
    )
}

/// Scans the window `lo..hi` of `data` in place and returns its sum.
///
/// Afterwards each element of the window holds the sum of the window up to
/// and including itself: the final value but for the sum of everything before
/// the window, which is not known yet.
pub fn reduce_block(data: &mut Vec<i64>, lo: usize, hi: usize) -> (aggregate: i64)
    requires
        lo <= hi <= old(data).len(),
    ensures
        final(data)@ == reduced(old(data)@, lo as int, hi as int),
        aggregate == wrap(range_sum(old(data)@, lo as int, hi as int)),
{
    let ghost before = data@;
    let mut running: i64 = 0;
    let mut i: usize = lo;
    while i < hi
        invariant
            lo <= i <= hi <= data.len(),
            data.len() == before.len(),
            running == wrap(range_sum(before, lo as int, i as int)),
            forall|k: int| lo <= k < i ==> data@[k] == wrap(range_sum(before, lo as int, k + 1)),
            forall|k: int| 0 <= k < data.len() && !(lo <= k < i) ==> data@[k] == before[k],
        decreases hi - i,
    {
        proof {
            lemma_wrap_add(range_sum(before, lo as int, i as int), before[i as int] as int);
        }
        running = add_wrapping(running, data[i]);
        data.set(i, running);
        i += 1;
    }
    assert(data@ =~= reduced(before, lo as int, hi as int));
    running
}

/// Adds `offset` to every element of the window `lo..hi` of `data`.
pub fn add_to_block(data: &mut Vec<i64>, lo: usize, hi: usize, offset: i64)
    requires
        lo <= hi <= old(data).len(),
    ensures
        final(data)@ == shifted(old(data)@, lo as int, hi as int, offset),
{
    let ghost before = data@;
    let mut i: usize = lo;
    while i < hi
        invariant
            lo <= i <= hi <= data.len(),
            data.len() == before.len(),
            forall|k: int| lo <= k < i ==> data@[k] == wrap(before[k] + offset),
            forall|k: int| 0 <= k < data.len() && !(lo <= k < i) ==> data@[k] == before[k],
        decreases hi - i,
    {
        let moved = add_wrapping(data[i], offset);
        data.set(i, moved);
        i += 1;
    }
    assert(data@ =~= shifted(before, lo as int, hi as int, offset));
}

/// A copy of `source` as a vector.
pub fn copy_elements(source: &[i64]) -> (copy: Vec<i64>)
    ensures
        copy@ == source@,
{
    let mut copy: Vec<i64> = Vec::new();
    let mut i: usize = 0;
    while i < source.len()
        invariant
            i <= source.len(),
            copy@ == source@.subrange(0, i as int),
        decreases source.len() - i,
    {
        copy.push(source[i]);
        i += 1;
        assert(copy@ =~= source@.subrange(0, i as int));
    }
    assert(copy@ =~= source@);
    copy
}

} // verus!
