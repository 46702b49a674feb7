//! The two-pass scan: reduce every block, scan the array of block sums by
//! the same means, then add to every block the sum of the blocks before it.
//! The levels are kept on an explicit ladder, one rung per array of sums.

use vstd::prelude::*;
use crate::cell::StateCell;
use crate::claim::ClaimCounter;
use crate::layout::{
    block_count, block_edge, block_end, block_range, block_start, lemma_block_bounds,
    lemma_block_count_shrinks, lemma_block_of_index, lemma_edges, lemma_index_in_block,
    workgroup_count, BlockCapacity,
};
use crate::reducer::{add_to_block, aggregate_of, copy_elements, reduce_block};
use crate::sums::{
    add_wrapping, inclusive_scan, lemma_range_sum_agree, lemma_wrap_add, range_sum, sum_upto, wrap,
};

verus! {

/// The sums of the blocks of `x`, one element per block.
pub open spec fn aggregates(x: Seq<i64>, cap: int) -> Seq<i64> {
    Seq::new(block_count(x.len() as int, cap) as nat, |b: int| aggregate_of(x, b, cap))
}

/// `x` with every block replaced by its own running sums.
pub open spec fn locally_scanned(x: Seq<i64>, cap: int) -> Seq<i64> {
    Seq::new(x.len(), |i: int| wrap(range_sum(x, block_start(i / cap, cap), i + 1)))
}

/// The cells of `x` once every block has published its aggregate.
pub open spec fn aggregate_cells(x: Seq<i64>, cap: int) -> Seq<StateCell> {
    Seq::new(
        block_count(x.len() as int, cap) as nat,
        |b: int| StateCell::of_aggregate(aggregate_of(x, b, cap)),
    )
}

/// The cells of `x` once every block has published its resolved prefix: the
/// sum of `x` up to the end of the block.
pub open spec fn resolved_cells(x: Seq<i64>, cap: int) -> Seq<StateCell> {
    Seq::new(
        block_count(x.len() as int, cap) as nat,
        |b: int| StateCell::of_prefix(wrap(sum_upto(x, block_end(b, x.len() as int, cap)))),
    )
}

/// The sum that block `b` has to add to its elements, read from the scanned
/// sums of the level above: nothing for block 0, else the entry before its
/// own.
pub open spec fn base_of(above: Seq<i64>, b: int) -> i64 {
    if b <= 0 {
        0
    } else {
        above[b - 1]
    }
}

/// `local` with the base of its block added to every element.
pub open spec fn propagated(local: Seq<i64>, above: Seq<i64>, cap: int) -> Seq<i64> {
    Seq::new(local.len(), |i: int| wrap(local[i] + base_of(above, i / cap)))
}

/// The sequence that level `k` of the ladder scans: the input at level 0,
/// and at each further level the block sums of the level below.
pub open spec fn level_input(input: Seq<i64>, cap: int, k: nat) -> Seq<i64>
    decreases k,
{
    if k == 0 {
        input
    } else {
        aggregates(level_input(input, cap, (k - 1) as nat), cap)
    }
}

/// Number of levels that a sequence of `len` elements needs: one if it is a
/// single block, else one more than its array of block sums needs.
pub open spec fn depth(len: int, cap: int) -> nat
    decreases len,
{
    if cap < 2 || len <= cap {
        1
    } else {
        proof {
            lemma_block_count_shrinks(len, cap);
        }
        1 + depth(block_count(len, cap), cap)
    }
}

/// The sum of the first `b` block sums is the sum of the elements of the
/// first `b` blocks.
pub proof fn lemma_aggregates_sum(x: Seq<i64>, cap: int, b: int)
    requires
        1 <= cap,
        0 <= b <= block_count(x.len() as int, cap),
    ensures
        wrap(sum_upto(aggregates(x, cap), b)) == wrap(
            sum_upto(x, block_edge(b, x.len() as int, cap)),
        ),
    decreases b,
{
    let len = x.len() as int;
    if b > 0 {
        lemma_aggregates_sum(x, cap, b - 1);
        lemma_edges(len, cap, b - 1);
        let lo = block_start(b - 1, cap);
        let hi = block_end(b - 1, len, cap);
        let below = sum_upto(aggregates(x, cap), b - 1);
        assert(aggregates(x, cap)[b - 1] == wrap(range_sum(x, lo, hi)));
        lemma_wrap_add(below, range_sum(x, lo, hi));
        lemma_wrap_add(sum_upto(x, lo), range_sum(x, lo, hi));
    } else {
        assert(0 * cap == 0) by (nonlinear_arith);
    }
}

/// A single block that has been reduced has been scanned.
pub proof fn lemma_single_block_scanned(x: Seq<i64>, cap: int)
    requires
        1 <= cap,
        block_count(x.len() as int, cap) == 1,
    ensures
        locally_scanned(x, cap) == inclusive_scan(x),
        propagated(locally_scanned(x, cap), Seq::<i64>::empty(), cap) == inclusive_scan(x),
{
    let len = x.len() as int;
    lemma_block_count_shrinks(len, cap);
    assert forall|i: int| 0 <= i < len implies #[trigger] locally_scanned(x, cap)[i]
        == inclusive_scan(x)[i] by {
        vstd::arithmetic::div_mod::lemma_basic_div(i, cap);
        assert(0 * cap == 0) by (nonlinear_arith);
    }
    assert(locally_scanned(x, cap) =~= inclusive_scan(x));
    assert forall|i: int| 0 <= i < len implies #[trigger] propagated(
        locally_scanned(x, cap),
        Seq::<i64>::empty(),
        cap,
    )[i] == inclusive_scan(x)[i] by {
        vstd::arithmetic::div_mod::lemma_basic_div(i, cap);
    }
    assert(propagated(locally_scanned(x, cap), Seq::<i64>::empty(), cap) =~= inclusive_scan(x));
}

/// Adding to every reduced block the scanned block sums before it gives the
/// scan of the whole.
pub proof fn lemma_propagated_is_scan(x: Seq<i64>, cap: int)
    requires
        1 <= cap,
    ensures
        propagated(locally_scanned(x, cap), inclusive_scan(aggregates(x, cap)), cap)
            == inclusive_scan(x),
{
    let len = x.len() as int;
    let above = inclusive_scan(aggregates(x, cap));
    let result = propagated(locally_scanned(x, cap), above, cap);
    assert forall|i: int| 0 <= i < len implies #[trigger] result[i] == inclusive_scan(x)[i] by {
        lemma_block_of_index(len, cap, i);
        let b = i / cap;
        let lo = block_start(b, cap);
        lemma_edges(len, cap, b);
        if b > 0 {
            lemma_aggregates_sum(x, cap, b);
            assert(above[b - 1] == wrap(sum_upto(aggregates(x, cap), b)));
            lemma_wrap_add(range_sum(x, lo, i + 1), sum_upto(x, lo));
        } else {
            assert(0 * cap == 0) by (nonlinear_arith);
        }
    }
    assert(result =~= inclusive_scan(x));
}

/// The prefix that a block publishes, its base plus its own sum, is the sum
/// up to the end of the block.
pub proof fn lemma_resolved_prefix(x: Seq<i64>, cap: int, b: int)
    requires
        1 <= cap,
        0 <= b < block_count(x.len() as int, cap),
    ensures
        wrap(
            base_of(inclusive_scan(aggregates(x, cap)), b) + StateCell::of_aggregate(
                aggregate_of(x, b, cap),
            ).payload(),
        ) == wrap(sum_upto(x, block_end(b, x.len() as int, cap))),
        wrap(0 + StateCell::of_aggregate(aggregate_of(x, b, cap)).payload()) == aggregate_of(
            x,
            b,
            cap,
        ),
{
    let len = x.len() as int;
    let lo = block_start(b, cap);
    let hi = block_end(b, len, cap);
    lemma_edges(len, cap, b);
    lemma_aggregates_sum(x, cap, b);
    lemma_wrap_add(sum_upto(x, lo), range_sum(x, lo, hi));
    if b == 0 {
        assert(0 * cap == 0) by (nonlinear_arith);
    }
}

/// Reduces every block of `data` in place and returns what each block
/// published and the array of block sums.
///
/// The blocks are handed out by `counter`, which is set to zero for this
/// pass first.
pub fn reduce_level(
    data: &mut Vec<i64>,
    counter: &mut ClaimCounter,
    capacity: BlockCapacity,
) -> (published: (Vec<StateCell>, Vec<i64>))
    ensures
        final(counter).issued() == block_count(old(data)@.len() as int, capacity.value()),
        final(data)@ == locally_scanned(old(data)@, capacity.value()),
        published.0@ == aggregate_cells(old(data)@, capacity.value()),
        published.1@ == aggregates(old(data)@, capacity.value()),
{
    let ghost before = data@;
    let ghost cap = capacity.value();
    let ghost len = before.len() as int;
    let _width: usize = capacity.get();
    let blocks = workgroup_count(data.len(), capacity);
    counter.reset(blocks);
    let mut cells: Vec<StateCell> = Vec::new();
    let mut sums: Vec<i64> = Vec::new();
    loop
        invariant
            cap == capacity.value(),
            cap >= 1,
            len == before.len(),
            data@.len() == len,
            blocks == block_count(len, cap),
            counter.limit() == blocks,
            0 <= counter.issued() <= blocks,
            cells@.len() == counter.issued(),
            sums@.len() == counter.issued(),
            forall|c: int|
                0 <= c < counter.issued() ==> cells@[c] == StateCell::of_aggregate(
                    aggregate_of(before, c, cap),
                ),
            forall|c: int| 0 <= c < counter.issued() ==> sums@[c] == aggregate_of(before, c, cap),
            forall|i: int|
                0 <= i < block_edge(counter.issued(), len, cap) ==> data@[i] == wrap(
                    range_sum(before, block_start(i / cap, cap), i + 1),
                ),
            forall|i: int|
                block_edge(counter.issued(), len, cap) <= i < len ==> data@[i] == before[i],
        ensures
            counter.issued() == blocks,
            cells@.len() == blocks,
            sums@.len() == blocks,
            data@.len() == len,
            forall|c: int|
                0 <= c < blocks ==> cells@[c] == StateCell::of_aggregate(
                    aggregate_of(before, c, cap),
                ),
            forall|c: int| 0 <= c < blocks ==> sums@[c] == aggregate_of(before, c, cap),
            forall|i: int|
                0 <= i < block_edge(blocks as int, len, cap) ==> data@[i] == wrap(
                    range_sum(before, block_start(i / cap, cap), i + 1),
                ),
        decreases blocks - counter.issued(),
    {
        let ghost entry = data@;
        match counter.claim() {
            None => {
                break ;
            },
            Some(b) => {
                proof {
                    lemma_edges(len, cap, b as int);
                    lemma_block_bounds(len, cap, b as int);
                }
                let (lo, hi) = block_range(b, data.len(), capacity);
                let aggregate = reduce_block(data, lo, hi);
                cells.push(StateCell::aggregate(aggregate));
                sums.push(aggregate);
                proof {
                    lemma_range_sum_agree(entry, before, lo as int, hi as int);
                    assert forall|i: int| 0 <= i < block_edge(b + 1, len, cap) implies data@[i]
                        == wrap(range_sum(before, block_start(i / cap, cap), i + 1)) by {
                        if i >= lo {
                            lemma_index_in_block(len, cap, b as int, i);
                            lemma_range_sum_agree(entry, before, lo as int, i + 1);
                        }
                    }
                }
            },
        }
    }
    proof {
        lemma_edges(len, cap, blocks - 1);
        assert(data@ =~= locally_scanned(before, cap));
        assert(cells@ =~= aggregate_cells(before, cap));
        assert(sums@ =~= aggregates(before, cap));
    }
    (cells, sums)
}

/// Gives every block of a reduced level its base from the scanned sums of
/// the level above, and lets every cell publish the resolved prefix.
///
/// Block 0 has nothing before it and publishes at once; block `b` reads
/// entry `b - 1` of `above`. The blocks are handed out by `counter`, which is
/// set to zero for this pass first.
pub fn resolve_level(
    data: &mut Vec<i64>,
    cells: &mut Vec<StateCell>,
    above: &Vec<i64>,
    counter: &mut ClaimCounter,
    capacity: BlockCapacity,
)
    requires
        old(cells)@.len() == block_count(old(data)@.len() as int, capacity.value()),
        above@.len() + 1 >= old(cells)@.len(),
    ensures
        final(counter).issued() == old(cells)@.len(),
        final(data)@ == propagated(old(data)@, above@, capacity.value()),
        final(cells)@.len() == old(cells)@.len(),
        forall|b: int|
            0 <= b < old(cells)@.len() ==> #[trigger] final(cells)@[b] == StateCell::of_prefix(
                wrap(base_of(above@, b) + old(cells)@[b].payload()),
            ),
{
    let ghost before = data@;
    let ghost published = cells@;
    let ghost cap = capacity.value();
    let ghost len = before.len() as int;
    let _width: usize = capacity.get();
    let blocks = cells.len();
    counter.reset(blocks);
    loop
        invariant
            cap == capacity.value(),
            cap >= 1,
            len == before.len(),
            data@.len() == len,
            blocks == block_count(len, cap),
            blocks == published.len(),
            cells@.len() == blocks,
            above@.len() + 1 >= blocks,
            counter.limit() == blocks,
            0 <= counter.issued() <= blocks,
            forall|c: int|
                0 <= c < counter.issued() ==> cells@[c] == StateCell::of_prefix(
                    wrap(base_of(above@, c) + published[c].payload()),
                ),
            forall|c: int| counter.issued() <= c < blocks ==> cells@[c] == published[c],
            forall|i: int|
                0 <= i < block_edge(counter.issued(), len, cap) ==> data@[i] == wrap(
                    before[i] + base_of(above@, i / cap),
                ),
            forall|i: int|
                block_edge(counter.issued(), len, cap) <= i < len ==> data@[i] == before[i],
        ensures
            counter.issued() == blocks,
            cells@.len() == blocks,
            data@.len() == len,
            forall|c: int|
                0 <= c < blocks ==> cells@[c] == StateCell::of_prefix(
                    wrap(base_of(above@, c) + published[c].payload()),
                ),
            forall|i: int|
                0 <= i < block_edge(blocks as int, len, cap) ==> data@[i] == wrap(
                    before[i] + base_of(above@, i / cap),
                ),
        decreases blocks - counter.issued(),
    {
        match counter.claim() {
            None => {
                break ;
            },
            Some(b) => {
                proof {
                    lemma_edges(len, cap, b as int);
                    lemma_block_bounds(len, cap, b as int);
                }
                let base: i64 = if b == 0 {
                    0
                } else {
                    above[b - 1]
                };
                let (lo, hi) = block_range(b, data.len(), capacity);
                add_to_block(data, lo, hi, base);
                let own = cells[b].value();
                cells.set(b, StateCell::global_prefix(add_wrapping(base, own)));
                proof {
                    assert forall|i: int| 0 <= i < block_edge(b + 1, len, cap) implies data@[i]
                        == wrap(before[i] + base_of(above@, i / cap)) by {
                        if i >= lo {
                            lemma_index_in_block(len, cap, b as int, i);
                        }
                    }
                }
            },
        }
    }
    proof {
        lemma_edges(len, cap, blocks - 1);
        assert(data@ =~= propagated(before, above@, cap));
    }
}

/// What the two-pass scan hands back: the scanned sequence, and for each
/// level of the ladder the cells of its blocks as the scan left them, level 0
/// first.
pub struct LadderScan {
    pub output: Vec<i64>,
    pub levels: Vec<Vec<StateCell>>,
}

/// Scans `sequence` in two passes per level.
///
/// Going up, each level reduces its blocks and hands the array of block sums
/// to the level above, until a level is a single block. Going down, each
/// level takes the scanned sums of the level above as the bases of its
/// blocks. The levels stand on an explicit ladder; nothing recurses.
pub fn two_pass_scan(sequence: &[i64], capacity: BlockCapacity) -> (scan: LadderScan)
    ensures
        scan.output@ == inclusive_scan(sequence@),
        scan.levels@.len() == depth(sequence@.len() as int, capacity.value()),
        forall|k: int|
            0 <= k < scan.levels@.len() ==> (#[trigger] scan.levels@[k])@ == resolved_cells(
                level_input(sequence@, capacity.value(), k as nat),
                capacity.value(),
            ),
{
    let ghost input = sequence@;
    let ghost cap = capacity.value();
    let _width: usize = capacity.get();
    let mut counter = ClaimCounter::new(0);
    let mut rung_data: Vec<Vec<i64>> = Vec::new();
    let mut rung_cells: Vec<Vec<StateCell>> = Vec::new();
    let mut current = copy_elements(sequence);
    let mut top_cells: Vec<StateCell> = Vec::new();
    loop
        invariant_except_break
            current@ == level_input(input, cap, rung_data@.len()),
        invariant
            cap == capacity.value(),
            cap >= 2,
            rung_data@.len() == rung_cells@.len(),
            depth(input.len() as int, cap) == rung_data@.len() + depth(current@.len() as int, cap),
            forall|j: int|
                0 <= j < rung_data@.len() ==> (#[trigger] rung_data@[j])@ == locally_scanned(
                    level_input(input, cap, j as nat),
                    cap,
                ),
            forall|j: int|
                0 <= j < rung_cells@.len() ==> (#[trigger] rung_cells@[j])@ == aggregate_cells(
                    level_input(input, cap, j as nat),
                    cap,
                ),
        ensures
            block_count(level_input(input, cap, rung_data@.len()).len() as int, cap) == 1,
            current@ == locally_scanned(level_input(input, cap, rung_data@.len()), cap),
            top_cells@ == aggregate_cells(level_input(input, cap, rung_data@.len()), cap),
            depth(input.len() as int, cap) == rung_data@.len() + 1,
        decreases current@.len(),
    {
        let ghost x = current@;
        proof {
            lemma_block_count_shrinks(x.len() as int, cap);
        }
        let (cells, sums) = reduce_level(&mut current, &mut counter, capacity);
        if sums.len() <= 1 {
            top_cells = cells;
            break ;
        }
        rung_data.push(current);
        rung_cells.push(cells);
        current = sums;
    }
    let ghost top = rung_data@.len();
    let nothing: Vec<i64> = Vec::new();
    proof {
        lemma_single_block_scanned(level_input(input, cap, top), cap);
        lemma_resolved_prefix(level_input(input, cap, top), cap, 0);
    }
    resolve_level(&mut current, &mut top_cells, &nothing, &mut counter, capacity);
    assert(top_cells@ =~= resolved_cells(level_input(input, cap, top), cap));
    let mut finished: Vec<Vec<StateCell>> = Vec::new();
    finished.push(top_cells);
    while rung_data.len() > 0
        invariant
            cap == capacity.value(),
            cap >= 2,
            rung_data@.len() == rung_cells@.len(),
            rung_data@.len() <= top,
            finished@.len() == top + 1 - rung_data@.len(),
            current@ == inclusive_scan(level_input(input, cap, rung_data@.len())),
            forall|j: int|
                0 <= j < rung_data@.len() ==> (#[trigger] rung_data@[j])@ == locally_scanned(
                    level_input(input, cap, j as nat),
                    cap,
                ),
            forall|j: int|
                0 <= j < rung_cells@.len() ==> (#[trigger] rung_cells@[j])@ == aggregate_cells(
                    level_input(input, cap, j as nat),
                    cap,
                ),
            forall|m: int|
                0 <= m < finished@.len() ==> (#[trigger] finished@[m])@ == resolved_cells(
                    level_input(input, cap, (top - m) as nat),
                    cap,
                ),
        decreases rung_data@.len(),
    {
        let ghost j = rung_data@.len() - 1;
        let ghost x = level_input(input, cap, j as nat);
        let ghost data_before = rung_data@;
        let ghost cells_before = rung_cells@;
        let mut below: Vec<i64> = match rung_data.pop() {
            Some(v) => v,
            None => Vec::new(),
        };
        let mut cells: Vec<StateCell> = match rung_cells.pop() {
            Some(v) => v,
            None => Vec::new(),
        };
        proof {
            assert(below@ == data_before[j]@);
            assert(cells@ == cells_before[j]@);
            assert(level_input(input, cap, (j + 1) as nat) == aggregates(x, cap));
            lemma_propagated_is_scan(x, cap);
            assert forall|b: int| 0 <= b < block_count(x.len() as int, cap) implies wrap(
                base_of(inclusive_scan(aggregates(x, cap)), b) + (#[trigger] aggregate_cells(
                    x,
                    cap,
                )[b]).payload(),
            ) == wrap(sum_upto(x, block_end(b, x.len() as int, cap))) by {
                lemma_resolved_prefix(x, cap, b);
            }
        }
        resolve_level(&mut below, &mut cells, &current, &mut counter, capacity);
        assert(cells@ =~= resolved_cells(x, cap));
        finished.push(cells);
        current = below;
        proof {
            assert forall|i: int| 0 <= i < rung_data@.len() implies (#[trigger] rung_data@[i])@
                == locally_scanned(level_input(input, cap, i as nat), cap) by {
                assert(rung_data@[i] == data_before[i]);
            }
            assert forall|i: int| 0 <= i < rung_cells@.len() implies (#[trigger] rung_cells@[i])@
                == aggregate_cells(level_input(input, cap, i as nat), cap) by {
                assert(rung_cells@[i] == cells_before[i]);
            }
        }
    }
    let mut levels: Vec<Vec<StateCell>> = Vec::new();
    while finished.len() > 0
        invariant
            levels@.len() + finished@.len() == top + 1,
            forall|k: int|
                0 <= k < levels@.len() ==> (#[trigger] levels@[k])@ == resolved_cells(
                    level_input(input, cap, k as nat),
                    cap,
                ),
            forall|m: int|
                0 <= m < finished@.len() ==> (#[trigger] finished@[m])@ == resolved_cells(
                    level_input(input, cap, (top - m) as nat),
                    cap,
                ),
        decreases finished@.len(),
    {
        let ghost finished_before = finished@;
        let ghost levels_before = levels@;
        let cells: Vec<StateCell> = match finished.pop() {
            Some(v) => v,
            None => Vec::new(),
        };
        assert(cells == finished_before[finished_before.len() - 1]);
        levels.push(cells);
        proof {
            assert forall|m: int| 0 <= m < finished@.len() implies (#[trigger] finished@[m])@
                == resolved_cells(level_input(input, cap, (top - m) as nat), cap) by {
                assert(finished@[m] == finished_before[m]);
            }
            assert forall|k: int| 0 <= k < levels@.len() implies (#[trigger] levels@[k])@
                == resolved_cells(level_input(input, cap, k as nat), cap) by {
                if k < levels_before.len() {
                    assert(levels@[k] == levels_before[k]);
                }
            }
        }
    }
    LadderScan { output: current, levels }
}

} // verus!
