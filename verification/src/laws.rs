//! What holds of the scans in this crate, stated over the definitions that
//! their contracts use.

use vstd::prelude::*;
use crate::cell::StateCell;
use crate::ladder::{aggregates, depth, lemma_aggregates_sum, level_input, resolved_cells};
use crate::layout::{
    block_count, block_end, block_start, lemma_block_count_shrinks, lemma_edges,
};
use crate::protocol::{
    block_ok, complete, initial, inv, lane_ok, progress, run, step, trace_of, Lane, PassState,
};
use crate::reducer::aggregate_of;
use crate::safety::{
    lemma_all_claimed, lemma_complete_cells, lemma_complete_is_scan, lemma_idle_can_claim,
    lemma_initial_inv, lemma_run_frame, lemma_run_inv,
};
use crate::sums::{exclusive_scan, inclusive_scan, lemma_wrap_add, sum_upto, wrap};
use crate::walker::Walker;

verus! {

/// The scan is what the serial recurrence computes: as long as the input,
/// its first element the first element of the input, and each further element
/// the element before plus the input's, wrapped.
pub proof fn lemma_scan_recurrence(s: Seq<i64>, k: int)
    requires
        0 <= k < s.len(),
    ensures
        inclusive_scan(s).len() == s.len(),
        inclusive_scan(s)[k] == wrap(sum_upto(s, k + 1)),
        k == 0 ==> inclusive_scan(s)[0] == s[0],
        k > 0 ==> inclusive_scan(s)[k] == wrap(inclusive_scan(s)[k - 1] + s[k]),
{
    if k > 0 {
        lemma_wrap_add(sum_upto(s, k), s[k] as int);
    } else {
        assert(sum_upto(s, 1) == sum_upto(s, 0) + s[0]);
    }
}

/// Where a sum of the first elements fits the element type, the scan holds
/// that sum itself.
pub proof fn lemma_scan_exact(s: Seq<i64>, k: int)
    requires
        0 <= k < s.len(),
        i64::MIN <= sum_upto(s, k + 1) <= i64::MAX,
    ensures
        inclusive_scan(s)[k] == sum_upto(s, k + 1),
{
}

/// The scan of a single element is that element.
pub proof fn lemma_scan_of_one(s: Seq<i64>)
    requires
        s.len() == 1,
    ensures
        inclusive_scan(s) == s,
{
    lemma_scan_recurrence(s, 0);
    assert(inclusive_scan(s) =~= s);
}

/// Whatever order the workgroups step in, the state of a pass satisfies the
/// invariant.
pub proof fn lemma_reachable(input: Seq<i64>, cap: int, schedule: Seq<usize>)
    requires
        1 <= cap,
        input.len() <= usize::MAX,
    ensures
        inv(run(initial(input, cap), schedule), input),
{
    lemma_initial_inv(input, cap);
    lemma_run_inv(initial(input, cap), input, schedule, schedule.len() as int);
}

/// A pass that any schedule has brought to its end has computed the scan,
/// and has left in every cell the sum up to the end of its block.
pub proof fn lemma_pass_result(input: Seq<i64>, cap: int, schedule: Seq<usize>)
    requires
        1 <= cap,
        input.len() <= usize::MAX,
        complete(run(initial(input, cap), schedule)),
    ensures
        run(initial(input, cap), schedule).data == inclusive_scan(input),
        run(initial(input, cap), schedule).cells == resolved_cells(input, cap),
{
    let end = run(initial(input, cap), schedule);
    lemma_reachable(input, cap, schedule);
    lemma_complete_is_scan(end, input);
    lemma_complete_cells(end, input);
    lemma_run_frame(initial(input, cap), schedule, schedule.len() as int);
}

/// The result of a pass does not depend on the order in which the workgroups
/// step: two schedules that both bring the pass to its end leave the same
/// buffer and the same cells.
pub proof fn lemma_schedule_independence(
    input: Seq<i64>,
    cap: int,
    first: Seq<usize>,
    second: Seq<usize>,
)
    requires
        1 <= cap,
        input.len() <= usize::MAX,
        complete(run(initial(input, cap), first)),
        complete(run(initial(input, cap), second)),
    ensures
        run(initial(input, cap), first).data == run(initial(input, cap), second).data,
        run(initial(input, cap), first).cells == run(initial(input, cap), second).cells,
{
    lemma_pass_result(input, cap, first);
    lemma_pass_result(input, cap, second);
}

/// A step rewrites at most the cell of the block that the stepping lane
/// holds, and only to move it forward, to a cell in canonical form.
pub proof fn lemma_cells_only_advance(s: PassState, input: Seq<i64>, g: int, b: int)
    requires
        inv(s, input),
        0 <= b < s.cells.len(),
    ensures
        step(s, g).cells[b] == s.cells[b] || s.cells[b].may_become(step(s, g).cells[b]),
        step(s, g).cells[b] != s.cells[b] ==> 0 <= g < s.lanes.len() && s.lanes[g].block_of() == b,
        s.cells[b].canonical(),
{
    assert(block_ok(s, input, b));
    if 0 <= g < s.lanes.len() {
        assert(lane_ok(s, input, g));
        if s.lanes[g] !is Idle {
            assert(0 <= s.lanes[g].block_of() < s.owners.len());
        }
    }
}

/// The claim counter hands out the blocks in order, one to each lane that
/// asks: an idle lane gets the block that the counter stands at, and no other
/// step touches the counter.
pub proof fn lemma_claims_in_order(s: PassState, input: Seq<i64>, g: int)
    requires
        inv(s, input),
        0 <= g < s.lanes.len(),
    ensures
        s.lanes[g] is Idle ==> step(s, g).lanes[g] == (Lane::Claimed {
            block: s.owners.len() as usize,
        }) && step(s, g).owners.len() == s.owners.len() + 1 && s.owners.len() < s.cells.len(),
        s.lanes[g] !is Idle ==> step(s, g).owners == s.owners,
{
    if s.lanes[g] is Idle {
        lemma_idle_can_claim(s, g);
    }
}

/// The first block below `k` whose cell holds no resolved prefix, or `k` if
/// there is none.
pub open spec fn first_unresolved(s: PassState, k: int) -> int
    decreases k,
{
    if k <= 0 {
        0
    } else if first_unresolved(s, k - 1) < k - 1 {
        first_unresolved(s, k - 1)
    } else if s.cells[k - 1].rank() == 2 {
        k
    } else {
        k - 1
    }
}

/// `first_unresolved` is what its name says.
pub proof fn lemma_first_unresolved(s: PassState, k: int)
    requires
        0 <= k <= s.cells.len(),
    ensures
        0 <= first_unresolved(s, k) <= k,
        forall|b: int| 0 <= b < first_unresolved(s, k) ==> (#[trigger] s.cells[b]).rank() == 2,
        first_unresolved(s, k) < k ==> s.cells[first_unresolved(s, k)].rank() != 2,
    decreases k,
{
    if k > 0 {
        lemma_first_unresolved(s, k - 1);
    }
}

/// The protocol cannot block itself: as long as a block is unresolved, some
/// workgroup has a step to take that is not a wait. An idle workgroup can
/// claim; if none is idle, the holder of the first unresolved block can go
/// on, since every block before its own is resolved. A pass stalls only if
/// the scheduler keeps that workgroup from stepping.
pub proof fn lemma_someone_can_advance(s: PassState, input: Seq<i64>) -> (g: int)
    requires
        inv(s, input),
        !complete(s),
    ensures
        0 <= g < s.lanes.len(),
        progress(s, g) is Advanced,
{
    if exists|h: int| 0 <= h < s.lanes.len() && (#[trigger] s.lanes[h]) is Idle {
        let h = choose|h: int| 0 <= h < s.lanes.len() && (#[trigger] s.lanes[h]) is Idle;
        h
    } else {
        lemma_all_claimed(s);
        let count = s.cells.len() as int;
        lemma_first_unresolved(s, count);
        let b = first_unresolved(s, count);
        let h = s.owners[b] as int;
        assert(s.lanes[h].block_of() == b);
        assert(lane_ok(s, input, h));
        match s.lanes[h] {
            Lane::Walking { walker, .. } => {
                if walker.cursor > 0 {
                    assert(s.cells[walker.cursor - 1].rank() == 2);
                }
            },
            _ => {},
        }
        h
    }
}

/// A block whose elements sum to zero publishes the `Zero` tag, and only
/// such a block does; a cell that holds an aggregate holds the block's sum.
pub proof fn lemma_zero_aggregate_tagged(s: PassState, input: Seq<i64>, b: int)
    requires
        inv(s, input),
        0 <= b < s.cells.len(),
        s.cells[b].rank() == 1,
    ensures
        s.cells[b] is AggregateZero <==> aggregate_of(input, b, s.capacity) == 0,
        s.cells[b].payload() == aggregate_of(input, b, s.capacity),
{
    assert(block_ok(s, input, b));
}

/// A block up to whose end the input sums to zero publishes the `Zero` tag
/// as its resolved prefix, and only such a block does; a cell that holds a
/// resolved prefix holds the sum up to the end of the block.
pub proof fn lemma_zero_prefix_tagged(s: PassState, input: Seq<i64>, b: int)
    requires
        inv(s, input),
        0 <= b < s.cells.len(),
        s.cells[b].rank() == 2,
    ensures
        s.cells[b] is GlobalPrefixZero <==> wrap(
            sum_upto(input, block_end(b, input.len() as int, s.capacity)),
        ) == 0,
        s.cells[b].payload() == wrap(
            sum_upto(input, block_end(b, input.len() as int, s.capacity)),
        ),
{
    assert(block_ok(s, input, b));
}

/// A walk that reads a `Zero` tag does not wait: it moves on past a zero
/// aggregate and ends at a zero prefix, its sum unchanged either way.
pub proof fn lemma_zero_is_informative(walker: Walker, cell: StateCell)
    requires
        !walker.resolved(),
        cell is AggregateZero || cell is GlobalPrefixZero,
    ensures
        walker.sighting(cell) !is Wait,
        walker.observed(cell).cursor < walker.cursor,
        walker.observed(cell).running == walker.running,
        cell is GlobalPrefixZero ==> walker.observed(cell).resolved(),
{
}

/// What a trace says of a block is true of the input: the aggregate is the
/// sum of the block, the prefix the sum of everything before the block. Once
/// the block's cell holds a resolved prefix the trace holds both.
pub proof fn lemma_trace_true(s: PassState, input: Seq<i64>, b: int)
    requires
        inv(s, input),
        0 <= b < s.cells.len(),
    ensures
        trace_of(s, b).cell == s.cells[b],
        trace_of(s, b).aggregate matches Some(a) ==> a == aggregate_of(input, b, s.capacity),
        trace_of(s, b).prefix matches Some(p) ==> p == wrap(
            sum_upto(input, block_start(b, s.capacity)),
        ),
        s.cells[b].rank() == 2 ==> trace_of(s, b).aggregate is Some && trace_of(s, b).prefix
            is Some,
{
    if b < s.owners.len() {
        let g = s.owners[b] as int;
        assert(s.lanes[g].block_of() == b);
        assert(lane_ok(s, input, g));
    } else {
        assert(s.cells[b] is Uninitialized);
    }
}

/// The sum of everything before a block is what an exclusive scan of the
/// block sums holds for the block.
pub proof fn lemma_prefixes_scan_the_aggregates(x: Seq<i64>, cap: int, b: int)
    requires
        1 <= cap,
        0 <= b < block_count(x.len() as int, cap),
    ensures
        exclusive_scan(aggregates(x, cap)).len() == block_count(x.len() as int, cap),
        exclusive_scan(aggregates(x, cap))[b] == wrap(sum_upto(x, block_start(b, cap))),
{
    lemma_aggregates_sum(x, cap, b);
    lemma_edges(x.len() as int, cap, b);
}

/// Every cell that a finished level leaves holds a resolved prefix, in
/// canonical form.
pub proof fn lemma_resolved_cells_terminal(x: Seq<i64>, cap: int, b: int)
    requires
        0 <= b < block_count(x.len() as int, cap),
    ensures
        resolved_cells(x, cap).len() == block_count(x.len() as int, cap),
        resolved_cells(x, cap)[b].rank() == 2,
        resolved_cells(x, cap)[b].canonical(),
{
}

/// Each level of the ladder has one element per block of the level below.
pub proof fn lemma_level_lengths(input: Seq<i64>, cap: int, k: nat)
    requires
        1 <= cap,
    ensures
        level_input(input, cap, k + 1).len() == block_count(
            level_input(input, cap, k).len() as int,
            cap,
        ),
        level_input(input, cap, k + 1) == aggregates(level_input(input, cap, k), cap),
{
    lemma_block_count_shrinks(level_input(input, cap, k).len() as int, cap);
}

/// A sequence no longer than one block needs one level, and only such a
/// sequence does: nothing recurses for it.
pub proof fn lemma_single_level(len: int, cap: int)
    requires
        2 <= cap,
        0 <= len,
    ensures
        depth(len, cap) == 1 <==> len <= cap,
        depth(len, cap) == 1 <==> block_count(len, cap) == 1,
        depth(len, cap) >= 1,
    decreases len,
{
    lemma_block_count_shrinks(len, cap);
    if len > cap {
        lemma_single_level(block_count(len, cap), cap);
    }
}

/// The ladder ends where a level is a single block, and not before: level
/// `k` is the top level exactly if it has one block.
pub proof fn lemma_ladder_shape(input: Seq<i64>, cap: int, k: nat)
    requires
        2 <= cap,
        k < depth(input.len() as int, cap),
    ensures
        depth(input.len() as int, cap) == k + depth(level_input(input, cap, k).len() as int, cap),
        k + 1 == depth(input.len() as int, cap) <==> block_count(
            level_input(input, cap, k).len() as int,
            cap,
        ) == 1,
    decreases k,
{
    if k > 0 {
        let below = (k - 1) as nat;
        lemma_ladder_shape(input, cap, below);
        let len = level_input(input, cap, below).len() as int;
        lemma_block_count_shrinks(len, cap);
        lemma_single_level(len, cap);
        lemma_level_lengths(input, cap, below);
    }
    lemma_single_level(level_input(input, cap, k).len() as int, cap);
}

} // verus!
