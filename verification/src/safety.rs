//! Why the look-back protocol is right: every step keeps what
//! [`inv`](crate::protocol::inv) says, and a pass in which every block has
//! published its prefix has computed the scan.

use vstd::prelude::*;
use crate::cell::StateCell;
use crate::layout::{
    block_end, block_start, lemma_block_bounds, lemma_block_count_shrinks, lemma_block_of_index,
    lemma_blocks_apart, lemma_starts_ordered,
};
use crate::protocol::{
    block_ok, busy_upto, complete, initial, inv, lane_ok, patient_upto, progress, run, run_upto,
    shaped, step, wasteless, Lane, PassState,
};
use crate::reducer::aggregate_of;
use crate::sums::{inclusive_scan, lemma_range_sum_agree, lemma_wrap_add, range_sum, sum_upto, wrap};

verus! {

/// No more lanes are busy than there are lanes.
pub proof fn lemma_busy_bound(lanes: Seq<Lane>, k: int)
    requires
        0 <= k,
    ensures
        0 <= busy_upto(lanes, k) <= k,
    decreases k,
{
    if k > 0 {
        lemma_busy_bound(lanes, k - 1);
    }
}

/// While a lane is idle, fewer lanes are busy than there are lanes.
pub proof fn lemma_busy_idle(lanes: Seq<Lane>, k: int, g: int)
    requires
        0 <= g < k,
        lanes[g] is Idle,
    ensures
        busy_upto(lanes, k) < k,
    decreases k,
{
    if g == k - 1 {
        lemma_busy_bound(lanes, k - 1);
    } else {
        lemma_busy_idle(lanes, k - 1, g);
    }
}

/// Where no lane is idle, all lanes are busy.
pub proof fn lemma_busy_all(lanes: Seq<Lane>, k: int)
    requires
        0 <= k,
        forall|g: int| 0 <= g < k ==> (#[trigger] lanes[g]) !is Idle,
    ensures
        busy_upto(lanes, k) == k,
    decreases k,
{
    if k > 0 {
        lemma_busy_all(lanes, k - 1);
    }
}

/// Replacing one lane changes the count by what that lane changes.
pub proof fn lemma_busy_update(lanes: Seq<Lane>, g: int, lane: Lane, k: int)
    requires
        0 <= g < lanes.len(),
        0 <= k <= lanes.len(),
    ensures
        busy_upto(lanes.update(g, lane), k) == busy_upto(lanes, k) + if g < k {
            (if lane is Idle {
                0int
            } else {
                1int
            }) - (if lanes[g] is Idle {
                0int
            } else {
                1int
            })
        } else {
            0int
        },
    decreases k,
{
    if k > 0 {
        lemma_busy_update(lanes, g, lane, k - 1);
    }
}

/// A pass starts in a state of which the invariant holds.
pub proof fn lemma_initial_inv(input: Seq<i64>, cap: int)
    requires
        1 <= cap,
        input.len() <= usize::MAX,
    ensures
        inv(initial(input, cap), input),
{
    let s = initial(input, cap);
    lemma_block_count_shrinks(input.len() as int, cap);
    assert forall|g: int| 0 <= g < s.lanes.len() implies (#[trigger] s.lanes[g]) is Idle by {}
    lemma_busy_none(s.lanes, s.lanes.len() as int);
    assert forall|b: int| 0 <= b < s.cells.len() implies #[trigger] block_ok(s, input, b) by {}
    assert forall|g: int| 0 <= g < s.lanes.len() implies #[trigger] lane_ok(s, input, g) by {}
}

/// Where every lane is idle, none is busy.
pub proof fn lemma_busy_none(lanes: Seq<Lane>, k: int)
    requires
        0 <= k,
        forall|g: int| 0 <= g < k ==> (#[trigger] lanes[g]) is Idle,
    ensures
        busy_upto(lanes, k) == 0,
    decreases k,
{
    if k > 0 {
        lemma_busy_none(lanes, k - 1);
    }
}

/// An idle lane finds a block left to claim.
pub proof fn lemma_idle_can_claim(s: PassState, g: int)
    requires
        shaped(s),
        0 <= g < s.lanes.len(),
        s.lanes[g] is Idle,
    ensures
        s.owners.len() < s.lanes.len(),
{
    lemma_busy_idle(s.lanes, s.lanes.len() as int, g);
}

/// Once no lane is idle, every block is claimed.
pub proof fn lemma_all_claimed(s: PassState)
    requires
        shaped(s),
        forall|g: int| 0 <= g < s.lanes.len() ==> (#[trigger] s.lanes[g]) !is Idle,
    ensures
        s.owners.len() == s.lanes.len(),
{
    lemma_busy_all(s.lanes, s.lanes.len() as int);
}

/// Claiming keeps the invariant.
proof fn lemma_claim_inv(s: PassState, input: Seq<i64>, g: int)
    requires
        inv(s, input),
        0 <= g < s.lanes.len(),
        s.lanes[g] is Idle,
    ensures
        inv(step(s, g), input),
{
    let t = step(s, g);
    lemma_idle_can_claim(s, g);
    lemma_busy_update(s.lanes, g, t.lanes[g], s.lanes.len() as int);
    let fresh = s.owners.len() as int;
    assert forall|b: int| 0 <= b < t.owners.len() implies {
        &&& (#[trigger] t.owners[b]) < t.lanes.len()
        &&& t.lanes[t.owners[b] as int] !is Idle
        &&& t.lanes[t.owners[b] as int].block_of() == b
    } by {
        if b < fresh {
            assert(s.owners[b] != g);
        }
    }
    assert forall|h: int| 0 <= h < t.lanes.len() && (#[trigger] t.lanes[h]) !is Idle implies {
        &&& 0 <= t.lanes[h].block_of() < t.owners.len()
        &&& t.owners[t.lanes[h].block_of()] == h
    } by {
        if h != g {
            assert(s.lanes[h] !is Idle);
        }
    }
    assert(shaped(t));
    assert forall|b: int| 0 <= b < t.cells.len() implies #[trigger] block_ok(t, input, b) by {
        assert(block_ok(s, input, b));
    }
    assert forall|h: int| 0 <= h < t.lanes.len() implies #[trigger] lane_ok(t, input, h) by {
        if h != g {
            assert(lane_ok(s, input, h));
        } else {
            assert(s.cells[fresh] is Uninitialized);
        }
    }
}

/// The shape outlives a step that gives lane `g`, which holds a block, a
/// new state on the same block.
proof fn lemma_shape_kept(s: PassState, t: PassState, g: int)
    requires
        shaped(s),
        0 <= g < s.lanes.len(),
        s.lanes[g] !is Idle,
        t.lanes[g] !is Idle,
        t.lanes[g].block_of() == s.lanes[g].block_of(),
        t.lanes == s.lanes.update(g, t.lanes[g]),
        t.owners == s.owners,
        t.capacity == s.capacity,
        t.data.len() == s.data.len(),
        t.cells.len() == s.cells.len(),
    ensures
        shaped(t),
{
    lemma_busy_update(s.lanes, g, t.lanes[g], s.lanes.len() as int);
    assert forall|b: int| 0 <= b < t.owners.len() implies {
        &&& (#[trigger] t.owners[b]) < t.lanes.len()
        &&& t.lanes[t.owners[b] as int] !is Idle
        &&& t.lanes[t.owners[b] as int].block_of() == b
    } by {
        assert(s.owners[b] < s.lanes.len());
    }
    assert forall|h: int| 0 <= h < t.lanes.len() && (#[trigger] t.lanes[h]) !is Idle implies {
        &&& 0 <= t.lanes[h].block_of() < t.owners.len()
        &&& t.owners[t.lanes[h].block_of()] == h
    } by {
        if h != g {
            assert(s.lanes[h] !is Idle);
        } else {
            assert(s.lanes[g] !is Idle);
        }
    }
}

/// Two lanes that hold the same block are one lane.
pub proof fn lemma_one_lane_per_block(s: PassState, g: int, h: int)
    requires
        shaped(s),
        0 <= g < s.lanes.len(),
        0 <= h < s.lanes.len(),
        s.lanes[g] !is Idle,
        s.lanes[h] !is Idle,
        s.lanes[g].block_of() == s.lanes[h].block_of(),
    ensures
        g == h,
{
}

/// Reducing a block and publishing its aggregate keeps the invariant.
proof fn lemma_reduce_inv(s: PassState, input: Seq<i64>, g: int)
    requires
        inv(s, input),
        0 <= g < s.lanes.len(),
        s.lanes[g] is Claimed,
    ensures
        inv(step(s, g), input),
{
    let t = step(s, g);
    let b = s.lanes[g].block_of();
    let cap = s.capacity;
    let len = input.len() as int;
    let lo = block_start(b, cap);
    let hi = block_end(b, len, cap);
    assert(s.lanes[g] !is Idle);
    assert(0 <= b < s.owners.len());
    lemma_block_bounds(len, cap, b);
    lemma_shape_kept(s, t, g);
    assert(lane_ok(s, input, g));
    assert(block_ok(s, input, b));
    lemma_range_sum_agree(s.data, input, lo, hi);
    assert forall|c: int| 0 <= c < t.cells.len() implies #[trigger] block_ok(t, input, c) by {
        assert(block_ok(s, input, c));
        let clo = block_start(c, cap);
        let chi = block_end(c, len, cap);
        lemma_block_bounds(len, cap, c);
        if c == b {
            assert forall|i: int| lo <= i < hi implies #[trigger] t.data[i] == wrap(
                range_sum(input, lo, i + 1),
            ) by {
                lemma_range_sum_agree(s.data, input, lo, i + 1);
            }
        } else {
            if c < b {
                lemma_blocks_apart(len, cap, c, b);
            } else {
                lemma_blocks_apart(len, cap, b, c);
            }
            assert(t.cells[c] == s.cells[c]);
            assert forall|i: int| clo <= i < chi implies #[trigger] t.data[i] == s.data[i] by {}
        }
    }
    assert forall|h: int| 0 <= h < t.lanes.len() implies #[trigger] lane_ok(t, input, h) by {
        assert(lane_ok(s, input, h));
        if h != g {
            if s.lanes[h] !is Idle {
                if s.lanes[h].block_of() == b {
                    lemma_one_lane_per_block(s, g, h);
                }
                assert(t.cells[s.lanes[h].block_of()] == s.cells[s.lanes[h].block_of()]);
            }
        } else {
            assert(range_sum(input, lo, lo) == 0);
        }
    }
    assert forall|c: int| t.owners.len() <= c < t.cells.len() implies (#[trigger] t.cells[c])
        is Uninitialized by {
        assert(s.cells[c] is Uninitialized);
    }
}

/// Reading one cell keeps the invariant.
proof fn lemma_observe_inv(s: PassState, input: Seq<i64>, g: int)
    requires
        inv(s, input),
        0 <= g < s.lanes.len(),
        s.lanes[g] matches Lane::Walking { walker, .. } && walker.cursor > 0,
    ensures
        inv(step(s, g), input),
{
    let t = step(s, g);
    let cap = s.capacity;
    let len = input.len() as int;
    let walker = s.lanes[g]->walker;
    let b = walker.block as int;
    let j = walker.cursor - 1;
    assert(s.lanes[g] !is Idle);
    assert(lane_ok(s, input, g));
    assert(0 <= j < b < s.owners.len());
    lemma_shape_kept(s, t, g);
    assert forall|c: int| 0 <= c < t.cells.len() implies #[trigger] block_ok(t, input, c) by {
        assert(block_ok(s, input, c));
    }
    assert forall|h: int| 0 <= h < t.lanes.len() implies #[trigger] lane_ok(t, input, h) by {
        assert(lane_ok(s, input, h));
        if h == g {
            assert(block_ok(s, input, j));
            lemma_block_bounds(len, cap, j);
            lemma_starts_ordered(cap, j, j + 1);
            lemma_starts_ordered(cap, j + 1, b);
            let sj = block_start(j, cap);
            let sc = block_start(j + 1, cap);
            let sb = block_start(b, cap);
            assert(block_end(j, len, cap) == sc);
            let near = range_sum(input, sc, sb);
            let cell = s.cells[j];
            match cell {
                StateCell::Uninitialized => {},
                StateCell::AggregateKnown(v) => {
                    assert(v == aggregate_of(input, j, cap));
                    lemma_wrap_add(near, range_sum(input, sj, sc));
                },
                StateCell::AggregateZero => {
                    assert(aggregate_of(input, j, cap) == 0);
                    lemma_wrap_add(near, range_sum(input, sj, sc));
                },
                StateCell::GlobalPrefixKnown(v) => {
                    assert(v == wrap(sum_upto(input, sc)));
                    lemma_wrap_add(near, sum_upto(input, sc));
                    assert(sum_upto(input, 0) == 0);
                },
                StateCell::GlobalPrefixZero => {
                    assert(wrap(sum_upto(input, sc)) == 0);
                    lemma_wrap_add(near, sum_upto(input, sc));
                    assert(sum_upto(input, 0) == 0);
                },
            }
        }
    }
}

/// Publishing the resolved prefix and applying it keeps the invariant.
proof fn lemma_publish_inv(s: PassState, input: Seq<i64>, g: int)
    requires
        inv(s, input),
        0 <= g < s.lanes.len(),
        s.lanes[g] matches Lane::Walking { walker, .. } && walker.cursor == 0,
    ensures
        inv(step(s, g), input),
{
    let t = step(s, g);
    let cap = s.capacity;
    let len = input.len() as int;
    let walker = s.lanes[g]->walker;
    let b = walker.block as int;
    let lo = block_start(b, cap);
    let hi = block_end(b, len, cap);
    assert(s.lanes[g] !is Idle);
    assert(lane_ok(s, input, g));
    assert(0 <= b < s.owners.len());
    lemma_block_bounds(len, cap, b);
    lemma_starts_ordered(cap, 0, b);
    lemma_shape_kept(s, t, g);
    assert(block_ok(s, input, b));
    assert(sum_upto(input, 0) == 0);
    assert(walker.running == wrap(sum_upto(input, lo)));
    lemma_wrap_add(sum_upto(input, lo), range_sum(input, lo, hi));
    assert forall|c: int| 0 <= c < t.cells.len() implies #[trigger] block_ok(t, input, c) by {
        assert(block_ok(s, input, c));
        let clo = block_start(c, cap);
        let chi = block_end(c, len, cap);
        lemma_block_bounds(len, cap, c);
        if c == b {
            assert forall|i: int| lo <= i < hi implies #[trigger] t.data[i] == wrap(
                sum_upto(input, i + 1),
            ) by {
                lemma_wrap_add(range_sum(input, lo, i + 1), sum_upto(input, lo));
            }
        } else {
            if c < b {
                lemma_blocks_apart(len, cap, c, b);
            } else {
                lemma_blocks_apart(len, cap, b, c);
            }
            assert(t.cells[c] == s.cells[c]);
            assert forall|i: int| clo <= i < chi implies #[trigger] t.data[i] == s.data[i] by {}
        }
    }
    assert forall|h: int| 0 <= h < t.lanes.len() implies #[trigger] lane_ok(t, input, h) by {
        assert(lane_ok(s, input, h));
        if h != g {
            if s.lanes[h] !is Idle {
                if s.lanes[h].block_of() == b {
                    lemma_one_lane_per_block(s, g, h);
                }
                assert(t.cells[s.lanes[h].block_of()] == s.cells[s.lanes[h].block_of()]);
            }
        }
    }
    assert forall|c: int| t.owners.len() <= c < t.cells.len() implies (#[trigger] t.cells[c])
        is Uninitialized by {
        assert(s.cells[c] is Uninitialized);
    }
}

/// Whatever lane steps, the invariant holds afterwards.
pub proof fn lemma_step_inv(s: PassState, input: Seq<i64>, g: int)
    requires
        inv(s, input),
    ensures
        inv(step(s, g), input),
{
    if 0 <= g < s.lanes.len() {
        match s.lanes[g] {
            Lane::Idle => lemma_claim_inv(s, input, g),
            Lane::Claimed { .. } => lemma_reduce_inv(s, input, g),
            Lane::Walking { walker, .. } => {
                if walker.cursor == 0 {
                    lemma_publish_inv(s, input, g);
                } else {
                    lemma_observe_inv(s, input, g);
                }
            },
            Lane::Done { .. } => {},
        }
    }
}

/// No step changes the capacity or the number of elements or lanes.
pub proof fn lemma_run_frame(s: PassState, schedule: Seq<usize>, k: int)
    ensures
        run_upto(s, schedule, k).capacity == s.capacity,
        run_upto(s, schedule, k).data.len() == s.data.len(),
        run_upto(s, schedule, k).lanes.len() == s.lanes.len(),
    decreases k,
{
    if k > 0 {
        lemma_run_frame(s, schedule, k - 1);
    }
}

/// Schedules that agree on their first `k` entries lead to the same state
/// after `k` steps.
pub proof fn lemma_run_agree(s: PassState, a: Seq<usize>, b: Seq<usize>, k: int)
    requires
        forall|i: int| 0 <= i < k ==> a[i] == b[i],
    ensures
        run_upto(s, a, k) == run_upto(s, b, k),
    decreases k,
{
    if k > 0 {
        lemma_run_agree(s, a, b, k - 1);
    }
}

/// Running a schedule with one more entry is running the schedule and then
/// taking the one step.
pub proof fn lemma_run_push(s: PassState, schedule: Seq<usize>, g: usize)
    ensures
        run(s, schedule.push(g)) == step(run(s, schedule), g as int),
{
    lemma_run_agree(s, schedule.push(g), schedule, schedule.len() as int);
}

/// A schedule without a wasted step stays so when a step that does a piece of
/// work is added at its end.
pub proof fn lemma_wasteless_push(s: PassState, schedule: Seq<usize>, g: usize)
    requires
        wasteless(s, schedule),
        progress(run(s, schedule), g as int) is Advanced,
    ensures
        wasteless(s, schedule.push(g)),
{
    let longer = schedule.push(g);
    assert forall|k: int| 0 <= k < longer.len() implies progress(
        #[trigger] run_upto(s, longer, k),
        longer[k] as int,
    ) is Advanced by {
        lemma_run_agree(s, longer, schedule, k);
        if k < schedule.len() {
            assert(progress(run_upto(s, schedule, k), schedule[k] as int) is Advanced);
        }
    }
}

/// A schedule that never stalls has not stalled after any of its steps.
pub proof fn lemma_patient_prefix(
    s: PassState,
    schedule: Seq<usize>,
    k: int,
    n: int,
    patience: int,
)
    requires
        0 <= k <= n,
        patient_upto(s, schedule, n, patience),
    ensures
        patient_upto(s, schedule, k, patience),
    decreases n - k,
{
    if k < n {
        lemma_patient_prefix(s, schedule, k + 1, n, patience);
    }
}

/// Whatever the schedule, the invariant holds after each of its steps.
pub proof fn lemma_run_inv(s: PassState, input: Seq<i64>, schedule: Seq<usize>, k: int)
    requires
        inv(s, input),
    ensures
        inv(run_upto(s, schedule, k), input),
    decreases k,
{
    if k > 0 {
        lemma_run_inv(s, input, schedule, k - 1);
        lemma_step_inv(run_upto(s, schedule, k - 1), input, schedule[k - 1] as int);
    }
}

/// Once every block has published its prefix, the buffer holds the scan of
/// the input.
pub proof fn lemma_complete_is_scan(s: PassState, input: Seq<i64>)
    requires
        inv(s, input),
        complete(s),
    ensures
        s.data == inclusive_scan(input),
{
    assert forall|i: int| 0 <= i < input.len() implies s.data[i] == wrap(
        sum_upto(input, i + 1),
    ) by {
        lemma_block_of_index(input.len() as int, s.capacity, i);
        let b = i / s.capacity;
        assert(block_ok(s, input, b));
        assert(s.cells[b].rank() == 2);
    }
    assert(s.data =~= inclusive_scan(input));
}

/// Once every block has published its prefix, every block has been claimed
/// and every cell holds the sum of the input up to the end of its block.
pub proof fn lemma_complete_cells(s: PassState, input: Seq<i64>)
    requires
        inv(s, input),
        complete(s),
    ensures
        s.owners.len() == s.cells.len(),
        s.cells == crate::ladder::resolved_cells(input, s.capacity),
{
    if s.owners.len() < s.cells.len() {
        assert(s.cells[s.owners.len() as int] is Uninitialized);
        assert(s.cells[s.owners.len() as int].rank() == 2);
    }
    assert forall|b: int| 0 <= b < s.cells.len() implies s.cells[b]
        == crate::ladder::resolved_cells(input, s.capacity)[b] by {
        assert(block_ok(s, input, b));
        assert(s.cells[b].rank() == 2);
    }
    assert(s.cells =~= crate::ladder::resolved_cells(input, s.capacity));
}

} // verus!
