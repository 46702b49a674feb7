//! One pass of the look-back protocol as a transition system: the state that
//! all workgroups share, the one step that a workgroup takes at a time, and
//! what holds of every state that any order of steps can reach.

use vstd::prelude::*;
use crate::cell::StateCell;
use crate::layout::{block_count, block_end, block_start};
use crate::reducer::{aggregate_of, reduced, shifted};
use crate::sums::{range_sum, sum_upto, wrap};
use crate::walker::Walker;

verus! {

/// How far one dispatched workgroup has come.
#[derive(Clone, Copy, Debug, PartialEq, Eq, Structural)]
pub enum Lane {
    /// Dispatched, no block claimed yet.
    Idle,
    /// Holds a block and has done nothing on it yet.
    Claimed { block: usize },
    /// Has reduced its block and published the aggregate, and is looking back
    /// for the sum of everything before the block.
    Walking { walker: Walker, aggregate: i64 },
    /// Has published its resolved prefix and finished its block. `prefix` is
    /// the sum of everything before the block, `aggregate` the block's own
    /// sum.
    Done { block: usize, aggregate: i64, prefix: i64 },
}

/// What a step amounted to.
#[derive(Clone, Copy, Debug, PartialEq, Eq, Structural)]
pub enum Progress {
    /// The lane did a piece of its work.
    Advanced,
    /// The lane read a cell that holds nothing yet, and has to read it again.
    Waiting,
    /// The lane had finished before, or there is no such lane.
    Retired,
}

impl Lane {
    /// The block that the lane holds; meaningless for an idle lane.
    pub open spec fn block_of(self) -> int {
        match self {
            Lane::Idle => -1,
            Lane::Claimed { block } => block as int,
            Lane::Walking { walker, .. } => walker.block as int,
            Lane::Done { block, .. } => block as int,
        }
    }
}

/// What is known of one block while a pass runs: what its cell holds, its own
/// sum once it has been reduced, and the sum of everything before it once its
/// look-back has resolved.
#[derive(Clone, Copy, Debug, PartialEq, Eq)]
pub struct BlockTrace {
    pub cell: StateCell,
    pub aggregate: Option<i64>,
    pub prefix: Option<i64>,
}

/// Everything that the workgroups of one pass share.
pub struct PassState {
    /// Elements per block.
    pub capacity: int,
    /// The buffer that is scanned in place.
    pub data: Seq<i64>,
    /// One cell per block.
    pub cells: Seq<StateCell>,
    /// The lane that claimed each block, in the order of the claims; its
    /// length is the value of the claim counter.
    pub owners: Seq<usize>,
    /// One lane per dispatched workgroup.
    pub lanes: Seq<Lane>,
}

/// The state in which a pass over `input` starts: nothing claimed, nothing
/// published, one idle lane per block.
pub open spec fn initial(input: Seq<i64>, cap: int) -> PassState {
    PassState {
        capacity: cap,
        data: input,
        cells: Seq::new(
            block_count(input.len() as int, cap) as nat,
            |b: int| StateCell::Uninitialized,
        ),
        owners: Seq::empty(),
        lanes: Seq::new(block_count(input.len() as int, cap) as nat, |g: int| Lane::Idle),
    }
}

/// What one step of lane `g` makes of `s`.
///
/// An idle lane claims the next block. A lane that has claimed reduces its
/// block and publishes the aggregate. A walking lane reads one cell, or, with
/// nothing left to read, publishes its resolved prefix and adds the sum of
/// everything before the block to the block. A lane that is done, and a lane
/// that does not exist, change nothing.
pub open spec fn step(s: PassState, g: int) -> PassState {
    if 0 <= g < s.lanes.len() {
        match s.lanes[g] {
            Lane::Idle => PassState {
                owners: s.owners.push(g as usize),
                lanes: s.lanes.update(g, Lane::Claimed { block: s.owners.len() as usize }),
                ..s
            },
            Lane::Claimed { block } => {
                let lo = block_start(block as int, s.capacity);
                let hi = block_end(block as int, s.data.len() as int, s.capacity);
                let aggregate = wrap(range_sum(s.data, lo, hi));
                PassState {
                    data: reduced(s.data, lo, hi),
                    cells: s.cells.update(block as int, StateCell::of_aggregate(aggregate)),
                    lanes: s.lanes.update(
                        g,
                        Lane::Walking { walker: Walker::fresh(block), aggregate },
                    ),
                    ..s
                }
            },
            Lane::Walking { walker, aggregate } => {
                if walker.cursor == 0 {
                    let lo = block_start(walker.block as int, s.capacity);
                    let hi = block_end(walker.block as int, s.data.len() as int, s.capacity);
                    PassState {
                        data: shifted(s.data, lo, hi, walker.running),
                        cells: s.cells.update(
                            walker.block as int,
                            StateCell::of_prefix(wrap(walker.running + aggregate)),
                        ),
                        lanes: s.lanes.update(
                            g,
                            Lane::Done {
                                block: walker.block,
                                aggregate,
                                prefix: walker.running,
                            },
                        ),
                        ..s
                    }
                } else {
                    PassState {
                        lanes: s.lanes.update(
                            g,
                            Lane::Walking {
                                walker: walker.observed(s.cells[walker.cursor - 1]),
                                aggregate,
                            },
                        ),
                        ..s
                    }
                }
            },
            Lane::Done { .. } => s,
        }
    } else {
        s
    }
}

/// The state after the first `k` steps of `schedule`, each entry naming the
/// lane that steps.
pub open spec fn run_upto(s: PassState, schedule: Seq<usize>, k: int) -> PassState
    decreases k,
{
    if k <= 0 {
        s
    } else {
        step(run_upto(s, schedule, k - 1), schedule[k - 1] as int)
    }
}

/// The state after all of `schedule`.
pub open spec fn run(s: PassState, schedule: Seq<usize>) -> PassState {
    run_upto(s, schedule, schedule.len() as int)
}

/// What a step of lane `g` in `s` amounts to.
pub open spec fn progress(s: PassState, g: int) -> Progress {
    if 0 <= g < s.lanes.len() {
        match s.lanes[g] {
            Lane::Idle | Lane::Claimed { .. } => Progress::Advanced,
            Lane::Walking { walker, .. } => if walker.cursor > 0 && s.cells[walker.cursor - 1]
                is Uninitialized {
                Progress::Waiting
            } else {
                Progress::Advanced
            },
            Lane::Done { .. } => Progress::Retired,
        }
    } else {
        Progress::Retired
    }
}

/// Every step of `schedule` does a piece of work: none waits, and none names
/// a lane that has finished or does not exist.
pub open spec fn wasteless(s: PassState, schedule: Seq<usize>) -> bool {
    forall|k: int|
        0 <= k < schedule.len() ==> progress(
            #[trigger] run_upto(s, schedule, k),
            schedule[k] as int,
        ) is Advanced
}

/// Lane `g` has found the cell before its cursor empty more than `patience`
/// times in a row.
pub open spec fn stalled(s: PassState, g: int, patience: int) -> bool {
    0 <= g < s.lanes.len() && match s.lanes[g] {
        Lane::Walking { walker, .. } => walker.waits > patience,
        _ => false,
    }
}

/// None of the first `k` steps of `schedule` left the lane that took it
/// stalled.
pub open spec fn patient_upto(s: PassState, schedule: Seq<usize>, k: int, patience: int) -> bool
    decreases k,
{
    if k <= 0 {
        true
    } else {
        patient_upto(s, schedule, k - 1, patience) && !stalled(
            run_upto(s, schedule, k),
            schedule[k - 1] as int,
            patience,
        )
    }
}

/// No step of `schedule` left the lane that took it stalled.
pub open spec fn patient(s: PassState, schedule: Seq<usize>, patience: int) -> bool {
    patient_upto(s, schedule, schedule.len() as int, patience)
}

/// What is known of block `b` in `s`.
pub open spec fn trace_of(s: PassState, b: int) -> BlockTrace {
    if 0 <= b < s.owners.len() {
        match s.lanes[s.owners[b] as int] {
            Lane::Walking { aggregate, .. } => BlockTrace {
                cell: s.cells[b],
                aggregate: Some(aggregate),
                prefix: None,
            },
            Lane::Done { aggregate, prefix, .. } => BlockTrace {
                cell: s.cells[b],
                aggregate: Some(aggregate),
                prefix: Some(prefix),
            },
            _ => BlockTrace { cell: s.cells[b], aggregate: None, prefix: None },
        }
    } else {
        BlockTrace { cell: s.cells[b], aggregate: None, prefix: None }
    }
}

/// Every block has published its resolved prefix.
pub open spec fn complete(s: PassState) -> bool {
    forall|b: int| 0 <= b < s.cells.len() ==> (#[trigger] s.cells[b]).rank() == 2
}

/// Number of lanes among the first `k` that hold a block.
pub open spec fn busy_upto(lanes: Seq<Lane>, k: int) -> int
    decreases k,
{
    if k <= 0 {
        0
    } else {
        busy_upto(lanes, k - 1) + if lanes[k - 1] is Idle {
            0int
        } else {
            1int
        }
    }
}

/// The shape of a state: sizes fit each other and the machine, every claimed
/// block has one lane and every busy lane one block, and the claim counter
/// has counted the busy lanes.
pub open spec fn shaped(s: PassState) -> bool {
    &&& s.capacity >= 1
    &&& s.lanes.len() <= usize::MAX
    &&& s.cells.len() == s.lanes.len()
    &&& s.lanes.len() == block_count(s.data.len() as int, s.capacity)
    &&& s.owners.len() <= s.lanes.len()
    &&& busy_upto(s.lanes, s.lanes.len() as int) == s.owners.len()
    &&& forall|b: int|
        0 <= b < s.owners.len() ==> {
            &&& (#[trigger] s.owners[b]) < s.lanes.len()
            &&& s.lanes[s.owners[b] as int] !is Idle
            &&& s.lanes[s.owners[b] as int].block_of() == b
        }
    &&& forall|g: int|
        0 <= g < s.lanes.len() && (#[trigger] s.lanes[g]) !is Idle ==> {
            &&& 0 <= s.lanes[g].block_of() < s.owners.len()
            &&& s.owners[s.lanes[g].block_of()] == g
        }
}

/// What the cell and the elements of block `b` have to do with the input.
///
/// Before anything is published the block still holds the input; once the
/// aggregate is out the block holds its own running sums and the cell the
/// block's sum; once the prefix is out the block holds the final running
/// sums and the cell the sum up to the end of the block.
pub open spec fn block_ok(s: PassState, input: Seq<i64>, b: int) -> bool {
    let lo = block_start(b, s.capacity);
    let hi = block_end(b, input.len() as int, s.capacity);
    if s.cells[b].rank() == 0 {
        forall|i: int| lo <= i < hi ==> #[trigger] s.data[i] == input[i]
    } else if s.cells[b].rank() == 1 {
        &&& s.cells[b] == StateCell::of_aggregate(aggregate_of(input, b, s.capacity))
        &&& forall|i: int|
            lo <= i < hi ==> #[trigger] s.data[i] == wrap(range_sum(input, lo, i + 1))
    } else {
        &&& s.cells[b] == StateCell::of_prefix(wrap(sum_upto(input, hi)))
        &&& forall|i: int| lo <= i < hi ==> #[trigger] s.data[i] == wrap(sum_upto(input, i + 1))
    }
}

/// What lane `g` holds has to do with the input and with its block's cell.
pub open spec fn lane_ok(s: PassState, input: Seq<i64>, g: int) -> bool {
    match s.lanes[g] {
        Lane::Idle => true,
        Lane::Claimed { block } => s.cells[block as int] is Uninitialized,
        Lane::Walking { walker, aggregate } => {
            &&& s.cells[walker.block as int].rank() == 1
            &&& aggregate == aggregate_of(input, walker.block as int, s.capacity)
            &&& walker.cursor <= walker.block
            &&& walker.running == wrap(
                range_sum(
                    input,
                    block_start(walker.cursor as int, s.capacity),
                    block_start(walker.block as int, s.capacity),
                ),
            )
        },
        Lane::Done { block, aggregate, prefix } => {
            &&& s.cells[block as int].rank() == 2
            &&& aggregate == aggregate_of(input, block as int, s.capacity)
            &&& prefix == wrap(sum_upto(input, block_start(block as int, s.capacity)))
        },
    }
}

/// What holds of every state of a pass over `input`, whatever the order of
/// the steps that led to it.
pub open spec fn inv(s: PassState, input: Seq<i64>) -> bool {
    &&& shaped(s)
    &&& s.data.len() == input.len()
    &&& forall|b: int| 0 <= b < s.cells.len() ==> #[trigger] block_ok(s, input, b)
    &&& forall|g: int| 0 <= g < s.lanes.len() ==> #[trigger] lane_ok(s, input, g)
    &&& forall|b: int|
        s.owners.len() <= b < s.cells.len() ==> (#[trigger] s.cells[b]) is Uninitialized
}

} // verus!
