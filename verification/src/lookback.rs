//! One pass of the look-back protocol, run step by step in whatever order the
//! caller names: each step is one workgroup doing one thing, as the hardware
//! would let it.

use vstd::prelude::*;
use crate::cell::StateCell;
use crate::claim::ClaimCounter;
use crate::layout::{block_range, workgroup_count, BlockCapacity};
use crate::protocol::{
    complete, initial, inv, lane_ok, patient, patient_upto, progress, run, run_upto, stalled, step,
    trace_of, wasteless, BlockTrace, Lane, PassState, Progress,
};
use crate::reducer::{add_to_block, copy_elements, reduce_block};
use crate::safety::{
    lemma_all_claimed, lemma_complete_is_scan, lemma_idle_can_claim, lemma_initial_inv,
    lemma_run_push, lemma_step_inv, lemma_wasteless_push,
};
use crate::sums::{add_wrapping, inclusive_scan};
use crate::walker::{Sighting, Walker};

verus! {

/// A pass over one sequence: the buffer, the cells, the claim counter and the
/// dispatched workgroups.
pub struct LookbackPass {
    capacity: BlockCapacity,
    data: Vec<i64>,
    cells: Vec<StateCell>,
    counter: ClaimCounter,
    owners: Vec<usize>,
    lanes: Vec<Lane>,
    input: Ghost<Seq<i64>>,
}

impl View for LookbackPass {
    type V = PassState;

    closed spec fn view(&self) -> PassState {
        PassState {
            capacity: self.capacity.value(),
            data: self.data@,
            cells: self.cells@,
            owners: self.owners@,
            lanes: self.lanes@,
        }
    }
}

impl LookbackPass {
    /// The sequence that the pass was started on.
    pub closed spec fn source(&self) -> Seq<i64> {
        self.input@
    }

    /// The pass is in a state that steps from its start can have led to.
    pub closed spec fn valid(&self) -> bool {
        &&& inv(self@, self.input@)
        &&& self.counter.issued() == self.owners@.len()
        &&& self.counter.limit() == self.lanes@.len()
    }

    /// Of a valid pass the invariant holds, for the sequence that it was
    /// started on.
    pub proof fn lemma_valid(&self)
        requires
            self.valid(),
        ensures
            inv(self@, self.source()),
    {
    }

    /// Sets up a pass over `sequence`: one cell and one idle workgroup per
    /// block, the claim counter at zero.
    pub fn new(sequence: &[i64], capacity: BlockCapacity) -> (pass: LookbackPass)
        ensures
            pass.valid(),
            pass.source() == sequence@,
            pass@ == initial(sequence@, capacity.value()),
    {
        let data = copy_elements(sequence);
        let _width: usize = capacity.get();
        let blocks = workgroup_count(sequence.len(), capacity);
        let mut cells: Vec<StateCell> = Vec::new();
        let mut lanes: Vec<Lane> = Vec::new();
        let mut b: usize = 0;
        while b < blocks
            invariant
                b <= blocks,
                cells@.len() == b,
                lanes@.len() == b,
                forall|i: int| 0 <= i < b ==> cells@[i] is Uninitialized,
                forall|i: int| 0 <= i < b ==> lanes@[i] is Idle,
            decreases blocks - b,
        {
            cells.push(StateCell::Uninitialized);
            lanes.push(Lane::Idle);
            b += 1;
        }
        let pass = LookbackPass {
            capacity,
            data,
            cells,
            counter: ClaimCounter::new(blocks),
            owners: Vec::new(),
            lanes,
            input: Ghost(sequence@),
        };
        proof {
            let cap = capacity.value();
            let start = initial(sequence@, cap);
            assert(pass@.cells =~= start.cells);
            assert(pass@.lanes =~= start.lanes);
            assert(pass@.owners =~= start.owners);
            lemma_initial_inv(sequence@, cap);
        }
        pass
    }

    /// Lets workgroup `lane` take its next step.
    ///
    /// An idle workgroup claims the next block; one that has claimed reduces
    /// its block and publishes the aggregate; one that is looking back reads
    /// one cell, or, with nothing left to read, publishes its prefix and
    /// finishes its block. A workgroup that has finished, and a number that
    /// names no workgroup, change nothing.
    pub fn step(&mut self, lane: usize) -> (outcome: Progress)
        requires
            old(self).valid(),
        ensures
            final(self).valid(),
            final(self).source() == old(self).source(),
            final(self)@ == step(old(self)@, lane as int),
            outcome == progress(old(self)@, lane as int),
    {
        let ghost before = self@;
        proof {
            lemma_step_inv(before, self.input@, lane as int);
        }
        if lane >= self.lanes.len() {
            return Progress::Retired;
        }
        let current = self.lanes[lane];
        assert(lane_ok(before, self.input@, lane as int));
        match current {
            Lane::Idle => {
                proof {
                    lemma_idle_can_claim(before, lane as int);
                }
                match self.counter.claim() {
                    Some(block) => {
                        self.owners.push(lane);
                        self.lanes.set(lane, Lane::Claimed { block });
                    },
                    // Never taken: while a lane is idle a block is left.
                    None => {},
                }
                Progress::Advanced
            },
            Lane::Claimed { block } => {
                assert(before.lanes[lane as int] !is Idle);
                let (lo, hi) = block_range(block, self.data.len(), self.capacity);
                let aggregate = reduce_block(&mut self.data, lo, hi);
                self.cells.set(block, StateCell::aggregate(aggregate));
                self.lanes.set(lane, Lane::Walking { walker: Walker::start(block), aggregate });
                Progress::Advanced
            },
            Lane::Walking { walker, aggregate } => {
                assert(before.lanes[lane as int] !is Idle);
                let mut walker = walker;
                match walker.target() {
                    None => {
                        let block = walker.block;
                        let prefix = walker.running;
                        let (lo, hi) = block_range(block, self.data.len(), self.capacity);
                        add_to_block(&mut self.data, lo, hi, prefix);
                        self.cells.set(
                            block,
                            StateCell::global_prefix(add_wrapping(prefix, aggregate)),
                        );
                        self.lanes.set(lane, Lane::Done { block, aggregate, prefix });
                        Progress::Advanced
                    },
                    Some(j) => {
                        let seen = walker.observe(self.cells[j]);
                        self.lanes.set(lane, Lane::Walking { walker, aggregate });
                        match seen {
                            Sighting::Wait => Progress::Waiting,
                            _ => Progress::Advanced,
                        }
                    },
                }
            },
            Lane::Done { .. } => {
                assert(before.lanes =~= before.lanes.update(lane as int, current));
                Progress::Retired
            },
        }
    }

    /// Lets the workgroups step in the order that `schedule` names, one step
    /// per entry.
    pub fn run(&mut self, schedule: &[usize])
        requires
            old(self).valid(),
        ensures
            final(self).valid(),
            final(self).source() == old(self).source(),
            final(self)@ == run(old(self)@, schedule@),
    {
        let ghost before = self@;
        let mut i: usize = 0;
        while i < schedule.len()
            invariant
                i <= schedule.len(),
                self.valid(),
                self.source() == old(self).source(),
                self@ == run_upto(before, schedule@, i as int),
            decreases schedule.len() - i,
        {
            self.step(schedule[i]);
            i += 1;
        }
    }

    /// Lets the workgroups step in the order that `schedule` names until one
    /// of them has found the cell that it waits for empty more than `patience`
    /// times in a row, and returns the index of the step at which that
    /// happened, or nothing if the whole schedule ran without it.
    pub fn run_within(&mut self, schedule: &[usize], patience: usize) -> (stalled_at: Option<usize>)
        requires
            old(self).valid(),
        ensures
            final(self).valid(),
            final(self).source() == old(self).source(),
            stalled_at is None ==> final(self)@ == run(old(self)@, schedule@) && patient(
                old(self)@,
                schedule@,
                patience as int,
            ),
            stalled_at matches Some(k) ==> {
                &&& k < schedule@.len()
                &&& final(self)@ == run_upto(old(self)@, schedule@, k + 1)
                &&& patient_upto(old(self)@, schedule@, k as int, patience as int)
                &&& stalled(final(self)@, schedule@[k as int] as int, patience as int)
            },
    {
        let ghost before = self@;
        let mut i: usize = 0;
        while i < schedule.len()
            invariant
                i <= schedule.len(),
                self.valid(),
                self.source() == old(self).source(),
                before == old(self)@,
                self@ == run_upto(before, schedule@, i as int),
                patient_upto(before, schedule@, i as int, patience as int),
            decreases schedule.len() - i,
        {
            let lane = schedule[i];
            self.step(lane);
            let waited = self.waits(lane);
            assert(waited > patience <==> stalled(self@, lane as int, patience as int));
            if waited > patience {
                return Some(i);
            }
            i += 1;
        }
        None
    }

    /// Number of reads in a row at which workgroup `lane` has found the cell
    /// that it waits for empty; zero for a workgroup that is not looking
    /// back.
    pub fn waits(&self, lane: usize) -> (count: usize)
        ensures
            count > 0 ==> lane < self@.lanes.len(),
            forall|patience: int|
                patience >= 0 ==> (count > patience <==> #[trigger] stalled(
                    self@,
                    lane as int,
                    patience,
                )),
    {
        if lane >= self.lanes.len() {
            return 0;
        }
        match self.lanes[lane] {
            Lane::Walking { walker, .. } => walker.waits,
            _ => 0,
        }
    }

    /// Whether every block has published its resolved prefix.
    pub fn is_complete(&self) -> (done: bool)
        ensures
            done == complete(self@),
    {
        let mut b: usize = 0;
        while b < self.cells.len()
            invariant
                b <= self.cells.len(),
                forall|c: int| 0 <= c < b ==> (#[trigger] self.cells@[c]).rank() == 2,
            decreases self.cells.len() - b,
        {
            if !self.cells[b].is_resolved() {
                assert(self@.cells[b as int].rank() != 2);
                return false;
            }
            b += 1;
        }
        true
    }

    /// Lets the workgroups finish the pass, earliest block first, and
    /// returns the order in which they stepped.
    ///
    /// Workgroups that have no block yet claim one first. Then the holder of
    /// each block in turn steps until the block is finished; its look-back
    /// never waits, since every earlier block has finished by then. So no
    /// step of the order is wasted.
    pub fn finish(&mut self) -> (order: Vec<usize>)
        requires
            old(self).valid(),
        ensures
            final(self).valid(),
            final(self).source() == old(self).source(),
            final(self)@ == run(old(self)@, order@),
            complete(final(self)@),
            wasteless(old(self)@, order@),
    {
        let ghost before = self@;
        let mut order: Vec<usize> = Vec::new();
        let count = self.lanes.len();
        let mut g: usize = 0;
        while g < count
            invariant
                g <= count,
                count == self@.lanes.len(),
                self.valid(),
                self.source() == old(self).source(),
                self@ == run(before, order@),
                wasteless(before, order@),
                forall|h: int| 0 <= h < g ==> (#[trigger] self@.lanes[h]) !is Idle,
            decreases count - g,
        {
            let idle = match self.lanes[g] {
                Lane::Idle => true,
                _ => false,
            };
            if idle {
                proof {
                    lemma_run_push(before, order@, g);
                    lemma_wasteless_push(before, order@, g);
                }
                self.step(g);
                order.push(g);
            }
            g += 1;
        }
        proof {
            lemma_all_claimed(self@);
        }
        let mut b: usize = 0;
        while b < count
            invariant
                b <= count,
                count == self@.lanes.len(),
                self@.owners.len() == count,
                self.valid(),
                self.source() == old(self).source(),
                self@ == run(before, order@),
                wasteless(before, order@),
                forall|c: int| 0 <= c < b ==> (#[trigger] self@.cells[c]).rank() == 2,
            decreases count - b,
        {
            let holder = self.owners[b];
            loop
                invariant
                    b < count,
                    count == self@.lanes.len(),
                    self@.owners.len() == count,
                    holder == self@.owners[b as int],
                    self.valid(),
                    self.source() == old(self).source(),
                    self@ == run(before, order@),
                    wasteless(before, order@),
                    forall|c: int| 0 <= c < b ==> (#[trigger] self@.cells[c]).rank() == 2,
                ensures
                    self@.cells[b as int].rank() == 2,
                decreases steps_left(self@.lanes[holder as int]),
            {
                assert(self@.lanes[holder as int].block_of() == b);
                assert(lane_ok(self@, self.input@, holder as int));
                let finished = match self.lanes[holder] {
                    Lane::Done { .. } => true,
                    _ => false,
                };
                if finished {
                    break;
                }
                proof {
                    lemma_run_push(before, order@, holder);
                    match self@.lanes[holder as int] {
                        Lane::Walking { walker, .. } => {
                            if walker.cursor > 0 {
                                assert(self@.cells[walker.cursor - 1].rank() == 2);
                            }
                        },
                        _ => {},
                    }
                    lemma_wasteless_push(before, order@, holder);
                }
                self.step(holder);
                order.push(holder);
            }
            b += 1;
        }
        order
    }

    /// The buffer as it stands. Once the pass is complete this is the scan of
    /// the sequence that the pass was started on.
    pub fn output(&self) -> (elements: Vec<i64>)
        requires
            self.valid(),
        ensures
            elements@ == self@.data,
            complete(self@) ==> elements@ == inclusive_scan(self.source()),
    {
        proof {
            if complete(self@) {
                lemma_complete_is_scan(self@, self.input@);
            }
        }
        copy_elements(self.data.as_slice())
    }

    /// The cells as they stand, one per block.
    pub fn cells(&self) -> (cells: Vec<StateCell>)
        ensures
            cells@ == self@.cells,
    {
        let mut cells: Vec<StateCell> = Vec::new();
        let mut b: usize = 0;
        while b < self.cells.len()
            invariant
                b <= self.cells.len(),
                cells@ == self.cells@.subrange(0, b as int),
            decreases self.cells.len() - b,
        {
            cells.push(self.cells[b]);
            b += 1;
            assert(cells@ =~= self.cells@.subrange(0, b as int));
        }
        assert(cells@ =~= self.cells@);
        cells
    }

    /// What is known of every block as the pass stands: its cell, its own sum
    /// if it has been reduced, and the sum of everything before it if its
    /// look-back has resolved.
    pub fn trace(&self) -> (blocks: Vec<BlockTrace>)
        requires
            self.valid(),
        ensures
            blocks@.len() == self@.cells.len(),
            forall|b: int| 0 <= b < blocks@.len() ==> #[trigger] blocks@[b] == trace_of(self@, b),
    {
        let mut blocks: Vec<BlockTrace> = Vec::new();
        let mut b: usize = 0;
        while b < self.cells.len()
            invariant
                self.valid(),
                b <= self.cells.len(),
                blocks@.len() == b,
                forall|c: int| 0 <= c < b ==> #[trigger] blocks@[c] == trace_of(self@, c),
            decreases self.cells.len() - b,
        {
            let cell = self.cells[b];
            let known = if b < self.owners.len() {
                assert(self@.owners[b as int] < self@.lanes.len());
                match self.lanes[self.owners[b]] {
                    Lane::Walking { aggregate, .. } => BlockTrace {
                        cell,
                        aggregate: Some(aggregate),
                        prefix: None,
                    },
                    Lane::Done { aggregate, prefix, .. } => BlockTrace {
                        cell,
                        aggregate: Some(aggregate),
                        prefix: Some(prefix),
                    },
                    _ => BlockTrace { cell, aggregate: None, prefix: None },
                }
            } else {
                BlockTrace { cell, aggregate: None, prefix: None }
            };
            blocks.push(known);
            b += 1;
        }
        blocks
    }

    /// The value of the claim counter: the number of blocks claimed so far.
    pub fn next_block(&self) -> (next: usize)
        requires
            self.valid(),
        ensures
            next == self@.owners.len(),
    {
        self.counter.taken()
    }
}

/// Number of steps that a workgroup needs at most to finish its block once
/// every earlier block has finished.
pub open spec fn steps_left(lane: Lane) -> int {
    match lane {
        Lane::Idle => 4,
        Lane::Claimed { .. } => 3,
        Lane::Walking { walker, .. } => if walker.cursor > 0 {
            2
        } else {
            1
        },
        Lane::Done { .. } => 0,
    }
}

} // verus!
