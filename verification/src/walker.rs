//! The decoupled look-back walker: how one workgroup finds the sum of
//! everything before its block by reading what earlier blocks have published,
//! one cell at a time, without ever waiting for more than one cell.

use vstd::prelude::*;
use crate::cell::StateCell;
use crate::sums::{add_wrapping, wrap};

verus! {

/// The look-back of one block in progress.
///
/// `cursor` counts the earlier blocks that the walk has not accounted for
/// yet: the next cell to read is `cursor - 1`, and a cursor of zero means that
/// `running` is the sum of everything before the block.
#[derive(Clone, Copy, Debug, PartialEq, Eq, Structural)]
pub struct Walker {
    /// The block whose prefix is looked for.
    pub block: usize,
    /// Number of earlier blocks still to account for.
    pub cursor: usize,
    /// Sum of the blocks `cursor..block`, as far as the walk has come.
    pub running: i64,
    /// Number of reads in a row that found the cell before the cursor empty.
    pub waits: usize,
}

/// What reading one cell did for a walk.
#[derive(Clone, Copy, Debug, PartialEq, Eq, Structural)]
pub enum Sighting {
    /// The cell held nothing yet: the walk has to read it again.
    Wait,
    /// The cell held an aggregate: the walk goes on to the block before.
    Continue,
    /// The cell held a resolved prefix: the walk is over.
    Stop,
}

impl Walker {
    /// The walk of `block` before its first read.
    pub open spec fn fresh(block: usize) -> Walker {
        Walker { block, cursor: block, running: 0, waits: 0 }
    }

    /// Nothing is left to read.
    pub open spec fn resolved(self) -> bool {
        self.cursor == 0
    }

    /// The walk after reading `cell` in the cell before the cursor.
    pub open spec fn observed(self, cell: StateCell) -> Walker {
        if self.cursor == 0 {
            self
        } else {
            match cell {
                StateCell::Uninitialized => Walker {
                    waits: if self.waits < usize::MAX {
                        (self.waits + 1) as usize
                    } else {
                        self.waits
                    },
                    ..self
                },
                StateCell::AggregateKnown(v) => Walker {
                    block: self.block,
                    cursor: (self.cursor - 1) as usize,
                    running: wrap(self.running + v),
                    waits: 0,
                },
                StateCell::AggregateZero => Walker {
                    block: self.block,
                    cursor: (self.cursor - 1) as usize,
                    running: self.running,
                    waits: 0,
                },
                StateCell::GlobalPrefixKnown(v) => Walker {
                    block: self.block,
                    cursor: 0,
                    running: wrap(self.running + v),
                    waits: 0,
                },
                StateCell::GlobalPrefixZero => Walker {
                    block: self.block,
                    cursor: 0,
                    running: self.running,
                    waits: 0,
                },
            }
        }
    }

    /// What reading `cell` means to this walk: nothing more can stop a walk
    /// that is over.
    pub open spec fn sighting(self, cell: StateCell) -> Sighting {
        if self.cursor == 0 {
            Sighting::Stop
        } else {
            match cell {
                StateCell::Uninitialized => Sighting::Wait,
                StateCell::AggregateKnown(_) | StateCell::AggregateZero => Sighting::Continue,
                StateCell::GlobalPrefixKnown(_) | StateCell::GlobalPrefixZero => Sighting::Stop,
            }
        }
    }

    /// Starts the walk of `block`: nothing read, nothing summed. The walk of
    /// block 0 is over before it starts.
    pub fn start(block: usize) -> (walker: Walker)
        ensures
            walker == Walker::fresh(block),
            walker.resolved() <==> block == 0,
    {
        Walker { block, cursor: block, running: 0, waits: 0 }
    }

    /// Whether nothing is left to read.
    pub fn is_resolved(&self) -> (resolved: bool)
        ensures
            resolved == self.resolved(),
    {
        self.cursor == 0
    }

    /// Index of the cell to read next, if any is left.
    pub fn target(&self) -> (index: Option<usize>)
        ensures
            index is None <==> self.resolved(),
            index matches Some(j) ==> j == self.cursor - 1,
    {
        if self.cursor == 0 {
            None
        } else {
            Some(self.cursor - 1)
        }
    }

    /// Takes in what the cell before the cursor holds.
    ///
    /// A resolved prefix ends the walk and an aggregate moves it one block
    /// back, each adding its value, a `Zero` tag adding nothing; only a cell
    /// that holds nothing leaves the walk waiting where it was, one wait
    /// more on its count. A walk that is over takes in nothing.
    pub fn observe(&mut self, cell: StateCell) -> (seen: Sighting)
        ensures
            *final(self) == old(self).observed(cell),
            seen == old(self).sighting(cell),
            seen is Wait <==> !old(self).resolved() && cell is Uninitialized,
            seen is Wait ==> final(self).cursor == old(self).cursor && final(self).running == old(
                self,
            ).running,
            seen is Stop ==> final(self).resolved(),
            seen is Continue ==> final(self).cursor == old(self).cursor - 1,
    {
        if self.cursor == 0 {
            return Sighting::Stop;
        }
        match cell {
            StateCell::Uninitialized => {
                if self.waits < usize::MAX {
                    self.waits = self.waits + 1;
                }
                Sighting::Wait
            },
            StateCell::AggregateKnown(v) => {
                self.running = add_wrapping(self.running, v);
                self.cursor = self.cursor - 1;
                self.waits = 0;
                Sighting::Continue
            },
            StateCell::AggregateZero => {
                self.cursor = self.cursor - 1;
                self.waits = 0;
                Sighting::Continue
            },
            StateCell::GlobalPrefixKnown(v) => {
                self.running = add_wrapping(self.running, v);
                self.cursor = 0;
                self.waits = 0;
                Sighting::Stop
            },
            StateCell::GlobalPrefixZero => {
                self.cursor = 0;
                self.waits = 0;
                Sighting::Stop
            },
        }
    }
}

} // verus!
