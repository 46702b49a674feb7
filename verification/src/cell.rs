//! The state cell: the one word that a workgroup publishes about its block
//! and that every later workgroup may read.

use vstd::prelude::*;

verus! {

/// What a workgroup has published about its block so far.
///
/// A cell only ever moves forward: from `Uninitialized` to one of the two
/// aggregate tags, and from there to one of the two prefix tags. The `Zero`
/// tags stand for a published value of exactly zero, so that a reader never
/// has to tell a published zero from a cell that nobody has written yet.
#[derive(Clone, Copy, Debug, PartialEq, Eq, Structural)]
pub enum StateCell {
    /// Nothing published yet.
    Uninitialized,
    /// The block's own sum is known, and is not zero.
    AggregateKnown(i64),
    /// The block's own sum is known, and is zero.
    AggregateZero,
    /// The sum of everything up to the end of the block is known, and is not
    /// zero.
    GlobalPrefixKnown(i64),
    /// The sum of everything up to the end of the block is known, and is
    /// zero.
    GlobalPrefixZero,
}

impl StateCell {
    /// How far the cell has come: 0 for nothing, 1 for an aggregate, 2 for a
    /// resolved prefix.
    pub open spec fn rank(self) -> int {
        match self {
            StateCell::Uninitialized => 0,
            StateCell::AggregateKnown(_) | StateCell::AggregateZero => 1,
            StateCell::GlobalPrefixKnown(_) | StateCell::GlobalPrefixZero => 2,
        }
    }

    /// The published value, with zero for the `Zero` tags and for a cell that
    /// holds nothing.
    pub open spec fn payload(self) -> i64 {
        match self {
            StateCell::AggregateKnown(v) | StateCell::GlobalPrefixKnown(v) => v,
            _ => 0,
        }
    }

    /// A `Known` tag never carries zero: zero has tags of its own.
    pub open spec fn canonical(self) -> bool {
        match self {
            StateCell::AggregateKnown(v) | StateCell::GlobalPrefixKnown(v) => v != 0,
            _ => true,
        }
    }

    /// The cell that publishes `aggregate` as a block's own sum.
    pub open spec fn of_aggregate(aggregate: i64) -> StateCell {
        if aggregate == 0 {
            StateCell::AggregateZero
        } else {
            StateCell::AggregateKnown(aggregate)
        }
    }

    /// The cell that publishes `prefix` as the sum up to the end of a block.
    pub open spec fn of_prefix(prefix: i64) -> StateCell {
        if prefix == 0 {
            StateCell::GlobalPrefixZero
        } else {
            StateCell::GlobalPrefixKnown(prefix)
        }
    }

    /// The number that stands for the tag in a device record.
    pub open spec fn code_of(self) -> u32 {
        match self {
            StateCell::Uninitialized => 0,
            StateCell::AggregateKnown(_) => 1,
            StateCell::AggregateZero => 2,
            StateCell::GlobalPrefixKnown(_) => 3,
            StateCell::GlobalPrefixZero => 4,
        }
    }

    /// `next` may be written over `self`: a cell is rewritten only to move
    /// forward.
    pub open spec fn may_become(self, next: StateCell) -> bool {
        self.rank() < next.rank()
    }

    /// Publishes a block's own sum; a sum of zero gets the `Zero` tag.
    pub fn aggregate(aggregate: i64) -> (cell: StateCell)
        ensures
            cell == StateCell::of_aggregate(aggregate),
            cell.rank() == 1,
            cell.canonical(),
            cell.payload() == aggregate,
            cell is AggregateZero <==> aggregate == 0,
    {
        if aggregate == 0 {
            StateCell::AggregateZero
        } else {
            StateCell::AggregateKnown(aggregate)
        }
    }

    /// Publishes the sum up to the end of a block; a sum of zero gets the
    /// `Zero` tag.
    pub fn global_prefix(prefix: i64) -> (cell: StateCell)
        ensures
            cell == StateCell::of_prefix(prefix),
            cell.rank() == 2,
            cell.canonical(),
            cell.payload() == prefix,
            cell is GlobalPrefixZero <==> prefix == 0,
    {
        if prefix == 0 {
            StateCell::GlobalPrefixZero
        } else {
            StateCell::GlobalPrefixKnown(prefix)
        }
    }

    /// The number that stands for the tag in a device record.
    pub fn code(&self) -> (code: u32)
        ensures
            code == self.code_of(),
    {
        match self {
            StateCell::Uninitialized => 0,
            StateCell::AggregateKnown(_) => 1,
            StateCell::AggregateZero => 2,
            StateCell::GlobalPrefixKnown(_) => 3,
            StateCell::GlobalPrefixZero => 4,
        }
    }

    /// The published value: the payload of a `Known` tag, zero otherwise.
    pub fn value(&self) -> (value: i64)
        ensures
            value == self.payload(),
    {
        match self {
            StateCell::AggregateKnown(v) => *v,
            StateCell::GlobalPrefixKnown(v) => *v,
            _ => 0,
        }
    }

    /// Whether the cell holds a resolved prefix, the last state of a cell.
    pub fn is_resolved(&self) -> (resolved: bool)
        ensures
            resolved <==> self.rank() == 2,
    {
        match self {
            StateCell::GlobalPrefixKnown(_) | StateCell::GlobalPrefixZero => true,
            _ => false,
        }
    }

    /// Whether `next` may be written over this cell.
    pub fn can_become(&self, next: &StateCell) -> (allowed: bool)
        ensures
            allowed <==> self.may_become(*next),
    {
        let from: u8 = match self {
            StateCell::Uninitialized => 0,
            StateCell::AggregateKnown(_) | StateCell::AggregateZero => 1,
            _ => 2,
        };
        let to: u8 = match next {
            StateCell::Uninitialized => 0,
            StateCell::AggregateKnown(_) | StateCell::AggregateZero => 1,
            _ => 2,
        };
        from < to
    }
}

} // verus!
