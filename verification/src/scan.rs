//! The scan orchestrator: cuts a sequence into blocks, dispatches one
//! workgroup per block, and hands back the scanned sequence.

use vstd::prelude::*;
use crate::cell::StateCell;
use crate::ladder::{resolved_cells, two_pass_scan};
use crate::layout::{block_count, BlockCapacity};
use crate::lookback::LookbackPass;
use crate::protocol::{complete, initial, patient, run};
use crate::safety::{lemma_complete_cells, lemma_patient_prefix, lemma_run_frame};
use crate::sums::inclusive_scan;

verus! {

/// Why a scan gave no result.
#[derive(Clone, Copy, Debug, PartialEq, Eq, Structural)]
pub enum ScanError {
    /// The number of elements that the caller named is not the length of the
    /// buffer that it handed over.
    BufferSizeMismatch,
    /// A workgroup waited at one cell for longer than it was told to, or the
    /// schedule ran out while a block was still unresolved: some workgroup
    /// did not get the steps that it needed.
    StalledLookback,
}

/// How the blocks learn the sum of everything before them.
#[derive(Clone, Copy, Debug, PartialEq, Eq, Structural)]
pub enum Strategy {
    /// One pass: each workgroup looks back at the cells of earlier blocks.
    LookBack,
    /// Two passes per level: reduce, scan the block sums by the same means,
    /// then add.
    TwoPass,
}

/// What a pass leaves behind beside the scanned buffer: the cell of every
/// block and the value of the claim counter.
pub struct PassReport {
    pub cells: Vec<StateCell>,
    pub next_block: usize,
}

/// Scans `sequence` in one look-back pass whose workgroups step in the order
/// that `schedule` names, none of them waiting at one cell for more than
/// `patience` reads in a row.
///
/// The result does not depend on the schedule, only on whether the schedule
/// gives every workgroup the steps that it needs when it needs them: if a
/// workgroup runs out of patience, or a block is still unresolved when the
/// schedule ends, the scan has stalled.
pub fn scan_with_schedule(
    sequence: &[i64],
    capacity: BlockCapacity,
    schedule: &[usize],
    patience: usize,
) -> (result: Result<Vec<i64>, ScanError>)
    ensures
        result is Ok <==> patient(
            initial(sequence@, capacity.value()),
            schedule@,
            patience as int,
        ) && complete(run(initial(sequence@, capacity.value()), schedule@)),
        result matches Ok(output) ==> output@ == inclusive_scan(sequence@),
        result matches Err(e) ==> e == ScanError::StalledLookback,
{
    let mut pass = LookbackPass::new(sequence, capacity);
    match pass.run_within(schedule, patience) {
        Some(k) => {
            proof {
                if patient(initial(sequence@, capacity.value()), schedule@, patience as int) {
                    lemma_patient_prefix(
                        initial(sequence@, capacity.value()),
                        schedule@,
                        k + 1,
                        schedule@.len() as int,
                        patience as int,
                    );
                }
            }
            Err(ScanError::StalledLookback)
        },
        None => {
            if pass.is_complete() {
                Ok(pass.output())
            } else {
                Err(ScanError::StalledLookback)
            }
        },
    }
}

/// Scans the first `size` elements of `to_scan` in place, where `size` has
/// to be the length of `to_scan`, in one look-back pass that is run to its
/// end, and reports the cells and the claim counter as the pass left them.
pub fn scan_into(to_scan: &mut Vec<i64>, size: usize, capacity: BlockCapacity) -> (result: Result<
    PassReport,
    ScanError,
>)
    ensures
        result is Ok <==> size == old(to_scan)@.len(),
        result matches Err(e) ==> e == ScanError::BufferSizeMismatch && final(to_scan)@ == old(
            to_scan,
        )@,
        result matches Ok(report) ==> {
            &&& final(to_scan)@ == inclusive_scan(old(to_scan)@)
            &&& report.cells@ == resolved_cells(old(to_scan)@, capacity.value())
            &&& report.next_block == block_count(old(to_scan)@.len() as int, capacity.value())
        },
{
    if size != to_scan.len() {
        return Err(ScanError::BufferSizeMismatch);
    }
    let mut pass = LookbackPass::new(to_scan.as_slice(), capacity);
    let order = pass.finish();
    proof {
        pass.lemma_valid();
        lemma_run_frame(initial(old(to_scan)@, capacity.value()), order@, order@.len() as int);
        lemma_complete_cells(pass@, pass.source());
    }
    let report = PassReport { cells: pass.cells(), next_block: pass.next_block() };
    *to_scan = pass.output();
    Ok(report)
}

/// Scans `sequence` with blocks of `capacity` elements by the strategy named.
pub fn scan_with(sequence: &[i64], capacity: BlockCapacity, strategy: Strategy) -> (output: Vec<
    i64,
>)
    ensures
        output@ == inclusive_scan(sequence@),
{
    match strategy {
        Strategy::LookBack => {
            let mut pass = LookbackPass::new(sequence, capacity);
            let _order = pass.finish();
            pass.output()
        },
        Strategy::TwoPass => two_pass_scan(sequence, capacity).output,
    }
}

/// The inclusive prefix sum of `sequence`: element `k` of the result is the
/// wrapped sum of the elements `0..=k`.
pub fn scan(sequence: &[i64]) -> (output: Vec<i64>)
    ensures
        output@ == inclusive_scan(sequence@),
{
    scan_with(sequence, BlockCapacity::standard(), Strategy::LookBack)
}

} // verus!
