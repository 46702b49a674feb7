use prefix_scan::cell::StateCell;
use prefix_scan::claim::ClaimCounter;
use prefix_scan::ladder::{reduce_level, resolve_level};
use prefix_scan::layout::BlockCapacity;
use prefix_scan::lookback::LookbackPass;
use prefix_scan::protocol::{BlockTrace, Progress};
use prefix_scan::reducer::{add_to_block, reduce_block};
use prefix_scan::walker::{Sighting, Walker};

fn four() -> BlockCapacity {
    BlockCapacity::new(4).unwrap()
}

#[test]
fn claim_counter_hands_out_each_index_once() {
    let mut counter = ClaimCounter::new(3);
    assert_eq!(counter.taken(), 0);
    assert_eq!(counter.claim(), Some(0));
    assert_eq!(counter.claim(), Some(1));
    assert_eq!(counter.taken(), 2);
    assert_eq!(counter.claim(), Some(2));
    assert_eq!(counter.claim(), None);
    assert_eq!(counter.claim(), None);
    assert_eq!(counter.taken(), 3);
}

#[test]
fn claim_counter_starts_over_after_reset() {
    let mut counter = ClaimCounter::new(1);
    assert_eq!(counter.claim(), Some(0));
    assert_eq!(counter.claim(), None);
    counter.reset(2);
    assert_eq!(counter.taken(), 0);
    assert_eq!(counter.claim(), Some(0));
    assert_eq!(counter.claim(), Some(1));
    assert_eq!(counter.claim(), None);
}

#[test]
fn claim_counter_with_no_indices_hands_out_none() {
    let mut counter = ClaimCounter::new(0);
    assert_eq!(counter.claim(), None);
    assert_eq!(counter.taken(), 0);
}

#[test]
fn reduce_block_scans_its_window_only() {
    let mut data = vec![9i64, 1, 2, 3, 4, 9];
    let aggregate = reduce_block(&mut data, 1, 5);
    assert_eq!(aggregate, 10);
    assert_eq!(data, vec![9, 1, 3, 6, 10, 9]);
}

#[test]
fn reduce_block_of_nothing_sums_to_zero() {
    let mut data = vec![7i64, 8];
    assert_eq!(reduce_block(&mut data, 1, 1), 0);
    assert_eq!(data, vec![7, 8]);
}

#[test]
fn add_to_block_shifts_its_window_only() {
    let mut data = vec![1i64, 2, 3, 4, 5];
    add_to_block(&mut data, 2, 4, 100);
    assert_eq!(data, vec![1, 2, 103, 104, 5]);
    add_to_block(&mut data, 0, 1, i64::MAX);
    assert_eq!(data[0], i64::MIN);
}

#[test]
fn walker_of_block_zero_has_nothing_to_read() {
    let walker = Walker::start(0);
    assert!(walker.is_resolved());
    assert_eq!(walker.target(), None);
    assert_eq!(walker.running, 0);
}

#[test]
fn walker_adds_aggregates_until_a_prefix_stops_it() {
    let mut walker = Walker::start(5);
    assert_eq!(walker.target(), Some(4));
    assert_eq!(walker.observe(StateCell::AggregateKnown(7)), Sighting::Continue);
    assert_eq!(walker.target(), Some(3));
    assert_eq!(walker.observe(StateCell::AggregateKnown(-2)), Sighting::Continue);
    assert_eq!(walker.running, 5);
    assert_eq!(walker.observe(StateCell::GlobalPrefixKnown(100)), Sighting::Stop);
    assert!(walker.is_resolved());
    assert_eq!(walker.running, 105);
    assert_eq!(walker.block, 5);
}

#[test]
fn walker_waits_at_an_empty_cell() {
    let mut walker = Walker::start(2);
    assert_eq!(walker.observe(StateCell::Uninitialized), Sighting::Wait);
    assert_eq!(walker, Walker { block: 2, cursor: 2, running: 0, waits: 1 });
    assert_eq!(walker.observe(StateCell::Uninitialized), Sighting::Wait);
    assert_eq!(walker.waits, 2);
    assert_eq!(walker.target(), Some(1));
    assert_eq!(walker.observe(StateCell::AggregateKnown(3)), Sighting::Continue);
    assert_eq!(walker, Walker { block: 2, cursor: 1, running: 3, waits: 0 });
}

#[test]
fn walker_reads_zero_tags_as_values() {
    let mut walker = Walker::start(3);
    assert_eq!(walker.observe(StateCell::AggregateKnown(6)), Sighting::Continue);
    assert_eq!(walker.observe(StateCell::AggregateZero), Sighting::Continue);
    assert_eq!(walker.cursor, 1);
    assert_eq!(walker.running, 6);
    assert_eq!(walker.observe(StateCell::GlobalPrefixZero), Sighting::Stop);
    assert!(walker.is_resolved());
    assert_eq!(walker.running, 6);
}

#[test]
fn walker_walks_down_to_block_zero() {
    let mut walker = Walker::start(2);
    assert_eq!(walker.observe(StateCell::AggregateKnown(1)), Sighting::Continue);
    assert_eq!(walker.observe(StateCell::AggregateKnown(2)), Sighting::Continue);
    assert!(walker.is_resolved());
    assert_eq!(walker.running, 3);
    assert_eq!(walker.observe(StateCell::AggregateKnown(50)), Sighting::Stop);
    assert_eq!(walker.running, 3);
}

#[test]
fn pass_starts_with_nothing_published() {
    let pass = LookbackPass::new(&[1, 1, 1, 1, 1, 1, 1, 1, 1], four());
    assert_eq!(pass.cells(), vec![StateCell::Uninitialized; 3]);
    assert_eq!(pass.next_block(), 0);
    assert!(!pass.is_complete());
    assert_eq!(pass.output(), vec![1; 9]);
}

#[test]
fn blocks_go_to_lanes_in_the_order_of_asking() {
    let mut pass = LookbackPass::new(&[1i64; 12], four());
    assert_eq!(pass.step(2), Progress::Advanced);
    assert_eq!(pass.next_block(), 1);
    assert_eq!(pass.step(0), Progress::Advanced);
    assert_eq!(pass.next_block(), 2);
    // Lane 2 holds block 0: its reduction publishes in cell 0.
    assert_eq!(pass.step(2), Progress::Advanced);
    assert_eq!(
        pass.cells(),
        vec![StateCell::AggregateKnown(4), StateCell::Uninitialized, StateCell::Uninitialized]
    );
    assert_eq!(pass.output(), vec![1, 2, 3, 4, 1, 1, 1, 1, 1, 1, 1, 1]);
}

#[test]
fn look_back_waits_for_an_unpublished_block() {
    let mut pass = LookbackPass::new(&[1i64; 8], four());
    assert_eq!(pass.step(0), Progress::Advanced); // lane 0 claims block 0
    assert_eq!(pass.step(1), Progress::Advanced); // lane 1 claims block 1
    assert_eq!(pass.step(1), Progress::Advanced); // lane 1 reduces block 1
    assert_eq!(pass.step(1), Progress::Waiting);
    assert_eq!(pass.step(1), Progress::Waiting);
    assert_eq!(pass.step(0), Progress::Advanced); // lane 0 reduces block 0
    assert_eq!(pass.step(1), Progress::Advanced); // lane 1 reads the aggregate
    assert_eq!(pass.step(1), Progress::Advanced); // lane 1 publishes
    assert_eq!(pass.step(1), Progress::Retired);
    assert_eq!(
        pass.cells(),
        vec![StateCell::AggregateKnown(4), StateCell::GlobalPrefixKnown(8)]
    );
    assert_eq!(pass.output(), vec![1, 2, 3, 4, 5, 6, 7, 8]);
    assert!(!pass.is_complete());
    assert_eq!(pass.step(0), Progress::Advanced); // lane 0 publishes
    assert!(pass.is_complete());
    assert_eq!(pass.output(), vec![1, 2, 3, 4, 5, 6, 7, 8]);
}

#[test]
fn run_within_stops_where_patience_ends() {
    let mut pass = LookbackPass::new(&[1i64; 8], four());
    // Steps 3, 4 and 5 are waits of lane 1 at the empty cell of block 0.
    let schedule = [0usize, 1, 1, 1, 1, 1, 0, 1, 1, 0];
    assert_eq!(pass.run_within(&schedule, 2), Some(5));
    assert_eq!(pass.waits(1), 3);
    assert_eq!(pass.waits(0), 0);
    assert_eq!(pass.waits(7), 0);
    assert!(!pass.is_complete());
    // The pass can go on from where it stopped.
    assert_eq!(pass.run_within(&schedule[6..], 2), None);
    assert_eq!(pass.waits(1), 0);
    assert!(pass.is_complete());
    assert_eq!(pass.output(), (1..=8).collect::<Vec<i64>>());
}

#[test]
fn run_within_runs_a_whole_schedule_that_never_waits() {
    let mut pass = LookbackPass::new(&[1i64; 12], four());
    assert_eq!(pass.run_within(&[0, 0, 0, 1, 1, 1, 1, 2, 2, 2, 2], 0), None);
    assert!(pass.is_complete());
    assert_eq!(pass.run_within(&[], 0), None);
}

#[test]
fn look_back_stops_at_a_resolved_block() {
    let mut pass = LookbackPass::new(&[1i64; 12], four());
    pass.run(&[0, 1, 2, 0, 0, 1, 1, 1]);
    // Blocks 0 and 1 are resolved; lane 2 reduces and needs one read only.
    assert_eq!(pass.step(2), Progress::Advanced);
    assert_eq!(pass.step(2), Progress::Advanced);
    assert_eq!(pass.step(2), Progress::Advanced);
    assert_eq!(pass.step(2), Progress::Retired);
    assert!(pass.is_complete());
    assert_eq!(pass.output(), (1..=12).collect::<Vec<i64>>());
}

#[test]
fn step_of_a_missing_lane_changes_nothing() {
    let mut pass = LookbackPass::new(&[1i64; 4], four());
    assert_eq!(pass.step(1), Progress::Retired);
    assert_eq!(pass.step(usize::MAX), Progress::Retired);
    assert_eq!(pass.next_block(), 0);
    assert_eq!(pass.cells(), vec![StateCell::Uninitialized]);
}

#[test]
fn finish_completes_a_pass_from_any_state() {
    let input: Vec<i64> = (1..=20).collect();
    let mut pass = LookbackPass::new(&input, four());
    pass.run(&[4, 4, 4, 1, 1, 3]);
    let order = pass.finish();
    assert!(pass.is_complete());
    assert_eq!(pass.next_block(), 5);
    let expected: Vec<i64> = (1..=20).map(|k| k * (k + 1) / 2).collect();
    assert_eq!(pass.output(), expected);
    // Replaying the same steps on a fresh pass leads to the same end.
    let mut replay = LookbackPass::new(&input, four());
    replay.run(&[4, 4, 4, 1, 1, 3]);
    replay.run(&order);
    assert!(replay.is_complete());
    assert_eq!(replay.output(), expected);
    assert_eq!(replay.cells(), pass.cells());
}

#[test]
fn finish_of_a_finished_pass_takes_no_step() {
    let mut pass = LookbackPass::new(&[3i64, 4], four());
    let first = pass.finish();
    assert_eq!(first, vec![0, 0, 0]);
    assert_eq!(pass.finish(), Vec::<usize>::new());
    assert_eq!(pass.output(), vec![3, 7]);
}

#[test]
fn trace_tells_aggregate_and_prefix_of_each_block() {
    let mut pass = LookbackPass::new(&[1i64; 16], four());
    pass.run(&[3, 2, 3, 2]);
    let early = pass.trace();
    assert_eq!(
        early[0],
        BlockTrace { cell: StateCell::AggregateKnown(4), aggregate: Some(4), prefix: None }
    );
    assert_eq!(
        early[2],
        BlockTrace { cell: StateCell::Uninitialized, aggregate: None, prefix: None }
    );
    pass.finish();
    let trace = pass.trace();
    assert_eq!(trace.len(), 4);
    for (b, block) in trace.iter().enumerate() {
        assert_eq!(block.aggregate, Some(4));
        assert_eq!(block.prefix, Some(4 * b as i64));
        assert_eq!(block.cell, StateCell::GlobalPrefixKnown(4 * (b as i64 + 1)));
    }
}

#[test]
fn zero_aggregate_is_read_without_waiting() {
    let mut pass = LookbackPass::new(&[2i64, -2, 0, 0, 1, 1, 1, 1], four());
    pass.run(&[0, 1, 0, 1]);
    assert_eq!(pass.cells(), vec![StateCell::AggregateZero, StateCell::AggregateKnown(4)]);
    assert_eq!(pass.step(1), Progress::Advanced);
    assert_eq!(pass.step(1), Progress::Advanced);
    assert_eq!(pass.cells(), vec![StateCell::AggregateZero, StateCell::GlobalPrefixKnown(4)]);
    assert_eq!(pass.step(0), Progress::Advanced);
    assert_eq!(pass.cells(), vec![StateCell::GlobalPrefixZero, StateCell::GlobalPrefixKnown(4)]);
    assert_eq!(pass.output(), vec![2, 0, 0, 0, 1, 2, 3, 4]);
}

#[test]
fn reduce_level_publishes_every_aggregate() {
    let mut data = vec![1i64, 2, 3, 4, 5, -5, 0, 0, 7];
    let mut counter = ClaimCounter::new(0);
    let (cells, sums) = reduce_level(&mut data, &mut counter, four());
    assert_eq!(data, vec![1, 3, 6, 10, 5, 0, 0, 0, 7]);
    assert_eq!(sums, vec![10, 0, 7]);
    assert_eq!(
        cells,
        vec![StateCell::AggregateKnown(10), StateCell::AggregateZero, StateCell::AggregateKnown(7)]
    );
    assert_eq!(counter.taken(), 3);
}

#[test]
fn resolve_level_adds_the_sums_before_each_block() {
    let mut data = vec![1i64, 2, 3, 4, 5, -5, 0, 0, 7];
    let mut counter = ClaimCounter::new(0);
    let (mut cells, sums) = reduce_level(&mut data, &mut counter, four());
    let above = prefix_scan::cpu::run(&sums);
    assert_eq!(above, vec![10, 10, 17]);
    resolve_level(&mut data, &mut cells, &above, &mut counter, four());
    assert_eq!(data, vec![1, 3, 6, 10, 15, 10, 10, 10, 17]);
    assert_eq!(
        cells,
        vec![
            StateCell::GlobalPrefixKnown(10),
            StateCell::GlobalPrefixKnown(10),
            StateCell::GlobalPrefixKnown(17),
        ]
    );
    assert_eq!(counter.taken(), 3);
}

#[test]
fn finish_wastes_no_step() {
    let input: Vec<i64> = (1..=30).collect();
    let mut pass = LookbackPass::new(&input, four());
    pass.run(&[7, 7, 7, 7, 2, 2, 5]);
    let order = pass.finish();
    let mut replay = LookbackPass::new(&input, four());
    replay.run(&[7, 7, 7, 7, 2, 2, 5]);
    for lane in order {
        assert_eq!(replay.step(lane), Progress::Advanced);
    }
    assert!(replay.is_complete());
}
