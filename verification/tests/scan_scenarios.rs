use prefix_scan::cell::StateCell;
use prefix_scan::cpu;
use prefix_scan::ladder::two_pass_scan;
use prefix_scan::layout::BlockCapacity;
use prefix_scan::scan::{scan, scan_into, scan_with, scan_with_schedule, ScanError, Strategy};

fn capacity(elements: usize) -> BlockCapacity {
    BlockCapacity::new(elements).unwrap()
}

fn round_robin(lanes: usize, rounds: usize) -> Vec<usize> {
    let mut schedule = Vec::new();
    for _ in 0..rounds {
        for lane in 0..lanes {
            schedule.push(lane);
        }
    }
    schedule
}

fn sample(len: usize) -> Vec<i64> {
    (0..len as i64).map(|i| (i * 7919) % 101 - 50).collect()
}

#[test]
fn sixteen_ones_in_blocks_of_four() {
    let input = vec![1i64; 16];
    let expected: Vec<i64> = (1..=16).collect();
    assert_eq!(scan_with(&input, capacity(4), Strategy::LookBack), expected);
    assert_eq!(scan_with(&input, capacity(4), Strategy::TwoPass), expected);
    assert_eq!(scan(&input), expected);
    assert_eq!(cpu::run(&input), expected);
}

#[test]
fn sixteen_ones_resolve_to_block_prefixes() {
    let input = vec![1i64; 16];
    let scanned = two_pass_scan(&input, capacity(4));
    assert_eq!(scanned.output, (1..=16).collect::<Vec<i64>>());
    assert_eq!(scanned.levels.len(), 2);
    assert_eq!(
        scanned.levels[0],
        vec![
            StateCell::GlobalPrefixKnown(4),
            StateCell::GlobalPrefixKnown(8),
            StateCell::GlobalPrefixKnown(12),
            StateCell::GlobalPrefixKnown(16),
        ]
    );
    assert_eq!(scanned.levels[1], vec![StateCell::GlobalPrefixKnown(16)]);
}

#[test]
fn reference_scan_follows_the_recurrence() {
    let input = vec![3i64, -1, 4, -1, 5, -9, 2, 6];
    let output = cpu::run(&input);
    assert_eq!(output, vec![3, 2, 6, 5, 10, 1, 3, 9]);
    assert_eq!(output[0], input[0]);
    for i in 1..input.len() {
        assert_eq!(output[i], output[i - 1].wrapping_add(input[i]));
    }
}

#[test]
fn reference_scan_of_nothing_is_nothing() {
    assert_eq!(cpu::run(&[]), Vec::<i64>::new());
    assert_eq!(scan(&[]), Vec::<i64>::new());
    assert_eq!(scan_with(&[], capacity(2), Strategy::TwoPass), Vec::<i64>::new());
}

#[test]
fn every_scan_agrees_with_the_reference() {
    for len in [1usize, 2, 3, 4, 5, 7, 8, 9, 15, 16, 17, 31, 64, 100, 257] {
        let input = sample(len);
        let expected = cpu::run(&input);
        for width in [2usize, 4, 8, 128] {
            assert_eq!(scan_with(&input, capacity(width), Strategy::LookBack), expected);
            assert_eq!(scan_with(&input, capacity(width), Strategy::TwoPass), expected);
        }
        assert_eq!(scan(&input), expected);
    }
}

#[test]
fn sums_wrap_around() {
    let input = vec![i64::MAX, 1, 1, i64::MIN, -1];
    let expected = vec![i64::MAX, i64::MIN, i64::MIN + 1, 1, 0];
    assert_eq!(cpu::run(&input), expected);
    assert_eq!(scan_with(&input, capacity(2), Strategy::LookBack), expected);
    assert_eq!(scan_with(&input, capacity(2), Strategy::TwoPass), expected);
}

#[test]
fn single_element_is_unchanged() {
    assert_eq!(scan(&[42]), vec![42]);
    assert_eq!(scan_with(&[-7], capacity(4), Strategy::TwoPass), vec![-7]);
    let scanned = two_pass_scan(&[42], capacity(4));
    assert_eq!(scanned.levels.len(), 1);
    assert_eq!(scanned.levels[0], vec![StateCell::GlobalPrefixKnown(42)]);
    assert_eq!(scan_with_schedule(&[42], capacity(4), &[0, 0, 0], 0), Ok(vec![42]));
}

#[test]
fn one_full_block_needs_one_level() {
    let input = vec![2i64, 2, 2, 2];
    let scanned = two_pass_scan(&input, capacity(4));
    assert_eq!(scanned.output, vec![2, 4, 6, 8]);
    assert_eq!(scanned.levels.len(), 1);
    assert_eq!(scanned.levels[0].len(), 1);
}

#[test]
fn one_past_a_block_adds_a_level() {
    let input = vec![2i64, 2, 2, 2, 2];
    let scanned = two_pass_scan(&input, capacity(4));
    assert_eq!(scanned.output, vec![2, 4, 6, 8, 10]);
    assert_eq!(scanned.levels.len(), 2);
    assert_eq!(scanned.levels[0].len(), 2);
    assert_eq!(scanned.levels[1].len(), 1);
}

#[test]
fn sixty_four_elements_take_three_levels() {
    let input = sample(64);
    let scanned = two_pass_scan(&input, capacity(4));
    assert_eq!(scanned.output, cpu::run(&input));
    let blocks: Vec<usize> = scanned.levels.iter().map(|cells| cells.len()).collect();
    assert_eq!(blocks, vec![16, 4, 1]);
    for cells in &scanned.levels {
        for cell in cells {
            assert!(cell.is_resolved());
        }
    }
}

#[test]
fn ladder_cells_hold_sums_up_to_block_ends() {
    let input = sample(23);
    let reference = cpu::run(&input);
    let scanned = two_pass_scan(&input, capacity(4));
    assert_eq!(scanned.levels[0].len(), 6);
    for (b, cell) in scanned.levels[0].iter().enumerate() {
        let end = usize::min(4 * (b + 1), 23);
        assert_eq!(*cell, StateCell::global_prefix(reference[end - 1]));
    }
}

#[test]
fn output_does_not_depend_on_the_schedule() {
    let input = sample(16);
    let expected = cpu::run(&input);
    let forward = round_robin(4, 8);
    let backward: Vec<usize> = forward.iter().rev().copied().collect();
    let one_by_one: Vec<usize> = vec![2, 2, 2, 0, 0, 0, 0, 3, 3, 3, 1, 1, 1, 1, 2, 2, 0, 3, 3, 1];
    assert_eq!(scan_with_schedule(&input, capacity(4), &forward, 0), Ok(expected.clone()));
    assert_eq!(scan_with_schedule(&input, capacity(4), &backward, 8), Ok(expected.clone()));
    assert_eq!(scan_with_schedule(&input, capacity(4), &one_by_one, 8), Ok(expected));
}

#[test]
fn repeated_runs_give_the_same_output() {
    let input = sample(40);
    let schedule = round_robin(10, 14);
    let first = scan_with_schedule(&input, capacity(4), &schedule, usize::MAX);
    let second = scan_with_schedule(&input, capacity(4), &schedule, usize::MAX);
    assert!(first.is_ok());
    assert_eq!(first, second);
}

#[test]
fn short_schedule_stalls() {
    let input = vec![1i64; 16];
    assert_eq!(
        scan_with_schedule(&input, capacity(4), &[], usize::MAX),
        Err(ScanError::StalledLookback)
    );
    assert_eq!(
        scan_with_schedule(&input, capacity(4), &[0, 0, 0, 1, 1, 1, 2, 2, 2], usize::MAX),
        Err(ScanError::StalledLookback)
    );
}

#[test]
fn starved_workgroup_stalls_the_rest() {
    let input = vec![1i64; 8];
    // Lane 0 claims block 0 and is never scheduled again: lane 1 waits for good.
    let mut schedule = vec![0usize];
    schedule.extend(std::iter::repeat(1).take(50));
    assert_eq!(
        scan_with_schedule(&input, capacity(4), &schedule, 10),
        Err(ScanError::StalledLookback)
    );
    assert_eq!(
        scan_with_schedule(&input, capacity(4), &schedule, usize::MAX),
        Err(ScanError::StalledLookback)
    );
}

#[test]
fn waiting_longer_than_told_stalls() {
    let input = vec![1i64; 8];
    // Lane 1 holds block 1 and reads the empty cell of block 0 three times in a row.
    let schedule = [0usize, 1, 1, 1, 1, 1, 0, 1, 1, 0];
    let expected: Vec<i64> = (1..=8).collect();
    assert_eq!(scan_with_schedule(&input, capacity(4), &schedule, 3), Ok(expected.clone()));
    assert_eq!(scan_with_schedule(&input, capacity(4), &schedule, usize::MAX), Ok(expected));
    assert_eq!(
        scan_with_schedule(&input, capacity(4), &schedule, 2),
        Err(ScanError::StalledLookback)
    );
    assert_eq!(
        scan_with_schedule(&input, capacity(4), &schedule, 0),
        Err(ScanError::StalledLookback)
    );
}

#[test]
fn schedule_entries_that_name_no_lane_are_skipped() {
    let input = vec![5i64, 5, 5];
    assert_eq!(
        scan_with_schedule(&input, capacity(4), &[9, 0, 7, 0, 0, 100], 0),
        Ok(vec![5, 10, 15])
    );
}

#[test]
fn scan_into_scans_in_place_and_reports() {
    let mut buffer = vec![1i64; 16];
    let report = scan_into(&mut buffer, 16, capacity(4)).unwrap();
    assert_eq!(buffer, (1..=16).collect::<Vec<i64>>());
    assert_eq!(report.next_block, 4);
    assert_eq!(
        report.cells,
        vec![
            StateCell::GlobalPrefixKnown(4),
            StateCell::GlobalPrefixKnown(8),
            StateCell::GlobalPrefixKnown(12),
            StateCell::GlobalPrefixKnown(16),
        ]
    );
}

#[test]
fn scan_into_refuses_a_wrong_size() {
    let mut buffer = vec![1i64, 2, 3];
    let result = scan_into(&mut buffer, 4, capacity(4));
    assert!(matches!(result, Err(ScanError::BufferSizeMismatch)));
    assert_eq!(buffer, vec![1, 2, 3]);
}

#[test]
fn scan_into_of_an_empty_buffer_dispatches_one_workgroup() {
    let mut buffer: Vec<i64> = Vec::new();
    let report = scan_into(&mut buffer, 0, capacity(4)).unwrap();
    assert!(buffer.is_empty());
    assert_eq!(report.next_block, 1);
    assert_eq!(report.cells, vec![StateCell::GlobalPrefixZero]);
}

#[test]
fn zero_sum_blocks_publish_zero_tags() {
    let mut buffer = vec![1i64, -1, 2, -2, 5, 5, 5, 5, 0, 0, 0, 0, -20];
    let report = scan_into(&mut buffer, 13, capacity(4)).unwrap();
    assert_eq!(buffer, vec![1, 0, 2, 0, 5, 10, 15, 20, 20, 20, 20, 20, 0]);
    assert_eq!(
        report.cells,
        vec![
            StateCell::GlobalPrefixZero,
            StateCell::GlobalPrefixKnown(20),
            StateCell::GlobalPrefixKnown(20),
            StateCell::GlobalPrefixZero,
        ]
    );
}

#[test]
fn blocks_of_two_build_a_tall_ladder() {
    let input = sample(100);
    let scanned = two_pass_scan(&input, capacity(2));
    assert_eq!(scanned.output, cpu::run(&input));
    let blocks: Vec<usize> = scanned.levels.iter().map(|cells| cells.len()).collect();
    assert_eq!(blocks, vec![50, 25, 13, 7, 4, 2, 1]);
}
