use prefix_scan::cell::StateCell;
use prefix_scan::layout::{
    block_range, data_buffer_size, state_buffer_size, workgroup_count, BlockCapacity,
    DEBUG_BYTES, DEFAULT_BLOCK_CAPACITY, ELEMENT_BYTES, STATE_RECORD_BYTES,
};

#[test]
fn capacity_is_a_power_of_two_from_two_up() {
    for good in [2usize, 4, 8, 128, 1 << 20] {
        assert_eq!(BlockCapacity::new(good).unwrap().get(), good);
    }
    for bad in [0usize, 1, 3, 5, 6, 12, 100, 129, usize::MAX] {
        assert!(BlockCapacity::new(bad).is_none());
    }
    assert_eq!(BlockCapacity::standard().get(), DEFAULT_BLOCK_CAPACITY);
    assert_eq!(DEFAULT_BLOCK_CAPACITY, 4);
}

#[test]
fn workgroup_count_rounds_up() {
    let four = BlockCapacity::new(4).unwrap();
    assert_eq!(workgroup_count(0, four), 1);
    assert_eq!(workgroup_count(1, four), 1);
    assert_eq!(workgroup_count(4, four), 1);
    assert_eq!(workgroup_count(5, four), 2);
    assert_eq!(workgroup_count(16, four), 4);
    assert_eq!(workgroup_count(17, four), 5);
    assert_eq!(workgroup_count(64, four), 16);
    assert_eq!(workgroup_count(usize::MAX, four), usize::MAX / 4 + 1);
    // Exact where a division in single precision would round.
    assert_eq!(workgroup_count(16_777_217, four), 4_194_305);
}

#[test]
fn one_past_a_boundary_opens_a_short_block() {
    let four = BlockCapacity::new(4).unwrap();
    assert_eq!(workgroup_count(8, four) + 1, workgroup_count(9, four));
    assert_eq!(block_range(1, 9, four), (4, 8));
    assert_eq!(block_range(2, 9, four), (8, 9));
}

#[test]
fn block_ranges_tile_the_sequence() {
    let eight = BlockCapacity::new(8).unwrap();
    let len = 27;
    let blocks = workgroup_count(len, eight);
    assert_eq!(blocks, 4);
    let mut expected_start = 0;
    for b in 0..blocks {
        let (start, end) = block_range(b, len, eight);
        assert_eq!(start, expected_start);
        assert!(end - start <= 8);
        expected_start = end;
    }
    assert_eq!(expected_start, len);
    assert_eq!(block_range(0, 0, eight), (0, 0));
}

#[test]
fn buffer_sizes_are_counted_in_bytes() {
    assert_eq!(ELEMENT_BYTES, 4);
    assert_eq!(STATE_RECORD_BYTES, 4 + 4 + 4 + DEBUG_BYTES + 4);
    assert_eq!(data_buffer_size(0), Some(0));
    assert_eq!(data_buffer_size(16), Some(64));
    assert_eq!(state_buffer_size(4), Some(4160));
    assert_eq!(state_buffer_size(1), Some(1040));
    assert_eq!(data_buffer_size(usize::MAX), None);
    assert_eq!(state_buffer_size(usize::MAX), None);
    assert_eq!(data_buffer_size((u64::MAX / 4) as usize), Some(u64::MAX - 3));
}

#[test]
fn cells_tag_zero_apart() {
    assert_eq!(StateCell::aggregate(5), StateCell::AggregateKnown(5));
    assert_eq!(StateCell::aggregate(0), StateCell::AggregateZero);
    assert_eq!(StateCell::global_prefix(-3), StateCell::GlobalPrefixKnown(-3));
    assert_eq!(StateCell::global_prefix(0), StateCell::GlobalPrefixZero);
}

#[test]
fn cell_codes_match_the_device_record() {
    assert_eq!(StateCell::Uninitialized.code(), 0);
    assert_eq!(StateCell::AggregateKnown(1).code(), 1);
    assert_eq!(StateCell::AggregateZero.code(), 2);
    assert_eq!(StateCell::GlobalPrefixKnown(1).code(), 3);
    assert_eq!(StateCell::GlobalPrefixZero.code(), 4);
}

#[test]
fn cell_values_read_zero_for_zero_tags() {
    assert_eq!(StateCell::Uninitialized.value(), 0);
    assert_eq!(StateCell::AggregateKnown(9).value(), 9);
    assert_eq!(StateCell::AggregateZero.value(), 0);
    assert_eq!(StateCell::GlobalPrefixKnown(-9).value(), -9);
    assert_eq!(StateCell::GlobalPrefixZero.value(), 0);
}

#[test]
fn cells_only_move_forward() {
    let stages = [
        vec![StateCell::Uninitialized],
        vec![StateCell::AggregateKnown(1), StateCell::AggregateZero],
        vec![StateCell::GlobalPrefixKnown(1), StateCell::GlobalPrefixZero],
    ];
    for (i, from_stage) in stages.iter().enumerate() {
        for (j, to_stage) in stages.iter().enumerate() {
            for from in from_stage {
                for to in to_stage {
                    assert_eq!(from.can_become(to), i < j);
                }
            }
        }
    }
    assert!(StateCell::GlobalPrefixZero.is_resolved());
    assert!(StateCell::GlobalPrefixKnown(2).is_resolved());
    assert!(!StateCell::AggregateZero.is_resolved());
    assert!(!StateCell::Uninitialized.is_resolved());
}
