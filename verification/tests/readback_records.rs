use prefix_scan::layout::STATE_RECORD_BYTES;
use prefix_scan::readback::{
    all_resolved, decode_states, decode_words, zeroed_contents, WorkGroupState,
};

fn record(state: u32, aggregate: u32, prefix: u32, text: &[u8]) -> Vec<u8> {
    let mut bytes = Vec::new();
    bytes.extend_from_slice(&state.to_ne_bytes());
    bytes.extend_from_slice(&aggregate.to_ne_bytes());
    bytes.extend_from_slice(&prefix.to_ne_bytes());
    // The device packs the text four characters to a word, first character lowest.
    let mut area = vec![0u8; 1024];
    area[..text.len()].copy_from_slice(text);
    for group in area.chunks_exact(4) {
        let word = u32::from_le_bytes([group[0], group[1], group[2], group[3]]);
        bytes.extend_from_slice(&word.to_ne_bytes());
    }
    bytes.extend_from_slice(&77u32.to_ne_bytes());
    assert_eq!(bytes.len(), STATE_RECORD_BYTES);
    bytes
}

#[test]
fn words_are_read_in_native_order() {
    let mut bytes = Vec::new();
    for word in [1u32, 0x0102_0304, u32::MAX, 0] {
        bytes.extend_from_slice(&word.to_ne_bytes());
    }
    assert_eq!(decode_words(&bytes, 4), vec![1, 0x0102_0304, u32::MAX, 0]);
    assert_eq!(decode_words(&bytes, 2), vec![1, 0x0102_0304]);
    assert_eq!(decode_words(&bytes, 0), Vec::<u32>::new());
}

#[test]
fn words_beyond_the_bytes_are_not_read() {
    let mut bytes = Vec::new();
    bytes.extend_from_slice(&7u32.to_ne_bytes());
    bytes.extend_from_slice(&8u32.to_ne_bytes());
    bytes.extend_from_slice(&[1, 2, 3]);
    assert_eq!(decode_words(&bytes, 10), vec![7, 8]);
    assert_eq!(decode_words(&[], 3), Vec::<u32>::new());
    assert_eq!(decode_words(&[1, 2, 3], 1), Vec::<u32>::new());
}

#[test]
fn words_carry_float_bits_unchanged() {
    let values = [1.0f32, 2.5, -0.0, 16.0];
    let mut bytes = Vec::new();
    for value in values {
        bytes.extend_from_slice(&value.to_ne_bytes());
    }
    let read: Vec<f32> = decode_words(&bytes, 4).into_iter().map(f32::from_bits).collect();
    assert_eq!(read, values);
}

#[test]
fn zeroed_contents_are_four_zero_bytes_per_word() {
    assert_eq!(zeroed_contents(0), Vec::<u8>::new());
    assert_eq!(zeroed_contents(3), vec![0u8; 12]);
    assert_eq!(zeroed_contents(1024).len(), 4096);
}

#[test]
fn state_records_are_read_field_by_field() {
    let mut bytes = record(3, 4.0f32.to_bits(), 12.0f32.to_bits(), b"block two");
    bytes.extend(record(0, 0, 0, b""));
    let states = decode_states(&bytes, 2);
    assert_eq!(states.len(), 2);
    assert_eq!(states[0].state, 3);
    assert_eq!(f32::from_bits(states[0].aggregate_bits), 4.0);
    assert_eq!(f32::from_bits(states[0].inclusive_prefix_bits), 12.0);
    assert_eq!(states[0].debug_info.len(), 1024);
    assert_eq!(&states[0].debug_info[..9], b"block two");
    assert_eq!(states[0].debug_info[9], 0);
    assert_eq!(states[0].next_byte, 0);
    assert_eq!(states[1].state, 0);
    assert_eq!(states[1].debug_info, vec![0u8; 1024]);
}

#[test]
fn state_records_beyond_the_bytes_are_not_read() {
    let mut bytes = record(1, 0, 0, b"");
    bytes.extend_from_slice(&[0u8; 1039]);
    assert_eq!(decode_states(&bytes, 5).len(), 1);
    assert_eq!(decode_states(&bytes, 0).len(), 0);
    assert_eq!(decode_states(&bytes[..1039], 1).len(), 0);
}

#[test]
fn state_names_follow_the_tag() {
    let names: Vec<&str> = (0..7u32)
        .map(|state| decode_states(&record(state, 0, 0, b""), 1)[0].state_name())
        .collect();
    assert_eq!(
        names,
        vec![
            "Uninit",
            "Aggregated",
            "Zero Aggregated",
            "Prefixed",
            "Zero Prefixed",
            "Unknown",
            "Unknown",
        ]
    );
    let odd = WorkGroupState {
        state: u32::MAX,
        aggregate_bits: 0,
        inclusive_prefix_bits: 0,
        debug_info: vec![0; 1024],
        next_byte: 0,
    };
    assert_eq!(odd.state_name(), "Unknown");
}

#[test]
fn debug_text_ends_at_the_first_zero_byte() {
    let states = decode_states(&record(1, 0, 0, b"hello\0world"), 1);
    assert_eq!(states[0].debug_bytes(), b"hello".to_vec());
    assert_eq!(states[0].debug_text(), Some(String::from("hello")));
    let empty = decode_states(&record(1, 0, 0, b""), 1);
    assert_eq!(empty[0].debug_bytes(), Vec::<u8>::new());
    assert_eq!(empty[0].debug_text(), Some(String::new()));
}

#[test]
fn debug_text_may_fill_the_whole_area() {
    let full = vec![b'x'; 1024];
    let states = decode_states(&record(1, 0, 0, &full), 1);
    assert_eq!(states[0].debug_bytes(), full);
    assert_eq!(states[0].debug_text().unwrap().len(), 1024);
}

#[test]
fn debug_text_that_is_not_utf8_is_no_text() {
    let states = decode_states(&record(1, 0, 0, &[b'a', 0xff, b'b']), 1);
    assert_eq!(states[0].debug_bytes(), vec![b'a', 0xff, b'b']);
    assert_eq!(states[0].debug_text(), None);
    let accented = decode_states(&record(1, 0, 0, "pr\u{e9}fixe".as_bytes()), 1);
    assert_eq!(accented[0].debug_text(), Some(String::from("pr\u{e9}fixe")));
}

#[test]
fn all_resolved_wants_every_record_prefixed() {
    let mut bytes = record(3, 0, 0, b"");
    bytes.extend(record(4, 0, 0, b""));
    let done = decode_states(&bytes, 2);
    assert!(done[0].is_resolved() && done[1].is_resolved());
    assert!(all_resolved(&done));
    bytes.extend(record(1, 0, 0, b""));
    let pending = decode_states(&bytes, 3);
    assert!(!pending[2].is_resolved());
    assert!(!all_resolved(&pending));
    assert!(all_resolved(&[]));
}
