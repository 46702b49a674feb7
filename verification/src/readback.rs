//! What comes back from the device: bytes, read as the words and the
//! workgroup state records that the device wrote, and the bytes that a
//! buffer is first filled with.
//!
//! The device and the host share the host's byte order, so every word is read
//! in the order of the machine that runs this code. The contracts say what
//! holds on either kind of machine.

use vstd::prelude::*;
use vstd::slice::slice_subrange;
use vstd::utf8::{decode_utf8, valid_utf8};
use crate::layout::{DEBUG_BYTES, ELEMENT_BYTES, STATE_RECORD_BYTES};

verus! {

/// The word that four bytes spell, lowest byte first.
pub open spec fn le_value(group: Seq<u8>) -> int {
    group[0] + 256 * group[1] + 65536 * group[2] + 16777216 * group[3]
}

/// The word that four bytes spell, highest byte first.
pub open spec fn be_value(group: Seq<u8>) -> int {
    group[3] + 256 * group[2] + 65536 * group[1] + 16777216 * group[0]
}

/// `word` is what the four bytes of `group` spell in one of the two byte
/// orders.
pub open spec fn reads_as(group: Seq<u8>, word: u32) -> bool {
    group.len() == 4 && (word == le_value(group) || word == be_value(group))
}

/// The four bytes of `word`, lowest byte first.
pub open spec fn le_bytes(word: u32) -> Seq<u8> {
    seq![
        (word % 256) as u8,
        (word / 256 % 256) as u8,
        (word / 65536 % 256) as u8,
        (word / 16777216) as u8,
    ]
}

/// `copy` holds the bytes of `group`, in the same order or in the opposite
/// one.
pub open spec fn kept(group: Seq<u8>, copy: Seq<u8>) -> bool {
    copy == group || copy == group.reverse()
}

/// The bytes `4 * i .. 4 * i + 4` of `bytes`.
pub open spec fn group_at(bytes: Seq<u8>, i: int) -> Seq<u8> {
    bytes.subrange(4 * i, 4 * i + 4)
}

/// Number of bytes of `info` before its first zero byte, or all of them if
/// none is zero.
pub open spec fn text_length(info: Seq<u8>) -> int
    decreases info.len(),
{
    if info.len() == 0 || info[0] == 0 {
        0
    } else {
        1 + text_length(info.drop_first())
    }
}

/// The digits of a number written to the base 256 are its remainders.
proof fn lemma_digits(b0: int, b1: int, b2: int, b3: int)
    requires
        0 <= b0 < 256,
        0 <= b1 < 256,
        0 <= b2 < 256,
        0 <= b3 < 256,
    ensures
        ({
            let v = b0 + 256 * b1 + 65536 * b2 + 16777216 * b3;
            &&& 0 <= v <= u32::MAX
            &&& v % 256 == b0
            &&& v / 256 % 256 == b1
            &&& v / 65536 % 256 == b2
            &&& v / 16777216 == b3
        }),
{
    let v = b0 + 256 * b1 + 65536 * b2 + 16777216 * b3;
    let q1 = b1 + 256 * b2 + 65536 * b3;
    let q2 = b2 + 256 * b3;
    vstd::arithmetic::div_mod::lemma_fundamental_div_mod_converse(v, 256, q1, b0);
    vstd::arithmetic::div_mod::lemma_fundamental_div_mod_converse(q1, 256, q2, b1);
    vstd::arithmetic::div_mod::lemma_fundamental_div_mod_converse(q2, 256, b3, b2);
    vstd::arithmetic::div_mod::lemma_fundamental_div_mod_converse(v, 65536, q2, b0 + 256 * b1);
    vstd::arithmetic::div_mod::lemma_fundamental_div_mod_converse(
        v,
        16777216,
        b3,
        b0 + 256 * b1 + 65536 * b2,
    );
}

/// Spelling a word lowest byte first undoes reading it in either order, up
/// to the order.
pub proof fn lemma_le_bytes_of_read(group: Seq<u8>, word: u32)
    requires
        reads_as(group, word),
    ensures
        kept(group, le_bytes(word)),
        word == le_value(group) ==> le_bytes(word) == group,
{
    if word == le_value(group) {
        lemma_digits(group[0] as int, group[1] as int, group[2] as int, group[3] as int);
        assert(le_bytes(word) =~= group);
    } else {
        lemma_digits(group[3] as int, group[2] as int, group[1] as int, group[0] as int);
        assert(le_bytes(word) =~= group.reverse());
    }
}

/// The text ends at the only place that has no zero byte before it and a
/// zero byte, or the end, at it.
pub proof fn lemma_text_length(info: Seq<u8>, n: int)
    requires
        0 <= n <= info.len(),
        forall|i: int| 0 <= i < n ==> info[i] != 0,
        n == info.len() || info[n] == 0,
    ensures
        text_length(info) == n,
    decreases n,
{
    if n > 0 {
        let rest = info.drop_first();
        assert forall|i: int| 0 <= i < n - 1 implies rest[i] != 0 by {
            assert(rest[i] == info[i + 1]);
        }
        lemma_text_length(rest, n - 1);
    }
}

/// Reads four bytes as a word in the byte order of this machine
/// (`u32::from_ne_bytes`): the result is what the bytes spell lowest byte
/// first on a little-endian machine, and highest byte first on a big-endian
/// one.
#[verifier::external_body]
fn native_word(group: &[u8]) -> (word: u32)
    requires
        group@.len() == 4,
    ensures
        word == le_value(group@) || word == be_value(group@),
{
    u32::from_ne_bytes([group[0], group[1], group[2], group[3]])
}

/// Views a slice of words as bytes and copies them (`bytemuck::cast_slice`):
/// four bytes per word, in the order of the words, each group spelling its
/// word in the byte order of this machine.
#[verifier::external_body]
fn cast_words(words: &[u32]) -> (bytes: Vec<u8>)
    ensures
        bytes@.len() == 4 * words@.len(),
        forall|i: int|
            0 <= i < words@.len() ==> reads_as(#[trigger] group_at(bytes@, i), words@[i]),
{
    bytemuck::cast_slice::<u32, u8>(words).to_vec()
}

/// Turns bytes into text if they are UTF-8 (`String::from_utf8`), and into
/// nothing if they are not.
#[verifier::external_body]
fn utf8_text(bytes: Vec<u8>) -> (text: Option<String>)
    ensures
        text is Some <==> valid_utf8(bytes@),
        text matches Some(t) ==> t@ == decode_utf8(bytes@),
{
    match String::from_utf8(bytes) {
        Ok(text) => Some(text),
        Err(_) => None,
    }
}

/// Appends the four bytes of `word`, lowest byte first.
fn push_le_bytes(out: &mut Vec<u8>, word: u32)
    ensures
        final(out)@ == old(out)@ + le_bytes(word),
{
    out.push((word % 256) as u8);
    out.push((word / 256 % 256) as u8);
    out.push((word / 65536 % 256) as u8);
    out.push((word / 16777216) as u8);
    assert(out@ =~= old(out)@ + le_bytes(word));
}

/// The bytes that fill a fresh buffer of `words` words with zeros.
pub fn zeroed_contents(words: usize) -> (bytes: Vec<u8>)
    ensures
        bytes@.len() == ELEMENT_BYTES * words,
        forall|i: int| 0 <= i < bytes@.len() ==> bytes@[i] == 0,
{
    let mut zeros: Vec<u32> = Vec::new();
    let mut n: usize = 0;
    while n < words
        invariant
            n <= words,
            zeros@.len() == n,
            forall|i: int| 0 <= i < n ==> zeros@[i] == 0,
        decreases words - n,
    {
        zeros.push(0);
        n += 1;
    }
    let bytes = cast_words(zeros.as_slice());
    proof {
        assert forall|i: int| 0 <= i < bytes@.len() implies bytes@[i] == 0 by {
            let w = i / 4;
            let group = group_at(bytes@, w);
            assert(reads_as(group, zeros@[w]));
            assert(bytes@[i] == group[i - 4 * w]);
        }
    }
    bytes
}

/// Reads the first `elements` words of `bytes`, or as many whole words as
/// `bytes` holds if that is fewer.
pub fn decode_words(bytes: &[u8], elements: usize) -> (words: Vec<u32>)
    ensures
        words@.len() == if elements <= bytes@.len() / 4 {
            elements as int
        } else {
            bytes@.len() as int / 4
        },
        forall|i: int|
            0 <= i < words@.len() ==> reads_as(#[trigger] group_at(bytes@, i), words@[i]),
{
    let whole = bytes.len() / 4;
    let count = if elements <= whole {
        elements
    } else {
        whole
    };
    let mut words: Vec<u32> = Vec::new();
    let mut i: usize = 0;
    while i < count
        invariant
            i <= count <= bytes@.len() / 4,
            4 * count <= bytes@.len() <= usize::MAX,
            words@.len() == i,
            forall|k: int| 0 <= k < i ==> reads_as(#[trigger] group_at(bytes@, k), words@[k]),
        decreases count - i,
    {
        let group = slice_subrange(bytes, 4 * i, 4 * i + 4);
        let word = native_word(group);
        words.push(word);
        i += 1;
    }
    words
}

/// One record of the workgroup state buffer as the device wrote it.
///
/// The two sums are kept as the words that the device stored; what number a
/// word stands for is for the caller to say.
#[derive(Clone, Debug, PartialEq, Eq)]
pub struct WorkGroupState {
    /// The tag of the cell: 0 for nothing published, 1 and 2 for an
    /// aggregate and a zero aggregate, 3 and 4 for a resolved prefix and a
    /// zero prefix.
    pub state: u32,
    /// The word that holds the block's own sum.
    pub aggregate_bits: u32,
    /// The word that holds the sum up to the end of the block.
    pub inclusive_prefix_bits: u32,
    /// The diagnostic text area, `DEBUG_BYTES` bytes.
    pub debug_info: Vec<u8>,
    /// Always zero in a record that was read back.
    pub next_byte: u32,
}

/// The name of the cell tag that `state` stands for.
pub open spec fn state_name_of(state: u32) -> Seq<char> {
    if state == 0 {
        "Uninit"@
    } else if state == 1 {
        "Aggregated"@
    } else if state == 2 {
        "Zero Aggregated"@
    } else if state == 3 {
        "Prefixed"@
    } else if state == 4 {
        "Zero Prefixed"@
    } else {
        "Unknown"@
    }
}

/// `state` is what the `STATE_RECORD_BYTES` bytes of `record` hold: three
/// words, then the text area, whose groups of four bytes come out in the
/// order in which a little-endian machine stores them.
pub open spec fn decodes(record: Seq<u8>, state: WorkGroupState) -> bool {
    &&& record.len() == STATE_RECORD_BYTES
    &&& reads_as(group_at(record, 0), state.state)
    &&& reads_as(group_at(record, 1), state.aggregate_bits)
    &&& reads_as(group_at(record, 2), state.inclusive_prefix_bits)
    &&& state.debug_info@.len() == DEBUG_BYTES
    &&& forall|g: int|
        0 <= g < 256 ==> kept(group_at(record, 3 + g), #[trigger] group_at(state.debug_info@, g))
    &&& state.next_byte == 0
}

/// The record `i` of `bytes`.
pub open spec fn record_at(bytes: Seq<u8>, i: int) -> Seq<u8> {
    bytes.subrange(STATE_RECORD_BYTES * i, STATE_RECORD_BYTES * i + STATE_RECORD_BYTES)
}

impl WorkGroupState {
    /// The name of the cell tag.
    pub fn state_name(&self) -> (name: &'static str)
        ensures
            name@ == state_name_of(self.state),
    {
        match self.state {
            0 => "Uninit",
            1 => "Aggregated",
            2 => "Zero Aggregated",
            3 => "Prefixed",
            4 => "Zero Prefixed",
            _ => "Unknown",
        }
    }

    /// Whether the record holds a resolved prefix, the last state of a cell.
    pub fn is_resolved(&self) -> (resolved: bool)
        ensures
            resolved <==> self.state == 3 || self.state == 4,
    {
        self.state == 3 || self.state == 4
    }

    /// The bytes of the diagnostic text: those before the first zero byte of
    /// the text area.
    pub fn debug_bytes(&self) -> (text: Vec<u8>)
        ensures
            text@ == self.debug_info@.subrange(0, text_length(self.debug_info@)),
    {
        let mut text: Vec<u8> = Vec::new();
        let mut i: usize = 0;
        while i < self.debug_info.len() && self.debug_info[i] != 0
            invariant
                i <= self.debug_info@.len(),
                text@ == self.debug_info@.subrange(0, i as int),
                forall|k: int| 0 <= k < i ==> self.debug_info@[k] != 0,
            decreases self.debug_info@.len() - i,
        {
            text.push(self.debug_info[i]);
            i += 1;
            assert(text@ =~= self.debug_info@.subrange(0, i as int));
        }
        proof {
            lemma_text_length(self.debug_info@, i as int);
        }
        text
    }

    /// The diagnostic text, if its bytes are UTF-8.
    pub fn debug_text(&self) -> (text: Option<String>)
        ensures
            text is Some <==> valid_utf8(
                self.debug_info@.subrange(0, text_length(self.debug_info@)),
            ),
            text matches Some(t) ==> t@ == decode_utf8(
                self.debug_info@.subrange(0, text_length(self.debug_info@)),
            ),
    {
        utf8_text(self.debug_bytes())
    }
}

/// Reads one record.
fn decode_state(record: &[u8]) -> (state: WorkGroupState)
    requires
        record@.len() == STATE_RECORD_BYTES,
    ensures
        decodes(record@, state),
{
    let head = slice_subrange(record, 0, 12);
    let state = native_word(slice_subrange(head, 0, 4));
    let aggregate_bits = native_word(slice_subrange(head, 4, 8));
    let inclusive_prefix_bits = native_word(slice_subrange(head, 8, 12));
    proof {
        assert(head@.subrange(0, 4) =~= group_at(record@, 0));
        assert(head@.subrange(4, 8) =~= group_at(record@, 1));
        assert(head@.subrange(8, 12) =~= group_at(record@, 2));
    }
    let mut debug_info: Vec<u8> = Vec::new();
    let mut g: usize = 0;
    while g < 256
        invariant
            g <= 256,
            record@.len() == STATE_RECORD_BYTES,
            debug_info@.len() == 4 * g,
            forall|k: int|
                0 <= k < g ==> kept(group_at(record@, 3 + k), #[trigger] group_at(debug_info@, k)),
        decreases 256 - g,
    {
        let ghost before = debug_info@;
        let group = slice_subrange(record, 12 + 4 * g, 16 + 4 * g);
        let word = native_word(group);
        push_le_bytes(&mut debug_info, word);
        proof {
            lemma_le_bytes_of_read(group@, word);
            assert(group@ =~= group_at(record@, 3 + g));
            assert(group_at(debug_info@, g as int) =~= le_bytes(word));
            assert forall|k: int| 0 <= k < g implies kept(
                group_at(record@, 3 + k),
                #[trigger] group_at(debug_info@, k),
            ) by {
                assert(group_at(debug_info@, k) =~= group_at(before, k));
            }
        }
        g += 1;
    }
    WorkGroupState { state, aggregate_bits, inclusive_prefix_bits, debug_info, next_byte: 0 }
}

/// Reads the first `elements` records of `bytes`, or as many whole records
/// as `bytes` holds if that is fewer.
pub fn decode_states(bytes: &[u8], elements: usize) -> (states: Vec<WorkGroupState>)
    ensures
        states@.len() == if elements <= bytes@.len() as int / STATE_RECORD_BYTES as int {
            elements as int
        } else {
            bytes@.len() as int / STATE_RECORD_BYTES as int
        },
        forall|i: int|
            0 <= i < states@.len() ==> decodes(record_at(bytes@, i), #[trigger] states@[i]),
{
    let whole = bytes.len() / STATE_RECORD_BYTES;
    let count = if elements <= whole {
        elements
    } else {
        whole
    };
    let mut states: Vec<WorkGroupState> = Vec::new();
    let mut i: usize = 0;
    while i < count
        invariant
            i <= count <= bytes@.len() as int / STATE_RECORD_BYTES as int,
            STATE_RECORD_BYTES * count <= bytes@.len() <= usize::MAX,
            states@.len() == i,
            forall|k: int|
                0 <= k < i ==> decodes(record_at(bytes@, k), #[trigger] states@[k]),
        decreases count - i,
    {
        let record = slice_subrange(
            bytes,
            STATE_RECORD_BYTES * i,
            STATE_RECORD_BYTES * i + STATE_RECORD_BYTES,
        );
        let state = decode_state(record);
        states.push(state);
        i += 1;
    }
    states
}

/// Whether every record holds a resolved prefix: the pass that wrote them
/// ran to its end.
pub fn all_resolved(states: &[WorkGroupState]) -> (resolved: bool)
    ensures
        resolved <==> forall|i: int|
            0 <= i < states@.len() ==> (#[trigger] states@[i]).state == 3 || states@[i].state == 4,
{
    let mut i: usize = 0;
    while i < states.len()
        invariant
            i <= states@.len(),
            forall|k: int|
                0 <= k < i ==> (#[trigger] states@[k]).state == 3 || states@[k].state == 4,
        decreases states@.len() - i,
    {
        if !states[i].is_resolved() {
            return false;
        }
        i += 1;
    }
    true
}

} // verus!
