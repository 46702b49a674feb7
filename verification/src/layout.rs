//! How a sequence is cut into blocks, one block per workgroup, and how large
//! the device buffers for a pass have to be.

use vstd::prelude::*;

verus! {

/// Bytes in one element of the data buffer.
pub const ELEMENT_BYTES: usize = 4;

/// Bytes in the diagnostic text area of one workgroup state record.
pub const DEBUG_BYTES: usize = 1024;

/// Bytes in one workgroup state record: three words, the diagnostic text
/// area, and a closing word.
pub const STATE_RECORD_BYTES: usize = 1040;

/// Elements per workgroup used when the caller names no capacity.
pub const DEFAULT_BLOCK_CAPACITY: usize = 4;

/// `n` is 1, 2, 4, 8, ...
pub open spec fn is_power_of_two(n: int) -> bool
    decreases n,
{
    if n <= 1 {
        n == 1
    } else {
        n % 2 == 0 && is_power_of_two(n / 2)
    }
}

/// Number of blocks that a sequence of `len` elements is cut into. An empty
/// sequence still gets one (empty) block, so that a pass always dispatches at
/// least one workgroup.
pub open spec fn block_count(len: int, cap: int) -> int {
    if len <= 0 {
        1
    } else {
        (len - 1) / cap + 1
    }
}

/// Index of the first element of block `b`.
pub open spec fn block_start(b: int, cap: int) -> int {
    b * cap
}

/// Index one past the last element of block `b`.
pub open spec fn block_end(b: int, len: int, cap: int) -> int {
    if (b + 1) * cap < len {
        (b + 1) * cap
    } else {
        len
    }
}

/// The blocks tile the sequence: each is a window of at most `cap` elements,
/// each but an only block of an empty sequence is non-empty, neighbours touch,
/// and the last one ends where the sequence ends.
pub proof fn lemma_block_bounds(len: int, cap: int, b: int)
    requires
        0 <= len,
        1 <= cap,
        0 <= b < block_count(len, cap),
    ensures
        0 <= block_start(b, cap) <= block_end(b, len, cap) <= len,
        block_end(b, len, cap) - block_start(b, cap) <= cap,
        len > 0 ==> block_start(b, cap) < block_end(b, len, cap),
        b + 1 < block_count(len, cap) ==> block_end(b, len, cap) == block_start(b + 1, cap),
        b + 1 < block_count(len, cap) ==> block_end(b, len, cap) - block_start(b, cap) == cap,
        b + 1 == block_count(len, cap) ==> block_end(b, len, cap) == len,
{
    if len > 0 {
        let q = (len - 1) / cap;
        vstd::arithmetic::div_mod::lemma_fundamental_div_mod(len - 1, cap);
        vstd::arithmetic::div_mod::lemma_mod_bound(len - 1, cap);
        vstd::arithmetic::div_mod::lemma_div_pos_is_pos(len - 1, cap);
        assert(len - 1 == cap * q + (len - 1) % cap);
        assert(b * cap <= q * cap) by (nonlinear_arith)
            requires
                0 <= b <= q,
                1 <= cap,
        ;
        assert(cap * q == q * cap) by (nonlinear_arith);
        assert((b + 1) * cap == b * cap + cap) by (nonlinear_arith);
        assert(0 <= b * cap) by (nonlinear_arith)
            requires
                0 <= b,
                1 <= cap,
        ;
        if b < q {
            assert((b + 1) * cap <= q * cap) by (nonlinear_arith)
                requires
                    0 <= b + 1 <= q,
                    1 <= cap,
            ;
        }
    } else {
        assert(b == 0);
        assert(0 * cap == 0) by (nonlinear_arith);
    }
}

/// Every element lies in exactly the block that its index divided by the
/// capacity names.
pub proof fn lemma_block_of_index(len: int, cap: int, i: int)
    requires
        1 <= cap,
        0 <= i < len,
    ensures
        0 <= i / cap < block_count(len, cap),
        block_start(i / cap, cap) <= i < block_end(i / cap, len, cap),
{
    vstd::arithmetic::div_mod::lemma_fundamental_div_mod(i, cap);
    vstd::arithmetic::div_mod::lemma_mod_bound(i, cap);
    vstd::arithmetic::div_mod::lemma_div_pos_is_pos(i, cap);
    vstd::arithmetic::div_mod::lemma_div_is_ordered(i, len - 1, cap);
    let b = i / cap;
    assert(cap * b == b * cap) by (nonlinear_arith);
    assert((b + 1) * cap == b * cap + cap) by (nonlinear_arith);
}

/// A sequence no longer than one block is one block; with blocks of two or
/// more elements a longer sequence has fewer blocks than elements.
pub proof fn lemma_block_count_shrinks(len: int, cap: int)
    requires
        0 <= len,
        1 <= cap,
    ensures
        1 <= block_count(len, cap),
        len <= cap <==> block_count(len, cap) == 1,
        len >= 1 ==> block_count(len, cap) <= len,
        cap >= 2 && len >= 2 ==> block_count(len, cap) < len,
{
    if len > 0 {
        let q = (len - 1) / cap;
        vstd::arithmetic::div_mod::lemma_fundamental_div_mod(len - 1, cap);
        vstd::arithmetic::div_mod::lemma_mod_bound(len - 1, cap);
        vstd::arithmetic::div_mod::lemma_div_pos_is_pos(len - 1, cap);
        assert(cap * q >= q) by (nonlinear_arith)
            requires
                0 <= q,
                1 <= cap,
        ;
        if cap >= 2 {
            assert(cap * q >= 2 * q) by (nonlinear_arith)
                requires
                    0 <= q,
                    2 <= cap,
            ;
        }
        if q >= 1 {
            assert(cap * q >= cap) by (nonlinear_arith)
                requires
                    1 <= q,
                    1 <= cap,
            ;
        }
        if q == 0 {
            assert(cap * q == 0) by (nonlinear_arith)
                requires
                    q == 0,
            ;
        }
    }
}

/// One element past a block boundary opens exactly one more block, and that
/// block holds the one element.
pub proof fn lemma_one_past_boundary(blocks: int, cap: int)
    requires
        1 <= blocks,
        1 <= cap,
    ensures
        block_count(blocks * cap, cap) == blocks,
        block_count(blocks * cap + 1, cap) == blocks + 1,
        block_end(blocks, blocks * cap + 1, cap) - block_start(blocks, cap) == 1,
{
    assert(blocks * cap >= 1) by (nonlinear_arith)
        requires
            1 <= blocks,
            1 <= cap,
    ;
    assert(blocks * cap - 1 == (blocks - 1) * cap + (cap - 1)) by (nonlinear_arith);
    vstd::arithmetic::div_mod::lemma_fundamental_div_mod_converse(
        blocks * cap - 1,
        cap,
        blocks - 1,
        cap - 1,
    );
    vstd::arithmetic::div_mod::lemma_fundamental_div_mod_converse(blocks * cap, cap, blocks, 0);
    assert((blocks + 1) * cap == blocks * cap + cap) by (nonlinear_arith);
}

/// An earlier block ends before a later block starts.
pub proof fn lemma_blocks_apart(len: int, cap: int, b1: int, b2: int)
    requires
        0 <= len,
        1 <= cap,
        0 <= b1 < b2 < block_count(len, cap),
    ensures
        block_end(b1, len, cap) <= block_start(b2, cap),
{
    lemma_block_bounds(len, cap, b1);
    assert((b1 + 1) * cap <= b2 * cap) by (nonlinear_arith)
        requires
            0 <= b1 + 1 <= b2,
            1 <= cap,
    ;
}

/// Block starts grow with the block index.
pub proof fn lemma_starts_ordered(cap: int, b1: int, b2: int)
    requires
        1 <= cap,
        0 <= b1 <= b2,
    ensures
        0 <= block_start(b1, cap) <= block_start(b2, cap),
        block_start(0, cap) == 0,
{
    assert(0 <= b1 * cap <= b2 * cap) by (nonlinear_arith)
        requires
            0 <= b1 <= b2,
            1 <= cap,
    ;
    assert(0 * cap == 0) by (nonlinear_arith);
}

/// Where the first `b` blocks end: `b` blocks' worth of elements, or the end
/// of the sequence if that comes first.
pub open spec fn block_edge(b: int, len: int, cap: int) -> int {
    if b * cap < len {
        b * cap
    } else {
        len
    }
}

/// The edges are where the blocks start and end.
pub proof fn lemma_edges(len: int, cap: int, b: int)
    requires
        0 <= len,
        1 <= cap,
        0 <= b < block_count(len, cap),
    ensures
        block_edge(b, len, cap) == block_start(b, cap),
        block_edge(b + 1, len, cap) == block_end(b, len, cap),
        b + 1 == block_count(len, cap) ==> block_edge(b + 1, len, cap) == len,
        block_edge(0, len, cap) == 0,
{
    lemma_block_bounds(len, cap, b);
    assert(0 * cap == 0) by (nonlinear_arith);
}

/// An index between the start and the end of a block lies in that block.
pub proof fn lemma_index_in_block(len: int, cap: int, b: int, i: int)
    requires
        0 <= len,
        1 <= cap,
        0 <= b < block_count(len, cap),
        block_start(b, cap) <= i < block_end(b, len, cap),
    ensures
        i / cap == b,
{
    lemma_block_bounds(len, cap, b);
    assert(b * cap == cap * b) by (nonlinear_arith);
    vstd::arithmetic::div_mod::lemma_fundamental_div_mod_converse(i, cap, b, i - b * cap);
}

/// Elements per workgroup: a power of two, at least two.
#[derive(Clone, Copy, Debug)]
pub struct BlockCapacity {
    elements: usize,
}

impl BlockCapacity {
    #[verifier::type_invariant]
    spec fn well_formed(self) -> bool {
        self.elements >= 2 && is_power_of_two(self.elements as int)
    }

    /// The capacity as a number.
    pub closed spec fn value(self) -> int {
        self.elements as int
    }

    /// Accepts `elements` if it is a power of two and at least two.
    pub fn new(elements: usize) -> (capacity: Option<BlockCapacity>)
        ensures
            capacity is Some <==> elements >= 2 && is_power_of_two(elements as int),
            capacity matches Some(c) ==> c.value() == elements,
    {
        if elements < 2 {
            return None;
        }
        let mut rest: usize = elements;
        while rest % 2 == 0
            invariant
                1 <= rest <= elements,
                is_power_of_two(rest as int) <==> is_power_of_two(elements as int),
            decreases rest,
        {
            rest = rest / 2;
        }
        if rest == 1 {
            Some(BlockCapacity { elements })
        } else {
            None
        }
    }

    /// The capacity used when the caller names none.
    pub fn standard() -> (capacity: BlockCapacity)
        ensures
            capacity.value() == DEFAULT_BLOCK_CAPACITY,
    {
        assert(is_power_of_two(4)) by {
            reveal_with_fuel(is_power_of_two, 3);
        }
        BlockCapacity { elements: DEFAULT_BLOCK_CAPACITY }
    }

    /// The capacity as a number.
    pub fn get(&self) -> (elements: usize)
        ensures
            elements == self.value(),
            elements >= 2,
            is_power_of_two(elements as int),
    {
        proof {
            use_type_invariant(self);
        }
        self.elements
    }
}

/// Number of workgroups to dispatch for `size` elements: one per block, and
/// one for an empty sequence.
pub fn workgroup_count(size: usize, capacity: BlockCapacity) -> (workgroups: usize)
    ensures
        workgroups == block_count(size as int, capacity.value()),
        1 <= workgroups,
        size >= 1 ==> workgroups <= size,
{
    let cap = capacity.get();
    proof {
        lemma_block_count_shrinks(size as int, cap as int);
    }
    if size == 0 {
        1
    } else {
        (size - 1) / cap + 1
    }
}

/// First index and end index of block `b` of a sequence of `len` elements.
pub fn block_range(b: usize, len: usize, capacity: BlockCapacity) -> (range: (usize, usize))
    requires
        b < block_count(len as int, capacity.value()),
    ensures
        range.0 == block_start(b as int, capacity.value()),
        range.1 == block_end(b as int, len as int, capacity.value()),
        range.0 <= range.1 <= len,
{
    let cap = capacity.get();
    proof {
        lemma_block_bounds(len as int, cap as int, b as int);
        assert((b + 1) * cap == b * cap + cap) by (nonlinear_arith);
    }
    let start = b * cap;
    let end = if len - start > cap {
        start + cap
    } else {
        len
    };
    (start, end)
}

/// Bytes of a data buffer of `elements` elements, if that fits the device's
/// 64-bit buffer addresses.
pub fn data_buffer_size(elements: usize) -> (bytes: Option<u64>)
    ensures
        bytes is Some <==> elements * ELEMENT_BYTES <= u64::MAX,
        bytes matches Some(n) ==> n == elements * ELEMENT_BYTES,
{
    if elements as u64 > u64::MAX / 4 {
        None
    } else {
        Some(elements as u64 * 4)
    }
}

/// Bytes of the workgroup state buffer of a pass with `workgroups`
/// workgroups, if that fits the device's 64-bit buffer addresses.
pub fn state_buffer_size(workgroups: usize) -> (bytes: Option<u64>)
    ensures
        bytes is Some <==> workgroups * STATE_RECORD_BYTES <= u64::MAX,
        bytes matches Some(n) ==> n == workgroups * STATE_RECORD_BYTES,
{
    if workgroups as u64 > u64::MAX / 1040 {
        None
    } else {
        Some(workgroups as u64 * 1040)
    }
}

} // verus!
