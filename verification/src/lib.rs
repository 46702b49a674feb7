//! Prefix sums over blocks, and the protocol by which the blocks of one pass
//! learn what came before them.
//!
//! A sequence is cut into blocks of a fixed number of elements, one block per
//! workgroup. Each workgroup scans its own block and publishes the block's
//! sum in a state cell; to finish, it needs the sum of everything before its
//! block. This crate holds two ways to get it:
//!
//! * [`lookback`] runs one pass in which every workgroup looks back at the
//!   cells of the blocks before its own. The workgroups step in any order
//!   that the caller names; [`laws`] shows that the result is the same for
//!   every order that lets the pass end, and that some workgroup can always
//!   go on.
//! * [`ladder`] scans the array of block sums by the same means, level upon
//!   level, and adds the scanned sums back going down.
//!
//! [`scan`] is the front door. [`cpu`] is the serial scan that both are
//! proved equal to, [`sums`] the arithmetic in which that is said, and
//! [`layout`] the cutting into blocks. [`protocol`] states the pass as a
//! transition system and [`safety`] proves its invariant. [`readback`] reads
//! the bytes that a device hands back.
//!
//! Elements are `i64` and addition wraps, so every sum is exact modulo 2^64
//! and no input is refused.

pub mod cell;
pub mod claim;
pub mod cpu;
pub mod ladder;
pub mod laws;
pub mod layout;
pub mod lookback;
pub mod protocol;
pub mod readback;
pub mod reducer;
pub mod safety;
pub mod scan;
pub mod sums;
pub mod walker;
