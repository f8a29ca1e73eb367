//! Bit patterns of the numbers that several modules share.

use vstd::prelude::*;

verus! {

/// 0
pub const ZERO: u64 = 0x0000_0000_0000_0000;

/// -0
pub const NEG_ZERO: u64 = 0x8000_0000_0000_0000;

/// 0.5
pub const HALF: u64 = 0x3FE0_0000_0000_0000;

/// 1
pub const ONE: u64 = 0x3FF0_0000_0000_0000;

/// 2
pub const TWO: u64 = 0x4000_0000_0000_0000;

/// 100
pub const HUNDRED: u64 = 0x4059_0000_0000_0000;

/// Negative infinity.
pub const NEG_INFINITY: u64 = 0xFFF0_0000_0000_0000;

/// Positive infinity.
pub const INFINITY: u64 = 0x7FF0_0000_0000_0000;

} // verus!
