//! Accumulator column bases: argument `X` on channel `ch` lives at column
//! `X + ch`.

use vstd::prelude::*;

verus! {

/// Register accesses, channels 0..3 (grand product).
pub const REG: usize = 0;

/// Memory accesses, channels 4..7 (grand product).
pub const MEM: usize = 4;

/// Program fetches, channels 8..11 (LogUp).
pub const PROG: usize = 8;

/// Public inputs, channels 12..15 (LogUp).
pub const PUB_IN: usize = 12;

/// Public outputs, channels 16..19 (LogUp).
pub const PUB_OUT: usize = 16;

} // verus!
