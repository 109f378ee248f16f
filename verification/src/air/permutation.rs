//! Accumulator arguments of the field-native VM trace: five arguments
//! (registers, memory, program fetches, public inputs, public outputs), each
//! run on four independent challenge channels.

use vstd::prelude::*;

use crate::vm::NUM_CHANNELS;

verus! {

/// The number of accumulator constraints: one per argument and channel.
pub fn num_accum_constraints() -> (r: usize)
    ensures
        r == 5 * NUM_CHANNELS,
{
    5 * NUM_CHANNELS
}

/// Whether accumulator constraint `j` must also hold on the wrap-around row:
/// every accumulator closes over the whole trace, so all do.
pub fn is_wrap_constraint(_j: usize) -> (r: bool)
    ensures
        r,
{
    true
}

} // verus!
