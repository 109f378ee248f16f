//! Shape of the constraint system's accumulator arguments: how many
//! accumulator constraints there are and which of them must also hold on the
//! wrap-around from the last row to the first.

pub mod permutation;
pub mod rv_permutation;
