//! The ways in which a call on a sequence can fail.

use vstd::prelude::*;

verus! {

/// Why a call on a sequence was turned down.
#[derive(Clone, Copy, Debug, PartialEq, Eq, Structural)]
pub enum TreeError {
    /// A position or a range lies outside the sequence, or a value is to go into a sequence
    /// that already holds as many values as can be counted.
    IndexOutOfRange,
    /// The tree does not meet its own invariants. No operation on a tree that meets them
    /// leads here; a check of a tree handed in from elsewhere can.
    InvariantViolation,
}

} // verus!
