//! The error of a count that no longer fits its type.
use vstd::prelude::*;

verus! {

/// A count would exceed the largest value that its type holds.
#[derive(Debug, PartialEq, Eq, Structural, Clone, Copy)]
pub struct CountOverflow;

} // verus!
