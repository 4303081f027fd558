use vstd::prelude::*;

use crate::tag::Tag;

verus! {

/// The ways in which decoding can fail.
#[derive(Clone, Copy, Debug, PartialEq, Eq, Structural)]
#[allow(inconsistent_fields)]
pub enum Error {
    /// The TLV structure is malformed or truncated.
    Parser,
    /// The tag found is not the one the caller asked for.
    MismatchedTag { expected: Tag, actual: Tag },
    /// The contents have a length that the type does not allow.
    MismatchedLength { expected: usize, actual: usize },
    /// The tag cannot select an alternative of a `CHOICE`.
    InvalidDiscriminant,
    /// A decoded number does not fit its target width.
    NumericOverflow,
}

} // verus!
