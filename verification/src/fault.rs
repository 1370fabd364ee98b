//! The ways in which decoding a record can fail.

use vstd::prelude::*;

verus! {

/// Why the modification calls of a record could not be decoded.
#[derive(Clone, Copy, Debug, PartialEq, Eq, Structural)]
pub enum DecodeFault {
    /// A distance of the tag is not a number that fits `i64`.
    Malformed,
    /// A group of the tag lists more distances than the read has occurrences
    /// of the group's base to place them on.
    Inconsistent,
}

} // verus!
