//! The library's error kinds.

use vstd::prelude::*;

verus! {

/// Why an operation of the library was refused.
#[derive(Clone, Copy, Debug, PartialEq, Eq, Structural)]
pub enum ErasureError {
    /// A fragment's stored length or geometry does not fit its value.
    CodecError,
    /// A pattern, a file name or a manifest record does not parse.
    FormatError,
    /// Fewer known fragments than data fragments.
    GeometryError,
    /// Duplicate or inconsistent indices, an empty fragment set, or an
    /// interpolation coefficient that does not fit in machine words.
    InternalInvariantViolation,
}

} // verus!
