//! The ways in which building or parsing a filter fails.

use vstd::prelude::*;

verus! {

/// Why a filter could not be built or parsed.
#[derive(Debug, Clone, Copy, PartialEq, Eq, Structural)]
pub enum FilterError {
    /// The false-positive exponent is above 32, or there are 2^32 items or more.
    InvalidParameter,
    /// The serialized form announces 2^32 items or more.
    InvalidLength,
    /// The serialized form does not start with a complete item count.
    ParseFailed,
}

} // verus!
