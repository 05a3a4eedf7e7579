//! Golomb-coded sets: compact filters that answer whether an item is likely a
//! member of a set, with a false-positive rate of `2^-P` and no false negatives.
//!
//! An item is hashed with SipHash-2-4 under a 128-bit key and reduced to a
//! number below `N * 2^P`, where `N` is the number of items. A filter holds the
//! numbers of its items in ascending order, each coded by its step from the one
//! before: the quotient by `2^P` in unary, the remainder in `P` bits.

use vstd::prelude::*;

pub mod bits;
pub mod bitstream;
pub mod builder;
pub mod error;
pub mod filter;
pub mod golomb;
pub mod hash;
pub mod laws;
pub mod little_endian;
pub mod sorting;
pub mod varint;

pub use crate::builder::Builder;
pub use crate::error::FilterError;
pub use crate::filter::Filter;
pub use crate::hash::{reduce, siphash24};

verus! {

/// The default false-positive exponent: a rate of `2^-20`.
pub const DEFAULT_P: u8 = 20;

} // verus!
