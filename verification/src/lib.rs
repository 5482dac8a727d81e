//! Golomb-coded sets: compact probabilistic membership filters built from
//! Golomb-Rice coded deltas of hashed values.

pub mod bits;
pub mod codec;
pub mod gcs;
pub mod hashing;
pub mod model;

pub use bits::BitStream;
pub use codec::{golomb_decode, golomb_encode};
pub use gcs::{Gcs, GcsBuilder};
pub use hashing::{digest_value, Digester, Md5Trunc, Md5Whole};

use vstd::prelude::*;

verus! {

/// Everything that can go wrong while building, decoding or querying a set.
#[derive(Clone, Copy, Debug, PartialEq, Eq, Structural)]
pub enum GcsError {
    /// A checked insertion was attempted on a builder that already holds
    /// as many entries as its declared capacity.
    CapacityExceeded,
    /// A parameter combination outside the integer domain: a zero bit-width,
    /// a bit-width of 64 or more, a zero capacity, a modulus `n * 2^p` past
    /// `u64::MAX`, or an encoding too long for the bit container.
    InvalidParameter,
    /// A bitstream that ends in the middle of a codeword, or whose decoded
    /// values leave the 64-bit domain.
    MalformedStream,
}

} // verus!
