//! Error values of the sampler, the decoder and the series builder.

use vstd::prelude::*;

verus! {

/// Why a derivation produced no ranked result.
#[derive(Debug, Clone, Copy, PartialEq, Eq, Structural)]
pub enum DerivationError {
    /// No snapshot was given.
    NoData,
    /// A merged tick count or a process total does not fit in 64 bits.
    Overflow,
}

/// Why a snapshot's text could not be decoded.
#[derive(Debug, Clone, Copy, PartialEq, Eq, Structural)]
pub enum ParseError {
    /// A line has fewer than three fields, or its pid or its tick count is
    /// not a number that fits in 64 bits.
    MalformedRecord,
}

/// Why a sampling tick produced no snapshot.
#[derive(Debug, Clone, Copy, PartialEq, Eq, Structural)]
pub enum CollectionError {
    /// The processes could not be listed at all.
    EnumerationFailed,
    /// The user and system ticks of a process do not add up within 64 bits.
    TicksOverflow,
}

/// Why a query was not answered.
#[derive(Debug, Clone, Copy, PartialEq, Eq, Structural)]
pub enum QueryError {
    /// The query is not a well-formed list of pairs.
    MalformedQuery,
    /// The query has fewer than two pairs.
    NotEnoughArguments,
    /// The query asks for a call that is not offered.
    UnsupportedApi,
    /// The call was made and failed.
    Derivation(DerivationError),
}

} // verus!
