//! Error taxonomy for the resolver: codec, network, cache and resolution
//! failures, each carrying a human-readable reason.

use vstd::prelude::*;

verus! {

/// The error kinds of the library.
///
/// - `DecodeError`: malformed bytes, an unknown type or class integer, an
///   unexpected end of input, or a compression-pointer loop.
/// - `EncodeError`: RDATA too large for its 16-bit length field, or an
///   invalid IP string in an outbound record.
/// - `NetworkError`: a socket bind, send or receive failure (raised by the
///   I/O layer around this library).
/// - `CacheError`: overflow while computing an entry's expiry instant.
/// - `ResolveError`: a logical resolution failure, such as a request without
///   a question or a response without a usable answer.
/// - `NotImplementedError`: a recognized but unsupported record type.
#[derive(Debug, PartialEq, Eq, Clone)]
pub enum DnsError {
    ResolveError(String),
    EncodeError(String),
    DecodeError(String),
    NetworkError(String),
    CacheError(String),
    NotImplementedError(String),
}

impl DnsError {
    /// True exactly for the `NotImplementedError` variant; an error response
    /// carries RCODE 4 for these and RCODE 2 for every other kind.
    pub open spec fn is_not_implemented(&self) -> bool {
        matches!(self, DnsError::NotImplementedError(_))
    }
}

} // verus!
