use vstd::prelude::*;

verus! {

/// The single failure channel of every parser in this crate.
#[derive(Debug, Clone, Copy, PartialEq, Eq, Structural)]
pub enum Error {
    /// The byte source ended before the request was satisfied.
    IO,
    /// A variable-length integer was not a valid UTF-8-style encoding.
    UTF8,
    /// A numeric field could not be converted.
    ParseInt,
    /// A bounded-length read went past its cap.
    TooLong,
    /// Malformed content: wrong magic, missing sync code, a bit that must be zero.
    Content,
    /// A field held a reserved code, or a reserved bit was set.
    Reserved,
}

} // verus!
