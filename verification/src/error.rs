//! Error and result types of the encoder, the decoder and the decode helpers.
use vstd::prelude::*;

verus! {

/// Errors returned by the encoder, the decoder and the decode helpers.
#[derive(Debug, Clone, Copy, PartialEq, Eq, Structural)]
#[non_exhaustive]
pub enum Error {
    /// Invalid caller argument (e.g. a field id greater than `ID_MAX`, an
    /// out-of-range buffer offset, a container that cannot grow).
    Argument,
    /// The output buffer is full and no flush sink is available.
    BufferFull,
    /// The input bytes are not a valid message, whatever follows them.
    /// Terminal: a decoder that reported it keeps reporting it.
    InvalidMsg,
    /// The consumed bytes end inside a field or with a sequence still open.
    /// Not an error in itself: feeding more bytes may complete the field.
    Incomplete,
    /// A receiver-configured limit was exceeded (policy, not malformation).
    LimitExceeded,
}

/// Convenience alias for fallible operations of this crate.
pub type Result<T> = core::result::Result<T, Error>;

} // verus!
