//! A streaming, heap-free implementation of the SofaBuffers (Sofab)
//! serialization format.
//!
//! [`OStream`] writes fields into a caller buffer and hands full buffers to a
//! [`Flush`] sink; [`IStream`] is a byte-at-a-time decoder that pushes decoded
//! fields to a [`Visitor`]. [`PayloadAcc`] reassembles chunked payloads and
//! [`seq`] fills wrapper-array destinations. The laws that tie encoder and
//! decoder together stand in [`roundtrip`].
mod error;
pub mod config;
pub mod istream;
pub mod ostream;
pub mod payload;
pub mod roundtrip;
pub mod seq;
pub mod tail;
pub mod types;
pub mod varint;

pub use error::{Error, Result};
pub use istream::{IStream, Visitor};
pub use ostream::{Flush, Handoff, Handover, NoFlush, NoHandoff, OStream, SignedElem, UnsignedElem, LAZY_SEQ_DEPTH, MIN_OUTPUT_BUFFER};
pub use payload::PayloadAcc;
pub use types::{ArrayKind, FixlenType, Id, Signed, Unsigned, API_VERSION, ID_MAX, MAX_DEPTH};
pub use varint::{zigzag_decode, zigzag_encode};
