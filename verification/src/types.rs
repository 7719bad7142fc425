//! Shared types and wire constants.
use vstd::prelude::*;
use crate::error::{Error, Result};

verus! {

/// Wire/API version implemented by this library.
pub const API_VERSION: u32 = 1;

/// Field identifier type. Application-assigned; need not be contiguous.
pub type Id = u32;

/// Largest valid field id (`i32::MAX`).
pub const ID_MAX: Id = 0x7FFF_FFFFu32;

/// Maximum nested-sequence depth.
pub const MAX_DEPTH: u32 = 255;

/// Unsigned value type of the scalar API.
pub type Unsigned = u64;

/// Signed value type of the scalar API.
pub type Signed = i64;

/// Largest element count of an array and largest byte length of a fixlen field.
pub const ARRAY_MAX: Unsigned = 0x7FFF_FFFFu64;

/// Wire type tag: unsigned varint.
pub const T_VARINT_UNSIGNED: u8 = 0;
/// Wire type tag: signed (ZigZag) varint.
pub const T_VARINT_SIGNED: u8 = 1;
/// Wire type tag: fixed-length payload.
pub const T_FIXLEN: u8 = 2;
/// Wire type tag: array of unsigned varints.
pub const T_VARINTARRAY_UNSIGNED: u8 = 3;
/// Wire type tag: array of signed varints.
pub const T_VARINTARRAY_SIGNED: u8 = 4;
/// Wire type tag: array of fixed-width floats.
pub const T_FIXLENARRAY: u8 = 5;
/// Wire type tag: start of a nested sequence.
pub const T_SEQUENCE_START: u8 = 6;
/// Wire type tag: end of a nested sequence.
pub const T_SEQUENCE_END: u8 = 7;

/// Sub-type of a fixed-length field (the 3-bit tag inside the fixlen word).
#[derive(Debug, Clone, Copy, PartialEq, Eq, Structural)]
pub enum FixlenType {
    /// 32-bit IEEE-754 float, little-endian on the wire (tag 0).
    Fp32,
    /// 64-bit IEEE-754 double, little-endian on the wire (tag 1).
    Fp64,
    /// UTF-8 text, no NUL on the wire (tag 2).
    Str,
    /// Arbitrary raw bytes (tag 3).
    Blob,
}

/// The 3-bit wire tag of a fixlen subtype.
pub open spec fn fixlen_tag(t: FixlenType) -> u8 {
    match t {
        FixlenType::Fp32 => 0,
        FixlenType::Fp64 => 1,
        FixlenType::Str => 2,
        FixlenType::Blob => 3,
    }
}

impl FixlenType {
    /// The 3-bit wire tag of this subtype.
    pub fn raw(self) -> (r: u8)
        ensures
            r == fixlen_tag(self),
    {
        match self {
            FixlenType::Fp32 => 0,
            FixlenType::Fp64 => 1,
            FixlenType::Str => 2,
            FixlenType::Blob => 3,
        }
    }

    /// Decode a 3-bit fixlen tag from the wire, rejecting unsupported subtypes.
    pub fn from_raw(raw: u8) -> (r: Result<FixlenType>)
        ensures
            raw < 4 <==> r is Ok,
            r matches Ok(t) ==> fixlen_tag(t) == raw,
            !(raw < 4) ==> r == Err::<FixlenType, Error>(Error::InvalidMsg),
    {
        match raw {
            0 => Ok(FixlenType::Fp32),
            1 => Ok(FixlenType::Fp64),
            2 => Ok(FixlenType::Str),
            3 => Ok(FixlenType::Blob),
            _ => Err(Error::InvalidMsg),
        }
    }
}

/// Element type of an array, reported to a `Visitor` at the start of an array
/// field.
#[derive(Debug, Clone, Copy, PartialEq, Eq, Structural)]
pub enum ArrayKind {
    /// Unsigned-integer elements (code 0).
    Unsigned,
    /// Signed-integer elements (code 1).
    Signed,
    /// 32-bit float elements (code 2).
    Fp32,
    /// 64-bit float elements (code 3).
    Fp64,
}

impl ArrayKind {
    /// The normative code of this kind, shared by every implementation.
    pub fn code(self) -> (r: u8)
        ensures
            r == (match self {
                ArrayKind::Unsigned => 0u8,
                ArrayKind::Signed => 1u8,
                ArrayKind::Fp32 => 2u8,
                ArrayKind::Fp64 => 3u8,
            }),
    {
        match self {
            ArrayKind::Unsigned => 0,
            ArrayKind::Signed => 1,
            ArrayKind::Fp32 => 2,
            ArrayKind::Fp64 => 3,
        }
    }
}

} // verus!
