//! How this build of the library is configured, so application code can check
//! that it supports what it needs. Every wire type is compiled in.
use vstd::prelude::*;

verus! {

/// Fixed-length fields (`fp32` / `fp64` / string / blob) are compiled in.
pub const FIXLEN: bool = true;

/// Array fields are compiled in.
pub const ARRAY: bool = true;

/// Nested sequences are compiled in.
pub const SEQUENCE: bool = true;

/// 64-bit floating point (`fp64`) is compiled in.
pub const FP64: bool = true;

/// Width of the scalar value type in bits.
pub const VALUE_BITS: u32 = 64;

/// The value width is that of [`crate::Unsigned`].
pub proof fn lemma_value_bits()
    ensures
        VALUE_BITS == u64::BITS,
{
}

} // verus!
