//! Decoder for the NBT (Named Binary Tag) binary format.
//!
//! The decoder reads a byte stream through `arbitrary::Unstructured` and
//! builds an owned tree of tagged values.  Primitive fields are decoded
//! according to an [`Edition`]: byte order (big or little endian) and the
//! integer width mode (fixed width or variable-length zig-zag) vary
//! independently.

use vstd::prelude::*;

pub mod cursor;
pub mod laws;
pub mod prim;
pub mod owned;
pub mod tag;

verus! {

/// The configuration that parameterizes primitive decoding: byte order and
/// whether 32/64-bit integers are variable-length zig-zag encoded.
#[derive(Debug, Clone, Copy, PartialEq, Eq, Structural)]
pub struct Edition {
    pub big_endian: bool,
    pub variable_length_ints: bool,
}

/// A codec strategy: a type that selects one of the wire editions.
pub trait DeserializeTag: Sized {
    /// The edition this strategy decodes.
    spec fn spec_edition(&self) -> Edition;

    /// Returns the edition this strategy decodes.
    fn edition(&self) -> (e: Edition)
        ensures
            e == self.spec_edition(),
    ;
}

/// Big-endian, fixed-width integers.
#[derive(Debug, Clone, Copy, PartialEq, Eq, Structural, Default)]
pub struct JavaEdition;

impl DeserializeTag for JavaEdition {
    open spec fn spec_edition(&self) -> Edition {
        Edition { big_endian: true, variable_length_ints: false }
    }

    fn edition(&self) -> Edition {
        Edition { big_endian: true, variable_length_ints: false }
    }
}

/// Little-endian, fixed-width integers.
#[derive(Debug, Clone, Copy, PartialEq, Eq, Structural, Default)]
pub struct BedrockEdition;

impl DeserializeTag for BedrockEdition {
    open spec fn spec_edition(&self) -> Edition {
        Edition { big_endian: false, variable_length_ints: false }
    }

    fn edition(&self) -> Edition {
        Edition { big_endian: false, variable_length_ints: false }
    }
}

/// Little-endian, with 32/64-bit integers variable-length zig-zag encoded.
#[derive(Debug, Clone, Copy, PartialEq, Eq, Structural, Default)]
pub struct VarIntEdition;

impl DeserializeTag for VarIntEdition {
    open spec fn spec_edition(&self) -> Edition {
        Edition { big_endian: false, variable_length_ints: true }
    }

    fn edition(&self) -> Edition {
        Edition { big_endian: false, variable_length_ints: true }
    }
}

/// A decoding error.  Every failure of the decoder is one of these kinds.
#[derive(Debug, Clone, Copy, PartialEq, Eq, Structural)]
pub enum DecodeError {
    /// The input ended before a required field or slice could be read.
    InsufficientData,
    /// A tag byte outside 0..=12, or an `End` tag where a payload is mandatory.
    InvalidDiscriminant,
    /// A decoded length field is negative.
    InvalidLength,
    /// The input nests lists or compounds deeper than the supported bound.
    DepthLimitExceeded,
}

/// The nesting budget for a whole document: lists and compounds may nest
/// this deep, and adversarially deeper input fails closed with
/// [`DecodeError::DepthLimitExceeded`] instead of exhausting the stack.
pub const MAX_DEPTH: usize = 512;

/// Decode one root document from the cursor under the strategy's edition.
pub fn deserialize_document<E: DeserializeTag>(
    strategy: &E,
    u: &mut arbitrary::Unstructured,
) -> (r: Result<crate::owned::OwnedNamedTag, DecodeError>)
    ensures
        match crate::owned::spec_decode_named_tag(
            crate::cursor::cursor_data(*old(u)),
            strategy.spec_edition(),
            MAX_DEPTH as nat,
        ) {
            Ok((v, k)) => r is Ok && r->Ok_0.0@ == v.0 && r->Ok_0.1@ == v.1
                && crate::cursor::cursor_data(*final(u)) == crate::cursor::cursor_data(
                *old(u),
            ).skip(k as int),
            Err(e) => r == Err::<crate::owned::OwnedNamedTag, DecodeError>(e.0)
                && crate::cursor::cursor_data(*final(u)) == crate::cursor::cursor_data(
                *old(u),
            ).skip(e.1 as int),
        },
{
    crate::owned::deserialize_named_tag(strategy.edition(), u, MAX_DEPTH)
}

/// Decode one root document from a byte buffer under the strategy's
/// edition.
pub fn deserialize_document_bytes<E: DeserializeTag>(strategy: &E, data: &[u8]) -> (r: Result<
    crate::owned::OwnedNamedTag,
    DecodeError,
>)
    ensures
        match crate::owned::spec_decode_named_tag(
            data@,
            strategy.spec_edition(),
            MAX_DEPTH as nat,
        ) {
            Ok((v, k)) => r is Ok && r->Ok_0.0@ == v.0 && r->Ok_0.1@ == v.1,
            Err(e) => r == Err::<crate::owned::OwnedNamedTag, DecodeError>(e.0),
        },
{
    let mut u = crate::cursor::cursor_new(data);
    crate::owned::deserialize_named_tag(strategy.edition(), &mut u, MAX_DEPTH)
}

} // verus!
