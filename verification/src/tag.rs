//! The one-byte tag discriminant: 0 is `End`, 1 through 12 name the twelve
//! payload kinds, and every other byte is a hard parse failure.

use vstd::prelude::*;

use crate::DecodeError;
use crate::cursor::cursor_data;
use crate::cursor::cursor_len;
use crate::cursor::cursor_take;

verus! {

/// The closed set of tag discriminants.
#[derive(Debug, Clone, Copy, PartialEq, Eq, Hash, Structural)]
pub enum Tag {
    End,
    Byte,
    Short,
    Int,
    Long,
    Float,
    Double,
    ByteArray,
    String,
    List,
    Compound,
    IntArray,
    LongArray,
}

/// The tag a byte names, if any: 0 through 12 in the fixed order, nothing
/// otherwise.
pub open spec fn spec_tag_of(b: u8) -> Option<Tag> {
    if b == 0 {
        Some(Tag::End)
    } else if b == 1 {
        Some(Tag::Byte)
    } else if b == 2 {
        Some(Tag::Short)
    } else if b == 3 {
        Some(Tag::Int)
    } else if b == 4 {
        Some(Tag::Long)
    } else if b == 5 {
        Some(Tag::Float)
    } else if b == 6 {
        Some(Tag::Double)
    } else if b == 7 {
        Some(Tag::ByteArray)
    } else if b == 8 {
        Some(Tag::String)
    } else if b == 9 {
        Some(Tag::List)
    } else if b == 10 {
        Some(Tag::Compound)
    } else if b == 11 {
        Some(Tag::IntArray)
    } else if b == 12 {
        Some(Tag::LongArray)
    } else {
        None
    }
}

/// Consume one byte and map it to a tag; a byte outside 0..=12 is an
/// invalid-format failure, never clamped or defaulted.
pub open spec fn spec_decode_tag(b: Seq<u8>) -> Result<(Tag, nat), (DecodeError, nat)> {
    if b.len() < 1 {
        Err((DecodeError::InsufficientData, 0))
    } else {
        match spec_tag_of(b[0]) {
            Some(t) => Ok((t, 1)),
            None => Err((DecodeError::InvalidDiscriminant, 1)),
        }
    }
}

impl Tag {
    /// The tag named by a byte, or the invalid-discriminant error.
    pub fn from_byte(b: u8) -> (r: Result<Tag, DecodeError>)
        ensures
            match spec_tag_of(b) {
                Some(t) => r == Ok::<Tag, DecodeError>(t),
                None => r == Err::<Tag, DecodeError>(DecodeError::InvalidDiscriminant),
            },
    {
        match b {
            0 => Ok(Tag::End),
            1 => Ok(Tag::Byte),
            2 => Ok(Tag::Short),
            3 => Ok(Tag::Int),
            4 => Ok(Tag::Long),
            5 => Ok(Tag::Float),
            6 => Ok(Tag::Double),
            7 => Ok(Tag::ByteArray),
            8 => Ok(Tag::String),
            9 => Ok(Tag::List),
            10 => Ok(Tag::Compound),
            11 => Ok(Tag::IntArray),
            12 => Ok(Tag::LongArray),
            _ => Err(DecodeError::InvalidDiscriminant),
        }
    }

    /// Decode a tag discriminant from the cursor.
    pub fn deserialize(u: &mut arbitrary::Unstructured) -> (r: Result<Tag, DecodeError>)
        ensures
            match spec_decode_tag(cursor_data(*old(u))) {
                Ok((t, k)) => r == Ok::<Tag, DecodeError>(t) && cursor_data(*final(u))
                    == cursor_data(*old(u)).skip(k as int),
                Err(e) => r == Err::<Tag, DecodeError>(e.0) && cursor_data(*final(u))
                    == cursor_data(*old(u)).skip(e.1 as int),
            },
    {
        let ghost b0 = cursor_data(*u);
        if cursor_len(u) < 1 {
            proof {
                assert(cursor_data(*u) =~= b0.skip(0));
            }
            return Err(DecodeError::InsufficientData);
        }
        let v = cursor_take(u, 1);
        proof {
            assert(v@[0] == b0[0]);
            assert(cursor_data(*u) =~= b0.skip(1));
        }
        Tag::from_byte(v[0])
    }
}

} // verus!
