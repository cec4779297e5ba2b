use arbitrary::Unstructured;
use nbt_decode::DecodeError;
use nbt_decode::DeserializeTag;
use nbt_decode::BedrockEdition;
use nbt_decode::Edition;
use nbt_decode::JavaEdition;
use nbt_decode::VarIntEdition;
use nbt_decode::deserialize_document;
use nbt_decode::deserialize_document_bytes;
use nbt_decode::owned::OwnedList;
use nbt_decode::owned::OwnedPayload;
use nbt_decode::prim::deserialize_i16;
use nbt_decode::prim::deserialize_i32;
use nbt_decode::prim::deserialize_i64;
use nbt_decode::prim::deserialize_string;
use nbt_decode::prim::deserialize_u16;
use nbt_decode::tag::Tag;

/// Test-harness zig-zag varint encoder for 32-bit values.
fn encode_varint32(v: i32) -> Vec<u8> {
    let mut x = ((v << 1) ^ (v >> 31)) as u32;
    let mut out = Vec::new();
    loop {
        if x < 0x80 {
            out.push(x as u8);
            return out;
        }
        out.push((x & 0x7F) as u8 | 0x80);
        x >>= 7;
    }
}

/// Test-harness zig-zag varint encoder for 64-bit values.
fn encode_varint64(v: i64) -> Vec<u8> {
    let mut x = ((v << 1) ^ (v >> 63)) as u64;
    let mut out = Vec::new();
    loop {
        if x < 0x80 {
            out.push(x as u8);
            return out;
        }
        out.push((x & 0x7F) as u8 | 0x80);
        x >>= 7;
    }
}

fn varint_edition() -> Edition {
    VarIntEdition.edition()
}

#[test]
fn zigzag_varint_round_trip_32() {
    let cases: [i32; 11] =
        [0, 1, -1, 2, -2, 63, -64, 300, -300, i32::MAX, i32::MIN];
    for &v in cases.iter() {
        let enc = encode_varint32(v);
        let mut u = Unstructured::new(&enc);
        assert_eq!(deserialize_i32(varint_edition(), &mut u), Ok(v));
        assert_eq!(u.len(), 0);
    }
}

#[test]
fn zigzag_varint_round_trip_64() {
    let cases: [i64; 11] =
        [0, 1, -1, 2, -2, 1 << 40, -(1 << 40), 300, -301, i64::MAX, i64::MIN];
    for &v in cases.iter() {
        let enc = encode_varint64(v);
        let mut u = Unstructured::new(&enc);
        assert_eq!(deserialize_i64(varint_edition(), &mut u), Ok(v));
        assert_eq!(u.len(), 0);
    }
}

#[test]
fn endianness_determinism_i32() {
    let bytes = [0x00u8, 0x00, 0x00, 0x01];
    let mut u = Unstructured::new(&bytes);
    assert_eq!(deserialize_i32(JavaEdition.edition(), &mut u), Ok(1));
    let mut u = Unstructured::new(&bytes);
    assert_eq!(deserialize_i32(BedrockEdition.edition(), &mut u), Ok(16777216));
}

#[test]
fn endianness_determinism_u16_and_i16() {
    let bytes = [0x12u8, 0x34];
    let mut u = Unstructured::new(&bytes);
    assert_eq!(deserialize_u16(JavaEdition.edition(), &mut u), Ok(0x1234));
    let mut u = Unstructured::new(&bytes);
    assert_eq!(deserialize_u16(BedrockEdition.edition(), &mut u), Ok(0x3412));
    let neg = [0xFFu8, 0xFE];
    let mut u = Unstructured::new(&neg);
    assert_eq!(deserialize_i16(JavaEdition.edition(), &mut u), Ok(-2));
}

#[test]
fn varint_cap_stops_after_five_bytes() {
    // Five continuation bytes and a sixth byte that must not be read.
    let bytes = [0x80u8, 0x80, 0x80, 0x80, 0x80, 0xFF];
    let mut u = Unstructured::new(&bytes);
    assert_eq!(deserialize_i32(varint_edition(), &mut u), Ok(0));
    assert_eq!(u.len(), 1);
}

#[test]
fn varint_cap_64_stops_after_ten_bytes() {
    let bytes = [0x81u8, 0x80, 0x80, 0x80, 0x80, 0x80, 0x80, 0x80, 0x80, 0x80, 0x55];
    let mut u = Unstructured::new(&bytes);
    assert_eq!(deserialize_i64(varint_edition(), &mut u), Ok(-1));
    assert_eq!(u.len(), 1);
}

#[test]
fn u16_is_fixed_width_even_with_varints() {
    // A string length is a fixed two-byte field even in the varint edition.
    let bytes = [0x03u8, 0x00, b'a', b'b', b'c'];
    let mut u = Unstructured::new(&bytes);
    assert_eq!(deserialize_u16(varint_edition(), &mut u), Ok(3));
}

#[test]
fn empty_list_is_untyped() {
    // Root: List tag, empty name, element tag End.
    let doc = [9u8, 0, 0, 0];
    let (name, payload) = deserialize_document_bytes(&JavaEdition, &doc).unwrap();
    assert_eq!(name, Vec::<u8>::new());
    match payload {
        OwnedPayload::List(l) => {
            assert!(l.is_untyped_empty());
            assert_eq!(l, OwnedList::Empty);
        },
        other => panic!("expected a list, got {:?}", other),
    }
}

#[test]
fn zero_length_byte_list_is_not_untyped() {
    // Root: List tag, empty name, element tag Byte, count 0.
    let doc = [9u8, 0, 0, 1, 0, 0, 0, 0];
    let (_, payload) = deserialize_document_bytes(&JavaEdition, &doc).unwrap();
    match payload {
        OwnedPayload::List(l) => {
            assert!(!l.is_untyped_empty());
            assert_eq!(l, OwnedList::Byte(Vec::new()));
        },
        other => panic!("expected a list, got {:?}", other),
    }
}

#[test]
fn compound_of_lone_end_is_empty() {
    let doc = [10u8, 0, 0, 0];
    let (_, payload) = deserialize_document_bytes(&JavaEdition, &doc).unwrap();
    match payload {
        OwnedPayload::Compound(c) => {
            assert!(c.is_empty());
            assert_eq!(c.len(), 0);
        },
        other => panic!("expected a compound, got {:?}", other),
    }
}

#[test]
fn compound_duplicate_name_keeps_later_entry() {
    let doc = [
        10u8, 0, 0, // root: Compound, empty name
        1, 0, 1, b'a', 1, // entry: Byte "a" = 1
        1, 0, 1, b'a', 2, // entry: Byte "a" = 2 (replaces the first)
        0, // End
    ];
    let (_, payload) = deserialize_document_bytes(&JavaEdition, &doc).unwrap();
    match payload {
        OwnedPayload::Compound(c) => {
            assert_eq!(c.len(), 1);
            assert_eq!(c.get(b"a"), Some(&OwnedPayload::Byte(2)));
        },
        other => panic!("expected a compound, got {:?}", other),
    }
}

#[test]
fn root_end_tag_is_invalid_discriminant() {
    let doc = [0u8, 0, 0, 1];
    assert_eq!(
        deserialize_document_bytes(&JavaEdition, &doc),
        Err(DecodeError::InvalidDiscriminant)
    );
}

#[test]
fn tag_byte_out_of_range_is_invalid_discriminant() {
    assert_eq!(Tag::from_byte(13), Err(DecodeError::InvalidDiscriminant));
    assert_eq!(Tag::from_byte(0xFF), Err(DecodeError::InvalidDiscriminant));
    assert_eq!(Tag::from_byte(0), Ok(Tag::End));
    assert_eq!(Tag::from_byte(1), Ok(Tag::Byte));
    assert_eq!(Tag::from_byte(12), Ok(Tag::LongArray));
}

#[test]
fn truncation_anywhere_gives_insufficient_data() {
    // A document with a bit of everything before its logical end.
    let doc = [
        10u8, 0, 1, b'r', // root: Compound "r"
        3, 0, 1, b'i', 0, 0, 0, 7, // Int "i" = 7
        8, 0, 1, b's', 0, 2, b'h', b'i', // String "s" = "hi"
        7, 0, 1, b'b', 0, 0, 0, 2, 1, 2, // ByteArray "b" = [1, 2]
        0, // End
    ];
    assert!(deserialize_document_bytes(&JavaEdition, &doc).is_ok());
    for cut in 0..doc.len() - 1 {
        assert_eq!(
            deserialize_document_bytes(&JavaEdition, &doc[..cut]),
            Err(DecodeError::InsufficientData),
            "cut at {}",
            cut
        );
    }
}

#[test]
fn negative_array_length_is_invalid_length() {
    let doc = [
        7u8, 0, 0, // root: ByteArray, empty name
        0xFF, 0xFF, 0xFF, 0xFF, // length -1
    ];
    assert_eq!(
        deserialize_document_bytes(&JavaEdition, &doc),
        Err(DecodeError::InvalidLength)
    );
}

#[test]
fn negative_list_length_is_invalid_length() {
    let doc = [
        9u8, 0, 0, // root: List, empty name
        1, // element tag Byte
        0xFF, 0xFF, 0xFF, 0xFF, // count -1
    ];
    assert_eq!(
        deserialize_document_bytes(&JavaEdition, &doc),
        Err(DecodeError::InvalidLength)
    );
}

#[test]
fn deep_nesting_fails_closed() {
    // A compound nested far beyond the depth bound must report an error,
    // never crash.
    let levels = 4000usize;
    let mut doc = vec![10u8, 0, 0];
    for _ in 0..levels {
        doc.extend_from_slice(&[10, 0, 0]);
    }
    for _ in 0..levels {
        doc.push(0);
    }
    doc.push(0);
    assert_eq!(
        deserialize_document_bytes(&JavaEdition, &doc),
        Err(DecodeError::DepthLimitExceeded)
    );
}

#[test]
fn moderate_nesting_decodes() {
    let levels = 100usize;
    let mut doc = vec![10u8, 0, 0];
    for _ in 0..levels {
        doc.extend_from_slice(&[10, 0, 1, b'x']);
    }
    for _ in 0..levels {
        doc.push(0);
    }
    doc.push(0);
    let (_, payload) = deserialize_document_bytes(&JavaEdition, &doc).unwrap();
    let mut cur = &payload;
    for _ in 0..levels {
        match cur {
            OwnedPayload::Compound(c) => {
                assert_eq!(c.len(), 1);
                cur = c.get(b"x").unwrap();
            },
            other => panic!("expected a compound, got {:?}", other),
        }
    }
    match cur {
        OwnedPayload::Compound(c) => assert!(c.is_empty()),
        other => panic!("expected a compound, got {:?}", other),
    }
}

#[test]
fn scalar_payloads_by_edition() {
    // Int 42, big-endian.
    let doc = [3u8, 0, 3, b'f', b'o', b'o', 0, 0, 0, 42];
    let (name, payload) = deserialize_document_bytes(&JavaEdition, &doc).unwrap();
    assert_eq!(name, b"foo".to_vec());
    assert_eq!(payload, OwnedPayload::Int(42));

    // Same value little-endian: name length is little-endian too.
    let doc = [3u8, 3, 0, b'f', b'o', b'o', 42, 0, 0, 0];
    let (name, payload) = deserialize_document_bytes(&BedrockEdition, &doc).unwrap();
    assert_eq!(name, b"foo".to_vec());
    assert_eq!(payload, OwnedPayload::Int(42));

    // Varint edition: 42 zig-zag encodes to 84.
    let doc = [3u8, 3, 0, b'f', b'o', b'o', 84];
    let (_, payload) = deserialize_document_bytes(&VarIntEdition, &doc).unwrap();
    assert_eq!(payload, OwnedPayload::Int(42));
}

#[test]
fn long_payload_fixed_and_varint() {
    let doc = [4u8, 0, 0, 0, 0, 0, 0, 0, 0, 1, 0];
    let (_, payload) = deserialize_document_bytes(&JavaEdition, &doc).unwrap();
    assert_eq!(payload, OwnedPayload::Long(256));

    let mut doc = vec![4u8, 0, 0];
    doc.extend_from_slice(&encode_varint64(-123456789012345));
    let (_, payload) = deserialize_document_bytes(&VarIntEdition, &doc).unwrap();
    assert_eq!(payload, OwnedPayload::Long(-123456789012345));
}

#[test]
fn float_and_double_carry_exact_bits() {
    let doc = [5u8, 0, 0, 0x3F, 0x80, 0x00, 0x00];
    let (_, payload) = deserialize_document_bytes(&JavaEdition, &doc).unwrap();
    match payload {
        OwnedPayload::Float(bits) => {
            assert_eq!(bits, 0x3F800000);
            assert_eq!(f32::from_bits(bits), 1.0f32);
        },
        other => panic!("expected a float, got {:?}", other),
    }

    let doc = [6u8, 0, 0, 0x3F, 0xF0, 0, 0, 0, 0, 0, 0];
    let (_, payload) = deserialize_document_bytes(&JavaEdition, &doc).unwrap();
    match payload {
        OwnedPayload::Double(bits) => {
            assert_eq!(bits, 0x3FF0000000000000);
            assert_eq!(f64::from_bits(bits), 1.0f64);
        },
        other => panic!("expected a double, got {:?}", other),
    }

    // Floats stay fixed-width four bytes under the varint edition,
    // little-endian.
    let doc = [5u8, 0, 0, 0x00, 0x00, 0x80, 0x3F];
    let (_, payload) = deserialize_document_bytes(&VarIntEdition, &doc).unwrap();
    assert_eq!(payload, OwnedPayload::Float(0x3F800000));
}

#[test]
fn string_payload_is_opaque_bytes() {
    let doc = [8u8, 0, 1, b'k', 0, 3, 0xFF, 0xFE, 0xFD];
    let (name, payload) = deserialize_document_bytes(&JavaEdition, &doc).unwrap();
    assert_eq!(name, b"k".to_vec());
    assert_eq!(payload, OwnedPayload::String(vec![0xFF, 0xFE, 0xFD]));
}

#[test]
fn byte_array_payload() {
    let doc = [7u8, 0, 0, 0, 0, 0, 2, 5, 251];
    let (_, payload) = deserialize_document_bytes(&JavaEdition, &doc).unwrap();
    assert_eq!(payload, OwnedPayload::ByteArray(vec![5, -5]));
}

#[test]
fn int_array_payload_varint_elements() {
    // Count and elements are all varints in the varint edition.
    let mut doc = vec![11u8, 0, 0];
    doc.extend_from_slice(&encode_varint32(2));
    doc.extend_from_slice(&encode_varint32(-7));
    doc.extend_from_slice(&encode_varint32(300));
    let (_, payload) = deserialize_document_bytes(&VarIntEdition, &doc).unwrap();
    assert_eq!(payload, OwnedPayload::IntArray(vec![-7, 300]));
}

#[test]
fn long_array_payload() {
    let doc = [
        12u8, 0, 0, 0, 0, 0, 1, // one element
        0xFF, 0xFF, 0xFF, 0xFF, 0xFF, 0xFF, 0xFF, 0xFF, // -1
    ];
    let (_, payload) = deserialize_document_bytes(&JavaEdition, &doc).unwrap();
    assert_eq!(payload, OwnedPayload::LongArray(vec![-1]));
}

#[test]
fn list_of_compounds() {
    let doc = [
        9u8, 0, 0, // root: List, empty name
        10, // element tag Compound
        0, 0, 0, 2, // two elements
        1, 0, 1, b'b', 7, 0, // {b: Byte 7}
        0, // {}
    ];
    let (_, payload) = deserialize_document_bytes(&JavaEdition, &doc).unwrap();
    match payload {
        OwnedPayload::List(OwnedList::Compound(cs)) => {
            assert_eq!(cs.len(), 2);
            assert_eq!(cs[0].get(b"b"), Some(&OwnedPayload::Byte(7)));
            assert!(cs[1].is_empty());
        },
        other => panic!("expected a list of compounds, got {:?}", other),
    }
}

#[test]
fn list_of_lists() {
    let doc = [
        9u8, 0, 0, // root: List, empty name
        9, // element tag List
        0, 0, 0, 2, // two elements
        0, // untyped empty list
        1, 0, 0, 0, 1, 9, // Byte list [9]
    ];
    let (_, payload) = deserialize_document_bytes(&JavaEdition, &doc).unwrap();
    match payload {
        OwnedPayload::List(OwnedList::List(ls)) => {
            assert_eq!(ls.len(), 2);
            assert!(ls[0].is_untyped_empty());
            assert_eq!(ls[1], OwnedList::Byte(vec![9]));
        },
        other => panic!("expected a list of lists, got {:?}", other),
    }
}

#[test]
fn document_from_cursor_leaves_remainder() {
    let doc = [1u8, 0, 1, b'v', 200, 0xAA, 0xBB];
    let mut u = Unstructured::new(&doc);
    let (name, payload) = deserialize_document(&JavaEdition, &mut u).unwrap();
    assert_eq!(name, b"v".to_vec());
    assert_eq!(payload, OwnedPayload::Byte(-56));
    assert_eq!(u.len(), 2);
}

#[test]
fn error_paths_leave_cursor_at_failure_point() {
    // An invalid tag byte is consumed before the failure is reported.
    let bytes = [13u8, 99];
    let mut u = Unstructured::new(&bytes);
    assert_eq!(Tag::deserialize(&mut u), Err(DecodeError::InvalidDiscriminant));
    assert_eq!(u.len(), 1);

    // A varint cut off mid-way consumes everything it read.
    let bytes = [0x80u8, 0x80];
    let mut u = Unstructured::new(&bytes);
    assert_eq!(deserialize_i32(varint_edition(), &mut u), Err(DecodeError::InsufficientData));
    assert_eq!(u.len(), 0);

    // A string whose body is short consumes only the length field.
    let bytes = [0u8, 5, 1, 2];
    let mut u = Unstructured::new(&bytes);
    assert_eq!(
        deserialize_string(JavaEdition.edition(), &mut u),
        Err(DecodeError::InsufficientData)
    );
    assert_eq!(u.len(), 2);

    // A short fixed-width field consumes nothing.
    let bytes = [1u8, 2, 3];
    let mut u = Unstructured::new(&bytes);
    assert_eq!(
        deserialize_i32(JavaEdition.edition(), &mut u),
        Err(DecodeError::InsufficientData)
    );
    assert_eq!(u.len(), 3);
}

#[test]
fn editions_expose_their_configuration() {
    let java = JavaEdition.edition();
    assert!(java.big_endian);
    assert!(!java.variable_length_ints);
    let bedrock = BedrockEdition.edition();
    assert!(!bedrock.big_endian);
    assert!(!bedrock.variable_length_ints);
    let network = VarIntEdition.edition();
    assert!(!network.big_endian);
    assert!(network.variable_length_ints);
}
