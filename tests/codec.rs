use ttlv::{padded_len, parse_ttlv_len, Error, Ttlv, Value, WriteVar};

#[derive(Copy, Clone, PartialEq, Debug)]
pub enum Tag {
    Request,
    RequestHeader,
    ProtocolVersion,
    RequestBody,
}

impl ttlv::Tag for Tag {
    fn spec_wire(&self) -> u16 {
        ttlv::Tag::to_u16(self)
    }

    fn spec_from_wire(n: u16) -> Option<Self> {
        <Tag as ttlv::Tag>::from_u16(n)
    }

    fn from_u16(n: u16) -> Option<Self> {
        match n {
            0 => Some(Tag::Request),
            1 => Some(Tag::RequestHeader),
            2 => Some(Tag::ProtocolVersion),
            3 => Some(Tag::RequestBody),
            _ => None,
        }
    }

    fn to_u16(&self) -> u16 {
        match self {
            Tag::Request => 0,
            Tag::RequestHeader => 1,
            Tag::ProtocolVersion => 2,
            Tag::RequestBody => 3,
        }
    }
}

#[test]
fn encode_decode() -> Result<(), Error> {
    let message: Ttlv = Ttlv::new(
        Tag::Request,
        Value::Structure(vec![
            Ttlv::new(
                Tag::RequestHeader,
                Value::Structure(vec![Ttlv::new(Tag::ProtocolVersion, Value::Integer(6))]),
            ),
            Ttlv::new(Tag::RequestBody, Value::TextString("message body")),
        ]),
    );

    let encoded = &mut [0u8; 1000];
    let encoded_len = message.encode(encoded)?;

    let (decoded, decoded_len) = Ttlv::decode(encoded)?;
    assert_eq!(encoded_len, decoded_len);
    assert_eq!(message, decoded);

    let version: i32 = decoded
        .path(&[Tag::RequestHeader, Tag::ProtocolVersion])?
        .value()?;
    assert_eq!(6, version);
    let message_body: &str = decoded.path(&[Tag::RequestBody])?.value()?;
    assert_eq!("message body", message_body);
    Ok(())
}

#[test]
fn round_trip_every_supported_kind() {
    let blob = [1u8, 2, 3, 4, 5, 6, 7, 8, 9];
    let message = Ttlv::new(
        7u16,
        Value::Structure(vec![
            Ttlv::new(1u16, Value::Integer(-42)),
            Ttlv::new(2u16, Value::LongInteger(-1_234_567_890_123)),
            Ttlv::new(3u16, Value::Enumeration(0xDEAD_BEEF)),
            Ttlv::new(4u16, Value::Boolean(true)),
            Ttlv::new(5u16, Value::Boolean(false)),
            Ttlv::new(6u16, Value::TextString("héllo")),
            Ttlv::new(7u16, Value::ByteString(&blob)),
            Ttlv::new(8u16, Value::DateTime(1_700_000_000)),
            Ttlv::new(9u16, Value::Interval(86_400)),
            Ttlv::new(10u16, Value::Structure(vec![])),
            Ttlv::new(11u16, Value::TextString("")),
        ]),
    );
    let mut buf = [0u8; 512];
    let n = message.encode(&mut buf).unwrap();
    assert_eq!(n % 8, 0);
    let (decoded, m) = Ttlv::decode(&buf).unwrap();
    assert_eq!(n, m);
    assert_eq!(decoded, message);
}

#[test]
fn integer_wire_bytes() {
    let node = Ttlv::new(0x1234u16, Value::Integer(6));
    let mut buf = [0xAAu8; 20];
    assert_eq!(node.encode(&mut buf), Ok(16));
    assert_eq!(
        buf[..16],
        [0x42, 0x12, 0x34, 2, 0, 0, 0, 4, 0, 0, 0, 6, 0, 0, 0, 0]
    );
    assert_eq!(buf[16..], [0xAA; 4]);
}

#[test]
fn negative_integer_and_boolean_bytes() {
    let mut buf = [0u8; 16];
    assert_eq!(Ttlv::new(1u16, Value::Integer(-1)).encode(&mut buf), Ok(16));
    assert_eq!(buf[8..], [0xFF, 0xFF, 0xFF, 0xFF, 0, 0, 0, 0]);
    assert_eq!(Ttlv::new(1u16, Value::Boolean(true)).encode(&mut buf), Ok(16));
    assert_eq!(buf, [0x42, 0, 1, 6, 0, 0, 0, 8, 0, 0, 0, 0, 0, 0, 0, 1]);
}

#[test]
fn text_is_zero_padded() {
    let node = Ttlv::new(5u16, Value::TextString("abc"));
    let mut buf = [0xEEu8; 16];
    assert_eq!(node.encode(&mut buf), Ok(16));
    assert_eq!(
        buf,
        [0x42, 0, 5, 7, 0, 0, 0, 3, b'a', b'b', b'c', 0, 0, 0, 0, 0]
    );
}

#[test]
fn padding_of_nine_bytes() {
    let data = [9u8; 9];
    let node = Ttlv::new(5u16, Value::ByteString(&data));
    let mut buf = [0xEEu8; 40];
    assert_eq!(node.encode(&mut buf), Ok(24));
    assert_eq!(buf[4..8], [0, 0, 0, 9]);
    assert_eq!(buf[17..24], [0; 7]);
}

#[test]
fn structure_length_is_sum_of_children() {
    let node = Ttlv::new(
        1u16,
        Value::Structure(vec![
            Ttlv::new(2u16, Value::Interval(3)),
            Ttlv::new(3u16, Value::TextString("abcdefghi")),
        ]),
    );
    let mut buf = [0u8; 64];
    assert_eq!(node.encode(&mut buf), Ok(8 + 16 + 24));
    assert_eq!(buf[..8], [0x42, 0, 1, 1, 0, 0, 0, 40]);
}

#[test]
fn extraction_type_mismatch() {
    let int_node = Ttlv::new(1u16, Value::Integer(6));
    assert_eq!(int_node.value::<i64>(), Err(Error::TypeMismatch));
    assert_eq!(int_node.value::<i32>(), Ok(6));
    let data = [1u8, 2];
    let bytes_node = Ttlv::new(1u16, Value::ByteString(&data));
    assert_eq!(bytes_node.value::<&str>(), Err(Error::TypeMismatch));
    assert_eq!(bytes_node.value::<&[u8]>(), Ok(&data[..]));
    let enum_node = Ttlv::new(1u16, Value::Enumeration(9));
    assert_eq!(enum_node.value::<u32>(), Ok(9));
    assert_eq!(enum_node.value::<bool>(), Err(Error::TypeMismatch));
    let bool_node = Ttlv::new(1u16, Value::Boolean(true));
    assert_eq!(bool_node.value::<bool>(), Ok(true));
}

#[test]
fn path_takes_first_match() {
    let node = Ttlv::new(
        Tag::Request,
        Value::Structure(vec![
            Ttlv::new(Tag::RequestBody, Value::Integer(0)),
            Ttlv::new(Tag::RequestHeader, Value::Integer(1)),
            Ttlv::new(Tag::RequestHeader, Value::Integer(2)),
        ]),
    );
    let found = node.path(&[Tag::RequestHeader]).unwrap();
    assert_eq!(found.value::<i32>(), Ok(1));
}

#[test]
fn path_errors() {
    let node = Ttlv::new(
        Tag::Request,
        Value::Structure(vec![Ttlv::new(Tag::RequestHeader, Value::Integer(1))]),
    );
    assert_eq!(node.path(&[Tag::RequestBody]).err(), Some(Error::ChildNotFound));
    assert_eq!(
        node.path(&[Tag::RequestHeader, Tag::ProtocolVersion]).err(),
        Some(Error::TypeMismatch)
    );
}

#[test]
fn child_iter_lists_children() {
    let node = Ttlv::new(
        Tag::Request,
        Value::Structure(vec![
            Ttlv::new(Tag::RequestHeader, Value::Integer(1)),
            Ttlv::new(Tag::RequestBody, Value::Integer(2)),
        ]),
    );
    let tags: Vec<Option<Tag>> = node.child_iter().unwrap().iter().map(|c| c.tag()).collect();
    assert_eq!(tags, vec![Some(Tag::RequestHeader), Some(Tag::RequestBody)]);
    let leaf = Ttlv::new(Tag::Request, Value::Integer(1));
    assert_eq!(leaf.child_iter().err(), Some(Error::TypeMismatch));
    assert_eq!(leaf.tag::<Tag>(), Some(Tag::Request));
    assert_eq!(leaf.tag::<u16>(), Some(0));
    assert_eq!(leaf.wire_tag(), 0);
    assert_eq!(Ttlv::new(9u16, Value::Integer(1)).tag::<Tag>(), None);
}

#[test]
fn encode_into_tiny_buffer_fails() {
    let node = Ttlv::new(1u16, Value::Integer(6));
    let mut buf = [0u8; 4];
    assert_eq!(node.encode(&mut buf), Err(Error::InsufficientBufferSize));
    let empty = Ttlv::new(1u16, Value::Structure(vec![]));
    assert_eq!(empty.encode(&mut buf), Err(Error::InsufficientBufferSize));
}

#[test]
fn encode_text_that_does_not_fit() {
    let node = Ttlv::new(1u16, Value::TextString("seventeen bytes!!"));
    let mut buf = [0u8; 24];
    assert_eq!(node.encode(&mut buf), Err(Error::InsufficientBufferSize));
}

#[test]
fn child_needs_sixteen_bytes() {
    let node = Ttlv::new(1u16, Value::Structure(vec![Ttlv::new(2u16, Value::TextString(""))]));
    let mut small = [0u8; 23];
    assert_eq!(node.encode(&mut small), Err(Error::InsufficientBufferSize));
    let mut enough = [0u8; 24];
    assert_eq!(node.encode(&mut enough), Ok(16));
}

#[test]
fn big_integer_is_not_encoded() {
    let data = [0xFFu8];
    let node = Ttlv::new(1u16, Value::Structure(vec![Ttlv::new(2u16, Value::BigInteger(&data))]));
    let mut buf = [0u8; 64];
    assert_eq!(node.encode(&mut buf), Err(Error::UnsupportedType));
}

#[test]
fn big_integer_is_decoded() {
    let buf = [0x42, 0, 1, 4, 0, 0, 0, 2, 0x80, 0x01, 0, 0, 0, 0, 0, 0];
    let (node, n) = Ttlv::decode(&buf).unwrap();
    assert_eq!(n, 16);
    assert_eq!(node, Ttlv::new(1u16, Value::BigInteger(&[0x80, 0x01])));
}

#[test]
fn decode_corrupt_utf8() {
    let buf = [0x42, 0, 1, 7, 0, 0, 0, 2, b'a', 0xFF, 0, 0, 0, 0, 0, 0];
    assert_eq!(Ttlv::decode(&buf), Err(Error::CorruptUtf8));
}

#[test]
fn decode_header_errors() {
    assert_eq!(Ttlv::decode(&[0x42, 0, 1, 2]), Err(Error::InsufficientBufferSize));
    let no_start = [0x41, 0, 1, 2, 0, 0, 0, 4, 0, 0, 0, 1, 0, 0, 0, 0];
    assert_eq!(Ttlv::decode(&no_start), Err(Error::MissingStartByte));
    let bad_type = [0x42, 0, 1, 11, 0, 0, 0, 4, 0, 0, 0, 1, 0, 0, 0, 0];
    assert_eq!(Ttlv::decode(&bad_type), Err(Error::UnsupportedType));
    let zero_type = [0x42, 0, 1, 0, 0, 0, 0, 4, 0, 0, 0, 1, 0, 0, 0, 0];
    assert_eq!(Ttlv::decode(&zero_type), Err(Error::UnsupportedType));
    let long_text = [0x42, 0, 1, 7, 0, 0, 0, 9, b'a', b'b', b'c', b'd', b'e', b'f', b'g', b'h'];
    assert_eq!(Ttlv::decode(&long_text), Err(Error::InsufficientBufferSize));
    let short_int = [0x42, 0, 1, 2, 0, 0, 0, 0];
    assert_eq!(Ttlv::decode(&short_int), Err(Error::InsufficientBufferSize));
}

#[test]
fn decode_stops_children_at_malformed_child() {
    let buf = [
        0x42, 0, 1, 1, 0, 0, 0, 32, // structure, 32 bytes of children
        0x42, 0, 2, 2, 0, 0, 0, 4, 0, 0, 0, 5, 0, 0, 0, 0, // Integer(5)
        0x00, 0, 3, 2, 0, 0, 0, 4, 0, 0, 0, 6, 0, 0, 0, 0, // no start byte
    ];
    let (node, n) = Ttlv::decode(&buf).unwrap();
    assert_eq!(n, 40);
    assert_eq!(
        node,
        Ttlv::new(1u16, Value::Structure(vec![Ttlv::new(2u16, Value::Integer(5))]))
    );
}

#[test]
fn decode_ignores_trailing_bytes() {
    let buf = [0x42, 0, 9, 10, 0, 0, 0, 4, 0, 0, 1, 0, 0, 0, 0, 0, 0xAB, 0xCD];
    let (node, n) = Ttlv::decode(&buf).unwrap();
    assert_eq!(n, 16);
    assert_eq!(node.value::<u32>(), Err(Error::TypeMismatch));
    assert_eq!(node, Ttlv::new(9u16, Value::Interval(256)));
}

#[test]
fn path_by_wire_tags() {
    let node = Ttlv::with_wire_tag(
        0,
        Value::Structure(vec![Ttlv::with_wire_tag(
            1,
            Value::Structure(vec![Ttlv::with_wire_tag(2, Value::DateTime(-5))]),
        )]),
    );
    let found = node.path_wire(&[1, 2]).unwrap();
    assert_eq!(found.value::<i64>(), Err(Error::TypeMismatch));
    assert_eq!(found, &Ttlv::new(2u16, Value::DateTime(-5)));
    assert_eq!(node.path_wire(&[2]).err(), Some(Error::ChildNotFound));
}

#[test]
fn padded_len_rounds_up() {
    assert_eq!(padded_len(0), 0);
    assert_eq!(padded_len(1), 8);
    assert_eq!(padded_len(8), 8);
    assert_eq!(padded_len(9), 16);
}

#[test]
fn parse_ttlv_len_pads_field() {
    assert_eq!(parse_ttlv_len(&[0, 0, 0, 5]), 8);
    assert_eq!(parse_ttlv_len(&[0, 0, 0, 16]), 16);
    assert_eq!(parse_ttlv_len(&[0, 0, 1, 1]), 264);
}

#[test]
fn write_var_pads_and_checks_room() {
    let mut buf = [0xEEu8; 16];
    assert_eq!(buf.write_var(&[1, 2, 3], 8), Ok(()));
    assert_eq!(buf[..8], [0xEE; 8]);
    assert_eq!(buf[8..], [1, 2, 3, 0, 0, 0, 0, 0]);
    let mut small = [0xEEu8; 15];
    assert_eq!(small.write_var(&[1, 2, 3], 8), Err(Error::InsufficientBufferSize));
    assert_eq!(small, [0xEE; 15]);
}

#[test]
fn write_var_offset_past_end() {
    let mut buf = [0xEEu8; 8];
    assert_eq!(buf.write_var(&[], 9), Err(Error::InsufficientBufferSize));
    assert_eq!(buf.write_var(&[1], 20), Err(Error::InsufficientBufferSize));
    assert_eq!(buf, [0xEE; 8]);
    assert_eq!(buf.write_var(&[], 8), Ok(()));
}

#[test]
fn length_field_predicts_size() {
    let node = Ttlv::new(
        Tag::Request,
        Value::Structure(vec![
            Ttlv::new(Tag::RequestBody, Value::TextString("twelve bytes")),
            Ttlv::new(Tag::RequestHeader, Value::LongInteger(3)),
        ]),
    );
    let mut buf = [0u8; 64];
    let n = node.encode(&mut buf).unwrap();
    assert_eq!(n, 48);
    assert_eq!(8 + parse_ttlv_len(&buf[4..8]), n);
}

#[test]
fn tags_survive_construction() {
    let node = Ttlv::new(Tag::RequestBody, Value::Boolean(false));
    assert_eq!(node.tag::<Tag>(), Some(Tag::RequestBody));
    assert_eq!(node.wire_tag(), 3);
    assert_eq!(node, Ttlv::with_wire_tag(3, Value::Boolean(false)));
    assert_ne!(node, Ttlv::new(Tag::RequestHeader, Value::Boolean(false)));
}

#[test]
fn path_skips_unknown_wire_tags() {
    let node = Ttlv::with_wire_tag(
        0,
        Value::Structure(vec![
            Ttlv::with_wire_tag(500, Value::Integer(1)),
            Ttlv::with_wire_tag(3, Value::Integer(2)),
        ]),
    );
    assert_eq!(node.child_iter().unwrap()[0].tag::<Tag>(), None);
    let found = node.path(&[Tag::RequestBody]).unwrap();
    assert_eq!(found.value::<i32>(), Ok(2));
}
