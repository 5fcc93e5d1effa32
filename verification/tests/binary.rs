use plist_tree::binary::document::{decode_binary, encode_binary};
use plist_tree::ParseMessage::{BadKey, BadLength, BadMarker, BadOffset, BadReference, BadText};
use plist_tree::{Node, PlistError};

fn sample() -> Node {
    let mut inner = Node::new_dict();
    inner.dict_set_item("b", Node::new_uint(3)).unwrap();
    let mut arr = Node::new_array();
    arr.array_append_item(Node::new_uint(1)).unwrap();
    arr.array_append_item(Node::new_uint(2)).unwrap();
    arr.array_append_item(inner).unwrap();
    let mut root = Node::new_dict();
    root.dict_set_item("a", arr).unwrap();
    root
}

#[test]
fn binary_round_trip_of_nested_tree() {
    let tree = sample();
    let bytes = encode_binary(&tree).unwrap();
    assert_eq!(&bytes[..8], b"bplist00");
    let back = decode_binary(&bytes).unwrap();
    assert_eq!(back, tree);
    assert!(back.compare_node_value(&tree));
}

#[test]
fn binary_uint_300_takes_two_bytes() {
    let bytes = encode_binary(&Node::new_uint(300)).unwrap();
    assert_eq!(&bytes[8..11], &[0x11, 0x01, 0x2c]);
    assert_eq!(decode_binary(&bytes).unwrap(), Node::new_uint(300));
}

#[test]
fn binary_uint_70000_takes_four_bytes() {
    let bytes = encode_binary(&Node::new_uint(70000)).unwrap();
    assert_eq!(&bytes[8..13], &[0x12, 0x00, 0x01, 0x11, 0x70]);
    assert_eq!(decode_binary(&bytes).unwrap(), Node::new_uint(70000));
}

#[test]
fn binary_offset_table_beyond_buffer_is_truncated() {
    let mut bytes = encode_binary(&Node::new_uint(1)).unwrap();
    let n = bytes.len();
    bytes[n - 1] = 0xff;
    bytes[n - 2] = 0xff;
    assert_eq!(decode_binary(&bytes), Err(PlistError::TruncatedInput));
}

/// A document of the given objects, with one-byte offsets.
fn document(objects: &[&[u8]], ref_size: u8, top: u64) -> Vec<u8> {
    let mut out = b"bplist00".to_vec();
    let mut offsets = Vec::new();
    for o in objects {
        offsets.push(out.len() as u8);
        out.extend_from_slice(o);
    }
    let table = out.len() as u64;
    out.extend_from_slice(&offsets);
    out.extend_from_slice(&[0, 0, 0, 0, 0, 0, 1, ref_size]);
    out.extend_from_slice(&(objects.len() as u64).to_be_bytes());
    out.extend_from_slice(&top.to_be_bytes());
    out.extend_from_slice(&table.to_be_bytes());
    out
}

fn parse_error(position: usize, message: plist_tree::ParseMessage) -> Result<Node, PlistError> {
    Err(PlistError::ParseError { position, message })
}

#[test]
fn binary_layout_of_a_small_array_is_exact() {
    let mut arr = Node::new_array();
    arr.array_append_item(Node::new_uint(1)).unwrap();
    arr.array_append_item(Node::new_bool(true)).unwrap();
    arr.array_append_item(Node::new_uint(1)).unwrap();
    let bytes = encode_binary(&arr).unwrap();
    let mut want = b"bplist00".to_vec();
    want.extend_from_slice(&[0x10, 0x01, 0x09, 0xa3, 0x00, 0x01, 0x00]);
    want.extend_from_slice(&[8, 10, 11]);
    want.extend_from_slice(&[0, 0, 0, 0, 0, 0, 1, 1]);
    want.extend_from_slice(&3u64.to_be_bytes());
    want.extend_from_slice(&2u64.to_be_bytes());
    want.extend_from_slice(&15u64.to_be_bytes());
    assert_eq!(bytes, want);
    assert_eq!(decode_binary(&bytes).unwrap(), arr);
}

#[test]
fn binary_round_trip_of_every_scalar() {
    let mut arr = Node::new_array();
    for n in [
        Node::Null,
        Node::new_bool(true),
        Node::new_bool(false),
        Node::new_uint(0),
        Node::new_uint(255),
        Node::new_uint(256),
        Node::new_uint(65535),
        Node::new_uint(65536),
        Node::new_uint(u32::MAX as u64),
        Node::new_uint(u32::MAX as u64 + 1),
        Node::new_uint(u64::MAX),
        Node::new_real(3.5f64.to_bits()),
        Node::new_real(f64::NAN.to_bits()),
        Node::new_real((-0.0f64).to_bits()),
        Node::new_date(0, 0),
        Node::new_date(-1, -1),
        Node::new_date(i32::MIN, i32::MAX),
        Node::new_data(vec![]),
        Node::new_data((0..=255).collect()),
        Node::new_string(""),
        Node::new_string("plain ascii"),
        Node::new_string("a string of more than fourteen characters"),
        Node::new_string("gr\u{fc}\u{df}e \u{4e16}\u{754c} \u{1f600}"),
        Node::new_uid(0),
        Node::new_uid(70000),
        Node::new_uid(u64::MAX),
    ] {
        arr.array_append_item(n).unwrap();
    }
    let mut root = Node::new_dict();
    root.dict_set_item("items", arr).unwrap();
    root.dict_set_item("\u{e9}t\u{e9}", Node::new_dict()).unwrap();
    root.dict_set_item("empty", Node::new_array()).unwrap();
    let bytes = encode_binary(&root).unwrap();
    assert_eq!(decode_binary(&bytes).unwrap(), root);
}

#[test]
fn binary_many_objects_take_wider_references_and_offsets() {
    let mut arr = Node::new_array();
    for i in 0..300u64 {
        arr.array_append_item(Node::new_uint(1000 + i)).unwrap();
    }
    let bytes = encode_binary(&arr).unwrap();
    let n = bytes.len();
    assert_eq!(bytes[n - 26], 2);
    assert_eq!(bytes[n - 25], 2);
    assert_eq!(&bytes[n - 24..n - 16], &301u64.to_be_bytes());
    assert_eq!(decode_binary(&bytes).unwrap(), arr);
}

#[test]
fn binary_key_node_cannot_be_written() {
    assert_eq!(encode_binary(&Node::new_key("k")), Err(PlistError::TypeMismatch));
    let mut arr = Node::new_array();
    arr.array_append_item(Node::new_uint(1)).unwrap();
    arr.array_append_item(Node::new_key("k")).unwrap();
    assert_eq!(encode_binary(&arr), Err(PlistError::TypeMismatch));
}

#[test]
fn binary_short_buffer_is_truncated() {
    assert_eq!(decode_binary(b""), Err(PlistError::TruncatedInput));
    assert_eq!(decode_binary(b"bplist00"), Err(PlistError::TruncatedInput));
    let bytes = encode_binary(&Node::new_uint(1)).unwrap();
    assert_eq!(decode_binary(&bytes[..bytes.len() - 1]).is_err(), true);
    assert_eq!(decode_binary(&bytes[..39]), Err(PlistError::TruncatedInput));
}

#[test]
fn binary_header_is_checked() {
    let mut bytes = encode_binary(&Node::new_uint(1)).unwrap();
    bytes[7] = b'1';
    assert_eq!(decode_binary(&bytes), Err(PlistError::UnsupportedVersion));
    bytes[0] = b'x';
    assert_eq!(decode_binary(&bytes), parse_error(0, plist_tree::ParseMessage::BadMagic));
}

#[test]
fn binary_trailer_is_checked() {
    let good = document(&[&[0x09]], 1, 0);
    assert_eq!(decode_binary(&good), Ok(Node::new_bool(true)));
    let at = good.len() - 32;
    let mut bad = good.clone();
    bad[at + 6] = 0;
    assert_eq!(decode_binary(&bad), parse_error(at, plist_tree::ParseMessage::BadTrailer));
    let mut bad = good.clone();
    bad[at + 7] = 9;
    assert_eq!(decode_binary(&bad), parse_error(at, plist_tree::ParseMessage::BadTrailer));
    let mut bad = good.clone();
    bad[at + 23] = 1;
    assert_eq!(decode_binary(&bad), parse_error(at, plist_tree::ParseMessage::BadTrailer));
    let mut bad = good.clone();
    bad[at + 15] = 0;
    assert_eq!(decode_binary(&bad), parse_error(at, plist_tree::ParseMessage::BadTrailer));
    let mut bad = good.clone();
    bad[at + 15] = 200;
    assert_eq!(decode_binary(&bad), Err(PlistError::TruncatedInput));
}

#[test]
fn binary_cycle_is_refused() {
    let own = document(&[&[0xa1, 0x00]], 1, 0);
    assert_eq!(decode_binary(&own), Err(PlistError::CyclicReference));
    let two = document(&[&[0xa1, 0x01], &[0xd1, 0x02, 0x00], &[0x51, b'k']], 1, 0);
    assert_eq!(decode_binary(&two), Err(PlistError::CyclicReference));
}

#[test]
fn binary_shared_objects_are_read_once_for_each_reference() {
    let doc = document(&[&[0xa2, 0x01, 0x01], &[0xa1, 0x02], &[0x10, 0x07]], 1, 0);
    let mut inner = Node::new_array();
    inner.array_append_item(Node::new_uint(7)).unwrap();
    let mut want = Node::new_array();
    want.array_append_item(inner.copy()).unwrap();
    want.array_append_item(inner).unwrap();
    assert_eq!(decode_binary(&doc), Ok(want));
}

#[test]
fn binary_malformed_objects_are_reported_with_their_position() {
    assert_eq!(decode_binary(&document(&[&[0x0f]], 1, 0)), parse_error(8, BadMarker));
    assert_eq!(decode_binary(&document(&[&[0x14, 0]], 1, 0)), parse_error(8, BadMarker));
    assert_eq!(decode_binary(&document(&[&[0x21, 0, 0]], 1, 0)), parse_error(8, BadMarker));
    assert_eq!(decode_binary(&document(&[&[0x32, 0, 0]], 1, 0)), parse_error(8, BadMarker));
    assert_eq!(decode_binary(&document(&[&[0x70]], 1, 0)), parse_error(8, BadMarker));
    assert_eq!(decode_binary(&document(&[&[0xc0]], 1, 0)), parse_error(8, BadMarker));
    assert_eq!(decode_binary(&document(&[&[0x09], &[0x4f, 0x20, 0]], 1, 0)), parse_error(9, BadLength));
    assert_eq!(decode_binary(&document(&[&[0xa1, 0x05]], 1, 0)), parse_error(8, BadReference));
    assert_eq!(
        decode_binary(&document(&[&[0xd1, 0x01, 0x01], &[0x09]], 1, 0)),
        parse_error(8, BadKey)
    );
    assert_eq!(decode_binary(&document(&[&[0x51, 0x80]], 1, 0)), parse_error(8, BadText));
    assert_eq!(decode_binary(&document(&[&[0x61, 0xd8, 0x00]], 1, 0)), parse_error(8, BadText));
    assert_eq!(decode_binary(&document(&[&[0x61, 0xdc, 0x00]], 1, 0)), parse_error(8, BadText));
    let mut doc = document(&[&[0x09]], 1, 0);
    doc[9] = 3;
    assert_eq!(decode_binary(&doc), parse_error(9, BadOffset));
    doc[9] = 9;
    assert_eq!(decode_binary(&doc), parse_error(9, BadOffset));
}

#[test]
fn binary_object_running_beyond_the_object_area_is_truncated() {
    assert_eq!(decode_binary(&document(&[&[0x13, 0, 0]], 1, 0)), Err(PlistError::TruncatedInput));
    assert_eq!(decode_binary(&document(&[&[0x45, 1, 2]], 1, 0)), Err(PlistError::TruncatedInput));
    assert_eq!(decode_binary(&document(&[&[0x62, 0, 65]], 1, 0)), Err(PlistError::TruncatedInput));
    assert_eq!(decode_binary(&document(&[&[0xa2, 0]], 1, 0)), Err(PlistError::TruncatedInput));
    assert_eq!(decode_binary(&document(&[&[0xd1, 0]], 1, 0)), Err(PlistError::TruncatedInput));
    assert_eq!(decode_binary(&document(&[&[0x4f]], 1, 0)), Err(PlistError::TruncatedInput));
    assert_eq!(decode_binary(&document(&[&[0x4f, 0x11, 0]], 1, 0)), Err(PlistError::TruncatedInput));
}

#[test]
fn binary_utf16_text_is_read_as_characters() {
    let doc = document(&[&[0x63, 0x00, 0x41, 0xd8, 0x3d, 0xde, 0x00]], 1, 0);
    assert_eq!(decode_binary(&doc), Ok(Node::new_string("A\u{1f600}")));
    let bytes = encode_binary(&Node::new_string("A\u{1f600}")).unwrap();
    assert_eq!(&bytes[8..15], &[0x63, 0x00, 0x41, 0xd8, 0x3d, 0xde, 0x00]);
    let ascii = encode_binary(&Node::new_string("AB")).unwrap();
    assert_eq!(&ascii[8..11], &[0x52, 0x41, 0x42]);
}

#[test]
fn binary_single_width_real_is_widened_exactly() {
    for x in [
        0.0f32,
        -0.0,
        1.0,
        -1.5,
        3.1415927,
        f32::MAX,
        f32::MIN_POSITIVE,
        f32::MIN_POSITIVE / 2.0,
        f32::from_bits(1),
        f32::from_bits(0x007f_ffff),
        f32::from_bits(0x8000_0001),
        f32::INFINITY,
        f32::NEG_INFINITY,
    ] {
        let b = x.to_bits().to_be_bytes();
        let doc = document(&[&[0x22, b[0], b[1], b[2], b[3]]], 1, 0);
        let node = decode_binary(&doc).unwrap();
        assert_eq!(node.get_real_val(), Ok((x as f64).to_bits()));
    }
    let b = 0x7fc0_0001u32.to_be_bytes();
    let doc = document(&[&[0x22, b[0], b[1], b[2], b[3]]], 1, 0);
    let nan = f64::from_bits(decode_binary(&doc).unwrap().get_real_val().unwrap());
    assert!(nan.is_nan());
}

#[test]
fn binary_date_holds_seconds_and_microseconds() {
    let bytes = encode_binary(&Node::new_date(-2, 500_000)).unwrap();
    assert_eq!(&bytes[8..17], &[0x33, 0xff, 0xff, 0xff, 0xfe, 0x00, 0x07, 0xa1, 0x20]);
    assert_eq!(decode_binary(&bytes), Ok(Node::new_date(-2, 500_000)));
}

#[test]
fn binary_duplicate_key_last_write_wins() {
    let doc = document(
        &[&[0xd2, 1, 1, 2, 3], &[0x51, b'k'], &[0x10, 1], &[0x10, 2]],
        1,
        0,
    );
    let mut want = Node::new_dict();
    want.dict_set_item("k", Node::new_uint(2)).unwrap();
    assert_eq!(decode_binary(&doc), Ok(want));
}
