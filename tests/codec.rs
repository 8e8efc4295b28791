use workspace_store::codec::{decode, encode, DecodeError, Workspace};
use workspace_store::varint::read_varint;

fn ws(name: &str, path: &str) -> Workspace {
    Workspace { name: name.to_string(), path: path.to_string() }
}

#[test]
fn encode_main_record_bytes() {
    let bytes = encode(&ws("main", "/work/main"));
    let mut expected = vec![0x0a, 4];
    expected.extend_from_slice(b"main");
    expected.extend_from_slice(&[0x12, 10]);
    expected.extend_from_slice(b"/work/main");
    assert_eq!(bytes, expected);
}

#[test]
fn round_trip_record() {
    let w = ws("main", "/work/main");
    assert_eq!(decode(&encode(&w)), Ok(w));
}

#[test]
fn round_trip_non_ascii_and_empty_fields() {
    for w in [ws("é-ü", "/tmp/ñ/日本"), ws("", ""), ws("only-name", ""), ws("", "/only/path")] {
        assert_eq!(decode(&encode(&w)), Ok(w));
    }
}

#[test]
fn empty_fields_are_left_out() {
    assert_eq!(encode(&ws("", "")), Vec::<u8>::new());
    assert_eq!(encode(&ws("a", "")), vec![0x0a, 1, b'a']);
}

#[test]
fn round_trip_long_path_uses_two_byte_length() {
    let path = "/".to_string() + &"x".repeat(199);
    let w = ws("w", &path);
    let bytes = encode(&w);
    assert_eq!(&bytes[3..6], &[0x12, 0xc8, 0x01]);
    assert_eq!(decode(&bytes), Ok(w));
}

#[test]
fn unknown_length_delimited_field_is_skipped() {
    let w = ws("main", "/work/main");
    let mut bytes = encode(&w);
    bytes.extend_from_slice(&[0x1a, 3, 1, 2, 3]);
    assert_eq!(decode(&bytes), Ok(w));
}

#[test]
fn unknown_fields_of_every_wire_type_are_skipped() {
    let w = ws("a", "/b");
    let mut bytes = encode(&w);
    bytes.extend_from_slice(&[0x18, 0x96, 0x01]);
    bytes.extend_from_slice(&[0x21, 1, 2, 3, 4, 5, 6, 7, 8]);
    bytes.extend_from_slice(&[0x2d, 1, 2, 3, 4]);
    bytes.extend_from_slice(&[0x33, 0x08, 0x05, 0x34]);
    assert_eq!(decode(&bytes), Ok(w));
}

#[test]
fn later_field_replaces_earlier() {
    let mut bytes = encode(&ws("old", "/p"));
    bytes.extend_from_slice(&[0x0a, 3]);
    bytes.extend_from_slice(b"new");
    assert_eq!(decode(&bytes), Ok(ws("new", "/p")));
}

#[test]
fn malformed_records_are_rejected() {
    let cases: Vec<Vec<u8>> = vec![
        vec![0x0a],
        vec![0x0a, 5, b'a'],
        vec![0x08, 1],
        vec![0x0a, 2, 0xff, 0xfe],
        vec![0x00],
        vec![0x0e, 0],
        vec![0x1c],
        vec![0x1b, 0x08, 1],
        vec![0x1b, 0x24],
        vec![0x21, 1, 2, 3],
        vec![0x80],
    ];
    for case in cases {
        assert_eq!(decode(&case), Err(DecodeError), "{:?}", case);
    }
}

#[test]
fn empty_bytes_decode_to_empty_record() {
    assert_eq!(decode(&[]), Ok(ws("", "")));
}

#[test]
fn deep_group_nesting_is_rejected() {
    let mut bytes = Vec::new();
    for _ in 0..101 {
        bytes.push(0x1b);
    }
    for _ in 0..101 {
        bytes.push(0x1c);
    }
    assert_eq!(decode(&bytes), Err(DecodeError));
    let mut shallow = Vec::new();
    for _ in 0..99 {
        shallow.push(0x1b);
    }
    for _ in 0..99 {
        shallow.push(0x1c);
    }
    assert_eq!(decode(&shallow), Ok(ws("", "")));
}

#[test]
fn varints_read_back() {
    assert_eq!(read_varint(&[0x96, 0x01], 0), Some((150, 2)));
    assert_eq!(read_varint(&[0xff, 0x05, 0x7f], 2), Some((127, 3)));
    let max = [0xff, 0xff, 0xff, 0xff, 0xff, 0xff, 0xff, 0xff, 0xff, 0x01];
    assert_eq!(read_varint(&max, 0), Some((u64::MAX, 10)));
    let over = [0xff, 0xff, 0xff, 0xff, 0xff, 0xff, 0xff, 0xff, 0xff, 0x02];
    assert_eq!(read_varint(&over, 0), None);
    assert_eq!(read_varint(&[0x80, 0x80], 0), None);
    assert_eq!(read_varint(&[], 0), None);
}
