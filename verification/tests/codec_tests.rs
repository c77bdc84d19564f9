use kvs::KvsError;
use kvs::codec::{decode_cmd, encode_cmd, Command, TAG_PUT, TAG_REMOVE};

#[test]
fn encode_decode_put_round_trip() {
    let cmd = Command::Put(b"key".to_vec(), b"value".to_vec());
    let mut buf: Vec<u8> = Vec::new();
    encode_cmd(&cmd, &mut buf);
    assert_eq!(buf.len(), 1 + 8 + 3 + 8 + 5);
    let (decoded, end) = decode_cmd(&buf, 0).unwrap();
    assert_eq!(end, buf.len());
    match decoded {
        Command::Put(k, v) => {
            assert_eq!(k, b"key".to_vec());
            assert_eq!(v, b"value".to_vec());
        }
        Command::Remove(_) => panic!("decoded the wrong variant"),
    }
}

#[test]
fn encode_decode_remove_round_trip() {
    let cmd = Command::Remove(b"gone".to_vec());
    let mut buf: Vec<u8> = Vec::new();
    encode_cmd(&cmd, &mut buf);
    assert_eq!(buf.len(), 1 + 8 + 4);
    let (decoded, end) = decode_cmd(&buf, 0).unwrap();
    assert_eq!(end, buf.len());
    match decoded {
        Command::Remove(k) => assert_eq!(k, b"gone".to_vec()),
        Command::Put(_, _) => panic!("decoded the wrong variant"),
    }
}

#[test]
fn encode_decode_empty_key_and_value() {
    let cmd = Command::Put(Vec::new(), Vec::new());
    let mut buf: Vec<u8> = Vec::new();
    encode_cmd(&cmd, &mut buf);
    assert_eq!(buf.len(), 17);
    let (decoded, end) = decode_cmd(&buf, 0).unwrap();
    assert_eq!(end, 17);
    match decoded {
        Command::Put(k, v) => {
            assert!(k.is_empty());
            assert!(v.is_empty());
        }
        Command::Remove(_) => panic!("decoded the wrong variant"),
    }
}

#[test]
fn record_layout_is_exact() {
    let cmd = Command::Put(b"a".to_vec(), b"b".to_vec());
    let mut buf: Vec<u8> = Vec::new();
    encode_cmd(&cmd, &mut buf);
    let expected = vec![
        TAG_PUT, 1, 0, 0, 0, 0, 0, 0, 0, b'a', 1, 0, 0, 0, 0, 0, 0, 0, b'b',
    ];
    assert_eq!(buf, expected);
}

#[test]
fn remove_layout_is_exact() {
    let cmd = Command::Remove(b"xy".to_vec());
    let mut buf: Vec<u8> = Vec::new();
    encode_cmd(&cmd, &mut buf);
    let expected = vec![TAG_REMOVE, 2, 0, 0, 0, 0, 0, 0, 0, b'x', b'y'];
    assert_eq!(buf, expected);
}

#[test]
fn decode_rejects_truncated_record() {
    let cmd = Command::Put(b"key".to_vec(), b"value".to_vec());
    let mut buf: Vec<u8> = Vec::new();
    encode_cmd(&cmd, &mut buf);
    buf.pop();
    assert_eq!(decode_cmd(&buf, 0), Err(KvsError::Corrupt));
}

#[test]
fn decode_rejects_unknown_tag() {
    let buf = vec![9u8; 32];
    assert_eq!(decode_cmd(&buf, 0), Err(KvsError::Corrupt));
}

#[test]
fn decode_consumes_records_back_to_back() {
    let mut buf: Vec<u8> = Vec::new();
    encode_cmd(&Command::Put(b"a".to_vec(), b"1".to_vec()), &mut buf);
    let first_end = buf.len();
    encode_cmd(&Command::Remove(b"a".to_vec()), &mut buf);
    let (first, end1) = decode_cmd(&buf, 0).unwrap();
    assert_eq!(end1, first_end);
    assert!(matches!(first, Command::Put(_, _)));
    let (second, end2) = decode_cmd(&buf, end1).unwrap();
    assert_eq!(end2, buf.len());
    assert!(matches!(second, Command::Remove(_)));
}
