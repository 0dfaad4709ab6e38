//! The low-level byte codec: words, length-prefixed strings, and the
//! encodings of keys, values and child references.

use photondb::codec::{decode_from, encode_size, encode_to, read_u32, read_u64};
use photondb::data::{Index, Key, Value};

#[test]
fn bytes_round_trip_with_length_prefix() {
    let payload = b"hello".to_vec();
    assert_eq!(encode_size(&payload), 9);
    let mut out = Vec::new();
    encode_to(&payload, &mut out);
    assert_eq!(out.len(), 9);
    assert_eq!(&out[..4], &5u32.to_le_bytes());
    assert_eq!(&out[4..], b"hello");
    let (decoded, next) = decode_from(&out, 0);
    assert_eq!(decoded, payload);
    assert_eq!(next, 9);
}

#[test]
fn words_read_back() {
    let mut out = Vec::new();
    encode_to(&vec![], &mut out);
    assert_eq!(out, vec![0, 0, 0, 0]);
    let bytes = 0xDEADBEEFu32.to_le_bytes().to_vec();
    assert_eq!(read_u32(&bytes, 0), 0xDEADBEEF);
    let bytes = 0x0123456789ABCDEFu64.to_le_bytes().to_vec();
    assert_eq!(read_u64(&bytes, 0), 0x0123456789ABCDEF);
}

#[test]
fn key_value_and_index_encodings() {
    let key = Key::new(b"k1".to_vec(), 42);
    assert_eq!(key.encode_size(), 4 + 2 + 8);
    let mut out = Vec::new();
    key.encode_to(&mut out);
    assert_eq!(out.len(), 14);
    assert_eq!(&out[..4], &2u32.to_le_bytes());
    assert_eq!(&out[4..6], b"k1");
    assert_eq!(&out[6..14], &42u64.to_le_bytes());

    let put = Value::Put(b"vv".to_vec());
    assert_eq!(put.encode_size(), 3);
    let mut out = Vec::new();
    put.encode_to(&mut out);
    assert_eq!(out, vec![0, b'v', b'v']);
    let del = Value::Delete;
    assert_eq!(del.encode_size(), 1);
    let mut out = Vec::new();
    del.encode_to(&mut out);
    assert_eq!(out, vec![1]);

    let idx = Index::new(3, 9);
    assert_eq!(idx.encode_size(), 16);
    let mut out = Vec::new();
    idx.encode_to(&mut out);
    let (back, next) = Index::decode_from(&out, 0);
    assert_eq!(back, idx);
    assert_eq!(next, 16);
}
