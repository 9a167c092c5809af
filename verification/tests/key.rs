use bytes::Bytes;
use mini_lsm::key::{slice_lt, KeyBytes, KeySlice, KeyVec};

#[test]
fn key_vec_operations() {
    let mut k = KeyVec::new();
    assert!(k.is_empty());
    k.append(b"ab");
    k.append(b"c");
    assert_eq!(k.raw_ref(), b"abc");
    assert_eq!(k.len(), 3);
    k.set_from_slice(KeySlice::from_slice(b"xy"));
    assert_eq!(k.as_key_slice().raw_ref(), b"xy");
    k.clear();
    assert!(k.is_empty());
    let v = KeyVec::from_vec(b"key".to_vec());
    assert_eq!(v.clone().into_key_bytes().raw_ref(), b"key");
    assert_eq!(v.clone().for_testing_ts(), 0);
    assert_eq!(v.into_inner(), b"key".to_vec());
}

#[test]
fn key_slice_and_bytes() {
    let s = KeySlice::for_testing_from_slice_with_ts(b"hello", 42);
    assert_eq!(s.len(), 5);
    assert!(!s.is_empty());
    assert_eq!(s.to_key_vec().for_testing_key_ref(), b"hello");
    let b = KeyBytes::from_bytes(Bytes::from_static(b"world"));
    assert_eq!(b.len(), 5);
    assert_eq!(b.as_key_slice().raw_ref(), b"world");
    assert_eq!(b.clone().for_testing_key_ref(), b"world");
    let b2 = KeyBytes::for_testing_from_bytes_no_ts(Bytes::new());
    assert!(b2.is_empty());
}

#[test]
fn key_order() {
    assert!(slice_lt(b"a", b"b"));
    assert!(slice_lt(b"ab", b"abc"));
    assert!(!slice_lt(b"abc", b"ab"));
    assert!(!slice_lt(b"abc", b"abc"));
    assert!(slice_lt(b"", b"a"));
    assert!(slice_lt(b"a\xff", b"b"));
}
