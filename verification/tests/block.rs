use std::sync::Arc;

use bytes::Bytes;
use mini_lsm::block::builder::BlockBuilder;
use mini_lsm::block::iterator::BlockIterator;
use mini_lsm::block::Block;
use mini_lsm::key::{KeySlice, KeyVec};

fn key_of(idx: usize) -> KeyVec {
    KeyVec::for_testing_from_vec_no_ts(format!("key_{:03}", idx * 5).into_bytes())
}

fn value_of(idx: usize) -> Vec<u8> {
    format!("value_{:010}", idx).into_bytes()
}

fn num_of_keys() -> usize {
    100
}

fn generate_block() -> Block {
    let mut builder = Block::builder(10000);
    for idx in 0..num_of_keys() {
        let key = key_of(idx);
        let value = value_of(idx);
        assert!(builder.add(key.as_key_slice(), &value[..]));
    }
    builder.build()
}

fn as_bytes(x: &[u8]) -> Bytes {
    Bytes::copy_from_slice(x)
}

#[test]
fn test_block_encode() {
    let block = generate_block();
    block.encode();
}

#[test]
fn test_block_decode() {
    let block = generate_block();
    let encoded = block.encode();
    let decoded = Block::decode(&encoded);
    assert_eq!(block.offsets, decoded.offsets);
    assert_eq!(block.data, decoded.data);
}

#[test]
fn test_block_iterator() {
    let block = Arc::new(generate_block());
    let mut iter = BlockIterator::create_and_seek_to_first(block);

    for i in 0..num_of_keys() {
        let key = iter.key();
        let value = iter.value();
        assert!(iter.is_valid());
        assert_eq!(
            key.for_testing_key_ref(),
            key_of(i).for_testing_key_ref(),
            "expected key: {:?}, actual key: {:?}",
            as_bytes(key_of(i).for_testing_key_ref()),
            as_bytes(key.for_testing_key_ref())
        );
        assert_eq!(
            value,
            value_of(i),
            "expected value: {:?}, actual value: {:?}",
            as_bytes(&value_of(i)),
            as_bytes(value)
        );
        iter.next();
    }

    for i in (0..num_of_keys()).rev() {
        iter.prev();
        let key = iter.key();
        let value = iter.value();
        assert!(iter.is_valid());
        assert_eq!(
            key.for_testing_key_ref(),
            key_of(i).for_testing_key_ref(),
            "expected key: {:?}, actual key: {:?}",
            as_bytes(key_of(i).for_testing_key_ref()),
            as_bytes(key.for_testing_key_ref())
        );
        assert_eq!(
            value,
            value_of(i),
            "expected value: {:?}, actual value: {:?}",
            as_bytes(&value_of(i)),
            as_bytes(value)
        );
    }
}

#[test]
fn test_block_seek_key() {
    let block = Arc::new(generate_block());
    let mut iter = BlockIterator::create_and_seek_to_key(block, key_of(0).as_key_slice());
    for offset in 1..=5 {
        for i in 0..num_of_keys() {
            let key = iter.key();
            let value = iter.value();
            assert!(iter.is_valid());
            assert_eq!(
                key.for_testing_key_ref(),
                key_of(i).for_testing_key_ref(),
                "expected key: {:?}, actual key: {:?}",
                as_bytes(key_of(i).for_testing_key_ref()),
                as_bytes(key.for_testing_key_ref())
            );
            assert_eq!(
                value,
                value_of(i),
                "expected value: {:?}, actual value: {:?}",
                as_bytes(&value_of(i)),
                as_bytes(value)
            );
            iter.seek_to_key(KeySlice::for_testing_from_slice_no_ts(
                &format!("key_{:03}", i * 5 + offset).into_bytes(),
            ));
        }
        iter.seek_to_key(KeySlice::for_testing_from_slice_no_ts(b"k"));
    }
}

#[test]
fn block_encoding_exact_bytes() {
    let mut builder = BlockBuilder::new(100);
    assert!(builder.is_empty());
    assert!(builder.add(KeySlice::from_slice(b"ab"), b"x"));
    assert!(!builder.is_empty());
    assert!(builder.add(KeySlice::from_slice(b"c"), b""));
    let block = builder.build();
    assert_eq!(block.data, vec![0, 2, b'a', b'b', 0, 1, b'x', 0, 1, b'c', 0, 0]);
    assert_eq!(block.offsets, vec![0, 7]);
    let encoded = block.encode();
    assert_eq!(
        &encoded[..],
        &[0, 2, b'a', b'b', 0, 1, b'x', 0, 1, b'c', 0, 0, 0, 0, 0, 7, 0, 2][..]
    );
}

#[test]
fn block_builder_refuses_entry_over_size() {
    // An entry of a 1-byte key and a 1-byte value takes 8 bytes once encoded
    // with its offset; with the entry count the block would take 10.
    let mut builder = BlockBuilder::new(10);
    // The first entry is always taken, whatever its size.
    assert!(builder.add(KeySlice::from_slice(b"a"), b"1"));
    // A second one would bring the block to 18 bytes, over the target of 10.
    assert!(!builder.add(KeySlice::from_slice(b"b"), b"2"));
    let block = builder.build();
    assert_eq!(block.offsets, vec![0]);

    // Exactly at the target size, an entry is refused too.
    let mut builder = BlockBuilder::new(18);
    assert!(builder.add(KeySlice::from_slice(b"a"), b"1"));
    assert!(!builder.add(KeySlice::from_slice(b"b"), b"2"));
    let mut builder = BlockBuilder::new(19);
    assert!(builder.add(KeySlice::from_slice(b"a"), b"1"));
    assert!(builder.add(KeySlice::from_slice(b"b"), b"2"));
}

#[test]
fn block_decode_of_empty_offsets() {
    let decoded = Block::decode(&[7, 8, 9, 0, 0]);
    assert_eq!(decoded.data, vec![7, 8, 9]);
    assert!(decoded.offsets.is_empty());
}

#[test]
fn block_iterator_edges() {
    let mut builder = Block::builder(1000);
    assert!(builder.add(KeySlice::from_slice(b"b"), b"1"));
    assert!(builder.add(KeySlice::from_slice(b"d"), b"2"));
    let block = Arc::new(builder.build());
    let mut iter = BlockIterator::create_and_seek_to_first(block.clone());
    assert_eq!(iter.key().raw_ref(), b"b");
    // Before the first entry the iterator becomes invalid.
    iter.prev();
    assert!(!iter.is_valid());
    assert_eq!(iter.value(), b"");
    // Past the last entry it becomes invalid too.
    iter.seek_to_first();
    iter.next();
    assert_eq!(iter.value(), b"2");
    iter.next();
    assert!(!iter.is_valid());
    // Seeking lands on the first key not before the target.
    let iter = BlockIterator::create_and_seek_to_key(block.clone(), KeySlice::from_slice(b"c"));
    assert_eq!(iter.key().raw_ref(), b"d");
    let iter = BlockIterator::create_and_seek_to_key(block.clone(), KeySlice::from_slice(b"a"));
    assert_eq!(iter.key().raw_ref(), b"b");
    let iter = BlockIterator::create_and_seek_to_key(block, KeySlice::from_slice(b"e"));
    assert!(!iter.is_valid());
}

#[test]
fn block_builder_stays_non_empty_after_first_add() {
    let mut builder = BlockBuilder::new(10);
    assert!(builder.is_empty());
    assert!(builder.add(KeySlice::from_slice(b"a"), b"1"));
    assert!(!builder.is_empty());
    // Refused adds leave it as it was: still holding the first entry.
    assert!(!builder.add(KeySlice::from_slice(b"b"), b"2"));
    assert!(!builder.is_empty());
    assert!(!builder.add(KeySlice::from_slice(b"c"), b"3"));
    assert!(!builder.is_empty());
}

#[test]
fn block_encode_decode_round_trip_by_hand() {
    let block = Block { data: vec![1, 2, 3, 4, 5], offsets: vec![0, 3, 65535] };
    let encoded = block.encode();
    let decoded = Block::decode(&encoded);
    assert_eq!(decoded.data, block.data);
    assert_eq!(decoded.offsets, block.offsets);
}

#[test]
fn block_iterator_next_then_prev_returns() {
    let mut builder = Block::builder(1000);
    assert!(builder.add(KeySlice::from_slice(b"b"), b"1"));
    assert!(builder.add(KeySlice::from_slice(b"d"), b"2"));
    let block = Arc::new(builder.build());
    let mut iter = BlockIterator::create_and_seek_to_first(block);
    iter.next();
    assert_eq!(iter.key().raw_ref(), b"d");
    // From the last entry, next makes the iterator invalid and prev comes back.
    iter.next();
    assert!(!iter.is_valid());
    iter.prev();
    assert_eq!(iter.key().raw_ref(), b"d");
    assert_eq!(iter.value(), b"2");
    iter.prev();
    iter.next();
    iter.prev();
    assert_eq!(iter.key().raw_ref(), b"b");
    assert_eq!(iter.value(), b"1");
}
