use bytes::Bytes;
use mini_lsm::block::Block;
use mini_lsm::key::{KeyBytes, KeySlice};
use mini_lsm::table::{BlockMeta, SsTable, SsTableBuilder};

fn key_bytes(b: &'static [u8]) -> KeyBytes {
    KeyBytes::from_bytes(Bytes::from_static(b))
}

#[test]
fn block_meta_round_trip() {
    let metas = vec![
        BlockMeta { offset: 0, first_key: key_bytes(b"aa"), last_key: key_bytes(b"az") },
        BlockMeta { offset: 300, first_key: key_bytes(b"b"), last_key: key_bytes(b"c") },
    ];
    let mut buf = vec![9u8];
    BlockMeta::encode_block_meta(&metas, &mut buf);
    assert_eq!(
        buf,
        vec![
            9, 0, 0, 0, 2, 0, 0, 0, 0, 0, 2, b'a', b'a', 0, 2, b'a', b'z', 0, 0, 1, 44, 0, 1, b'b',
            0, 1, b'c'
        ]
    );
    let decoded = BlockMeta::decode_block_meta(&buf[1..]);
    assert_eq!(decoded, metas);
}

#[test]
fn block_meta_encode_empty_writes_nothing() {
    let mut buf = vec![1u8, 2];
    BlockMeta::encode_block_meta(&[], &mut buf);
    assert_eq!(buf, vec![1, 2]);
}

#[test]
fn block_meta_round_trip_with_keys_of_different_lengths() {
    let metas = vec![
        BlockMeta { offset: 1, first_key: key_bytes(b"a"), last_key: key_bytes(b"") },
        BlockMeta { offset: 2, first_key: key_bytes(b""), last_key: key_bytes(b"b") },
        BlockMeta { offset: 3, first_key: key_bytes(b"c"), last_key: key_bytes(b"cdef") },
    ];
    let mut buf = Vec::new();
    BlockMeta::encode_block_meta(&metas, &mut buf);
    assert_eq!(buf.len(), 4 + (8 + 1) + (8 + 1) + (8 + 5));
    let decoded = BlockMeta::decode_block_meta(&buf[..]);
    assert_eq!(decoded, metas);
    assert_eq!(decoded[0].last_key.raw_ref(), b"");
    assert_eq!(decoded[2].last_key.raw_ref(), b"cdef");
}

#[test]
fn sstable_builder_layout() {
    // Each entry of a 1-byte key and a 1-byte value takes 8 bytes with its
    // offset, so a block of target size 20 takes one entry and refuses the
    // second (6 + 2 + 8 + 2 = 18 < 20 admits it; a third would reach 26).
    let mut builder = SsTableBuilder::new(20);
    builder.add(KeySlice::from_slice(b"a"), b"1");
    builder.add(KeySlice::from_slice(b"b"), b"2");
    assert_eq!(builder.estimated_size(), 0);
    builder.add(KeySlice::from_slice(b"c"), b"3");
    // The first block, of two entries, is finished: 12 data bytes, 4 offset
    // bytes and 2 count bytes.
    assert_eq!(builder.estimated_size(), 18);
    let (bytes, table) = builder.build(7);
    let first = Block::decode(&bytes[0..18]);
    assert_eq!(first.offsets, vec![0, 6]);
    assert_eq!(first.data, vec![0, 1, b'a', 0, 1, b'1', 0, 1, b'b', 0, 1, b'2']);
    let second = Block::decode(&bytes[18..18 + 10]);
    assert_eq!(second.data, vec![0, 1, b'c', 0, 1, b'3']);
    assert_eq!(table.num_of_blocks(), 2);
    assert_eq!(table.sst_id(), 7);
    assert_eq!(table.first_key().raw_ref(), b"a");
    assert_eq!(table.last_key().raw_ref(), b"c");
    assert_eq!(table.table_size(), bytes.len() as u64);
    assert_eq!(table.max_ts(), 0);
    // The last four bytes say where the metadata starts.
    let n = bytes.len();
    assert_eq!(&bytes[n - 4..], &[0, 0, 0, 28]);
    let metas = BlockMeta::decode_block_meta(&bytes[28..n - 4]);
    assert_eq!(metas.len(), 2);
    assert_eq!(metas[0].offset, 0);
    assert_eq!(metas[1].offset, 18);
    assert_eq!(metas[0].first_key.raw_ref(), b"a");
    assert_eq!(metas[0].last_key.raw_ref(), b"b");
    assert_eq!(metas[1].first_key.raw_ref(), b"c");
    assert_eq!(metas[1].last_key.raw_ref(), b"c");
}

#[test]
fn sstable_meta_only() {
    let t = SsTable::create_meta_only(3, 4096, key_bytes(b"k1"), key_bytes(b"k9"));
    assert_eq!(t.sst_id(), 3);
    assert_eq!(t.table_size(), 4096);
    assert_eq!(t.num_of_blocks(), 0);
    assert_eq!(t.first_key().raw_ref(), b"k1");
    assert_eq!(t.last_key().raw_ref(), b"k9");
    assert_eq!(t.max_ts(), 0);
}

#[test]
fn sstable_builder_splits_into_maximal_blocks() {
    // Each 1-byte key with a 1-byte value takes 8 bytes with its offset: a
    // block of two takes 18 bytes, under the target of 20, and a third would
    // bring it to 26.
    let mut builder = SsTableBuilder::new(20);
    for k in [b"a", b"b", b"c", b"d", b"e"] {
        builder.add(KeySlice::from_slice(k), b"v");
    }
    // Two finished blocks of 18 bytes each; `e` is in the open block.
    assert_eq!(builder.estimated_size(), 36);
    let (bytes, table) = builder.build(1);
    assert_eq!(table.num_of_blocks(), 3);
    let n = bytes.len();
    assert_eq!(&bytes[n - 4..], &[0, 0, 0, 46]);
    let metas = BlockMeta::decode_block_meta(&bytes[46..n - 4]);
    let offsets: Vec<usize> = metas.iter().map(|m| m.offset).collect();
    assert_eq!(offsets, vec![0, 18, 36]);
    let firsts: Vec<&[u8]> = metas.iter().map(|m| m.first_key.raw_ref()).collect();
    let lasts: Vec<&[u8]> = metas.iter().map(|m| m.last_key.raw_ref()).collect();
    assert_eq!(firsts, vec![&b"a"[..], &b"c"[..], &b"e"[..]]);
    assert_eq!(lasts, vec![&b"b"[..], &b"d"[..], &b"e"[..]]);
}
