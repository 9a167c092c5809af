//! Sorted string tables: encoded blocks followed by the metadata of each
//! block and the offset where that metadata starts.
pub mod builder;

pub use builder::SsTableBuilder;

use vstd::prelude::*;

use crate::codec::{be16, be16_value, be32, be32_value, bytes_copy_from_slice, get_u16, get_u32, put_slice, put_u16, put_u32};
use crate::key::KeyBytes;

verus! {

#[derive(Clone, Debug, PartialEq, Eq)]
pub struct BlockMeta {
    /// Offset of this data block.
    pub offset: usize,
    /// The first key of the data block.
    pub first_key: KeyBytes,
    /// The last key of the data block.
    pub last_key: KeyBytes,
}

impl View for BlockMeta {
    type V = (usize, Seq<u8>, Seq<u8>);

    open spec fn view(&self) -> (usize, Seq<u8>, Seq<u8>) {
        (self.offset, self.first_key@, self.last_key@)
    }
}

/// The views of a sequence of block metadata.
pub open spec fn metas_view(metas: Seq<BlockMeta>) -> Seq<(usize, Seq<u8>, Seq<u8>)> {
    metas.map_values(|m: BlockMeta| m@)
}

/// The encoding of one block's metadata: the offset in four big-endian bytes,
/// then each key after its length in two, offset and lengths truncated to
/// their width.
pub open spec fn meta_bytes(m: (usize, Seq<u8>, Seq<u8>)) -> Seq<u8> {
    be32((m.0 as int % 0x1_0000_0000) as u32) + be16((m.1.len() % 0x1_0000) as u16) + m.1 + be16(
        (m.2.len() % 0x1_0000) as u16,
    ) + m.2
}

/// The encodings of the metadata, one after the other.
pub open spec fn metas_bytes(metas: Seq<(usize, Seq<u8>, Seq<u8>)>) -> Seq<u8>
    decreases metas.len(),
{
    if metas.len() == 0 {
        Seq::empty()
    } else {
        metas_bytes(metas.drop_last()) + meta_bytes(metas.last())
    }
}

/// What encoding a list of block metadata writes: nothing for an empty list,
/// else the count in four big-endian bytes and then each entry.
pub open spec fn encode_block_meta_spec(metas: Seq<(usize, Seq<u8>, Seq<u8>)>) -> Seq<u8> {
    if metas.len() == 0 {
        Seq::empty()
    } else {
        be32((metas.len() as int % 0x1_0000_0000) as u32) + metas_bytes(metas)
    }
}

/// Reading metadata entries one after another until `s` runs out: each is an
/// offset, then a first key and a last key, each after its length. `None`
/// where the bytes run out inside an entry.
pub open spec fn decode_metas(s: Seq<u8>) -> Option<Seq<(usize, Seq<u8>, Seq<u8>)>>
    decreases s.len(),
{
    if s.len() == 0 {
        Some(Seq::empty())
    } else if s.len() < 6 {
        None
    } else {
        let offset = be32_value(s[0], s[1], s[2], s[3]) as usize;
        let first_len = be16_value(s[4], s[5]) as int;
        if s.len() < 8 + first_len {
            None
        } else {
            let last_len = be16_value(s[6 + first_len], s[7 + first_len]) as int;
            if s.len() < 8 + first_len + last_len {
                None
            } else {
                let first_key = s.subrange(6, 6 + first_len);
                let last_key = s.subrange(8 + first_len, 8 + first_len + last_len);
                match decode_metas(s.skip(8 + first_len + last_len)) {
                    None => None,
                    Some(rest) => Some(seq![(offset, first_key, last_key)] + rest),
                }
            }
        }
    }
}

/// What decoding reads from `s`: the count, which it skips, then the entries.
pub open spec fn decode_block_meta_spec(s: Seq<u8>) -> Option<Seq<(usize, Seq<u8>, Seq<u8>)>> {
    if s.len() < 4 {
        None
    } else {
        decode_metas(s.skip(4))
    }
}

proof fn lemma_decode_metas_append(m: (usize, Seq<u8>, Seq<u8>), rest: Seq<u8>)
    requires
        m.0 < 0x1_0000_0000,
        m.1.len() < 0x1_0000,
        m.2.len() < 0x1_0000,
    ensures
        decode_metas(meta_bytes(m) + rest) == match decode_metas(rest) {
            None => None,
            Some(r) => Some(seq![m] + r),
        },
{
    let n = m.1.len() as int;
    let l = m.2.len() as int;
    let off = (m.0 as int % 0x1_0000_0000) as u32;
    let len16 = (n % 0x1_0000) as u16;
    let last16 = (l % 0x1_0000) as u16;
    let a = be32(off);
    let b = be16(len16);
    let c = be16(last16);
    let s = meta_bytes(m) + rest;
    assert(meta_bytes(m) == a + b + m.1 + c + m.2);
    crate::codec::lemma_be32_roundtrip(off);
    crate::codec::lemma_be16_roundtrip(len16);
    crate::codec::lemma_be16_roundtrip(last16);
    assert(off == m.0);
    assert(len16 == n);
    assert(last16 == l);
    assert(s.len() == 8 + n + l + rest.len());
    assert(s[0] == a[0] && s[1] == a[1] && s[2] == a[2] && s[3] == a[3]);
    assert(s[4] == b[0] && s[5] == b[1]);
    assert(s[6 + n] == c[0] && s[7 + n] == c[1]);
    assert(be32_value(s[0], s[1], s[2], s[3]) as usize == m.0);
    assert(be16_value(s[4], s[5]) == n);
    assert(be16_value(s[6 + n], s[7 + n]) == l);
    assert(s.subrange(6, 6 + n) =~= m.1);
    assert(s.subrange(8 + n, 8 + n + l) =~= m.2);
    assert(s.skip(8 + n + l) =~= rest);
}

proof fn lemma_metas_bytes_prepend(m: (usize, Seq<u8>, Seq<u8>), metas: Seq<(usize, Seq<u8>, Seq<u8>)>)
    ensures
        metas_bytes(seq![m] + metas) == meta_bytes(m) + metas_bytes(metas),
    decreases metas.len(),
{
    if metas.len() == 0 {
        assert(seq![m] + metas =~= seq![m]);
        assert(seq![m].drop_last() =~= Seq::<(usize, Seq<u8>, Seq<u8>)>::empty());
        assert(metas_bytes(Seq::<(usize, Seq<u8>, Seq<u8>)>::empty()) =~= Seq::<u8>::empty());
        assert(seq![m].last() == m);
        assert(metas_bytes(seq![m]) =~= meta_bytes(m));
    } else {
        lemma_metas_bytes_prepend(m, metas.drop_last());
        assert((seq![m] + metas).drop_last() =~= seq![m] + metas.drop_last());
        assert(metas_bytes(seq![m] + metas) =~= meta_bytes(m) + metas_bytes(metas));
    }
}

/// Decoding encoded metadata gives it back, for every non-empty list whose
/// offsets fit 32 bits and whose keys fit 16-bit lengths.
pub proof fn lemma_decode_encode_block_meta(metas: Seq<(usize, Seq<u8>, Seq<u8>)>)
    requires
        metas.len() > 0,
        forall|i: int|
            0 <= i < metas.len() ==> {
                &&& (#[trigger] metas[i]).0 < 0x1_0000_0000
                &&& metas[i].1.len() < 0x1_0000
                &&& metas[i].2.len() < 0x1_0000
            },
    ensures
        decode_block_meta_spec(encode_block_meta_spec(metas)) == Some(metas),
{
    lemma_decode_metas_bytes(metas);
    let e = encode_block_meta_spec(metas);
    assert(e.skip(4) =~= metas_bytes(metas));
}

proof fn lemma_decode_metas_bytes(metas: Seq<(usize, Seq<u8>, Seq<u8>)>)
    requires
        forall|i: int|
            0 <= i < metas.len() ==> {
                &&& (#[trigger] metas[i]).0 < 0x1_0000_0000
                &&& metas[i].1.len() < 0x1_0000
                &&& metas[i].2.len() < 0x1_0000
            },
    ensures
        decode_metas(metas_bytes(metas)) == Some(metas),
    decreases metas.len(),
{
    if metas.len() == 0 {
    } else {
        let rest = metas.drop_first();
        assert(metas =~= seq![metas[0]] + rest);
        lemma_metas_bytes_prepend(metas[0], rest);
        assert forall|i: int| 0 <= i < rest.len() implies {
            &&& (#[trigger] rest[i]).0 < 0x1_0000_0000
            &&& rest[i].1.len() < 0x1_0000
            &&& rest[i].2.len() < 0x1_0000
        } by {
            assert(rest[i] == metas[i + 1]);
        }
        lemma_decode_metas_bytes(rest);
        lemma_decode_metas_append(metas[0], metas_bytes(rest));
        assert(seq![metas[0]] + rest =~= metas);
    }
}

/// A sorted string table as the engine sees it once written: the metadata of
/// its blocks, where that metadata starts, its key range and its size.
pub struct SsTable {
    /// The size of the table's file.
    table_size: u64,
    /// The meta blocks that hold info for data blocks.
    pub(crate) block_meta: Vec<BlockMeta>,
    /// The offset that indicates the start point of meta blocks in the file.
    pub(crate) block_meta_offset: usize,
    id: usize,
    first_key: KeyBytes,
    last_key: KeyBytes,
    /// The maximum timestamp stored in this SsTable.
    max_ts: u64,
}

impl SsTable {
    pub closed spec fn table_size_spec(&self) -> u64 {
        self.table_size
    }

    /// The metadata of each block.
    pub closed spec fn block_meta_view(&self) -> Seq<(usize, Seq<u8>, Seq<u8>)> {
        metas_view(self.block_meta@)
    }

    /// Where the block metadata starts in the file.
    pub closed spec fn block_meta_offset_spec(&self) -> usize {
        self.block_meta_offset
    }

    pub closed spec fn sst_id_spec(&self) -> usize {
        self.id
    }

    pub closed spec fn first_key_spec(&self) -> Seq<u8> {
        self.first_key@
    }

    pub closed spec fn last_key_spec(&self) -> Seq<u8> {
        self.last_key@
    }

    pub closed spec fn max_ts_spec(&self) -> u64 {
        self.max_ts
    }

    /// Create a mock SST with only first key + last key metadata.
    pub fn create_meta_only(id: usize, file_size: u64, first_key: KeyBytes, last_key: KeyBytes) -> (t: Self)
        ensures
            t.sst_id_spec() == id,
            t.table_size_spec() == file_size,
            t.first_key_spec() == first_key@,
            t.last_key_spec() == last_key@,
            t.block_meta_view().len() == 0,
            t.block_meta_offset_spec() == 0,
            t.max_ts_spec() == 0,
    {
        Self {
            table_size: file_size,
            block_meta: Vec::new(),
            block_meta_offset: 0,
            id,
            first_key,
            last_key,
            max_ts: 0,
        }
    }

    /// Get number of data blocks.
    pub fn num_of_blocks(&self) -> (n: usize)
        ensures
            n == self.block_meta_view().len(),
    {
        self.block_meta.len()
    }

    pub fn first_key(&self) -> (k: &KeyBytes)
        ensures
            k@ == self.first_key_spec(),
    {
        &self.first_key
    }

    pub fn last_key(&self) -> (k: &KeyBytes)
        ensures
            k@ == self.last_key_spec(),
    {
        &self.last_key
    }

    pub fn table_size(&self) -> (n: u64)
        ensures
            n == self.table_size_spec(),
    {
        self.table_size
    }

    pub fn sst_id(&self) -> (id: usize)
        ensures
            id == self.sst_id_spec(),
    {
        self.id
    }

    pub fn max_ts(&self) -> (ts: u64)
        ensures
            ts == self.max_ts_spec(),
    {
        self.max_ts
    }
}

impl BlockMeta {
    /// Encode block meta to a buffer.
    pub fn encode_block_meta(block_meta: &[BlockMeta], buf: &mut Vec<u8>)
        ensures
            final(buf)@ == old(buf)@ + encode_block_meta_spec(metas_view(block_meta@)),
    {
        let ghost metas = metas_view(block_meta@);
        if block_meta.len() == 0 {
            assert(final(buf)@ =~= old(buf)@ + encode_block_meta_spec(metas));
            return;
        }
        let n = block_meta.len();
        assert(n as u32 == (n as u64 % 0x1_0000_0000) as u32) by (bit_vector);
        put_u32(buf, n as u32);
        let mut i: usize = 0;
        while i < n
            invariant
                n == block_meta@.len(),
                n > 0,
                metas == metas_view(block_meta@),
                i <= n,
                buf@ == old(buf)@ + be32((n as int % 0x1_0000_0000) as u32) + metas_bytes(metas.take(i as int)),
            decreases n - i,
        {
            let meta = &block_meta[i];
            let offset = meta.offset;
            let first_len = meta.first_key.len();
            let last_len = meta.last_key.len();
            assert(offset as u32 == (offset as u64 % 0x1_0000_0000) as u32) by (bit_vector);
            assert(first_len as u16 == (first_len % 0x1_0000) as u16) by (bit_vector);
            assert(last_len as u16 == (last_len % 0x1_0000) as u16) by (bit_vector);
            put_u32(buf, offset as u32);
            put_u16(buf, first_len as u16);
            put_slice(buf, meta.first_key.raw_ref());
            put_u16(buf, last_len as u16);
            put_slice(buf, meta.last_key.raw_ref());
            proof {
                assert(metas.take(i + 1).drop_last() =~= metas.take(i as int));
                assert(metas[i as int] == meta@);
            }
            i += 1;
        }
        assert(metas.take(n as int) =~= metas);
    }

    /// Decode block meta from a buffer
    pub fn decode_block_meta(buf: &[u8]) -> (block_meta: Vec<BlockMeta>)
        requires
            decode_block_meta_spec(buf@) is Some,
        ensures
            decode_block_meta_spec(buf@) == Some(metas_view(block_meta@)),
    {
        let _block_count = get_u32(buf);
        let len = buf.len();
        let mut pos: usize = 4;
        let mut block_meta: Vec<BlockMeta> = Vec::new();
        let ghost all = decode_metas(buf@.skip(4)).unwrap();
        while pos < len
            invariant
                len == buf@.len(),
                4 <= pos <= len,
                decode_metas(buf@.skip(pos as int)) is Some,
                decode_block_meta_spec(buf@) == Some(all),
                all == metas_view(block_meta@) + decode_metas(buf@.skip(pos as int)).unwrap(),
            decreases len - pos,
        {
            let ghost s = buf@.skip(pos as int);
            assert(s[0] == buf@[pos as int]);
            let offset = get_u32(vstd::slice::slice_subrange(buf, pos, len)) as usize;
            let first_len = get_u16(vstd::slice::slice_subrange(buf, pos + 4, len)) as usize;
            assert(s.len() >= 8 + first_len);
            let first_key = KeyBytes::from_bytes(
                bytes_copy_from_slice(vstd::slice::slice_subrange(buf, pos + 6, pos + 6 + first_len)),
            );
            let last_len = get_u16(vstd::slice::slice_subrange(buf, pos + 6 + first_len, len)) as usize;
            proof {
                assert(buf@.subrange(pos + 6 + first_len, len as int)[0] == s[6 + first_len]);
                assert(buf@.subrange(pos + 6 + first_len, len as int)[1] == s[7 + first_len]);
            }
            assert(s.len() >= 8 + first_len + last_len);
            let last_key = KeyBytes::from_bytes(
                bytes_copy_from_slice(
                    vstd::slice::slice_subrange(buf, pos + 8 + first_len, pos + 8 + first_len + last_len),
                ),
            );
            let meta = BlockMeta { offset, first_key, last_key };
            proof {
                assert(buf@.subrange(pos as int, len as int) =~= s);
                assert(buf@.subrange(pos + 4, len as int) =~= s.skip(4));
                assert(buf@.subrange(pos + 6, pos + 6 + first_len) =~= s.subrange(6, 6 + first_len));
                assert(buf@.subrange(pos + 8 + first_len, pos + 8 + first_len + last_len)
                    =~= s.subrange(8 + first_len, 8 + first_len + last_len));
                assert(s.skip(8 + first_len + last_len) =~= buf@.skip(pos + 8 + first_len + last_len));
            }
            let ghost prev = block_meta@;
            block_meta.push(meta);
            proof {
                assert(metas_view(block_meta@) =~= metas_view(prev).push(meta@));
            }
            pos = pos + 8 + first_len + last_len;
        }
        assert(buf@.skip(len as int) =~= Seq::<u8>::empty());
        assert(all =~= metas_view(block_meta@));
        block_meta
    }
}

} // verus!
