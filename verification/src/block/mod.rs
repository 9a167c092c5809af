//! Blocks: the smallest unit of reading and caching, a run of encoded
//! key-value entries followed by their offsets and the entry count.
pub mod builder;
pub mod iterator;

use vstd::prelude::*;

use bytes::Bytes;

use crate::block::builder::BlockBuilder;
use crate::codec::{be16, be16_value, bytes_from_vec, bytes_view, get_u16, put_slice, put_u16};

verus! {

/// A block is the smallest unit of read and caching in LSM tree. It is a collection of sorted
/// key-value pairs.
pub struct Block {
    pub data: Vec<u8>,
    pub offsets: Vec<u16>,
}

/// The big-endian bytes of each offset, one after the other.
pub open spec fn offsets_bytes(offsets: Seq<u16>) -> Seq<u8> {
    Seq::new(
        2 * offsets.len(),
        |j: int| if j % 2 == 0 { be16(offsets[j / 2])[0] } else { be16(offsets[j / 2])[1] },
    )
}

/// The encoded form of a block: its data, its offsets, then the number of
/// offsets (kept to sixteen bits).
pub open spec fn encode_spec(data: Seq<u8>, offsets: Seq<u16>) -> Seq<u8> {
    data + offsets_bytes(offsets) + be16((offsets.len() % 0x1_0000) as u16)
}

/// The entry count stored in the last two bytes of an encoded block.
pub open spec fn decoded_count(encoded: Seq<u8>) -> int {
    be16_value(encoded[encoded.len() - 2], encoded[encoded.len() - 1]) as int
}

/// Where the offsets start in an encoded block.
pub open spec fn decoded_offsets_start(encoded: Seq<u8>) -> int {
    encoded.len() - 2 - 2 * decoded_count(encoded)
}

/// Whether `encoded` has room for its trailer and for the offsets it claims.
pub open spec fn decodable(encoded: Seq<u8>) -> bool {
    &&& encoded.len() >= 2
    &&& decoded_offsets_start(encoded) >= 0
}

/// The data of the block that `encoded` holds.
pub open spec fn decoded_data(encoded: Seq<u8>) -> Seq<u8> {
    encoded.take(decoded_offsets_start(encoded))
}

/// The offsets of the block that `encoded` holds.
pub open spec fn decoded_offsets(encoded: Seq<u8>) -> Seq<u16> {
    let start = decoded_offsets_start(encoded);
    Seq::new(
        decoded_count(encoded) as nat,
        |i: int| be16_value(encoded[start + 2 * i], encoded[start + 2 * i + 1]),
    )
}

proof fn lemma_offsets_bytes_push(offsets: Seq<u16>, v: u16)
    ensures
        offsets_bytes(offsets.push(v)) == offsets_bytes(offsets) + be16(v),
{
    assert(offsets_bytes(offsets.push(v)) =~= offsets_bytes(offsets) + be16(v));
}

/// Decoding an encoded block gives back its data and its offsets, for every
/// block with fewer than 65536 entries.
pub proof fn lemma_decode_encode(data: Seq<u8>, offsets: Seq<u16>)
    requires
        offsets.len() < 0x1_0000,
    ensures
        decodable(encode_spec(data, offsets)),
        decoded_data(encode_spec(data, offsets)) == data,
        decoded_offsets(encode_spec(data, offsets)) == offsets,
{
    let e = encode_spec(data, offsets);
    let n = offsets.len();
    assert(e[e.len() - 2] == be16(n as u16)[0]);
    assert(e[e.len() - 1] == be16(n as u16)[1]);
    assert(decoded_count(e) == n);
    assert(decoded_data(e) =~= data);
    assert forall|i: int| 0 <= i < n implies #[trigger] decoded_offsets(e)[i] == offsets[i] by {
        let start = data.len() as int;
        assert(e[start + 2 * i] == offsets_bytes(offsets)[2 * i]);
        assert(e[start + 2 * i + 1] == offsets_bytes(offsets)[2 * i + 1]);
        assert((2 * i) / 2 == i);
        assert((2 * i + 1) / 2 == i);
    }
    assert(decoded_offsets(e) =~= offsets);
}

impl Block {
    pub fn builder(block_size: usize) -> (b: BlockBuilder)
        ensures
            b.wf(),
            b.entries() == Seq::<(Seq<u8>, Seq<u8>)>::empty(),
            b.block_size() == block_size,
    {
        BlockBuilder::new(block_size)
    }

    /// Encode the block: its data, then each offset and the number of entries,
    /// both as big-endian 16-bit integers.
    pub fn encode(&self) -> (encoded: Bytes)
        ensures
            bytes_view(encoded) == encode_spec(self.data@, self.offsets@),
    {
        let mut buf: Vec<u8> = Vec::new();
        put_slice(&mut buf, self.data.as_slice());
        let n = self.offsets.len();
        let mut i: usize = 0;
        while i < n
            invariant
                n == self.offsets@.len(),
                i <= n,
                buf@ == self.data@ + offsets_bytes(self.offsets@.take(i as int)),
            decreases n - i,
        {
            proof {
                lemma_offsets_bytes_push(self.offsets@.take(i as int), self.offsets@[i as int]);
                assert(self.offsets@.take(i as int).push(self.offsets@[i as int])
                    =~= self.offsets@.take(i + 1));
            }
            put_u16(&mut buf, self.offsets[i]);
            i += 1;
        }
        assert(self.offsets@.take(n as int) =~= self.offsets@);
        assert(n as u16 == (n % 0x1_0000) as u16) by (bit_vector);
        put_u16(&mut buf, n as u16);
        bytes_from_vec(buf)
    }

    /// Decode a block from the layout that `encode` writes.
    pub fn decode(data: &[u8]) -> (block: Self)
        requires
            decodable(data@),
        ensures
            block.data@ == decoded_data(data@),
            block.offsets@ == decoded_offsets(data@),
    {
        let entry_count_start = data.len() - 2;
        let entry_count = get_u16(&data[entry_count_start..data.len()]) as usize;
        let offsets_start = entry_count_start - entry_count * 2;
        let mut offsets: Vec<u16> = Vec::with_capacity(entry_count);
        let mut i: usize = 0;
        while i < entry_count
            invariant
                entry_count == decoded_count(data@),
                offsets_start == decoded_offsets_start(data@),
                decodable(data@),
                offsets_start + 2 * entry_count + 2 == data.len(),
                i <= entry_count,
                offsets@ == decoded_offsets(data@).take(i as int),
            decreases entry_count - i,
        {
            let pos = offsets_start + 2 * i;
            let v = get_u16(&data[pos..pos + 2]);
            offsets.push(v);
            assert(offsets@ =~= decoded_offsets(data@).take(i + 1));
            i += 1;
        }
        assert(offsets@ =~= decoded_offsets(data@));
        let block_data = vstd::slice::slice_to_vec(&data[0..offsets_start]);
        assert(block_data@ =~= decoded_data(data@));
        Block { data: block_data, offsets }
    }
}

} // verus!
