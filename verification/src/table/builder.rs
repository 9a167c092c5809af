//! Building a sorted string table block by block.
use vstd::prelude::*;

use crate::block::builder::{encoded_size, entries_data, entries_offsets, BlockBuilder};
use crate::block::encode_spec;
use crate::codec::{be32, bytes_as_slice, put_u32};
use crate::key::{KeyBytes, KeySlice, KeyVec};
use crate::table::{encode_block_meta_spec, metas_view, BlockMeta, SsTable};

verus! {

/// The encoding of a finished block that holds `entries`.
pub open spec fn block_bytes(entries: Seq<(Seq<u8>, Seq<u8>)>) -> Seq<u8> {
    encode_spec(entries_data(entries), entries_offsets(entries))
}

/// The encodings of finished blocks, one after the other.
pub open spec fn blocks_bytes(blocks: Seq<Seq<(Seq<u8>, Seq<u8>)>>) -> Seq<u8>
    decreases blocks.len(),
{
    if blocks.len() == 0 {
        Seq::empty()
    } else {
        blocks_bytes(blocks.drop_last()) + block_bytes(blocks.last())
    }
}

/// The metadata of finished block `i`: where it starts, its first key and
/// its last key.
pub open spec fn block_meta_of(blocks: Seq<Seq<(Seq<u8>, Seq<u8>)>>, i: int) -> (usize, Seq<u8>, Seq<u8>) {
    (blocks_bytes(blocks.take(i)).len() as usize, blocks[i][0].0, blocks[i].last().0)
}

/// The metadata of every finished block.
pub open spec fn blocks_meta(blocks: Seq<Seq<(Seq<u8>, Seq<u8>)>>) -> Seq<(usize, Seq<u8>, Seq<u8>)> {
    Seq::new(blocks.len(), |i: int| block_meta_of(blocks, i))
}

/// The bytes of a table made of `blocks`: the blocks, their metadata, then
/// where the metadata starts, in four big-endian bytes.
pub open spec fn table_bytes(blocks: Seq<Seq<(Seq<u8>, Seq<u8>)>>) -> Seq<u8> {
    blocks_bytes(blocks) + encode_block_meta_spec(blocks_meta(blocks)) + be32(
        (blocks_bytes(blocks).len() as int % 0x1_0000_0000) as u32,
    )
}

proof fn lemma_blocks_bytes_push(blocks: Seq<Seq<(Seq<u8>, Seq<u8>)>>, b: Seq<(Seq<u8>, Seq<u8>)>)
    ensures
        blocks_bytes(blocks.push(b)) == blocks_bytes(blocks) + block_bytes(b),
{
    assert(blocks.push(b).drop_last() =~= blocks);
}

/// Appending the metadata of a newly finished block keeps the metadata list
/// in step with the finished blocks.
proof fn lemma_push_block_meta(
    blocks: Seq<Seq<(Seq<u8>, Seq<u8>)>>,
    finished: Seq<(Seq<u8>, Seq<u8>)>,
    metas: Seq<BlockMeta>,
    m: BlockMeta,
)
    requires
        metas_view(metas) == blocks_meta(blocks),
        m@ == (blocks_bytes(blocks).len() as usize, finished[0].0, finished.last().0),
    ensures
        metas_view(metas.push(m)) == blocks_meta(blocks.push(finished)),
{
    let nb = blocks.push(finished);
    let n = blocks.len() as int;
    assert(metas_view(metas).len() == n);
    assert forall|i: int| 0 <= i < n + 1 implies #[trigger] metas_view(metas.push(m))[i]
        == blocks_meta(nb)[i] by {
        if i < n {
            assert(nb.take(i) =~= blocks.take(i));
            assert(metas_view(metas.push(m))[i] == metas.push(m)[i]@);
            assert(metas.push(m)[i] == metas[i]);
            assert(metas_view(metas)[i] == metas[i]@);
            assert(blocks_meta(blocks)[i] == block_meta_of(blocks, i));
            assert(nb[i] == blocks[i]);
        } else {
            assert(nb.take(n) =~= blocks);
            assert(metas_view(metas.push(m))[i] == m@);
        }
    }
    assert(metas_view(metas.push(m)) =~= blocks_meta(nb));
}

/// Finished block `i` lies encoded in the table's data section at the offset
/// its metadata records.
pub proof fn lemma_block_in_blocks_bytes(blocks: Seq<Seq<(Seq<u8>, Seq<u8>)>>, i: int)
    requires
        0 <= i < blocks.len(),
    ensures
        blocks_bytes(blocks.take(i)).len() + block_bytes(blocks[i]).len() <= blocks_bytes(blocks).len(),
        blocks_bytes(blocks).subrange(
            blocks_bytes(blocks.take(i)).len() as int,
            (blocks_bytes(blocks.take(i)).len() + block_bytes(blocks[i]).len()) as int,
        ) == block_bytes(blocks[i]),
    decreases blocks.len(),
{
    let n = blocks.len() - 1;
    let prefix = blocks.drop_last();
    if i == n {
        assert(blocks.take(i) =~= prefix);
    } else {
        lemma_block_in_blocks_bytes(prefix, i);
        assert(prefix.take(i) =~= blocks.take(i));
        assert(prefix[i] == blocks[i]);
        let lo = blocks_bytes(blocks.take(i)).len() as int;
        let hi = lo + block_bytes(blocks[i]).len();
        assert(blocks_bytes(blocks).subrange(lo, hi) =~= blocks_bytes(prefix).subrange(lo, hi));
    }
}

/// Bytes followed by more bytes and a four-byte footer: the footer reads back
/// its value, and every range of the first part reads back unchanged.
proof fn lemma_footer(d: Seq<u8>, m: Seq<u8>, v: u32, lo: int, hi: int)
    requires
        0 <= lo <= hi <= d.len(),
    ensures
        ({
            let t = d + m + be32(v);
            let n = t.len() as int;
            &&& crate::codec::be32_value(t[n - 4], t[n - 3], t[n - 2], t[n - 1]) == v
            &&& t.subrange(lo, hi) == d.subrange(lo, hi)
        }),
{
    let t = d + m + be32(v);
    let n = t.len() as int;
    crate::codec::lemma_be32_roundtrip(v);
    let tail = be32(v);
    assert(t[n - 4] == tail[0] && t[n - 3] == tail[1] && t[n - 2] == tail[2] && t[n - 1] == tail[3]);
    assert(t.subrange(lo, hi) =~= d.subrange(lo, hi));
}

/// Reading a table back: its last four bytes give where the metadata starts,
/// and each block, read from the offset its metadata records, decodes to the
/// block that was finished, for tables under 4 GiB and blocks of fewer than
/// 65536 entries.
pub proof fn lemma_table_reads_back(blocks: Seq<Seq<(Seq<u8>, Seq<u8>)>>, i: int)
    requires
        0 <= i < blocks.len(),
        blocks[i].len() < 0x1_0000,
        blocks_bytes(blocks).len() < 0x1_0000_0000,
    ensures
        ({
            let t = table_bytes(blocks);
            let n = t.len() as int;
            let start = blocks_meta(blocks)[i].0 as int;
            let block = t.subrange(start, start + block_bytes(blocks[i]).len());
            &&& crate::codec::be32_value(t[n - 4], t[n - 3], t[n - 2], t[n - 1]) == blocks_bytes(blocks).len()
            &&& crate::block::decodable(block)
            &&& crate::block::decoded_data(block) == entries_data(blocks[i])
            &&& crate::block::decoded_offsets(block) == entries_offsets(blocks[i])
        }),
{
    let start = lemma_block_start(blocks, i);
    lemma_table_parts(blocks, start, start + block_bytes(blocks[i]).len());
    crate::block::lemma_decode_encode(entries_data(blocks[i]), entries_offsets(blocks[i]));
}

proof fn lemma_block_start(blocks: Seq<Seq<(Seq<u8>, Seq<u8>)>>, i: int) -> (start: int)
    requires
        0 <= i < blocks.len(),
        blocks_bytes(blocks).len() < 0x1_0000_0000,
    ensures
        start == blocks_meta(blocks)[i].0 as int,
        start + block_bytes(blocks[i]).len() <= blocks_bytes(blocks).len(),
        blocks_bytes(blocks).subrange(start, start + block_bytes(blocks[i]).len()) == block_bytes(blocks[i]),
{
    lemma_block_in_blocks_bytes(blocks, i);
    blocks_bytes(blocks.take(i)).len() as int
}

#[verifier::spinoff_prover]
proof fn lemma_table_parts(blocks: Seq<Seq<(Seq<u8>, Seq<u8>)>>, lo: int, hi: int)
    requires
        0 <= lo <= hi <= blocks_bytes(blocks).len(),
        blocks_bytes(blocks).len() < 0x1_0000_0000,
    ensures
        ({
            let t = table_bytes(blocks);
            let n = t.len() as int;
            &&& crate::codec::be32_value(t[n - 4], t[n - 3], t[n - 2], t[n - 1]) == blocks_bytes(blocks).len()
            &&& t.subrange(lo, hi) == blocks_bytes(blocks).subrange(lo, hi)
        }),
{
    let d = blocks_bytes(blocks);
    let m = encode_block_meta_spec(blocks_meta(blocks));
    let v = (d.len() as int % 0x1_0000_0000) as u32;
    assert(table_bytes(blocks) == d + m + be32(v));
    assert(v == d.len());
    lemma_footer(d, m, v, lo, hi);
}

/// One pair added to a table builder of target block size `block_size` that
/// holds the finished `blocks` and the open block `cur`: the pair joins the open
/// block while that block is empty or stays under the target size once encoded
/// with it; otherwise the open block is finished and the pair opens the next.
pub open spec fn table_add_step(
    block_size: int,
    blocks: Seq<Seq<(Seq<u8>, Seq<u8>)>>,
    cur: Seq<(Seq<u8>, Seq<u8>)>,
    p: (Seq<u8>, Seq<u8>),
) -> (Seq<Seq<(Seq<u8>, Seq<u8>)>>, Seq<(Seq<u8>, Seq<u8>)>) {
    if cur.len() == 0 || encoded_size(cur.push(p)) < block_size {
        (blocks, cur.push(p))
    } else {
        (blocks.push(cur), seq![p])
    }
}

/// The finished blocks and the open block of a new table builder of target
/// block size `block_size` after `pairs` are added in turn.
pub open spec fn table_after_adds(block_size: int, pairs: Seq<(Seq<u8>, Seq<u8>)>) -> (
    Seq<Seq<(Seq<u8>, Seq<u8>)>>,
    Seq<(Seq<u8>, Seq<u8>)>,
)
    decreases pairs.len(),
{
    if pairs.len() == 0 {
        (Seq::empty(), Seq::empty())
    } else {
        let prev = table_after_adds(block_size, pairs.drop_last());
        table_add_step(block_size, prev.0, prev.1, pairs.last())
    }
}

/// The first pair after finished block `i`: the first of the next finished
/// block, or the first of the open block after the last finished one.
pub open spec fn first_after_block(
    blocks: Seq<Seq<(Seq<u8>, Seq<u8>)>>,
    cur: Seq<(Seq<u8>, Seq<u8>)>,
    i: int,
) -> (Seq<u8>, Seq<u8>) {
    if i + 1 < blocks.len() {
        blocks[i + 1][0]
    } else {
        cur[0]
    }
}

/// `blocks` and `cur` split `pairs`, in order, into finished blocks and an
/// open block: each finished block is a maximal run that a block builder
/// takes (one entry, or more that stay under the target size once encoded,
/// and the next pair would not), and the open block is empty only when there
/// are no pairs.
pub open spec fn table_split(
    block_size: int,
    pairs: Seq<(Seq<u8>, Seq<u8>)>,
    blocks: Seq<Seq<(Seq<u8>, Seq<u8>)>>,
    cur: Seq<(Seq<u8>, Seq<u8>)>,
) -> bool {
    &&& blocks.flatten() + cur == pairs
    &&& cur.len() == 0 <==> pairs.len() == 0
    &&& cur.len() > 1 ==> encoded_size(cur) < block_size
    &&& forall|i: int| 0 <= i < blocks.len() ==> (#[trigger] blocks[i]).len() > 0
    &&& forall|i: int|
        0 <= i < blocks.len() && (#[trigger] blocks[i]).len() > 1 ==> encoded_size(blocks[i]) < block_size
    &&& forall|i: int|
        0 <= i < blocks.len() ==> encoded_size(
            (#[trigger] blocks[i]).push(first_after_block(blocks, cur, i)),
        ) >= block_size
}

/// Adding pairs in turn to a new table builder splits them as `table_split`
/// says.
pub proof fn lemma_table_adds(block_size: int, pairs: Seq<(Seq<u8>, Seq<u8>)>)
    ensures
        ({
            let (blocks, cur) = table_after_adds(block_size, pairs);
            &&& blocks.flatten() + cur == pairs
            &&& cur.len() == 0 <==> pairs.len() == 0
            &&& cur.len() > 1 ==> encoded_size(cur) < block_size
            &&& forall|i: int| 0 <= i < blocks.len() ==> (#[trigger] blocks[i]).len() > 0
            &&& forall|i: int|
                0 <= i < blocks.len() && (#[trigger] blocks[i]).len() > 1 ==> encoded_size(blocks[i]) < block_size
            &&& forall|i: int|
                0 <= i < blocks.len() ==> encoded_size(
                    (#[trigger] blocks[i]).push(first_after_block(blocks, cur, i)),
                ) >= block_size
        }),
    decreases pairs.len(),
{
    if pairs.len() == 0 {
        assert(Seq::<Seq<(Seq<u8>, Seq<u8>)>>::empty().flatten() =~= Seq::<(Seq<u8>, Seq<u8>)>::empty());
        assert(Seq::<(Seq<u8>, Seq<u8>)>::empty() + Seq::<(Seq<u8>, Seq<u8>)>::empty() =~= pairs);
    } else {
        let rest = pairs.drop_last();
        lemma_table_adds(block_size, rest);
        let (b0, c0) = table_after_adds(block_size, rest);
        let p = pairs.last();
        let (b1, c1) = table_after_adds(block_size, pairs);
        assert(rest.push(p) =~= pairs);
        if c0.len() == 0 || encoded_size(c0.push(p)) < block_size {
            assert(b1 == b0);
            assert(c1 == c0.push(p));
            assert(b0.flatten() + c0.push(p) =~= (b0.flatten() + c0).push(p));
            if rest.len() > 0 {
                assert(c1[0] == c0[0]);
            }
            assert forall|i: int| 0 <= i < b1.len() implies first_after_block(b1, c1, i) == first_after_block(
                b0,
                c0,
                i,
            ) by {
                if i + 1 >= b0.len() {
                    assert(rest.len() > 0);
                }
            }
        } else {
            assert(b1 == b0.push(c0));
            assert(c1 == seq![p]);
            b0.lemma_flatten_push(c0);
            assert(b0.push(c0).flatten() + seq![p] =~= (b0.flatten() + c0).push(p));
            assert forall|i: int| 0 <= i < b1.len() implies (#[trigger] b1[i]).len() > 0 && (b1[i].len() > 1
                ==> encoded_size(b1[i]) < block_size) && encoded_size(
                b1[i].push(first_after_block(b1, c1, i)),
            ) >= block_size by {
                if i < b0.len() {
                    assert(b1[i] == b0[i]);
                    if i + 1 == b0.len() {
                        assert(first_after_block(b1, c1, i) == c0[0]);
                        assert(first_after_block(b0, c0, i) == c0[0]);
                    } else {
                        assert(first_after_block(b1, c1, i) == first_after_block(b0, c0, i));
                    }
                } else {
                    assert(b1[i] == c0);
                    assert(first_after_block(b1, c1, i) == p);
                }
            }
        }
    }
}

/// A run of `add` calls on a new table builder of target block size
/// `block_size`: call `i` adds `pairs[i]` to a builder whose finished blocks
/// and open block are `states[i]`, and leaves `states[i + 1]`, as `add` states.
pub open spec fn table_add_run(
    block_size: int,
    pairs: Seq<(Seq<u8>, Seq<u8>)>,
    states: Seq<(Seq<Seq<(Seq<u8>, Seq<u8>)>>, Seq<(Seq<u8>, Seq<u8>)>)>,
) -> bool {
    &&& states.len() == pairs.len() + 1
    &&& states[0] == (Seq::<Seq<(Seq<u8>, Seq<u8>)>>::empty(), Seq::<(Seq<u8>, Seq<u8>)>::empty())
    &&& forall|j: int|
        0 <= j < pairs.len() ==> states[j + 1] == table_add_step(
            block_size,
            states[j].0,
            states[j].1,
            #[trigger] pairs[j],
        )
}

proof fn lemma_table_add_run_prefix(
    block_size: int,
    pairs: Seq<(Seq<u8>, Seq<u8>)>,
    states: Seq<(Seq<Seq<(Seq<u8>, Seq<u8>)>>, Seq<(Seq<u8>, Seq<u8>)>)>,
    i: int,
)
    requires
        table_add_run(block_size, pairs, states),
        0 <= i <= pairs.len(),
    ensures
        states[i] == table_after_adds(block_size, pairs.take(i)),
    decreases i,
{
    if i > 0 {
        lemma_table_add_run_prefix(block_size, pairs, states, i - 1);
        assert(pairs.take(i).drop_last() =~= pairs.take(i - 1));
        assert(pairs.take(i).last() == pairs[i - 1]);
    } else {
        assert(pairs.take(0) =~= Seq::<(Seq<u8>, Seq<u8>)>::empty());
    }
}

/// Over any run of `add` calls on a new table builder (`table_add_run`),
/// after each call the finished blocks and the open block split the pairs
/// added so far as `table_split` says. With the builder's contracts, the
/// metadata of each finished block then records where it starts, the total
/// encoded size of the blocks before it, and its first and last keys
/// (`blocks_meta`), and the estimated size is the encoded size of the
/// finished blocks (`blocks_bytes`).
pub proof fn lemma_table_add_run(
    block_size: int,
    pairs: Seq<(Seq<u8>, Seq<u8>)>,
    states: Seq<(Seq<Seq<(Seq<u8>, Seq<u8>)>>, Seq<(Seq<u8>, Seq<u8>)>)>,
)
    requires
        table_add_run(block_size, pairs, states),
    ensures
        forall|i: int|
            0 <= i <= pairs.len() ==> #[trigger] states[i] == table_after_adds(block_size, pairs.take(i))
                && table_split(block_size, pairs.take(i), states[i].0, states[i].1),
{
    assert forall|i: int| 0 <= i <= pairs.len() implies #[trigger] states[i] == table_after_adds(
        block_size,
        pairs.take(i),
    ) && table_split(block_size, pairs.take(i), states[i].0, states[i].1) by {
        lemma_table_add_run_prefix(block_size, pairs, states, i);
        lemma_table_adds(block_size, pairs.take(i));
    }
}

/// Builds an SSTable from key-value pairs.
pub struct SsTableBuilder {
    builder: BlockBuilder,
    first_key: Vec<u8>,
    last_key: Vec<u8>,
    data: Vec<u8>,
    pub(crate) meta: Vec<BlockMeta>,
    block_size: usize,
    /// The entries of the finished blocks.
    blocks: Ghost<Seq<Seq<(Seq<u8>, Seq<u8>)>>>,
}

impl SsTableBuilder {
    /// The entries of each finished block, in order.
    pub closed spec fn blocks(&self) -> Seq<Seq<(Seq<u8>, Seq<u8>)>> {
        self.blocks@
    }

    /// The entries of the block being filled.
    pub closed spec fn current(&self) -> Seq<(Seq<u8>, Seq<u8>)> {
        self.builder.entries()
    }

    /// The target block size.
    pub closed spec fn block_size(&self) -> usize {
        self.block_size
    }

    /// The metadata recorded for each finished block.
    pub closed spec fn metas(&self) -> Seq<(usize, Seq<u8>, Seq<u8>)> {
        metas_view(self.meta@)
    }

    /// The metadata of each finished block records where it starts, which is
    /// the encoded size of the blocks before it, and its first and last keys.
    pub proof fn lemma_metas(&self)
        requires
            self.wf(),
        ensures
            self.metas() == blocks_meta(self.blocks()),
    {
    }

    /// Every pair added so far, in order: those of the finished blocks, then
    /// those of the block being filled.
    pub open spec fn entries_added(&self) -> Seq<(Seq<u8>, Seq<u8>)> {
        self.blocks().flatten() + self.current()
    }

    /// Every finished block holds at least one entry, and one that holds more
    /// stays under the target size once encoded.
    pub proof fn lemma_blocks_within_size(&self)
        requires
            self.wf(),
        ensures
            forall|i: int| 0 <= i < self.blocks().len() ==> (#[trigger] self.blocks()[i]).len() > 0,
            forall|i: int|
                0 <= i < self.blocks().len() && (#[trigger] self.blocks()[i]).len() > 1 ==> encoded_size(
                    self.blocks()[i],
                ) < self.block_size(),
    {
    }

    /// The buffers hold the encoded finished blocks and their metadata, and the
    /// block being filled is well formed.
    pub closed spec fn wf(&self) -> bool {
        &&& self.builder.wf()
        &&& self.builder.block_size() == self.block_size
        &&& encoded_size(self.builder.entries()) <= usize::MAX
        &&& self.data@ == blocks_bytes(self.blocks@)
        &&& metas_view(self.meta@) == blocks_meta(self.blocks@)
        &&& forall|i: int| 0 <= i < self.blocks@.len() ==> (#[trigger] self.blocks@[i]).len() > 0
        &&& forall|i: int|
            0 <= i < self.blocks@.len() && (#[trigger] self.blocks@[i]).len() > 1 ==> encoded_size(self.blocks@[i])
                < self.block_size
        &&& if self.builder.entries().len() > 0 {
            &&& self.first_key@ == self.builder.entries()[0].0
            &&& self.last_key@ == self.builder.entries().last().0
        } else {
            &&& self.blocks@.len() == 0
            &&& self.first_key@ == Seq::<u8>::empty()
            &&& self.last_key@ == Seq::<u8>::empty()
        }
    }

    /// Create an SSTable builder based on target block size.
    pub fn new(block_size: usize) -> (b: Self)
        ensures
            b.wf(),
            b.blocks() == Seq::<Seq<(Seq<u8>, Seq<u8>)>>::empty(),
            b.current() == Seq::<(Seq<u8>, Seq<u8>)>::empty(),
            b.block_size() == block_size,
    {
        let b = Self {
            builder: BlockBuilder::new(block_size),
            first_key: Vec::new(),
            last_key: Vec::new(),
            data: Vec::new(),
            meta: Vec::new(),
            block_size,
            blocks: Ghost(Seq::empty()),
        };
        proof {
            assert(entries_data(Seq::<(Seq<u8>, Seq<u8>)>::empty()) =~= Seq::<u8>::empty());
            assert(b.data@ =~= blocks_bytes(b.blocks@));
            assert(metas_view(b.meta@) =~= blocks_meta(b.blocks@));
        }
        b
    }

    /// Adds a key-value pair to SSTable: to the current block while it stays
    /// under the target size, else to a new block after finishing the current
    /// one.
    pub fn add(&mut self, key: KeySlice, value: &[u8])
        requires
            old(self).wf(),
            encoded_size(old(self).current().push((key@, value@))) <= usize::MAX,
        ensures
            final(self).wf(),
            final(self).block_size() == old(self).block_size(),
            final(self).entries_added() == old(self).entries_added().push((key@, value@)),
            (final(self).blocks(), final(self).current()) == table_add_step(
                old(self).block_size() as int,
                old(self).blocks(),
                old(self).current(),
                (key@, value@),
            ),
            if old(self).current().len() == 0 || encoded_size(old(self).current().push((key@, value@)))
                < old(self).block_size() {
                &&& final(self).blocks() == old(self).blocks()
                &&& final(self).current() == old(self).current().push((key@, value@))
            } else {
                &&& final(self).blocks() == old(self).blocks().push(old(self).current())
                &&& final(self).current() == seq![(key@, value@)]
            },
    {
        let ghost kv = (key@, value@);
        if self.builder.is_empty() {
            self.first_key = vstd::slice::slice_to_vec(key.raw_ref());
        }
        if self.builder.add(key, value) {
            self.last_key = vstd::slice::slice_to_vec(key.raw_ref());
            assert(self.entries_added() =~= old(self).entries_added().push(kv));
            return;
        }
        let ghost finished = self.builder.entries();
        proof {
            self.builder.lemma_block_within_size();
        }
        let ghost new_blocks = self.blocks@.push(finished);
        let mut first_key = vstd::slice::slice_to_vec(key.raw_ref());
        std::mem::swap(&mut first_key, &mut self.first_key);
        let mut last_key = vstd::slice::slice_to_vec(key.raw_ref());
        std::mem::swap(&mut last_key, &mut self.last_key);
        let block_meta = BlockMeta {
            offset: self.data.len(),
            first_key: KeyVec::from_vec(first_key).into_key_bytes(),
            last_key: KeyVec::from_vec(last_key).into_key_bytes(),
        };
        let ghost old_meta = self.meta@;
        let ghost pushed = block_meta;
        self.meta.push(block_meta);
        let mut builder = BlockBuilder::new(self.block_size);
        std::mem::swap(&mut builder, &mut self.builder);
        let block_bytes_buf = builder.build().encode();
        self.data.extend_from_slice(bytes_as_slice(&block_bytes_buf));
        self.blocks = Ghost(new_blocks);
        proof {
            assert(seq![kv] =~= Seq::<(Seq<u8>, Seq<u8>)>::empty().push(kv));
            assert(seq![kv].drop_last() =~= Seq::<(Seq<u8>, Seq<u8>)>::empty());
            assert(finished.push(kv).drop_last() =~= finished);
            assert(entries_data(Seq::<(Seq<u8>, Seq<u8>)>::empty()) =~= Seq::<u8>::empty());
            assert(new_blocks.drop_last() =~= self.blocks@.drop_last().push(finished).drop_last());
            lemma_blocks_bytes_push(old(self).blocks@, finished);
            lemma_push_block_meta(old(self).blocks@, finished, old_meta, pushed);
            assert(finished.len() > 1 ==> encoded_size(finished) < self.block_size);
            assert forall|i: int|
                0 <= i < new_blocks.len() && (#[trigger] new_blocks[i]).len() > 1 implies encoded_size(new_blocks[i])
                < self.block_size by {
                if i < old(self).blocks@.len() {
                    assert(new_blocks[i] == old(self).blocks@[i]);
                }
            }
        }
        assert(self.data@ == blocks_bytes(self.blocks@));
        assert(metas_view(self.meta@) == blocks_meta(self.blocks@));
        let _ = self.builder.add(key, value);
        proof {
            old(self).blocks@.lemma_flatten_push(finished);
            assert(self.entries_added() =~= old(self).entries_added().push(kv));
        }
        assert(self.builder.wf());
        assert(encoded_size(self.builder.entries()) <= usize::MAX);
        assert(self.first_key@ == self.builder.entries()[0].0);
        assert(self.last_key@ == self.builder.entries().last().0);
    }

    /// Whether no pair has been added: a table needs at least one.
    pub fn is_empty(&self) -> (b: bool)
        requires
            self.wf(),
        ensures
            b == (self.current().len() == 0),
            b == (self.entries_added().len() == 0),
    {
        proof {
            if self.current().len() == 0 {
                assert(self.blocks().len() == 0);
                assert(self.blocks().flatten() =~= Seq::<(Seq<u8>, Seq<u8>)>::empty());
            }
        }
        self.builder.is_empty()
    }

    /// Get the estimated size of the SSTable.
    ///
    /// Since the data blocks contain much more data than meta blocks, just return the size of data
    /// blocks here
    pub fn estimated_size(&self) -> (n: usize)
        requires
            self.wf(),
        ensures
            n == blocks_bytes(self.blocks()).len(),
    {
        self.data.len()
    }

    /// Finishes the last block and lays the table out: the blocks, their
    /// metadata and where the metadata starts. Returns those bytes, which the
    /// caller writes to the table's file, and the table's description.
    #[verifier::rlimit(40)]
    pub fn build(self, id: usize) -> (r: (Vec<u8>, SsTable))
        requires
            self.wf(),
            self.current().len() > 0,
        ensures
            ({
                let blocks = self.blocks().push(self.current());
                &&& r.0@ == table_bytes(blocks)
                &&& r.1.table_size_spec() == r.0@.len()
                &&& r.1.block_meta_view() == blocks_meta(blocks)
                &&& r.1.block_meta_offset_spec() == blocks_bytes(blocks).len()
                &&& r.1.sst_id_spec() == id
                &&& r.1.first_key_spec() == blocks[0][0].0
                &&& r.1.last_key_spec() == self.current().last().0
                &&& r.1.max_ts_spec() == 0
            }),
    {
        let ghost blocks = self.blocks@.push(self.builder.entries());
        let mut data = self.data;
        let mut meta = self.meta;
        let estimated_size = data.len();
        let last_key = KeyVec::from_vec(self.last_key).into_key_bytes();
        let block_meta = BlockMeta {
            offset: data.len(),
            first_key: KeyVec::from_vec(self.first_key).into_key_bytes(),
            last_key: last_key.clone(),
        };
        let ghost old_meta = meta@;
        let ghost pushed = block_meta;
        meta.push(block_meta);
        let block = self.builder.build();
        let block_bytes_buf = block.encode();
        data.extend_from_slice(bytes_as_slice(&block_bytes_buf));
        let block_meta_offset = data.len();
        proof {
            lemma_blocks_bytes_push(self.blocks@, self.builder.entries());
            lemma_push_block_meta(self.blocks@, self.builder.entries(), old_meta, pushed);
        }
        let mut buf: Vec<u8> = Vec::with_capacity(estimated_size);
        buf.extend_from_slice(data.as_slice());
        BlockMeta::encode_block_meta(meta.as_slice(), &mut buf);
        assert(block_meta_offset as u32 == (block_meta_offset as u64 % 0x1_0000_0000) as u32) by (bit_vector);
        put_u32(&mut buf, block_meta_offset as u32);
        assert(buf@ =~= table_bytes(blocks));
        assert(metas_view(meta@)[0] == meta@[0]@);
        assert(blocks_meta(blocks)[0] == block_meta_of(blocks, 0));
        let first_key = meta[0].first_key.clone();
        let table_size = buf.len() as u64;
        let table = SsTable {
            table_size,
            block_meta: meta,
            block_meta_offset,
            id,
            first_key,
            last_key,
            max_ts: 0,
        };
        (buf, table)
    }
}

} // verus!
