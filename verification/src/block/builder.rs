//! Building a block entry by entry.
use vstd::prelude::*;

use crate::block::Block;
use crate::codec::{be16, put_slice, put_u16};
use crate::key::{KeySlice, KeyVec};

verus! {

/// The encoding of one entry: the key's length, the key, the value's length
/// and the value, lengths big-endian and kept to sixteen bits.
pub open spec fn entry_bytes(key: Seq<u8>, value: Seq<u8>) -> Seq<u8> {
    be16((key.len() % 0x1_0000) as u16) + key + be16((value.len() % 0x1_0000) as u16) + value
}

/// The data section of a block that holds `entries`, in order.
pub open spec fn entries_data(entries: Seq<(Seq<u8>, Seq<u8>)>) -> Seq<u8>
    decreases entries.len(),
{
    if entries.len() == 0 {
        Seq::empty()
    } else {
        entries_data(entries.drop_last()) + entry_bytes(entries.last().0, entries.last().1)
    }
}

/// Where entry `i` starts in the data section.
pub open spec fn entry_offset(entries: Seq<(Seq<u8>, Seq<u8>)>, i: int) -> int {
    entries_data(entries.take(i)).len() as int
}

/// The offsets a block keeps for `entries`, each kept to sixteen bits.
pub open spec fn entries_offsets(entries: Seq<(Seq<u8>, Seq<u8>)>) -> Seq<u16> {
    Seq::new(entries.len(), |i: int| (entry_offset(entries, i) % 0x1_0000) as u16)
}

/// The size of the encoded block that holds `entries`: data, offsets and
/// the entry count.
pub open spec fn encoded_size(entries: Seq<(Seq<u8>, Seq<u8>)>) -> int {
    (entries_data(entries).len() + 2 * entries.len() + 2) as int
}

/// Each entry takes four bytes besides its key and its value in the data
/// section.
pub proof fn lemma_entries_data_len(entries: Seq<(Seq<u8>, Seq<u8>)>, p: (Seq<u8>, Seq<u8>))
    ensures
        entries_data(entries.push(p)).len() == entries_data(entries).len() + 4 + p.0.len() + p.1.len(),
        entries_data(Seq::<(Seq<u8>, Seq<u8>)>::empty()).len() == 0,
{
    assert(entries.push(p).drop_last() =~= entries);
}

/// The size that decides whether a block takes an entry is the length of the
/// block it encodes to: its data, two bytes per offset and two for the count.
/// Each entry adds six bytes besides its key and its value.
pub proof fn lemma_encoded_size(entries: Seq<(Seq<u8>, Seq<u8>)>, p: (Seq<u8>, Seq<u8>))
    ensures
        encoded_size(entries) == crate::block::encode_spec(entries_data(entries), entries_offsets(entries)).len(),
        encoded_size(entries.push(p)) == encoded_size(entries) + 6 + p.0.len() + p.1.len(),
        encoded_size(Seq::<(Seq<u8>, Seq<u8>)>::empty()) == 2,
{
    lemma_entries_data_len(entries, p);
}

/// Entry `i` lies encoded at its offset in the data section.
pub proof fn lemma_entry_in_data(entries: Seq<(Seq<u8>, Seq<u8>)>, i: int)
    requires
        0 <= i < entries.len(),
    ensures
        entry_offset(entries, i) + entry_bytes(entries[i].0, entries[i].1).len()
            <= entries_data(entries).len(),
        entries_data(entries).subrange(
            entry_offset(entries, i),
            entry_offset(entries, i) + entry_bytes(entries[i].0, entries[i].1).len(),
        ) == entry_bytes(entries[i].0, entries[i].1),
    decreases entries.len(),
{
    let n = entries.len() as int;
    let prefix = entries.drop_last();
    if i == n - 1 {
        assert(entries.take(i) =~= prefix);
    } else {
        lemma_entry_in_data(prefix, i);
        assert(prefix.take(i) =~= entries.take(i));
        assert(prefix[i] == entries[i]);
        let d = entries_data(entries);
        let dp = entries_data(prefix);
        let lo = entry_offset(entries, i);
        let hi = lo + entry_bytes(entries[i].0, entries[i].1).len();
        assert(d.subrange(lo, hi) =~= dp.subrange(lo, hi));
    }
}

/// What a block builder of target size `block_size` holds after `pairs` are
/// offered to it in turn, when it held `entries`: a pair joins while the block
/// is empty or stays under the target size once encoded with it, and is
/// refused otherwise.
pub open spec fn entries_after_adds(
    block_size: int,
    entries: Seq<(Seq<u8>, Seq<u8>)>,
    pairs: Seq<(Seq<u8>, Seq<u8>)>,
) -> Seq<(Seq<u8>, Seq<u8>)>
    decreases pairs.len(),
{
    if pairs.len() == 0 {
        entries
    } else {
        let before = entries_after_adds(block_size, entries, pairs.drop_last());
        let p = pairs.last();
        if before.len() == 0 || encoded_size(before.push(p)) < block_size {
            before.push(p)
        } else {
            before
        }
    }
}

/// Over any run of adds, what a builder held stays at its front, and a builder
/// that started empty is empty exactly when nothing was offered to it: the
/// first pair offered is always taken, and from then on it is never empty.
pub proof fn lemma_adds_keep_entries(
    block_size: int,
    entries: Seq<(Seq<u8>, Seq<u8>)>,
    pairs: Seq<(Seq<u8>, Seq<u8>)>,
)
    ensures
        entries_after_adds(block_size, entries, pairs).len() >= entries.len(),
        entries_after_adds(block_size, entries, pairs).take(entries.len() as int) == entries,
        entries.len() == 0 ==> (entries_after_adds(block_size, entries, pairs).len() == 0 <==> pairs.len() == 0),
    decreases pairs.len(),
{
    if pairs.len() > 0 {
        lemma_adds_keep_entries(block_size, entries, pairs.drop_last());
        let before = entries_after_adds(block_size, entries, pairs.drop_last());
        let p = pairs.last();
        assert(before.push(p).take(entries.len() as int) =~= before.take(entries.len() as int));
    } else {
        assert(entries.take(entries.len() as int) =~= entries);
    }
}

/// A run of `add` calls on a new block builder of target size `block_size`:
/// call `i` offers `pairs[i]` to a builder that holds `entries[i]`, returns
/// `added[i]` and leaves `entries[i + 1]`, each as `add` states them.
pub open spec fn add_run(
    block_size: int,
    pairs: Seq<(Seq<u8>, Seq<u8>)>,
    added: Seq<bool>,
    entries: Seq<Seq<(Seq<u8>, Seq<u8>)>>,
) -> bool {
    &&& entries.len() == pairs.len() + 1
    &&& added.len() == pairs.len()
    &&& entries[0] == Seq::<(Seq<u8>, Seq<u8>)>::empty()
    &&& forall|j: int|
        0 <= j < pairs.len() ==> {
            &&& added[j] == (entries[j].len() == 0 || encoded_size(entries[j].push(#[trigger] pairs[j]))
                < block_size)
            &&& entries[j + 1] == if added[j] {
                entries[j].push(pairs[j])
            } else {
                entries[j]
            }
        }
}

proof fn lemma_add_run_prefix(
    block_size: int,
    pairs: Seq<(Seq<u8>, Seq<u8>)>,
    added: Seq<bool>,
    entries: Seq<Seq<(Seq<u8>, Seq<u8>)>>,
    i: int,
)
    requires
        add_run(block_size, pairs, added, entries),
        0 <= i <= pairs.len(),
    ensures
        entries[i] == entries_after_adds(block_size, Seq::empty(), pairs.take(i)),
        entries[i].len() == 0 <==> forall|j: int| 0 <= j < i ==> !added[j],
    decreases i,
{
    if i > 0 {
        lemma_add_run_prefix(block_size, pairs, added, entries, i - 1);
        assert(pairs.take(i).drop_last() =~= pairs.take(i - 1));
        assert(pairs.take(i).last() == pairs[i - 1]);
        if entries[i].len() == 0 {
            assert forall|j: int| 0 <= j < i implies !added[j] by {
                if j < i - 1 {
                    if added[j] {
                        assert(entries[i - 1].len() > 0);
                    }
                }
            }
        }
    } else {
        assert(pairs.take(0) =~= Seq::<(Seq<u8>, Seq<u8>)>::empty());
    }
}

/// Over any run of `add` calls on a new block builder (`add_run`): the builder holds what `entries_after_adds` gives, and it
/// is empty exactly while no call has returned `true`.
pub proof fn lemma_add_run(
    block_size: int,
    pairs: Seq<(Seq<u8>, Seq<u8>)>,
    added: Seq<bool>,
    entries: Seq<Seq<(Seq<u8>, Seq<u8>)>>,
)
    requires
        add_run(block_size, pairs, added, entries),
    ensures
        forall|i: int|
            0 <= i <= pairs.len() ==> #[trigger] entries[i] == entries_after_adds(
                block_size,
                Seq::empty(),
                pairs.take(i),
            ),
        forall|i: int| 0 <= i <= pairs.len() ==> ((#[trigger] entries[i]).len() == 0 <==> forall|j: int| 0 <= j < i ==> !added[j]),
{
    assert forall|i: int| 0 <= i <= pairs.len() implies #[trigger] entries[i] == entries_after_adds(
        block_size,
        Seq::empty(),
        pairs.take(i),
    ) && (entries[i].len() == 0 <==> forall|j: int| 0 <= j < i ==> !added[j]) by {
        lemma_add_run_prefix(block_size, pairs, added, entries, i);
    }
}

/// Builds a block.
pub struct BlockBuilder {
    /// Offsets of each key-value entries.
    offsets: Vec<u16>,
    /// All serialized key-value pairs in the block.
    data: Vec<u8>,
    /// The expected block size.
    block_size: usize,
    /// The first key in the block.
    first_key: KeyVec,
    /// The entries added so far.
    entries: Ghost<Seq<(Seq<u8>, Seq<u8>)>>,
}

impl BlockBuilder {
    /// The key-value pairs added so far, in order.
    pub closed spec fn entries(&self) -> Seq<(Seq<u8>, Seq<u8>)> {
        self.entries@
    }

    /// The expected block size.
    pub closed spec fn block_size(&self) -> usize {
        self.block_size
    }

    /// The first key added, or the empty key before any.
    pub closed spec fn first_key(&self) -> Seq<u8> {
        self.first_key@
    }

    /// The buffers hold exactly the encoding of the entries added so far.
    pub closed spec fn wf(&self) -> bool {
        &&& self.data@ == entries_data(self.entries@)
        &&& self.offsets@ == entries_offsets(self.entries@)
        &&& self.first_key@ == if self.entries@.len() > 0 {
            self.entries@[0].0
        } else {
            Seq::empty()
        }
        &&& self.entries@.len() > 1 ==> encoded_size(self.entries@) < self.block_size
    }

    /// A block that holds more than one entry stays under the target size
    /// once encoded: only a block of a single entry can exceed it.
    pub proof fn lemma_block_within_size(&self)
        requires
            self.wf(),
        ensures
            self.entries().len() > 1 ==> encoded_size(self.entries()) < self.block_size(),
    {
    }

    /// Creates a new block builder.
    pub fn new(block_size: usize) -> (b: Self)
        ensures
            b.wf(),
            b.entries() == Seq::<(Seq<u8>, Seq<u8>)>::empty(),
            b.block_size() == block_size,
    {
        let b = Self {
            offsets: Vec::new(),
            data: Vec::new(),
            block_size,
            first_key: KeyVec::new(),
            entries: Ghost(Seq::empty()),
        };
        assert(b.data@ =~= entries_data(b.entries@));
        assert(b.offsets@ =~= entries_offsets(b.entries@));
        b
    }

    /// Adds a key-value pair to the block. Returns false when the block is full:
    /// a pair joins an empty block, or one that stays under the target size
    /// once encoded with it.
    #[must_use]
    pub fn add(&mut self, key: KeySlice, value: &[u8]) -> (added: bool)
        requires
            old(self).wf(),
            encoded_size(old(self).entries().push((key@, value@))) <= usize::MAX,
        ensures
            final(self).wf(),
            final(self).block_size() == old(self).block_size(),
            added == (old(self).entries().len() == 0 || encoded_size(
                old(self).entries().push((key@, value@)),
            ) < old(self).block_size()),
            final(self).entries() == if added {
                old(self).entries().push((key@, value@))
            } else {
                old(self).entries()
            },
            final(self).entries() == entries_after_adds(
                old(self).block_size() as int,
                old(self).entries(),
                seq![(key@, value@)],
            ),
    {
        let ghost old_entries = self.entries@;
        let ghost new_entries = old_entries.push((key@, value@));
        proof {
            let one = seq![(key@, value@)];
            assert(one.drop_last() =~= Seq::<(Seq<u8>, Seq<u8>)>::empty());
            assert(entries_after_adds(self.block_size as int, old_entries, one.drop_last()) == old_entries);
            assert(new_entries.drop_last() =~= old_entries);
            assert(new_entries.take(old_entries.len() as int) =~= old_entries);
        }
        let entry_size = 2 + key.len() + 2 + value.len() + 2;
        let estimated_size = self.data.len() + self.offsets.len() * 2 + entry_size + 2;
        if estimated_size >= self.block_size && !self.is_empty() {
            return false;
        }
        if self.is_empty() {
            self.first_key = key.to_key_vec();
        }
        let offset = self.data.len();
        assert(offset as u16 == (offset % 0x1_0000) as u16) by (bit_vector);
        self.offsets.push(offset as u16);
        let key_len = key.len();
        let value_len = value.len();
        assert(key_len as u16 == (key_len % 0x1_0000) as u16) by (bit_vector);
        assert(value_len as u16 == (value_len % 0x1_0000) as u16) by (bit_vector);
        put_u16(&mut self.data, key_len as u16);
        put_slice(&mut self.data, key.raw_ref());
        put_u16(&mut self.data, value_len as u16);
        put_slice(&mut self.data, value);
        self.entries = Ghost(new_entries);
        proof {
            assert(self.data@ =~= entries_data(new_entries));
            assert forall|i: int| 0 <= i < old_entries.len() implies entry_offset(new_entries, i)
                == entry_offset(old_entries, i) by {
                assert(new_entries.take(i) =~= old_entries.take(i));
            }
            assert(self.offsets@ =~= entries_offsets(new_entries));
        }
        true
    }

    /// Check if there is not key-value pair in the block.
    pub fn is_empty(&self) -> (b: bool)
        requires
            self.wf(),
        ensures
            b == (self.entries().len() == 0),
    {
        self.offsets.len() == 0
    }

    /// Finalize the block.
    pub fn build(self) -> (block: Block)
        requires
            self.wf(),
            self.entries().len() > 0,
        ensures
            block.data@ == entries_data(self.entries()),
            block.offsets@ == entries_offsets(self.entries()),
    {
        Block { data: self.data, offsets: self.offsets }
    }
}

} // verus!
