//! Iterating over the entries of a block.
use vstd::prelude::*;

use std::sync::Arc;

use crate::block::builder::{entries_data, entries_offsets, entry_bytes, entry_offset, lemma_entry_in_data};
use crate::block::Block;
use crate::codec::{be16, be16_value, get_u16};
use crate::key::{key_lt, lemma_key_lt_transitive, slice_lt, KeySlice, KeyVec};

verus! {

/// The entry encoded at offset `o` of `data`: its key and where its value
/// starts and ends, or `None` where the bytes run out first.
pub open spec fn parse_entry(data: Seq<u8>, o: int) -> Option<(Seq<u8>, int, int)> {
    if o + 2 > data.len() {
        None
    } else {
        let key_end = o + 2 + be16_value(data[o], data[o + 1]) as int;
        if key_end > data.len() {
            None
        } else if key_end + 2 > data.len() {
            None
        } else {
            let value_end = key_end + 2 + be16_value(data[key_end], data[key_end + 1]) as int;
            if value_end > data.len() {
                None
            } else {
                Some((data.subrange(o + 2, key_end), key_end + 2, value_end))
            }
        }
    }
}

/// The key encoded at offset `o` of `data`.
pub open spec fn key_at(data: Seq<u8>, o: int) -> Seq<u8> {
    data.subrange(o + 2, o + 2 + be16_value(data[o], data[o + 1]) as int)
}

impl Block {
    /// Every offset points inside the data section.
    pub open spec fn offsets_in_bounds(&self) -> bool {
        forall|i: int| 0 <= i < self.offsets@.len() ==> #[trigger] self.offsets@[i] <= self.data@.len()
    }

    /// Entry `i`, if the block has one, starts inside the data section.
    pub open spec fn offset_ok(&self, i: int) -> bool {
        0 <= i < self.offsets@.len() ==> self.offsets@[i] <= self.data@.len()
    }

    /// The key of every entry can be read.
    pub open spec fn keys_readable(&self) -> bool {
        forall|i: int|
            0 <= i < self.offsets@.len() ==> {
                let o = #[trigger] self.offsets@[i] as int;
                &&& o + 2 <= self.data@.len()
                &&& o + 2 + be16_value(self.data@[o], self.data@[o + 1]) <= self.data@.len()
            }
    }

    /// The key of entry `i`.
    pub open spec fn key_of(&self, i: int) -> Seq<u8> {
        key_at(self.data@, self.offsets@[i] as int)
    }

    /// `p` splits the entries into those with keys before `key` and the rest,
    /// as far as a binary search can tell.
    pub open spec fn is_partition_point(&self, key: Seq<u8>, p: int) -> bool {
        &&& 0 <= p <= self.offsets@.len()
        &&& p > 0 ==> key_lt(self.key_of(p - 1), key)
        &&& p < self.offsets@.len() ==> !key_lt(self.key_of(p), key)
    }
}

/// What seeking to entry `idx` of `block` leaves in an iterator that stood at
/// `cur_idx`: the key, the value's range and the index. Past the last entry
/// the iterator is invalid at `idx`; at an entry that cannot be read it is
/// invalid and keeps `cur_idx`.
pub open spec fn seek_result(block: Block, idx: int, cur_idx: int) -> (Seq<u8>, int, int, int) {
    if idx >= block.offsets@.len() {
        (Seq::empty(), 0, 0, idx)
    } else {
        match parse_entry(block.data@, block.offsets@[idx] as int) {
            None => (Seq::empty(), 0, 0, cur_idx),
            Some((k, s, e)) => (k, s, e, idx),
        }
    }
}

/// The position that `prev` leaves before the first entry: no key, an empty
/// value range, index 0.
pub open spec fn cleared_position() -> (Seq<u8>, int, int, int) {
    (Seq::<u8>::empty(), 0int, 0int, 0int)
}

/// The positions a block iterator reaches through its public operations: that
/// of a seek to an entry index, from wherever it stood, or the one `prev`
/// leaves before the first entry.
pub open spec fn reachable_position(block: Block, pos: (Seq<u8>, int, int, int)) -> bool {
    ||| pos == cleared_position()
    ||| exists|i: int, c: int| 0 <= i && #[trigger] seek_result(block, i, c) == pos
}

/// The position `next` moves an iterator at `pos` to: a seek to the entry
/// after the current index.
pub open spec fn next_position(block: Block, pos: (Seq<u8>, int, int, int)) -> (Seq<u8>, int, int, int) {
    seek_result(block, pos.3 + 1, pos.3)
}

/// The position `prev` moves an iterator at `pos` to: a seek to the entry
/// before the current index, or the cleared position from index 0.
pub open spec fn prev_position(block: Block, pos: (Seq<u8>, int, int, int)) -> (Seq<u8>, int, int, int) {
    if pos.3 == 0 {
        cleared_position()
    } else {
        seek_result(block, pos.3 - 1, pos.3)
    }
}

/// The position after seeking to the first entry and then `i` calls of
/// `next`.
pub open spec fn walk_position(block: Block, i: nat) -> (Seq<u8>, int, int, int)
    decreases i,
{
    if i == 0 {
        seek_result(block, 0, 0)
    } else {
        next_position(block, walk_position(block, (i - 1) as nat))
    }
}

impl Block {
    /// Every entry can be read and has a non-empty key.
    pub open spec fn entries_readable_nonempty(&self) -> bool {
        forall|i: int|
            0 <= i < self.offsets@.len() ==> {
                &&& (#[trigger] parse_entry(self.data@, self.offsets@[i] as int)) is Some
                &&& parse_entry(self.data@, self.offsets@[i] as int).unwrap().0.len() > 0
            }
    }
}

/// In a block whose entries can all be read and have non-empty keys, a block
/// iterator in any position its public operations reach is valid exactly when
/// it stands at an entry, and its key is then that entry's key; an invalid one
/// stands past the last entry, or before the first after `prev`.
pub proof fn lemma_valid_at_entry(block: Block, pos: (Seq<u8>, int, int, int))
    requires
        block.entries_readable_nonempty(),
        reachable_position(block, pos),
    ensures
        pos.0.len() > 0 ==> 0 <= pos.3 < block.offsets@.len() && pos.0 == parse_entry(
            block.data@,
            block.offsets@[pos.3] as int,
        ).unwrap().0,
        pos.0.len() == 0 ==> pos.3 >= block.offsets@.len() || pos == cleared_position(),
{
    if pos != cleared_position() {
        let (i, c) = choose|i: int, c: int| 0 <= i && #[trigger] seek_result(block, i, c) == pos;
        if i < block.offsets@.len() {
            assert(parse_entry(block.data@, block.offsets@[i] as int) is Some);
        }
    }
}

/// Every key and value of `entries` fits a sixteen-bit length and every
/// entry starts at an offset that fits sixteen bits.
pub open spec fn entries_fit(entries: Seq<(Seq<u8>, Seq<u8>)>) -> bool {
    forall|i: int|
        0 <= i < entries.len() ==> {
            &&& (#[trigger] entries[i]).0.len() < 0x1_0000
            &&& entries[i].1.len() < 0x1_0000
            &&& entry_offset(entries, i) < 0x1_0000
        }
}

/// Where the encoding of a key and a value whose lengths fit sixteen bits
/// lies in `d` at offset `o`, reading the entry at `o` gives them back.
proof fn lemma_parse_entry_bytes(d: Seq<u8>, o: int, k: Seq<u8>, v: Seq<u8>)
    requires
        0 <= o,
        k.len() < 0x1_0000,
        v.len() < 0x1_0000,
        o + entry_bytes(k, v).len() <= d.len(),
        d.subrange(o, o + entry_bytes(k, v).len()) == entry_bytes(k, v),
    ensures
        parse_entry(d, o) == Some((k, o + 4 + k.len(), o + 4 + k.len() + v.len())),
        d.subrange(o + 4 + k.len(), o + 4 + k.len() + v.len()) == v,
        key_at(d, o) == k,
{
    let eb = entry_bytes(k, v);
    let kl = (k.len() % 0x1_0000) as u16;
    let vl = (v.len() % 0x1_0000) as u16;
    crate::codec::lemma_be16_roundtrip(kl);
    crate::codec::lemma_be16_roundtrip(vl);
    let key_end = o + 2 + k.len();
    assert(eb.len() == 4 + k.len() + v.len());
    assert forall|j: int| 0 <= j < eb.len() implies d[o + j] == #[trigger] eb[j] by {
        assert(d.subrange(o, o + eb.len())[j] == d[o + j]);
    }
    assert(d[o] == eb[0]);
    assert(d[o + 1] == eb[1]);
    assert(d[key_end] == eb[2 + k.len() as int]);
    assert(d[key_end + 1] == eb[3 + k.len() as int]);
    assert(be16_value(d[o], d[o + 1]) == k.len());
    assert(be16_value(d[key_end], d[key_end + 1]) == v.len());
    assert(d.subrange(o + 2, key_end) =~= k) by {
        assert forall|j: int| 0 <= j < k.len() implies d.subrange(o + 2, key_end)[j] == k[j] by {
            assert(eb[2 + j] == k[j]);
        }
    }
    assert(d.subrange(key_end + 2, key_end + 2 + v.len()) =~= v) by {
        assert forall|j: int| 0 <= j < v.len() implies d.subrange(key_end + 2, key_end + 2 + v.len())[j] == v[j] by {
            assert(eb[4 + k.len() + j] == v[j]);
        }
    }
}

proof fn lemma_entry_fits(entries: Seq<(Seq<u8>, Seq<u8>)>, i: int)
    requires
        entries_fit(entries),
        0 <= i < entries.len(),
    ensures
        entries[i].0.len() < 0x1_0000,
        entries[i].1.len() < 0x1_0000,
        entry_offset(entries, i) < 0x1_0000,
{
}

/// Reading the entry at its offset gives back entry `i`, once its lengths and
/// its offset fit sixteen bits.
#[verifier::spinoff_prover]
proof fn lemma_entry_reads_back(entries: Seq<(Seq<u8>, Seq<u8>)>, i: int)
    requires
        0 <= i < entries.len(),
        entries[i].0.len() < 0x1_0000,
        entries[i].1.len() < 0x1_0000,
        entry_offset(entries, i) < 0x1_0000,
    ensures
        ({
            let d = entries_data(entries);
            let o = entry_offset(entries, i);
            &&& entries_offsets(entries)[i] == o
            &&& parse_entry(d, o) == Some(
                (entries[i].0, o + 4 + entries[i].0.len(), o + 4 + entries[i].0.len() + entries[i].1.len()),
            )
            &&& d.subrange(o + 4 + entries[i].0.len(), o + 4 + entries[i].0.len() + entries[i].1.len())
                == entries[i].1
            &&& key_at(d, o) == entries[i].0
        }),
{
    let d = entries_data(entries);
    let o = entry_offset(entries, i);
    let e = entries[i];
    lemma_entry_in_data(entries, i);
    lemma_parse_entry_bytes(d, o, e.0, e.1);
}

/// Reading entry `i` of a block built from entries that fit gives back the
/// key and the value that were added as entry `i`.
pub proof fn lemma_built_block_entry(entries: Seq<(Seq<u8>, Seq<u8>)>, i: int)
    requires
        entries_fit(entries),
        0 <= i < entries.len(),
    ensures
        ({
            let d = entries_data(entries);
            let o = entry_offset(entries, i);
            &&& entries_offsets(entries)[i] == o
            &&& parse_entry(d, o) == Some(
                (entries[i].0, o + 4 + entries[i].0.len(), o + 4 + entries[i].0.len() + entries[i].1.len()),
            )
            &&& d.subrange(o + 4 + entries[i].0.len(), o + 4 + entries[i].0.len() + entries[i].1.len())
                == entries[i].1
            &&& key_at(d, o) == entries[i].0
        }),
{
    lemma_entry_fits(entries, i);
    lemma_entry_reads_back(entries, i);
}

/// The block built from entries that fit keeps every offset and every key
/// readable, and every entry too, with a non-empty key, where every key added
/// was non-empty.
pub proof fn lemma_built_block_readable(b: Block, entries: Seq<(Seq<u8>, Seq<u8>)>)
    requires
        entries_fit(entries),
        b.data@ == entries_data(entries),
        b.offsets@ == entries_offsets(entries),
    ensures
        b.offsets_in_bounds(),
        b.keys_readable(),
        (forall|i: int| 0 <= i < entries.len() ==> (#[trigger] entries[i]).0.len() > 0)
            ==> b.entries_readable_nonempty(),
{
    assert forall|i: int| 0 <= i < b.offsets@.len() && entries[i].0.len() > 0 implies {
        &&& (#[trigger] parse_entry(b.data@, b.offsets@[i] as int)) is Some
        &&& parse_entry(b.data@, b.offsets@[i] as int).unwrap().0.len() > 0
    } by {
        lemma_built_block_entry(entries, i);
    }
    assert forall|i: int| 0 <= i < b.offsets@.len() implies {
        let o = #[trigger] b.offsets@[i] as int;
        &&& o <= b.data@.len()
        &&& o + 2 <= b.data@.len()
        &&& o + 2 + be16_value(b.data@[o], b.data@[o + 1]) <= b.data@.len()
    } by {
        lemma_built_block_entry(entries, i);
    }
}

/// Seeking to entry `i` of a block built from entries that fit positions the
/// iterator at the key of entry `i`, over the value of entry `i`.
pub proof fn lemma_seek_built_block(b: Block, entries: Seq<(Seq<u8>, Seq<u8>)>, i: int, cur_idx: int)
    requires
        entries_fit(entries),
        b.data@ == entries_data(entries),
        b.offsets@ == entries_offsets(entries),
        0 <= i < entries.len(),
    ensures
        ({
            let r = seek_result(b, i, cur_idx);
            &&& r.0 == entries[i].0
            &&& r.3 == i
            &&& b.data@.subrange(r.1, r.2) == entries[i].1
            &&& b.key_of(i) == entries[i].0
        }),
{
    lemma_built_block_entry(entries, i);
}

/// Walking a block built from entries that fit: after seeking to the first
/// entry and `i` calls of `next`, the iterator stands at index `i`; below the
/// number of entries it has the key and the value of entry `i`, so it visits
/// each entry once, in the order they were added; from there on it has no
/// key and an empty value.
pub proof fn lemma_walk_built_block(b: Block, entries: Seq<(Seq<u8>, Seq<u8>)>, i: nat)
    requires
        entries_fit(entries),
        b.data@ == entries_data(entries),
        b.offsets@ == entries_offsets(entries),
    ensures
        walk_position(b, i).3 == i,
        i < entries.len() ==> walk_position(b, i).0 == entries[i as int].0 && b.data@.subrange(
            walk_position(b, i).1,
            walk_position(b, i).2,
        ) == entries[i as int].1,
        i >= entries.len() ==> walk_position(b, i).0.len() == 0 && walk_position(b, i).1 == walk_position(
            b,
            i,
        ).2,
    decreases i,
{
    if i > 0 {
        lemma_walk_built_block(b, entries, (i - 1) as nat);
    }
    let c = if i == 0 {
        0
    } else {
        walk_position(b, (i - 1) as nat).3
    };
    assert(walk_position(b, i) == seek_result(b, i as int, c));
    if i < entries.len() {
        lemma_seek_built_block(b, entries, i as int, c);
    }
}

/// In a block whose entries can all be read and have non-empty keys, `next`
/// and then `prev` bring a valid iterator, in any position its public
/// operations reach, back to the same key, value range and index; also from
/// the last entry, where `next` leaves it invalid.
pub proof fn lemma_next_then_prev(block: Block, pos: (Seq<u8>, int, int, int))
    requires
        block.entries_readable_nonempty(),
        reachable_position(block, pos),
        pos.0.len() > 0,
    ensures
        prev_position(block, next_position(block, pos)) == pos,
{
    lemma_valid_at_entry(block, pos);
    let i = pos.3;
    let (j, c) = choose|j: int, c: int| 0 <= j && #[trigger] seek_result(block, j, c) == pos;
    assert(parse_entry(block.data@, block.offsets@[i] as int) is Some);
    if j < block.offsets@.len() {
        assert(parse_entry(block.data@, block.offsets@[j] as int) is Some);
    }
    assert(j == i);
    if i + 1 < block.offsets@.len() {
        assert(parse_entry(block.data@, block.offsets@[i + 1] as int) is Some);
    }
    assert(next_position(block, pos).3 == i + 1);
    assert(seek_result(block, i, i + 1) == pos);
}

/// In a block whose keys are strictly ascending, every partition point for
/// `key` is the index of the first entry whose key is not before `key`.
pub proof fn lemma_partition_point_sorted(block: Block, key: Seq<u8>, p: int)
    requires
        forall|i: int, j: int|
            0 <= i < j < block.offsets@.len() ==> key_lt(block.key_of(i), block.key_of(j)),
        block.is_partition_point(key, p),
    ensures
        forall|j: int| 0 <= j < p ==> key_lt(#[trigger] block.key_of(j), key),
        forall|j: int| p <= j < block.offsets@.len() ==> !key_lt(#[trigger] block.key_of(j), key),
{
    let n = block.offsets@.len() as int;
    assert forall|j: int| 0 <= j < p implies key_lt(#[trigger] block.key_of(j), key) by {
        if j < p - 1 {
            lemma_key_lt_transitive(block.key_of(j), block.key_of(p - 1), key);
        }
    }
    assert forall|j: int| p <= j < n implies !key_lt(#[trigger] block.key_of(j), key) by {
        if j > p && key_lt(block.key_of(j), key) {
            lemma_key_lt_transitive(block.key_of(p), block.key_of(j), key);
        }
    }
}

/// Iterates on a block.
pub struct BlockIterator {
    /// The internal `Block`, wrapped by an `Arc`.
    block: Arc<Block>,
    /// The current key, empty represent the iterator is invalid.
    key: KeyVec,
    /// The current value range in the block.data, corresponds to the current key.
    value_range: (usize, usize),
    /// Current index of the key-value pair, should be in range of [0, num_of_elements].
    idx: usize,
    /// The first key in the block
    first_key: KeyVec,
}

impl BlockIterator {
    #[verifier::type_invariant]
    spec fn inv(&self) -> bool {
        self.value_range.0 <= self.value_range.1 <= self.block.data@.len()
    }

    /// The block iterated over.
    pub closed spec fn block(&self) -> Block {
        *self.block
    }

    /// The current key, the current value's range in the block's data and
    /// the current index.
    pub closed spec fn position(&self) -> (Seq<u8>, int, int, int) {
        (self.key@, self.value_range.0 as int, self.value_range.1 as int, self.idx as int)
    }

    /// The first key of the block, once seen.
    pub closed spec fn first_key(&self) -> Seq<u8> {
        self.first_key@
    }

    fn new(block: Arc<Block>) -> (it: Self)
        ensures
            it.block() == *block,
            it.position() == (Seq::<u8>::empty(), 0int, 0int, 0int),
            it.first_key() == Seq::<u8>::empty(),
    {
        Self { block, key: KeyVec::new(), value_range: (0, 0), idx: 0, first_key: KeyVec::new() }
    }

    /// Creates a block iterator and seek to the first entry.
    pub fn create_and_seek_to_first(block: Arc<Block>) -> (it: Self)
        requires
            block.offset_ok(0),
        ensures
            it.block() == *block,
            it.position() == seek_result(*block, 0, 0),
            it.first_key() == it.position().0,
            reachable_position(it.block(), it.position()),
    {
        let mut this = Self::new(block);
        this.seek_to_first();
        this
    }

    /// Creates a block iterator and seek to the first key that >= `key`.
    pub fn create_and_seek_to_key(block: Arc<Block>, key: KeySlice) -> (it: Self)
        requires
            block.keys_readable(),
        ensures
            it.block() == *block,
            exists|p: int|
                block.is_partition_point(key@, p) && it.position() == seek_result(*block, p, 0),
            reachable_position(it.block(), it.position()),
    {
        let mut this = Self::new(block);
        this.seek_to_key(key);
        this
    }

    /// Move to the next key in the block.
    pub fn next(&mut self)
        requires
            old(self).position().3 < usize::MAX,
            old(self).block().offset_ok(old(self).position().3 + 1),
        ensures
            final(self).block() == old(self).block(),
            final(self).first_key() == old(self).first_key(),
            final(self).position() == next_position(old(self).block(), old(self).position()),
            reachable_position(final(self).block(), final(self).position()),
    {
        proof {
            use_type_invariant(&*self);
        }
        self.seek_to_index(self.idx + 1);
    }

    /// Move to the previous key in the block; before the first one the
    /// iterator becomes invalid.
    pub fn prev(&mut self)
        requires
            old(self).block().offset_ok(old(self).position().3 - 1),
        ensures
            final(self).block() == old(self).block(),
            final(self).first_key() == old(self).first_key(),
            final(self).position() == prev_position(old(self).block(), old(self).position()),
            reachable_position(final(self).block(), final(self).position()),
    {
        proof {
            use_type_invariant(&*self);
        }
        if self.idx == 0 {
            self.clear_key();
            self.value_range = (0, 0);
            return;
        }
        self.seek_to_index(self.idx - 1);
    }

    /// Returns the key of the current entry.
    pub fn key(&self) -> (k: KeySlice<'_>)
        ensures
            k@ == self.position().0,
    {
        self.key.as_key_slice()
    }

    /// Returns the value of the current entry.
    pub fn value(&self) -> (v: &[u8])
        ensures
            v@ == self.block().data@.subrange(self.position().1, self.position().2),
    {
        proof {
            use_type_invariant(self);
        }
        vstd::slice::slice_subrange(self.block.data.as_slice(), self.value_range.0, self.value_range.1)
    }

    /// Returns true if the iterator is valid.
    pub fn is_valid(&self) -> (b: bool)
        ensures
            b == (self.position().0.len() > 0),
    {
        !self.key.is_empty()
    }

    /// Empties the current key, reusing its buffer.
    fn clear_key(&mut self)
        ensures
            final(self).block() == old(self).block(),
            final(self).first_key() == old(self).first_key(),
            final(self).position() == (Seq::<u8>::empty(), old(self).position().1, old(self).position().2, old(self).position().3),
    {
        proof {
            use_type_invariant(&*self);
        }
        let mut key = KeyVec::new();
        std::mem::swap(&mut key, &mut self.key);
        key.clear();
        self.key = key;
    }

    fn seek_to_index(&mut self, idx: usize)
        requires
            old(self).block().offset_ok(idx as int),
        ensures
            final(self).block() == old(self).block(),
            final(self).first_key() == old(self).first_key(),
            final(self).position() == seek_result(old(self).block(), idx as int, old(self).position().3),
    {
        proof {
            use_type_invariant(&*self);
        }
        if idx >= self.block.offsets.len() {
            self.clear_key();
            self.value_range = (0, 0);
            self.idx = idx;
            return;
        }
        let offset = self.block.offsets[idx] as usize;
        let data = self.block.data.as_slice();
        let len = data.len();
        assert(offset <= len);
        if len - offset < 2 {
            self.clear_key();
            self.value_range = (0, 0);
            return;
        }
        let key_len = get_u16(vstd::slice::slice_subrange(data, offset, len)) as usize;
        if len - offset - 2 < key_len {
            self.clear_key();
            self.value_range = (0, 0);
            return;
        }
        let key_end = offset + 2 + key_len;
        let key = vstd::slice::slice_subrange(data, offset + 2, key_end);
        if len - key_end < 2 {
            self.clear_key();
            self.value_range = (0, 0);
            return;
        }
        let value_len = get_u16(vstd::slice::slice_subrange(data, key_end, len)) as usize;
        if len - key_end - 2 < value_len {
            self.clear_key();
            self.value_range = (0, 0);
            return;
        }
        let value_start = key_end + 2;
        let value_end = value_start + value_len;
        self.idx = idx;
        let mut current = KeyVec::new();
        proof {
            use_type_invariant(&*self);
        }
        std::mem::swap(&mut current, &mut self.key);
        current.set_from_slice(KeySlice::from_slice(key));
        self.key = current;
        self.value_range = (value_start, value_end);
    }

    /// Seeks to the first key in the block.
    pub fn seek_to_first(&mut self)
        requires
            old(self).block().offset_ok(0),
        ensures
            final(self).block() == old(self).block(),
            final(self).position() == seek_result(old(self).block(), 0, old(self).position().3),
            final(self).first_key() == if final(self).position().0.len() > 0 {
                final(self).position().0
            } else {
                old(self).first_key()
            },
            reachable_position(final(self).block(), final(self).position()),
    {
        self.seek_to_index(0);
        if self.is_valid() {
            proof {
                use_type_invariant(&*self);
            }
            let mut first_key = KeyVec::new();
            std::mem::swap(&mut first_key, &mut self.first_key);
            first_key.set_from_slice(self.key.as_key_slice());
            self.first_key = first_key;
        }
    }

    /// The first entry whose key is not before `key`, found by binary search.
    fn partition_point(&self, key: KeySlice) -> (p: usize)
        requires
            self.block().keys_readable(),
        ensures
            self.block().is_partition_point(key@, p as int),
    {
        let data = self.block.data.as_slice();
        let offsets = &self.block.offsets;
        let mut lo: usize = 0;
        let mut hi: usize = offsets.len();
        while lo < hi
            invariant
                *self.block == self.block(),
                data@ == self.block().data@,
                offsets@ == self.block().offsets@,
                self.block().keys_readable(),
                lo <= hi <= offsets@.len(),
                lo > 0 ==> key_lt(self.block().key_of(lo - 1), key@),
                hi < offsets@.len() ==> !key_lt(self.block().key_of(hi as int), key@),
            decreases hi - lo,
        {
            let mid = lo + (hi - lo) / 2;
            let o = offsets[mid] as usize;
            assert(o + 2 <= data@.len());
            let key_len = get_u16(vstd::slice::slice_subrange(data, o, o + 2)) as usize;
            let current = vstd::slice::slice_subrange(data, o + 2, o + 2 + key_len);
            assert(current@ == self.block().key_of(mid as int));
            if slice_lt(current, key.raw_ref()) {
                lo = mid + 1;
            } else {
                hi = mid;
            }
        }
        lo
    }

    /// Seek to the first key that >= `key`.
    pub fn seek_to_key(&mut self, key: KeySlice)
        requires
            old(self).block().keys_readable(),
        ensures
            final(self).block() == old(self).block(),
            final(self).first_key() == old(self).first_key(),
            exists|p: int|
                old(self).block().is_partition_point(key@, p) && final(self).position()
                    == seek_result(old(self).block(), p, old(self).position().3),
            reachable_position(final(self).block(), final(self).position()),
    {
        let idx = self.partition_point(key);
        self.seek_to_index(idx);
    }
}

} // verus!
