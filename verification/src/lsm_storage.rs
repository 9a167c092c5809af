//! The engine's options, the records of a write batch, and the shape of the
//! levels a fresh engine starts with.
use vstd::prelude::*;

use bytes::Bytes;

use crate::codec::{bytes_as_slice, bytes_clone, bytes_view};
use crate::compact::{
    CompactionController, CompactionOptions, LeveledCompactionController, LeveledCompactionOptions,
    SimpleLeveledCompactionController, SimpleLeveledCompactionOptions, TieredCompactionController,
    TieredCompactionOptions,
};

verus! {

#[derive(Debug, Clone)]
pub struct LsmStorageOptions {
    pub block_size: usize,
    pub sst_size_target: usize,
    pub memtable_count_limit: usize,
    pub compaction_options: CompactionOptions,
    pub enable_wal: bool,
    pub serializable: bool,
}

/// Two mebibytes, the table size the test presets aim for.
fn sst_size_target() -> (n: usize)
    ensures
        n == 2 * 1024 * 1024,
{
    let n: usize = 2 << 20;
    assert((2usize << 20usize) == 2097152usize) by (bit_vector);
    n
}

impl LsmStorageOptions {
    pub fn default_for_week1_test() -> (o: Self)
        ensures
            o.block_size == 4096,
            o.sst_size_target == 2 * 1024 * 1024,
            o.memtable_count_limit == 50,
            o.compaction_options is NoCompaction,
            !o.enable_wal,
            !o.serializable,
    {
        Self {
            block_size: 4096,
            sst_size_target: sst_size_target(),
            memtable_count_limit: 50,
            compaction_options: CompactionOptions::NoCompaction,
            enable_wal: false,
            serializable: false,
        }
    }

    pub fn default_for_week1_day6_test() -> (o: Self)
        ensures
            o.block_size == 4096,
            o.sst_size_target == 2 * 1024 * 1024,
            o.memtable_count_limit == 2,
            o.compaction_options is NoCompaction,
            !o.enable_wal,
            !o.serializable,
    {
        Self {
            block_size: 4096,
            sst_size_target: sst_size_target(),
            memtable_count_limit: 2,
            compaction_options: CompactionOptions::NoCompaction,
            enable_wal: false,
            serializable: false,
        }
    }

    pub fn default_for_week2_test(compaction_options: CompactionOptions) -> (o: Self)
        ensures
            o.block_size == 4096,
            o.sst_size_target == 2 * 1024 * 1024,
            o.memtable_count_limit == 2,
            o.compaction_options == compaction_options,
            !o.enable_wal,
            !o.serializable,
    {
        Self {
            block_size: 4096,
            sst_size_target: sst_size_target(),
            memtable_count_limit: 2,
            compaction_options,
            enable_wal: false,
            serializable: false,
        }
    }
}

/// The levels a fresh engine starts with: levels 1 to `max_levels`, each
/// empty, under leveled and simple leveled compaction; none under tiered compaction; a single
/// empty level 1 without compaction.
pub open spec fn initial_levels_spec(options: CompactionOptions) -> Seq<(usize, Seq<usize>)> {
    match options {
        CompactionOptions::Leveled(o) => Seq::new(
            o.max_levels as nat,
            |i: int| ((i + 1) as usize, Seq::<usize>::empty()),
        ),
        CompactionOptions::Simple(o) => Seq::new(
            o.max_levels as nat,
            |i: int| ((i + 1) as usize, Seq::<usize>::empty()),
        ),
        CompactionOptions::Tiered(_) => Seq::empty(),
        CompactionOptions::NoCompaction => seq![(1usize, Seq::<usize>::empty())],
    }
}

/// A fresh engine has exactly `max_levels` levels under leveled and simple
/// leveled compaction, none under tiered compaction and one without
/// compaction; they are numbered from 1 up, one after the other, and empty.
pub proof fn lemma_initial_levels(options: CompactionOptions)
    ensures
        options matches CompactionOptions::Leveled(o) ==> initial_levels_spec(options).len() == o.max_levels,
        options matches CompactionOptions::Simple(o) ==> initial_levels_spec(options).len() == o.max_levels,
        options is Tiered ==> initial_levels_spec(options).len() == 0,
        options is NoCompaction ==> initial_levels_spec(options).len() == 1,
        forall|i: int|
            0 <= i < initial_levels_spec(options).len() ==> (#[trigger] initial_levels_spec(options)[i]).0 == i + 1
                && initial_levels_spec(options)[i].1.len() == 0,
{
}

/// The levels of the state a fresh engine starts with, as
/// `initial_levels_spec` gives them.
pub fn initial_levels(options: &CompactionOptions) -> (levels: Vec<(usize, Vec<usize>)>)
    ensures
        *options matches CompactionOptions::Leveled(o) ==> levels@.len() == o.max_levels,
        *options matches CompactionOptions::Simple(o) ==> levels@.len() == o.max_levels,
        *options is Tiered ==> levels@.len() == 0,
        *options is NoCompaction ==> levels@.len() == 1,
        forall|i: int|
            0 <= i < levels@.len() ==> (#[trigger] levels@[i]).0 == i + 1 && levels@[i].1@.len() == 0,
        levels@.len() == initial_levels_spec(*options).len(),
        forall|i: int|
            0 <= i < levels@.len() ==> (#[trigger] levels@[i]).0 == initial_levels_spec(*options)[i].0
                && levels@[i].1@ == initial_levels_spec(*options)[i].1,
{
    match options {
        CompactionOptions::Leveled(LeveledCompactionOptions { max_levels, .. })
        | CompactionOptions::Simple(SimpleLeveledCompactionOptions { max_levels, .. }) => {
            let mut levels: Vec<(usize, Vec<usize>)> = Vec::new();
            while levels.len() < *max_levels
                invariant
                    levels@.len() <= *max_levels,
                    forall|i: int|
                        0 <= i < levels@.len() ==> (#[trigger] levels@[i]).0 == i + 1
                            && levels@[i].1@ == Seq::<usize>::empty(),
                decreases *max_levels - levels@.len(),
            {
                let level = levels.len() + 1;
                let empty: Vec<usize> = Vec::new();
                assert(empty@ =~= Seq::<usize>::empty());
                levels.push((level, empty));
            }
            levels
        },
        CompactionOptions::Tiered(_) => Vec::new(),
        CompactionOptions::NoCompaction => {
            let mut levels: Vec<(usize, Vec<usize>)> = Vec::new();
            let empty: Vec<usize> = Vec::new();
            assert(empty@ =~= Seq::<usize>::empty());
            levels.push((1, empty));
            levels
        },
    }
}

/// The compaction controller that the options ask for.
pub fn compaction_controller(options: &CompactionOptions) -> (c: CompactionController)
    ensures
        match (*options, c) {
            (CompactionOptions::Leveled(o), CompactionController::Leveled(l)) => l.options() == o,
            (CompactionOptions::Tiered(o), CompactionController::Tiered(t)) => t.options() == o,
            (CompactionOptions::Simple(o), CompactionController::Simple(t)) => t.options() == o,
            (CompactionOptions::NoCompaction, CompactionController::NoCompaction) => true,
            _ => false,
        },
{
    match options {
        CompactionOptions::Leveled(o) => CompactionController::Leveled(
            LeveledCompactionController::new(
                LeveledCompactionOptions {
                    level_size_multiplier: o.level_size_multiplier,
                    level0_file_num_compaction_trigger: o.level0_file_num_compaction_trigger,
                    max_levels: o.max_levels,
                    base_level_size_mg: o.base_level_size_mg,
                },
            ),
        ),
        CompactionOptions::Tiered(o) => CompactionController::Tiered(
            TieredCompactionController::new(
                TieredCompactionOptions {
                    max_tiers: o.max_tiers,
                    max_size_amplification_percent: o.max_size_amplification_percent,
                    size_ratio: o.size_ratio,
                    min_merge_width: o.min_merge_width,
                    max_merge_width: o.max_merge_width,
                },
            ),
        ),
        CompactionOptions::Simple(o) => CompactionController::Simple(
            SimpleLeveledCompactionController::new(
                SimpleLeveledCompactionOptions {
                    size_ratio_percent: o.size_ratio_percent,
                    level0_file_num_compaction_trigger: o.level0_file_num_compaction_trigger,
                    max_levels: o.max_levels,
                },
            ),
        ),
        CompactionOptions::NoCompaction => CompactionController::NoCompaction,
    }
}

/// What a read finds among the memtables, newest first: the first value any
/// of them holds for the key, where an empty value is a deletion and reads as
/// absent.
pub open spec fn latest_value_spec(found: Seq<Option<Seq<u8>>>) -> Option<Seq<u8>>
    decreases found.len(),
{
    if found.len() == 0 {
        None
    } else {
        match found[0] {
            Some(v) => if v.len() == 0 {
                None
            } else {
                Some(v)
            },
            None => latest_value_spec(found.drop_first()),
        }
    }
}

/// The views of what each memtable holds for a key.
pub open spec fn found_view(found: Seq<Option<Bytes>>) -> Seq<Option<Seq<u8>>> {
    found.map_values(
        |f: Option<Bytes>|
            match f {
                Some(b) => Some(bytes_view(b)),
                None => None,
            },
    )
}

/// The value a read returns, given what each memtable holds for the key,
/// newest memtable first.
pub fn latest_value(found: Vec<Option<Bytes>>) -> (r: Option<Bytes>)
    ensures
        match (r, latest_value_spec(found_view(found@))) {
            (Some(b), Some(v)) => bytes_view(b) == v,
            (None, None) => true,
            _ => false,
        },
{
    let ghost all = found_view(found@);
    let mut i: usize = 0;
    let n = found.len();
    assert(all.skip(0) =~= all);
    while i < n
        invariant
            n == found@.len(),
            i <= n,
            all == found_view(found@),
            latest_value_spec(all) == latest_value_spec(all.skip(i as int)),
            forall|j: int| 0 <= j < i ==> found@[j] is None,
        decreases n - i,
    {
        proof {
            assert(all.skip(i as int).drop_first() =~= all.skip(i + 1));
            assert(all.skip(i as int)[0] == all[i as int]);
        }
        match &found[i] {
            Some(b) => {
                if bytes_as_slice(b).len() == 0 {
                    return None;
                }
                return Some(bytes_clone(b));
            },
            None => {},
        }
        i += 1;
    }
    None
}

/// A deletion in a newer memtable hides every value an older one holds for
/// the key, and a value in a newer memtable hides every older one.
pub proof fn lemma_newest_wins(newer: Seq<Option<Seq<u8>>>, v: Seq<u8>, older: Seq<Option<Seq<u8>>>)
    requires
        forall|j: int| 0 <= j < newer.len() ==> newer[j] is None,
    ensures
        latest_value_spec(newer + seq![Some(v)] + older) == if v.len() == 0 {
            None::<Seq<u8>>
        } else {
            Some(v)
        },
    decreases newer.len(),
{
    if newer.len() > 0 {
        assert((newer + seq![Some(v)] + older).drop_first() =~= newer.drop_first() + seq![Some(v)] + older);
        lemma_newest_wins(newer.drop_first(), v, older);
    } else {
        assert(newer + seq![Some(v)] + older =~= seq![Some(v)] + older);
    }
}

pub enum WriteBatchRecord<T> {
    Put(T, T),
    Del(T),
}

#[derive(Debug)]
pub enum CompactionFilter {
    Prefix(Bytes),
}

impl Clone for CompactionFilter {
    fn clone(&self) -> (c: Self)
        ensures
            c matches CompactionFilter::Prefix(p) && *self matches CompactionFilter::Prefix(q) && bytes_view(p) == bytes_view(q),
    {
        match self {
            CompactionFilter::Prefix(prefix) => CompactionFilter::Prefix(bytes_clone(prefix)),
        }
    }
}

} // verus!
