//! The records a manifest keeps of the engine's structural changes.
use vstd::prelude::*;

use crate::compact::CompactionTask;

verus! {

pub enum ManifestRecord {
    Flush(usize),
    NewMemtable(usize),
    Compaction(CompactionTask, Vec<usize>),
}

} // verus!
