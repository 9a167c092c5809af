//! Compaction: the tasks a compaction controller schedules and the options
//! that choose a controller.
pub mod leveled;
pub mod simple_leveled;
pub mod tiered;

pub use leveled::{LeveledCompactionController, LeveledCompactionOptions, LeveledCompactionTask};
pub use simple_leveled::{
    SimpleLeveledCompactionController, SimpleLeveledCompactionOptions, SimpleLeveledCompactionTask,
};
pub use tiered::{TieredCompactionController, TieredCompactionOptions, TieredCompactionTask};

use vstd::prelude::*;

verus! {

#[derive(Debug)]
pub enum CompactionTask {
    Leveled(LeveledCompactionTask),
    Tiered(TieredCompactionTask),
    Simple(SimpleLeveledCompactionTask),
    ForceFullCompaction { l0_sstables: Vec<usize>, l1_sstables: Vec<usize> },
}

impl CompactionTask {
    /// Whether the task writes into the bottom level, where deleted keys can
    /// be dropped for good.
    pub open spec fn compacts_to_bottom_level(&self) -> bool {
        match self {
            CompactionTask::Leveled(task) => task.is_lower_level_botom_level,
            CompactionTask::Simple(task) => task.is_lower_level_botom_level,
            CompactionTask::Tiered(task) => task.bottom_tier_included,
            CompactionTask::ForceFullCompaction { .. } => true,
        }
    }

    /// A task compacts into the bottom level exactly when its own flag says
    /// so: a leveled or simple leveled task when its lower level is the
    /// bottom one, a tiered task when it includes the bottom tier; a full
    /// compaction always does.
    pub proof fn lemma_compacts_to_bottom_level(&self)
        ensures
            *self matches CompactionTask::Leveled(task) ==> (self.compacts_to_bottom_level()
                <==> task.is_lower_level_botom_level),
            *self matches CompactionTask::Simple(task) ==> (self.compacts_to_bottom_level()
                <==> task.is_lower_level_botom_level),
            *self matches CompactionTask::Tiered(task) ==> (self.compacts_to_bottom_level()
                <==> task.bottom_tier_included),
            *self is ForceFullCompaction ==> self.compacts_to_bottom_level(),
    {
    }

    pub fn compact_to_bottom_level(&self) -> (b: bool)
        ensures
            b == self.compacts_to_bottom_level(),
            *self matches CompactionTask::Leveled(task) ==> b == task.is_lower_level_botom_level,
            *self matches CompactionTask::Simple(task) ==> b == task.is_lower_level_botom_level,
            *self matches CompactionTask::Tiered(task) ==> b == task.bottom_tier_included,
            *self is ForceFullCompaction ==> b,
    {
        match self {
            CompactionTask::Leveled(task) => task.is_lower_level_botom_level,
            CompactionTask::Simple(task) => task.is_lower_level_botom_level,
            CompactionTask::Tiered(task) => task.bottom_tier_included,
            CompactionTask::ForceFullCompaction { .. } => true,
        }
    }
}

pub enum CompactionController {
    Leveled(LeveledCompactionController),
    Tiered(TieredCompactionController),
    Simple(SimpleLeveledCompactionController),
    NoCompaction,
}

impl CompactionController {
    /// Whether flushed memtables go to level 0: every controller but the
    /// tiered one.
    pub fn flush_to_l0(&self) -> (b: bool)
        ensures
            b == !(self is Tiered),
    {
        match self {
            CompactionController::Leveled(_)
            | CompactionController::Simple(_)
            | CompactionController::NoCompaction => true,
            CompactionController::Tiered(_) => false,
        }
    }
}

#[derive(Debug, Clone)]
pub enum CompactionOptions {
    /// Leveled compaction with partial compaction + dynamic level support (= RocksDB's leveled
    /// Compaction).
    Leveled(LeveledCompactionOptions),
    /// Tiered compaction (= RocksDB's universal compaction).
    Tiered(TieredCompactionOptions),
    /// Simple leveled compaction.
    Simple(SimpleLeveledCompactionOptions),
    /// In no compaction.
    NoCompaction,
}

impl CompactionOptions {
    /// Whether the engine runs a compaction thread: under every kind of
    /// compaction, but not without compaction.
    pub fn compaction_enabled(&self) -> (b: bool)
        ensures
            b == !(*self is NoCompaction),
    {
        match self {
            CompactionOptions::Leveled(_) | CompactionOptions::Simple(_) | CompactionOptions::Tiered(_) => true,
            CompactionOptions::NoCompaction => false,
        }
    }
}

} // verus!
