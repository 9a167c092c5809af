use vstd::prelude::*;

verus! {

#[derive(Debug)]
pub struct LeveledCompactionTask {
    // If `upper_level` is `None`, then it is L0 compaction.
    pub upper_level: Option<usize>,
    pub upper_level_sst_ids: Vec<usize>,
    pub lower_level: usize,
    pub lower_level_sst_ids: Vec<usize>,
    pub is_lower_level_botom_level: bool,
}

#[derive(Debug, Clone)]
pub struct LeveledCompactionOptions {
    pub level_size_multiplier: usize,
    pub level0_file_num_compaction_trigger: usize,
    pub max_levels: usize,
    pub base_level_size_mg: usize,
}

pub struct LeveledCompactionController {
    options: LeveledCompactionOptions,
}

impl LeveledCompactionController {
    /// The options the controller was made with.
    pub closed spec fn options(&self) -> LeveledCompactionOptions {
        self.options
    }

    pub fn new(options: LeveledCompactionOptions) -> (c: Self)
        ensures
            c.options() == options,
    {
        Self { options }
    }
}

} // verus!
