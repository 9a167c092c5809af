use vstd::prelude::*;

verus! {

#[derive(Debug)]
pub struct SimpleLeveledCompactionTask {
    // If `upper_level` is `None`, then it is L0 compaction.
    pub upper_level: Option<usize>,
    pub upper_level_sst_ids: Vec<usize>,
    pub lower_level: usize,
    pub lower_level_sst_ids: Vec<usize>,
    pub is_lower_level_botom_level: bool,
}

#[derive(Debug, Clone)]
pub struct SimpleLeveledCompactionOptions {
    pub size_ratio_percent: usize,
    pub level0_file_num_compaction_trigger: usize,
    pub max_levels: usize,
}

pub struct SimpleLeveledCompactionController {
    options: SimpleLeveledCompactionOptions,
}

impl SimpleLeveledCompactionController {
    /// The options the controller was made with.
    pub closed spec fn options(&self) -> SimpleLeveledCompactionOptions {
        self.options
    }

    pub fn new(options: SimpleLeveledCompactionOptions) -> (c: Self)
        ensures
            c.options() == options,
    {
        Self { options }
    }
}

} // verus!
