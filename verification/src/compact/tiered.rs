use vstd::prelude::*;

verus! {

#[derive(Debug)]
pub struct TieredCompactionTask {
    pub tiers: Vec<(usize, Vec<usize>)>,
    pub bottom_tier_included: bool,
}

#[derive(Debug, Clone)]
pub struct TieredCompactionOptions {
    pub max_tiers: usize,
    pub max_size_amplification_percent: usize,
    pub size_ratio: usize,
    pub min_merge_width: usize,
    pub max_merge_width: Option<usize>,
}

pub struct TieredCompactionController {
    options: TieredCompactionOptions,
}

impl TieredCompactionController {
    /// The options the controller was made with.
    pub closed spec fn options(&self) -> TieredCompactionOptions {
        self.options
    }

    pub fn new(options: TieredCompactionOptions) -> (c: Self)
        ensures
            c.options() == options,
    {
        Self { options }
    }
}

} // verus!
