use bytes::Bytes;
use mini_lsm::compact::{
    CompactionController, CompactionOptions, CompactionTask, LeveledCompactionController,
    LeveledCompactionOptions, LeveledCompactionTask, SimpleLeveledCompactionController,
    SimpleLeveledCompactionOptions, SimpleLeveledCompactionTask, TieredCompactionController,
    TieredCompactionOptions, TieredCompactionTask,
};
use mini_lsm::lsm_storage::{
    compaction_controller, initial_levels, latest_value, CompactionFilter, LsmStorageOptions, WriteBatchRecord,
};
use mini_lsm::manifest::ManifestRecord;

fn leveled_options(max_levels: usize) -> LeveledCompactionOptions {
    LeveledCompactionOptions {
        level_size_multiplier: 2,
        level0_file_num_compaction_trigger: 2,
        max_levels,
        base_level_size_mg: 1,
    }
}

fn tiered_options() -> TieredCompactionOptions {
    TieredCompactionOptions {
        max_tiers: 3,
        max_size_amplification_percent: 200,
        size_ratio: 1,
        min_merge_width: 2,
        max_merge_width: None,
    }
}

#[test]
fn option_presets() {
    let o = LsmStorageOptions::default_for_week1_test();
    assert_eq!(o.block_size, 4096);
    assert_eq!(o.sst_size_target, 2 << 20);
    assert_eq!(o.memtable_count_limit, 50);
    assert!(matches!(o.compaction_options, CompactionOptions::NoCompaction));
    assert!(!o.enable_wal);
    assert!(!o.serializable);
    let o = LsmStorageOptions::default_for_week1_day6_test();
    assert_eq!(o.memtable_count_limit, 2);
    assert_eq!(o.sst_size_target, 2097152);
    let o = LsmStorageOptions::default_for_week2_test(CompactionOptions::Leveled(leveled_options(4)));
    assert_eq!(o.memtable_count_limit, 2);
    assert!(matches!(o.compaction_options, CompactionOptions::Leveled(ref l) if l.max_levels == 4));
}

#[test]
fn initial_levels_per_compaction() {
    let levels = initial_levels(&CompactionOptions::Leveled(leveled_options(3)));
    assert_eq!(levels, vec![(1, vec![]), (2, vec![]), (3, vec![])]);
    assert!(initial_levels(&CompactionOptions::Leveled(leveled_options(0))).is_empty());
    assert!(initial_levels(&CompactionOptions::Tiered(tiered_options())).is_empty());
    assert_eq!(initial_levels(&CompactionOptions::NoCompaction), vec![(1, vec![])]);
}

#[test]
fn compaction_flags() {
    let leveled = CompactionController::Leveled(LeveledCompactionController::new(leveled_options(2)));
    let tiered = CompactionController::Tiered(TieredCompactionController::new(tiered_options()));
    assert!(leveled.flush_to_l0());
    assert!(!tiered.flush_to_l0());
    assert!(CompactionController::NoCompaction.flush_to_l0());

    let task = CompactionTask::Leveled(LeveledCompactionTask {
        upper_level: None,
        upper_level_sst_ids: vec![1],
        lower_level: 1,
        lower_level_sst_ids: vec![2],
        is_lower_level_botom_level: false,
    });
    assert!(!task.compact_to_bottom_level());
    let task = CompactionTask::Tiered(TieredCompactionTask { tiers: vec![(1, vec![1])], bottom_tier_included: true });
    assert!(task.compact_to_bottom_level());
    let task = CompactionTask::ForceFullCompaction { l0_sstables: vec![], l1_sstables: vec![] };
    assert!(task.compact_to_bottom_level());
}

#[test]
fn records_and_filters() {
    let record = ManifestRecord::Flush(3);
    assert!(matches!(record, ManifestRecord::Flush(3)));
    let batch = [WriteBatchRecord::Put(b"k".to_vec(), b"v".to_vec()), WriteBatchRecord::Del(b"k".to_vec())];
    assert_eq!(batch.len(), 2);
    let filter = CompactionFilter::Prefix(Bytes::from_static(b"p"));
    let copy = filter.clone();
    match copy {
        CompactionFilter::Prefix(p) => assert_eq!(&p[..], b"p"),
    }
}

#[test]
fn controller_for_options() {
    assert!(matches!(
        compaction_controller(&CompactionOptions::Leveled(leveled_options(5))),
        CompactionController::Leveled(_)
    ));
    assert!(matches!(
        compaction_controller(&CompactionOptions::Tiered(tiered_options())),
        CompactionController::Tiered(_)
    ));
    assert!(matches!(compaction_controller(&CompactionOptions::NoCompaction), CompactionController::NoCompaction));
}

#[test]
fn newest_memtable_wins() {
    let v = |s: &'static [u8]| Some(Bytes::from_static(s));
    // The newest memtable that holds the key decides.
    assert_eq!(latest_value(vec![None, v(b"new"), v(b"old")]), v(b"new"));
    // A deletion in a newer memtable hides the older value.
    assert_eq!(latest_value(vec![v(b""), v(b"old")]), None);
    assert_eq!(latest_value(vec![None, None, v(b"x")]), v(b"x"));
    assert_eq!(latest_value(vec![None, None]), None);
    assert_eq!(latest_value(Vec::new()), None);
}

fn simple_options(max_levels: usize) -> SimpleLeveledCompactionOptions {
    SimpleLeveledCompactionOptions { size_ratio_percent: 200, level0_file_num_compaction_trigger: 2, max_levels }
}

#[test]
fn simple_leveled_compaction() {
    let options = CompactionOptions::Simple(simple_options(2));
    assert_eq!(initial_levels(&options), vec![(1, vec![]), (2, vec![])]);
    let controller = compaction_controller(&options);
    assert!(matches!(controller, CompactionController::Simple(_)));
    assert!(controller.flush_to_l0());
    assert!(CompactionController::Simple(SimpleLeveledCompactionController::new(simple_options(1))).flush_to_l0());
    let task = CompactionTask::Simple(SimpleLeveledCompactionTask {
        upper_level: Some(1),
        upper_level_sst_ids: vec![3],
        lower_level: 2,
        lower_level_sst_ids: vec![4],
        is_lower_level_botom_level: true,
    });
    assert!(task.compact_to_bottom_level());
}

#[test]
fn compaction_thread_only_with_compaction() {
    assert!(CompactionOptions::Simple(simple_options(2)).compaction_enabled());
    assert!(CompactionOptions::Leveled(leveled_options(2)).compaction_enabled());
    assert!(CompactionOptions::Tiered(tiered_options()).compaction_enabled());
    assert!(!CompactionOptions::NoCompaction.compaction_enabled());
}
