use anki_scheduler::auto_optimize::FsrsAutoOptimizeJobKey;
use anki_scheduler::collection::Collection;
use anki_scheduler::queue::model::Deck;
use anki_scheduler::queue::model::DeckConfig;

fn fsrs_collection() -> Collection {
    let mut config = DeckConfig::new(1);
    config.fsrs_params = vec![0x3f80_0000, 0x4000_0000, 0x4040_0000];
    config.mtime_secs = 1_700_000_000;
    Collection {
        cards: Vec::new(),
        decks: vec![Deck {
            id: 1,
            name: b"Default".to_vec(),
            config_id: Some(1),
            new_studied_today: 0,
            review_studied_today: 0,
            desired_retention: None,
        }],
        configs: vec![config],
        fsrs: true,
        learn_ahead_secs: 1200,
        rwkv_review_queue_scores: None,
        exact_order_keys: Vec::new(),
        rwkv_order_keys: Vec::new(),
        random_salt: 0,
        apply_all_parent_limits: false,
    }
}

/// Parameters as training would change them: the first one a little.
fn trained(params: &[u32]) -> Vec<u32> {
    let mut params = params.to_vec();
    params[0] += 1;
    params
}

#[test]
fn a_preset_is_optimized_again_after_its_days() {
    let mut col = fsrs_collection();
    let preset = 1;
    let today = 50;
    // never optimized: due at once, every 7 days by default
    assert_eq!(col.fsrs_presets_due_for_auto_optimize(today), vec![preset]);

    let key = FsrsAutoOptimizeJobKey::of(&col.configs[0]);
    let params = trained(&col.configs[0].fsrs_params);
    assert!(col.apply_fsrs_auto_optimize(&key, params.clone(), 3, today));
    assert_eq!(col.configs[0].fsrs_params, params);
    assert_eq!(col.configs[0].fsrs_last_optimized_day, Some(today));
    assert!(col.fsrs_presets_due_for_auto_optimize(today).is_empty());

    // due again once the preset's days have passed; 0 means never
    let mut config = col.configs[0].clone();
    config.fsrs_last_optimized_day = Some(100);
    for (days, today, due) in [
        (None, 106, false),
        (None, 107, true),
        (Some(7), 106, false),
        (Some(7), 107, true),
        (Some(0), 10_000, false),
    ] {
        config.fsrs_auto_optimize_days = days;
        assert_eq!(config.fsrs_auto_optimize_due(today), due, "{days:?} {today}");
    }
    assert_eq!(config.fsrs_auto_optimize_days(), 0);
    config.fsrs_auto_optimize_days = None;
    assert_eq!(config.fsrs_auto_optimize_days(), 7);
}

#[test]
fn a_save_during_training_drops_the_result() {
    let mut col = fsrs_collection();
    let key = FsrsAutoOptimizeJobKey::of(&col.configs[0]);
    // a save within the same second: only the parameters differ
    let saved = trained(&trained(&col.configs[0].fsrs_params));
    col.configs[0].fsrs_params = saved.clone();

    assert!(!col.apply_fsrs_auto_optimize(&key, trained(&saved), 3, 60));
    assert_eq!(col.configs[0].fsrs_params, saved);
    assert_eq!(col.configs[0].fsrs_last_optimized_day, None);
}

#[test]
fn an_optimization_without_reviews_records_the_day_only() {
    let mut col = fsrs_collection();
    let before = col.configs[0].fsrs_params.clone();
    let key = FsrsAutoOptimizeJobKey::of(&col.configs[0]);
    assert!(!col.apply_fsrs_auto_optimize(&key, trained(&before), 0, 60));
    assert_eq!(col.configs[0].fsrs_params, before);
    assert_eq!(col.configs[0].fsrs_last_optimized_day, Some(60));
    // the same parameters change nothing either
    let key = FsrsAutoOptimizeJobKey::of(&col.configs[0]);
    assert!(!col.apply_fsrs_auto_optimize(&key, before.clone(), 9, 61));
    assert_eq!(col.configs[0].fsrs_last_optimized_day, Some(61));
}

#[test]
fn no_preset_is_due_without_fsrs_and_a_gone_preset_takes_nothing() {
    let mut col = fsrs_collection();
    col.configs.push(DeckConfig::new(3));
    col.configs.push(DeckConfig::new(2));
    assert_eq!(col.fsrs_presets_due_for_auto_optimize(0), vec![1, 2, 3]);
    col.fsrs = false;
    assert!(!col.auto_optimize_applies());
    assert!(col.fsrs_presets_due_for_auto_optimize(0).is_empty());

    let key = FsrsAutoOptimizeJobKey::of(&DeckConfig::new(9));
    let before = col.configs.clone();
    assert!(!col.apply_fsrs_auto_optimize(&key, vec![1], 3, 60));
    assert_eq!(col.configs, before);
}

#[test]
fn parameters_that_compare_equal_are_not_a_change() {
    let mut col = fsrs_collection();
    let mut before = col.configs[0].fsrs_params.clone();
    before[0] = 0.0f32.to_bits();
    col.configs[0].fsrs_params = before.clone();
    let key = FsrsAutoOptimizeJobKey::of(&col.configs[0]);
    let mut negative_zero = before.clone();
    negative_zero[0] = (-0.0f32).to_bits();
    // -0 and 0 are the same number: nothing changes but the day
    assert!(!col.apply_fsrs_auto_optimize(&key, negative_zero, 9, 61));
    assert_eq!(col.configs[0].fsrs_params, before);
    assert_eq!(col.configs[0].fsrs_last_optimized_day, Some(61));
}
