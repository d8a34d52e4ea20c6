use anki_scheduler::card::Card;
use anki_scheduler::card::CardType;
use anki_scheduler::card::MemoryStateBits;
use anki_scheduler::collection::Collection;
use anki_scheduler::collection::CollectionError;
use anki_scheduler::collection::ComputedMemoryState;
use anki_scheduler::memory::finish_memory_progress_entry;
use anki_scheduler::memory::initial_preset_progress;
use anki_scheduler::memory::prepare_memory_progress_entry;
use anki_scheduler::memory::set_active_memory_progress;
use anki_scheduler::memory::ComputeMemoryProgress;
use anki_scheduler::memory::FsrsSyncConflict;
use anki_scheduler::revlog::LastRevlogInfo;

fn bits(value: f32) -> u32 {
    value.to_bits()
}

fn ppm(value: f32) -> u32 {
    (value as f64 * 1_000_000.0).round() as u32
}

fn state(stability: f32, difficulty: f32) -> MemoryStateBits {
    MemoryStateBits {
        stability: bits(stability),
        stability_internal: bits(stability),
        stability_fast: None,
        difficulty: bits(difficulty),
    }
}

fn collection(cards: Vec<Card>) -> Collection {
    Collection {
        cards,
        decks: Vec::new(),
        configs: Vec::new(),
        fsrs: true,
        learn_ahead_secs: 1200,
        rwkv_review_queue_scores: None,
        exact_order_keys: Vec::new(),
        rwkv_order_keys: Vec::new(),
        random_salt: 0,
        apply_all_parent_limits: false,
    }
}

/// A review card with FSRS data, in deck 1.
fn review_card(id: i64) -> Card {
    let mut card = Card::new(id + 100, 0, 1, 0);
    card.id = id;
    card.ctype = CardType::Review;
    card.interval = 1;
    card.memory_state = Some(state(1.0, 1.0));
    card.desired_retention = Some(ppm(0.123));
    card.decay = Some(bits(0.456));
    card
}

#[test]
fn no_req_clears_fsrs_data() {
    let mut col = collection(vec![review_card(1)]);
    col.clear_fsrs_data_for_cards(&vec![1], 1_700_000_123).unwrap();
    let card = col.cards[0];
    assert_eq!(card.memory_state, None);
    assert_eq!(card.desired_retention, None);
    assert_eq!(card.decay, None);
    // the written card is marked modified
    assert_eq!(card.mtime, 1_700_000_123);
}

#[test]
fn a_missing_card_stops_the_clearing() {
    let mut col = collection(vec![review_card(1), review_card(2)]);
    assert_eq!(col.clear_fsrs_data_for_cards(&vec![1, 9, 2], 1_700_000_123), Err(CollectionError::CardNotFound { card_id: 9 }));
    // the cards before it were changed, those after it were not
    assert_eq!(col.cards[0].memory_state, None);
    assert!(col.cards[1].memory_state.is_some());
}

#[test]
fn itemless_cards_get_their_retention_and_decay_and_no_state() {
    let mut moved = review_card(2);
    moved.deck_id = 5;
    moved.original_deck_id = 3;
    let mut col = collection(vec![review_card(1), moved, review_card(3)]);
    let deck_retention = vec![(3, ppm(0.85)), (1, ppm(0.8)), (3, ppm(0.7))];
    col.update_memory_state_for_itemless_cards(&vec![2, 1, 2], &deck_retention, ppm(0.9), bits(0.2), 1_700_000_123).unwrap();
    // the home deck's own retention, the first entry of it
    assert_eq!(col.cards[1].desired_retention, Some(ppm(0.85)));
    assert_eq!(col.cards[0].desired_retention, Some(ppm(0.8)));
    assert_eq!(col.cards[0].decay, Some(bits(0.2)));
    assert_eq!(col.cards[0].memory_state, None);
    // a card not listed keeps its data
    assert_eq!(col.cards[2], review_card(3));
}

#[test]
fn cards_with_items_get_the_computed_state_keeping_stability_where_asked() {
    let mut col = collection(vec![review_card(1), review_card(2)]);
    let computed = vec![state(30.0, 6.0), state(40.0, 7.0)];
    col.update_memory_state_for_cards_with_items(&vec![1, 2], &computed, true, &vec![], ppm(0.9), bits(0.2), 1_700_000_123)
        .unwrap();
    // the stored stability stays; the rest is what FSRS computed
    assert_eq!(col.cards[0].memory_state, Some(MemoryStateBits { stability: bits(1.0), ..computed[0] }));
    assert_eq!(col.cards[1].desired_retention, Some(ppm(0.9)));

    let mut col = collection(vec![review_card(1)]);
    col.update_memory_state_for_cards_with_items(&vec![1], &vec![state(30.0, 6.0)], false, &vec![], ppm(0.9), bits(0.2), 1_700_000_123)
        .unwrap();
    assert_eq!(col.cards[0].memory_state, Some(state(30.0, 6.0)));
}

#[test]
fn compute_and_update_stores_the_state_on_the_card_and_in_the_collection() {
    let mut col = collection(vec![review_card(1), review_card(2)]);
    let mut card = col.cards[1];
    let computed = ComputedMemoryState { memory_state: Some(state(12.0, 4.0)), desired_retention: ppm(0.85), decay: bits(0.3) };
    col.compute_and_update_memory_state(&mut card, computed, 1_700_000_123).unwrap();
    assert_eq!(card.memory_state, Some(state(12.0, 4.0)));
    assert_eq!(card.desired_retention, Some(ppm(0.85)));
    assert_eq!(card.mtime, 1_700_000_123);
    assert_eq!(col.cards[1], card);
    assert_eq!(col.cards[0], review_card(1));
    // a card the collection does not hold is not written
    let mut stray = review_card(7);
    assert_eq!(
        col.compute_and_update_memory_state(&mut stray, computed, 1_700_000_123),
        Err(CollectionError::CardNotFound { card_id: 7 })
    );
    assert_eq!(stray, review_card(7));
}

#[test]
fn itemless_cards_after_a_sync_keep_what_both_devices_agreed_on() {
    let mut agreed = review_card(1);
    agreed.last_review_time = Some(500);
    let mut disputed = review_card(2);
    disputed.last_review_time = Some(600);
    let mut col = collection(vec![agreed, disputed]);
    let conflicts = vec![(1, FsrsSyncConflict { schedule_differs: false, memory_state_agreed: true, last_review_time_agreed: true })];
    let last_info = vec![(2, LastRevlogInfo { last_reviewed_at: Some(700), previous_interval: None, scheduled_interval: Some(3) })];
    col.reconcile_itemless_cards_after_sync(&vec![1, 2], &conflicts, &last_info, &vec![], ppm(0.9), bits(0.2), 1_700_000_123).unwrap();
    assert_eq!(col.cards[0].memory_state, agreed.memory_state);
    assert_eq!(col.cards[0].last_review_time, Some(500));
    // without an entry the devices agreed on nothing
    assert_eq!(col.cards[1].memory_state, None);
    assert_eq!(col.cards[1].last_review_time, Some(700));
    assert_eq!(col.cards[1].decay, Some(bits(0.2)));
}

#[test]
fn merged_conflicts_do_not_depend_on_their_order() {
    let a = FsrsSyncConflict { schedule_differs: true, memory_state_agreed: true, last_review_time_agreed: false };
    let b = FsrsSyncConflict { schedule_differs: false, memory_state_agreed: false, last_review_time_agreed: true };
    let mut ab = a;
    ab.merge(b);
    let mut ba = b;
    ba.merge(a);
    assert_eq!(ab, ba);
    assert_eq!(ab, FsrsSyncConflict { schedule_differs: true, memory_state_agreed: false, last_review_time_agreed: false });
    let mut again = ab;
    again.merge(b);
    assert_eq!(again, ab);
}

#[test]
fn the_progress_shows_the_active_preset() {
    let mut presets = initial_preset_progress(&vec![("Default".to_string(), false), ("Other".to_string(), true)]);
    prepare_memory_progress_entry(&mut presets, 0, 0);
    prepare_memory_progress_entry(&mut presets, 1, 40);
    assert!(presets[0].finished);
    assert!(!presets[1].finished);
    assert_eq!(presets[1].total_cards, 40);
    finish_memory_progress_entry(&mut presets, 1, 40);
    assert!(presets[1].finished);
    assert_eq!(presets[1].current_cards, 40);
    // an index past the list changes nothing
    let summary = |p: &Vec<anki_scheduler::memory::ComputeMemoryPresetProgress>| {
        p.iter().map(|e| (e.name.clone(), e.current_cards, e.total_cards, e.finished)).collect::<Vec<_>>()
    };
    let before = summary(&presets);
    prepare_memory_progress_entry(&mut presets, 5, 1);
    assert_eq!(summary(&presets), before);

    let mut progress = ComputeMemoryProgress {
        current_cards: 0,
        total_cards: 0,
        preset_name: String::new(),
        current_preset: 2,
        total_presets: 2,
        rescheduling: false,
        saving: false,
        presets,
    };
    set_active_memory_progress(&mut progress, 1);
    assert_eq!(progress.preset_name, "Other");
    assert_eq!(progress.total_cards, 40);
    assert!(progress.rescheduling);
}

#[test]
fn a_review_card_is_rescheduled_from_its_last_review() {
    let next_day_at = 1_700_000_000;
    let mut card = review_card(1);
    let info = LastRevlogInfo {
        last_reviewed_at: Some(next_day_at - 10 * 86_400),
        previous_interval: Some(7),
        scheduled_interval: Some(12),
    };
    assert_eq!(anki_scheduler::memory::reschedule_inputs(&card, Some(info), next_day_at), Some((10, 7)));
    // a suspended card, or one without a known last review, is left alone
    let mut suspended = card;
    suspended.queue = anki_scheduler::card::CardQueue::Suspended;
    assert_eq!(anki_scheduler::memory::reschedule_inputs(&suspended, Some(info), next_day_at), None);
    let unknown = LastRevlogInfo { last_reviewed_at: None, ..info };
    assert_eq!(anki_scheduler::memory::reschedule_inputs(&card, Some(unknown), next_day_at), None);

    card.due = 500;
    card.original_due = 0;
    anki_scheduler::memory::apply_rescheduled_interval(&mut card, 15, 10, 1_000);
    assert_eq!(card.interval, 15);
    assert_eq!(card.due, 1_005);
    // in a filtered deck the original due day moves
    let mut filtered = review_card(2);
    filtered.due = -100_000;
    filtered.original_due = 900;
    anki_scheduler::memory::apply_rescheduled_interval(&mut filtered, 3, 2, 1_000);
    assert_eq!(filtered.original_due, 1_001);
    assert_eq!(filtered.due, -100_000);
}

#[test]
fn a_synced_card_keeps_its_schedule_unless_the_user_reschedules_on_change() {
    let next_day_at = 1_700_000_000;
    let timing = anki_scheduler::card::SchedTimingToday { now: next_day_at - 3_600, days_elapsed: 1_000, next_day_at };
    let info = LastRevlogInfo {
        last_reviewed_at: Some(next_day_at - 10 * 86_400),
        previous_interval: Some(7),
        scheduled_interval: Some(12),
    };
    let conflict = FsrsSyncConflict { schedule_differs: true, memory_state_agreed: false, last_review_time_agreed: false };
    let mut card = review_card(1);
    card.queue = anki_scheduler::card::CardQueue::Review;
    card.due = 500;
    let mut kept = card;
    anki_scheduler::memory::reconcile_card_with_item(&mut kept, state(2.0, 3.0), conflict, Some(info), false, timing);
    assert_eq!((kept.due, kept.interval), (500, 1));
    assert_eq!(kept.memory_state, Some(state(2.0, 3.0)));
    let mut restored = card;
    anki_scheduler::memory::reconcile_card_with_item(&mut restored, state(2.0, 3.0), conflict, Some(info), true, timing);
    assert_eq!(restored.interval, 12);
    assert_eq!(restored.due, 1_002);
}

#[test]
fn synced_cards_are_split_by_whether_their_log_gives_an_item() {
    let items = vec![(3, true), (1, false), (5, true)];
    let (with_items, without_items) = anki_scheduler::memory::split_cards_by_items(&items, &vec![1, 2, 3, 4, 5]);
    assert_eq!(with_items, vec![3, 5]);
    // a card without any review log row is missing from the items
    assert_eq!(without_items, vec![1, 2, 4]);
}
