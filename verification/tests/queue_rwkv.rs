use anki_scheduler::card::Card;
use anki_scheduler::card::CardQueue;
use anki_scheduler::card::CardType;
use anki_scheduler::card::MemoryStateBits;
use anki_scheduler::card::SchedTimingToday;
use anki_scheduler::queue::gathering::RWKV_REVIEW_GATHER_MIN_CHUNK_SIZE;
use anki_scheduler::queue::model::Deck;
use anki_scheduler::queue::model::DeckConfig;
use anki_scheduler::queue::model::NewCardGatherPriority;
use anki_scheduler::queue::model::ReviewCardOrder;
use anki_scheduler::queue::model::RwkvReviewQueueScoreEntry;
use anki_scheduler::queue::model::RwkvReviewQueueScores;
use anki_scheduler::collection::Collection;

const NOW: i64 = 1_700_000_000;
const DAYS_ELAPSED: u32 = 1_000;

fn ppm(value: f32) -> u32 {
    (value as f64 * 1_000_000.0).round() as u32
}

struct TestCollection {
    col: Collection,
    next_id: i64,
    next_note: i64,
}

impl TestCollection {
    fn new() -> Self {
        TestCollection {
            col: Collection {
                cards: Vec::new(),
                decks: Vec::new(),
                configs: Vec::new(),
                fsrs: false,
                learn_ahead_secs: 1200,
                rwkv_review_queue_scores: None,
                exact_order_keys: Vec::new(),
                rwkv_order_keys: Vec::new(),
                random_salt: 0,
                apply_all_parent_limits: false,
            },
            next_id: 1_600_000_000_000,
            next_note: 0,
        }
    }

    fn timing_today(&self) -> SchedTimingToday {
        SchedTimingToday { now: NOW, days_elapsed: DAYS_ELAPSED, next_day_at: NOW + 10 * 3600 }
    }

    fn get_or_create_normal_deck(&mut self, name: &str) -> i64 {
        let native = anki_scheduler::queue::model::native_deck_name(name.as_bytes());
        if let Some(deck) = self.col.decks.iter().find(|d| d.name == native) {
            return deck.id;
        }
        let id = self.col.decks.len() as i64 + 1;
        let config_id = self.col.configs.len() as i64 + 1;
        self.col.configs.push(DeckConfig::new(config_id));
        self.col.decks.push(Deck {
            id,
            name: native,
            config_id: Some(config_id),
            new_studied_today: 0,
            review_studied_today: 0,
            desired_retention: None,
        });
        id
    }

    fn config_of(&mut self, deck_id: i64) -> &mut DeckConfig {
        let config_id = self.col.decks.iter().find(|d| d.id == deck_id).unwrap().config_id.unwrap();
        self.col.configs.iter_mut().find(|c| c.id == config_id).unwrap()
    }

    fn set_deck_rwkv_instant_order(&mut self, deck_id: i64, order: ReviewCardOrder) {
        let config_id = self.col.configs.len() as i64 + 1;
        let mut conf = DeckConfig::new(config_id);
        conf.review_order = order;
        conf.rwkv_review_enabled = false;
        conf.rwkv_review_instant_order_enabled = true;
        self.col.configs.push(conf);
        self.col.decks.iter_mut().find(|d| d.id == deck_id).unwrap().config_id = Some(config_id);
    }

    fn set_deck_rwkv_review_order_with_options(
        &mut self,
        deck_id: i64,
        order: ReviewCardOrder,
        desired_retention: f32,
        allow_same_day_review: bool,
    ) {
        self.set_deck_rwkv_instant_order(deck_id, order);
        let conf = self.config_of(deck_id);
        conf.desired_retention = ppm(desired_retention);
        conf.rwkv_review_allow_same_day_review = allow_same_day_review;
        conf.rwkv_review_min_intervening_reviews = 0;
        conf.rwkv_review_min_elapsed_secs = 0;
    }

    fn set_deck_rwkv_review_order_with_desired_retention(
        &mut self,
        deck_id: i64,
        order: ReviewCardOrder,
        desired_retention: f32,
    ) {
        self.set_deck_rwkv_review_order_with_options(deck_id, order, desired_retention, false);
    }

    fn set_deck_rwkv_review_order_with_repeat_guards(
        &mut self,
        deck_id: i64,
        order: ReviewCardOrder,
        desired_retention: f32,
        min_intervening_reviews: u32,
        min_elapsed_secs: u32,
    ) {
        self.set_deck_rwkv_instant_order(deck_id, order);
        let conf = self.config_of(deck_id);
        conf.desired_retention = ppm(desired_retention);
        conf.rwkv_review_allow_same_day_review = true;
        conf.rwkv_review_min_intervening_reviews = min_intervening_reviews;
        conf.rwkv_review_min_elapsed_secs = min_elapsed_secs;
    }

    fn set_deck_review_limit(&mut self, deck_id: i64, limit: u32) {
        self.config_of(deck_id).reviews_per_day = limit;
    }

    fn set_deck_rwkv_minimum_reviews(&mut self, deck_id: i64, minimum: u32) {
        self.config_of(deck_id).rwkv_review_minimum_reviews_per_day = minimum;
    }

    fn add_memory_state_card(
        &mut self,
        deck_id: i64,
        queue: CardQueue,
        ctype: CardType,
        due: i32,
        elapsed_secs: i64,
        stability: f32,
    ) -> i64 {
        self.next_id += 1;
        let id = self.next_id;
        let mut card = Card::new(id + 1_000, 0, deck_id, due);
        card.id = id;
        card.mtime = NOW;
        card.ctype = ctype;
        card.queue = queue;
        card.interval = 1;
        card.memory_state = Some(MemoryStateBits {
            stability: stability.to_bits(),
            stability_internal: stability.to_bits(),
            stability_fast: None,
            difficulty: 5.0f32.to_bits(),
        });
        card.desired_retention = Some(ppm(0.9));
        card.last_review_time = Some(NOW - elapsed_secs);
        self.col.cards.push(card);
        id
    }

    /// New cards of one note (its siblings), next in the new queue.
    fn add_new_note(&mut self, deck_id: i64, siblings: u16) -> Vec<i64> {
        self.next_note += 1;
        let mut ids = Vec::new();
        for template in 0..siblings {
            self.next_id += 1;
            let mut card = Card::new(self.next_note, template, deck_id, self.next_note as i32);
            card.id = self.next_id;
            card.mtime = NOW;
            self.col.cards.push(card);
            ids.push(card.id);
        }
        ids
    }

    fn add_new_card(&mut self, deck_id: i64) -> i64 {
        self.add_new_note(deck_id, 1)[0]
    }

    /// Gives the deck a preset of its own that gathers new cards in this
    /// order, buries no siblings, and, for the retrievability orders,
    /// orders by RWKV-Instant.
    fn set_deck_gather_order(&mut self, deck_id: i64, order: NewCardGatherPriority) {
        let config_id = self.col.configs.len() as i64 + 1;
        let mut conf = DeckConfig::new(config_id);
        conf.new_card_gather_priority = order;
        if matches!(order, NewCardGatherPriority::AscendingRetrievability | NewCardGatherPriority::DescendingRetrievability) {
            conf.rwkv_review_enabled = false;
            conf.rwkv_review_instant_order_enabled = true;
        }
        self.col.configs.push(conf);
        self.col.decks.iter_mut().find(|d| d.id == deck_id).unwrap().config_id = Some(config_id);
    }

    fn card_mut(&mut self, card_id: i64) -> &mut Card {
        self.col.cards.iter_mut().find(|c| c.id == card_id).unwrap()
    }

    fn set_rwkv_review_queue_score_entries(&mut self, deck_id: i64, entries: Vec<(i64, RwkvReviewQueueScoreEntry)>) {
        self.col.rwkv_review_queue_scores = Some(RwkvReviewQueueScores { deck_id, day: DAYS_ELAPSED, entries });
    }

    fn set_rwkv_review_queue_scores(&mut self, deck_id: i64, scores: Vec<(i64, f32)>) {
        let entries = scores
            .into_iter()
            .map(|(id, r)| (id, RwkvReviewQueueScoreEntry::new(ppm(r))))
            .collect();
        self.set_rwkv_review_queue_score_entries(deck_id, entries);
    }

    fn queue_as_ids(&self, deck_id: i64) -> Vec<i64> {
        self.col.build_queues(deck_id, self.timing_today()).unwrap().card_ids()
    }

    fn counts(&self, deck_id: i64) -> [usize; 3] {
        self.col.build_queues(deck_id, self.timing_today()).unwrap().counts_array()
    }

    fn rwkv_scores_pending(&self, deck_id: i64) -> bool {
        self.col.build_queues(deck_id, self.timing_today()).unwrap().rwkv_scores_pending
    }
}

fn entry(retrievability: f32, intervening_reviews: Option<u32>, target_retention: Option<f32>) -> RwkvReviewQueueScoreEntry {
    RwkvReviewQueueScoreEntry {
        retrievability: ppm(retrievability),
        intervening_reviews,
        target_retention: target_retention.map(ppm),
    }
}

#[test]
fn rwkv_instant_eligibility_applies_to_every_review_order() {
    for order in [
        ReviewCardOrder::Day,
        ReviewCardOrder::DayThenDeck,
        ReviewCardOrder::DeckThenDay,
        ReviewCardOrder::IntervalsAscending,
        ReviewCardOrder::IntervalsDescending,
        ReviewCardOrder::EaseAscending,
        ReviewCardOrder::EaseDescending,
        ReviewCardOrder::RetrievabilityAscending,
        ReviewCardOrder::RetrievabilityDescending,
        ReviewCardOrder::RelativeOverdueness,
        ReviewCardOrder::Random,
        ReviewCardOrder::Added,
        ReviewCardOrder::ReverseAdded,
    ] {
        let mut col = TestCollection::new();
        let deck = col.get_or_create_normal_deck("Default");
        col.set_deck_rwkv_instant_order(deck, order);
        let timing = col.timing_today();
        let unscored_due = col.add_memory_state_card(deck, CardQueue::Review, CardType::Review, timing.days_elapsed as i32 - 1, 2 * 86_400, 30.0);
        let scored_due_above_target = col.add_memory_state_card(deck, CardQueue::Review, CardType::Review, timing.days_elapsed as i32, 2 * 86_400, 30.0);
        let scored_future_below_target = col.add_memory_state_card(deck, CardQueue::Review, CardType::Review, timing.days_elapsed as i32 + 7, 2 * 86_400, 30.0);
        col.set_rwkv_review_queue_score_entries(
            deck,
            vec![
                (scored_due_above_target, entry(0.80, None, Some(0.75))),
                (scored_future_below_target, entry(0.20, None, Some(0.75))),
            ],
        );
        let _ = unscored_due;
        assert_eq!(col.queue_as_ids(deck), vec![scored_future_below_target], "review order {order:?}");
        assert_eq!(col.counts(deck), [0, 0, 1], "review order {order:?}");
    }
}

#[test]
fn rwkv_relative_overdueness_uses_score_target_before_review_limit() {
    let mut col = TestCollection::new();
    let deck = col.get_or_create_normal_deck("Default");
    col.set_deck_rwkv_review_order_with_desired_retention(deck, ReviewCardOrder::RelativeOverdueness, 0.90);
    col.set_deck_review_limit(deck, 1);
    let timing = col.timing_today();
    let higher_target = col.add_memory_state_card(deck, CardQueue::Review, CardType::Review, timing.days_elapsed as i32, 2 * 86_400, 30.0);
    let lower_target = col.add_memory_state_card(deck, CardQueue::Review, CardType::Review, timing.days_elapsed as i32, 20 * 86_400, 30.0);
    col.set_rwkv_review_queue_score_entries(
        deck,
        vec![
            (higher_target, entry(0.90, None, Some(0.95))),
            (lower_target, entry(0.79, None, Some(0.80))),
        ],
    );
    assert_eq!(col.queue_as_ids(deck), vec![higher_target]);
}

#[test]
fn rwkv_instant_preserves_due_day_review_order() {
    let mut col = TestCollection::new();
    let deck = col.get_or_create_normal_deck("Default");
    col.set_deck_rwkv_instant_order(deck, ReviewCardOrder::Day);
    let timing = col.timing_today();
    let scored_earlier = col.add_memory_state_card(deck, CardQueue::Review, CardType::Review, timing.days_elapsed as i32 - 2, 2 * 86_400, 30.0);
    let unscored_due = col.add_memory_state_card(deck, CardQueue::Review, CardType::Review, timing.days_elapsed as i32 - 1, 2 * 86_400, 30.0);
    let scored_future = col.add_memory_state_card(deck, CardQueue::Review, CardType::Review, timing.days_elapsed as i32 + 7, 2 * 86_400, 30.0);
    col.set_rwkv_review_queue_score_entries(
        deck,
        vec![
            (scored_earlier, entry(0.30, None, Some(0.75))),
            (scored_future, entry(0.20, None, Some(0.75))),
        ],
    );
    let _ = unscored_due;
    assert_eq!(col.queue_as_ids(deck), vec![scored_earlier, scored_future]);
}

#[test]
fn rwkv_retrievability_order_can_include_future_review_cards() {
    let mut col = TestCollection::new();
    let deck = col.get_or_create_normal_deck("Default");
    let other_deck = col.get_or_create_normal_deck("Other");
    col.set_deck_rwkv_instant_order(deck, ReviewCardOrder::RetrievabilityAscending);
    let timing = col.timing_today();
    let due_review = col.add_memory_state_card(deck, CardQueue::Review, CardType::Review, timing.days_elapsed as i32, 2 * 86_400, 30.0);
    let future_review = col.add_memory_state_card(deck, CardQueue::Review, CardType::Review, timing.days_elapsed as i32 + 7, 2 * 86_400, 30.0);
    let inactive_deck_review = col.add_memory_state_card(other_deck, CardQueue::Review, CardType::Review, timing.days_elapsed as i32 + 7, 2 * 86_400, 30.0);
    col.set_rwkv_review_queue_scores(deck, vec![(due_review, 0.90), (future_review, 0.10), (inactive_deck_review, 0.01)]);
    assert_eq!(col.queue_as_ids(deck), vec![future_review, due_review]);
    assert_eq!(col.counts(deck), [0, 0, 2]);
}

#[test]
fn rwkv_instant_unscored_due_reviews_wait_for_their_score() {
    let mut col = TestCollection::new();
    let deck = col.get_or_create_normal_deck("Default");
    col.set_deck_rwkv_instant_order(deck, ReviewCardOrder::RetrievabilityAscending);
    let timing = col.timing_today();
    let due_review_without_score = col.add_memory_state_card(deck, CardQueue::Review, CardType::Review, timing.days_elapsed as i32, 2 * 86_400, 30.0);
    let future_review = col.add_memory_state_card(deck, CardQueue::Review, CardType::Review, timing.days_elapsed as i32 + 7, 2 * 86_400, 30.0);
    col.set_rwkv_review_queue_scores(deck, vec![(future_review, 0.10)]);
    let _ = due_review_without_score;
    assert_eq!(col.queue_as_ids(deck), vec![future_review]);
    assert_eq!(col.counts(deck), [0, 0, 1]);
    assert!(!col.rwkv_scores_pending(deck));
}

#[test]
fn rwkv_retrievability_order_continues_after_an_ineligible_ranked_chunk() {
    let mut col = TestCollection::new();
    let deck = col.get_or_create_normal_deck("Default");
    col.set_deck_rwkv_review_order_with_desired_retention(deck, ReviewCardOrder::RetrievabilityAscending, 0.90);
    col.set_deck_review_limit(deck, 1);
    let timing = col.timing_today();
    let mut scores = Vec::new();
    for index in 0..=RWKV_REVIEW_GATHER_MIN_CHUNK_SIZE {
        let card_id = col.add_memory_state_card(deck, CardQueue::Review, CardType::Review, timing.days_elapsed as i32, 2 * 86_400, 30.0);
        let in_first_chunk = index < RWKV_REVIEW_GATHER_MIN_CHUNK_SIZE;
        scores.push((
            card_id,
            entry(
                if in_first_chunk { 0.10 } else { 0.20 },
                None,
                Some(if in_first_chunk { 0.05 } else { 0.50 }),
            ),
        ));
    }
    let expected = scores.iter().map(|(id, _)| *id).max().unwrap();
    col.set_rwkv_review_queue_score_entries(deck, scores);
    assert_eq!(col.queue_as_ids(deck), vec![expected]);
    assert_eq!(col.counts(deck), [0, 0, 1]);
}

#[test]
fn rwkv_retrievability_order_excludes_scores_above_desired_retention() {
    let mut col = TestCollection::new();
    let deck = col.get_or_create_normal_deck("Default");
    col.set_deck_rwkv_review_order_with_desired_retention(deck, ReviewCardOrder::RetrievabilityAscending, 0.75);
    let timing = col.timing_today();
    let due_high_rwkv_r = col.add_memory_state_card(deck, CardQueue::Review, CardType::Review, timing.days_elapsed as i32, 2 * 86_400, 30.0);
    let future_low_rwkv_r = col.add_memory_state_card(deck, CardQueue::Review, CardType::Review, timing.days_elapsed as i32 + 7, 2 * 86_400, 30.0);
    for card_id in [due_high_rwkv_r, future_low_rwkv_r] {
        col.card_mut(card_id).desired_retention = None;
    }
    col.set_rwkv_review_queue_scores(deck, vec![(due_high_rwkv_r, 0.80), (future_low_rwkv_r, 0.20)]);
    assert_eq!(col.queue_as_ids(deck), vec![future_low_rwkv_r]);
    assert_eq!(col.counts(deck), [0, 0, 1]);
}

#[test]
fn rwkv_minimum_pulls_lowest_retrievability_reviews() {
    let mut col = TestCollection::new();
    let deck = col.get_or_create_normal_deck("Default");
    col.set_deck_rwkv_review_order_with_desired_retention(deck, ReviewCardOrder::RetrievabilityAscending, 0.75);
    col.set_deck_rwkv_minimum_reviews(deck, 2);
    let timing = col.timing_today();
    let mut scored_cards = Vec::new();
    for score in [0.90f32, 0.80, 0.95] {
        let card_id = col.add_memory_state_card(deck, CardQueue::Review, CardType::Review, timing.days_elapsed as i32 + 7, 2 * 86_400, 30.0);
        scored_cards.push((card_id, score));
    }
    col.set_rwkv_review_queue_score_entries(
        deck,
        scored_cards.iter().map(|(card_id, score)| (*card_id, entry(*score, None, Some(0.75)))).collect(),
    );
    scored_cards.sort_by(|(_, score_a), (_, score_b)| score_a.total_cmp(score_b));
    assert_eq!(
        col.queue_as_ids(deck),
        scored_cards[..2].iter().map(|(card_id, _)| *card_id).collect::<Vec<_>>()
    );
}

#[test]
fn rwkv_minimum_counts_normally_eligible_reviews() {
    let mut col = TestCollection::new();
    let deck = col.get_or_create_normal_deck("Default");
    col.set_deck_rwkv_review_order_with_desired_retention(deck, ReviewCardOrder::RetrievabilityAscending, 0.75);
    col.set_deck_rwkv_minimum_reviews(deck, 2);
    let timing = col.timing_today();
    let mut cards = Vec::new();
    for score in [0.20f32, 0.80, 0.90] {
        let card_id = col.add_memory_state_card(deck, CardQueue::Review, CardType::Review, timing.days_elapsed as i32 + 7, 2 * 86_400, 30.0);
        cards.push((card_id, score));
    }
    col.set_rwkv_review_queue_score_entries(
        deck,
        cards.iter().map(|(card_id, score)| (*card_id, entry(*score, None, Some(0.75)))).collect(),
    );
    assert_eq!(col.queue_as_ids(deck), vec![cards[0].0, cards[1].0]);
}

#[test]
fn rwkv_minimum_uses_lowest_scores_with_configured_review_order() {
    let mut col = TestCollection::new();
    let deck = col.get_or_create_normal_deck("Default");
    col.set_deck_rwkv_instant_order(deck, ReviewCardOrder::Day);
    col.set_deck_rwkv_minimum_reviews(deck, 2);
    let timing = col.timing_today();
    let mut add_review_card = |due_offset: i32| -> i64 {
        col.add_memory_state_card(deck, CardQueue::Review, CardType::Review, timing.days_elapsed as i32 + due_offset, 2 * 86_400, 30.0)
    };
    let later_lowest = add_review_card(3);
    let earliest_highest = add_review_card(1);
    let earlier_second = add_review_card(2);
    col.set_rwkv_review_queue_score_entries(
        deck,
        vec![
            (later_lowest, entry(0.80, None, Some(0.75))),
            (earliest_highest, entry(0.90, None, Some(0.75))),
            (earlier_second, entry(0.85, None, Some(0.75))),
        ],
    );
    assert_eq!(col.queue_as_ids(deck), vec![earlier_second, later_lowest]);
}

#[test]
fn rwkv_minimum_does_not_bypass_same_day_guard() {
    let mut col = TestCollection::new();
    let deck = col.get_or_create_normal_deck("Default");
    col.set_deck_rwkv_review_order_with_desired_retention(deck, ReviewCardOrder::RetrievabilityAscending, 0.75);
    col.set_deck_rwkv_minimum_reviews(deck, 1);
    let timing = col.timing_today();
    let card_id = col.add_memory_state_card(deck, CardQueue::Review, CardType::Review, timing.days_elapsed as i32 + 7, 2 * 86_400, 30.0);
    col.card_mut(card_id).last_review_time = Some(timing.now);
    col.set_rwkv_review_queue_score_entries(deck, vec![(card_id, entry(0.80, Some(0), Some(0.75)))]);
    assert!(col.queue_as_ids(deck).is_empty());
}

#[test]
fn rwkv_retrievability_order_uses_card_desired_retention_override() {
    let mut col = TestCollection::new();
    let deck = col.get_or_create_normal_deck("Default");
    col.set_deck_rwkv_review_order_with_desired_retention(deck, ReviewCardOrder::RetrievabilityAscending, 0.75);
    let timing = col.timing_today();
    let card_id = col.add_memory_state_card(deck, CardQueue::Review, CardType::Review, timing.days_elapsed as i32, 2 * 86_400, 30.0);
    col.card_mut(card_id).desired_retention = Some(ppm(0.85));
    col.set_rwkv_review_queue_scores(deck, vec![(card_id, 0.80)]);
    assert_eq!(col.queue_as_ids(deck), vec![card_id]);
    assert_eq!(col.counts(deck), [0, 0, 1]);
}

#[test]
fn rwkv_retrievability_order_excludes_scores_above_card_desired_retention() {
    let mut col = TestCollection::new();
    let deck = col.get_or_create_normal_deck("Default");
    col.set_deck_rwkv_review_order_with_desired_retention(deck, ReviewCardOrder::RetrievabilityAscending, 0.90);
    let timing = col.timing_today();
    let card_id = col.add_memory_state_card(deck, CardQueue::Review, CardType::Review, timing.days_elapsed as i32, 2 * 86_400, 30.0);
    col.card_mut(card_id).desired_retention = Some(ppm(0.90));
    col.set_rwkv_review_queue_score_entries(deck, vec![(card_id, entry(0.60, None, Some(0.50)))]);
    assert!(col.queue_as_ids(deck).is_empty());
    assert_eq!(col.counts(deck), [0, 0, 0]);
}

#[test]
fn rwkv_retrievability_order_excludes_same_day_reviews_by_default() {
    let mut col = TestCollection::new();
    let deck = col.get_or_create_normal_deck("Default");
    col.set_deck_rwkv_review_order_with_desired_retention(deck, ReviewCardOrder::RetrievabilityAscending, 0.75);
    let timing = col.timing_today();
    let card_id = col.add_memory_state_card(deck, CardQueue::Review, CardType::Review, timing.days_elapsed as i32, 2 * 86_400, 30.0);
    col.card_mut(card_id).last_review_time = Some(timing.now);
    col.set_rwkv_review_queue_scores(deck, vec![(card_id, 0.20)]);
    assert!(col.queue_as_ids(deck).is_empty());
    assert_eq!(col.counts(deck), [0, 0, 0]);
}

#[test]
fn rwkv_retrievability_order_can_allow_same_day_reviews() {
    let mut col = TestCollection::new();
    let deck = col.get_or_create_normal_deck("Default");
    col.set_deck_rwkv_review_order_with_options(deck, ReviewCardOrder::RetrievabilityAscending, 0.75, true);
    let timing = col.timing_today();
    let card_id = col.add_memory_state_card(deck, CardQueue::Review, CardType::Review, timing.days_elapsed as i32, 2 * 86_400, 30.0);
    col.card_mut(card_id).last_review_time = Some(timing.now);
    col.set_rwkv_review_queue_scores(deck, vec![(card_id, 0.20)]);
    assert_eq!(col.queue_as_ids(deck), vec![card_id]);
    assert_eq!(col.counts(deck), [0, 0, 1]);
}

#[test]
fn rwkv_retrievability_order_requires_min_intervening_reviews() {
    let mut col = TestCollection::new();
    let deck = col.get_or_create_normal_deck("Default");
    col.set_deck_rwkv_review_order_with_repeat_guards(deck, ReviewCardOrder::RetrievabilityAscending, 0.75, 2, 0);
    let timing = col.timing_today();
    let card_id = col.add_memory_state_card(deck, CardQueue::Review, CardType::Review, timing.days_elapsed as i32, 2 * 86_400, 30.0);
    col.card_mut(card_id).last_review_time = Some(timing.now);
    col.set_rwkv_review_queue_score_entries(deck, vec![(card_id, entry(0.20, Some(1), None))]);
    assert!(col.queue_as_ids(deck).is_empty());
    assert_eq!(col.counts(deck), [0, 0, 0]);
    col.set_rwkv_review_queue_score_entries(deck, vec![(card_id, entry(0.20, Some(2), None))]);
    assert_eq!(col.queue_as_ids(deck), vec![card_id]);
    assert_eq!(col.counts(deck), [0, 0, 1]);
}

#[test]
fn rwkv_retrievability_order_requires_min_elapsed_secs() {
    let mut col = TestCollection::new();
    let deck = col.get_or_create_normal_deck("Default");
    col.set_deck_rwkv_review_order_with_repeat_guards(deck, ReviewCardOrder::RetrievabilityAscending, 0.75, 0, 300);
    let timing = col.timing_today();
    let card_id = col.add_memory_state_card(deck, CardQueue::Review, CardType::Review, timing.days_elapsed as i32, 2 * 86_400, 30.0);
    col.card_mut(card_id).last_review_time = Some(timing.now - 250);
    col.set_rwkv_review_queue_scores(deck, vec![(card_id, 0.20)]);
    assert!(col.queue_as_ids(deck).is_empty());
    assert_eq!(col.counts(deck), [0, 0, 0]);
    col.card_mut(card_id).last_review_time = Some(timing.now - 350);
    col.set_rwkv_review_queue_scores(deck, vec![(card_id, 0.20)]);
    assert_eq!(col.queue_as_ids(deck), vec![card_id]);
    assert_eq!(col.counts(deck), [0, 0, 1]);
}

#[test]
fn rwkv_instant_without_scores_gathers_no_reviews_and_reports_pending() {
    let mut col = TestCollection::new();
    col.col.fsrs = true;
    let deck = col.get_or_create_normal_deck("Default");
    col.set_deck_rwkv_instant_order(deck, ReviewCardOrder::RetrievabilityAscending);
    let timing = col.timing_today();
    let older_due_high_r = col.add_memory_state_card(deck, CardQueue::Review, CardType::Review, timing.days_elapsed as i32 - 10, 10 * 86_400, 1000.0);
    let later_due_low_r = col.add_memory_state_card(deck, CardQueue::Review, CardType::Review, timing.days_elapsed as i32, 86_400, 0.1);
    col.set_rwkv_review_queue_scores(deck, Vec::new());
    assert_eq!(col.queue_as_ids(deck), Vec::<i64>::new());
    assert_eq!(col.counts(deck), [0, 0, 0]);
    assert!(col.rwkv_scores_pending(deck));
    col.set_rwkv_review_queue_scores(deck, vec![(older_due_high_r, 0.95), (later_due_low_r, 0.10)]);
    assert_eq!(col.queue_as_ids(deck), vec![later_due_low_r]);
    assert!(!col.rwkv_scores_pending(deck));
}

#[test]
fn rwkv_score_update_rebuilds_review_queue_with_new_scores() {
    let mut col = TestCollection::new();
    let deck = col.get_or_create_normal_deck("Default");
    col.set_deck_rwkv_instant_order(deck, ReviewCardOrder::RetrievabilityAscending);
    let timing = col.timing_today();
    let first = col.add_memory_state_card(deck, CardQueue::Review, CardType::Review, timing.days_elapsed as i32, 2 * 86_400, 30.0);
    let second = col.add_memory_state_card(deck, CardQueue::Review, CardType::Review, timing.days_elapsed as i32, 2 * 86_400, 30.0);
    let future = col.add_memory_state_card(deck, CardQueue::Review, CardType::Review, timing.days_elapsed as i32 + 7, 2 * 86_400, 30.0);
    col.set_rwkv_review_queue_scores(deck, vec![(first, 0.10), (second, 0.20)]);
    assert_eq!(col.queue_as_ids(deck), vec![first, second]);
    col.set_rwkv_review_queue_scores(deck, vec![(first, 0.90), (second, 0.05), (future, 0.01)]);
    assert_eq!(col.queue_as_ids(deck), vec![future, second, first]);
    assert_eq!(col.counts(deck), [0, 0, 3]);
}

#[test]
fn rwkv_score_update_rebuilds_displayed_review_queue_head() {
    let mut col = TestCollection::new();
    let deck = col.get_or_create_normal_deck("Default");
    col.set_deck_rwkv_instant_order(deck, ReviewCardOrder::RetrievabilityAscending);
    let timing = col.timing_today();
    let first = col.add_memory_state_card(deck, CardQueue::Review, CardType::Review, timing.days_elapsed as i32, 2 * 86_400, 30.0);
    let second = col.add_memory_state_card(deck, CardQueue::Review, CardType::Review, timing.days_elapsed as i32, 2 * 86_400, 30.0);
    col.set_rwkv_review_queue_scores(deck, vec![(first, 0.10), (second, 0.20)]);
    assert_eq!(col.queue_as_ids(deck)[..1].to_vec(), vec![first]);
    col.set_rwkv_review_queue_scores(deck, vec![(first, 0.90), (second, 0.05)]);
    assert_eq!(col.queue_as_ids(deck), vec![second, first]);
}

#[test]
fn rwkv_descending_retrievability_gathers_new_cards() {
    let mut col = TestCollection::new();
    let deck = col.get_or_create_normal_deck("Default");
    col.set_deck_gather_order(deck, NewCardGatherPriority::DescendingRetrievability);
    let first = col.add_new_card(deck);
    let second = col.add_new_card(deck);
    let unscored = col.add_new_card(deck);
    col.set_rwkv_review_queue_scores(deck, vec![(first, 0.10), (second, 0.80)]);
    assert_eq!(col.queue_as_ids(deck), vec![second, first, unscored]);
}

#[test]
fn retrievability_gather_outside_rwkv_instant_ignores_instant_scores() {
    let mut col = TestCollection::new();
    let deck = col.get_or_create_normal_deck("Default");
    col.set_deck_gather_order(deck, NewCardGatherPriority::DescendingRetrievability);
    // the same preset, but RWKV-Curve schedules
    let conf = col.config_of(deck);
    conf.rwkv_review_enabled = true;
    conf.rwkv_review_instant_order_enabled = false;
    let first = col.add_new_card(deck);
    let second = col.add_new_card(deck);
    let unscored = col.add_new_card(deck);
    col.set_rwkv_review_queue_scores(deck, vec![(first, 0.10), (second, 0.80)]);
    // RWKV-Instant's scores would put `second` first; RWKV-Curve gathers by
    // deck, in position order
    assert_eq!(col.queue_as_ids(deck), vec![first, second, unscored]);
}

#[test]
fn rwkv_retrievability_gather_reuses_parent_scope_scores() {
    let mut col = TestCollection::new();
    let parent = col.get_or_create_normal_deck("Parent");
    let child = col.get_or_create_normal_deck("Parent::Child");
    col.set_deck_gather_order(child, NewCardGatherPriority::DescendingRetrievability);
    let first = col.add_new_card(child);
    let second = col.add_new_card(child);
    col.set_rwkv_review_queue_scores(parent, vec![(first, 0.10), (second, 0.80)]);
    assert_eq!(col.queue_as_ids(child), vec![second, first]);
}

#[test]
fn rwkv_queue_rejects_scores_from_an_unrelated_scope() {
    let mut col = TestCollection::new();
    let study = col.get_or_create_normal_deck("Study");
    let prepared = col.get_or_create_normal_deck("Prepared");
    col.set_deck_rwkv_instant_order(study, ReviewCardOrder::RetrievabilityAscending);
    let timing = col.timing_today();
    let future_review =
        col.add_memory_state_card(study, CardQueue::Review, CardType::Review, timing.days_elapsed as i32 + 7, 2 * 86_400, 30.0);
    col.set_rwkv_review_queue_scores(prepared, vec![(future_review, 0.10)]);
    assert!(col.queue_as_ids(study).is_empty());
}

#[test]
fn rwkv_retrievability_gather_is_not_overridden_by_new_card_sort_order() {
    let mut col = TestCollection::new();
    let deck = col.get_or_create_normal_deck("Default");
    col.set_deck_gather_order(deck, NewCardGatherPriority::DescendingRetrievability);
    let siblings = col.add_new_note(deck, 2);
    let lower_template = siblings[0];
    let higher_template = siblings[1];
    col.set_rwkv_review_queue_scores(deck, vec![(lower_template, 0.61), (higher_template, 0.83)]);
    assert_eq!(col.queue_as_ids(deck), vec![higher_template, lower_template]);
}

#[test]
fn rwkv_descending_retrievability_gathers_new_cards_across_child_decks() {
    let mut col = TestCollection::new();
    let parent = col.get_or_create_normal_deck("Parent");
    let child1 = col.get_or_create_normal_deck("Parent::Child 1");
    let child2 = col.get_or_create_normal_deck("Parent::Child 2");
    let child3 = col.get_or_create_normal_deck("Parent::Child 3");
    col.set_deck_gather_order(parent, NewCardGatherPriority::DescendingRetrievability);
    let card32 = col.add_new_card(child1);
    let card33 = col.add_new_card(child2);
    let card35 = col.add_new_card(child3);
    col.set_rwkv_review_queue_scores(parent, vec![(card32, 0.32), (card33, 0.33), (card35, 0.35)]);
    assert_eq!(col.queue_as_ids(parent), vec![card35, card33, card32]);
}

#[test]
fn rwkv_ascending_retrievability_gathers_new_cards() {
    let mut col = TestCollection::new();
    let deck = col.get_or_create_normal_deck("Default");
    col.set_deck_gather_order(deck, NewCardGatherPriority::AscendingRetrievability);
    let first = col.add_new_card(deck);
    let second = col.add_new_card(deck);
    let unscored = col.add_new_card(deck);
    col.set_rwkv_review_queue_scores(deck, vec![(first, 0.10), (second, 0.80)]);
    assert_eq!(col.queue_as_ids(deck), vec![first, second, unscored]);
}

#[test]
fn random_reviews_resample_full_pool_before_parent_limit() {
    for rwkv in [false, true] {
        let mut col = TestCollection::new();
        let parent = col.get_or_create_normal_deck("Parent");
        let children = [col.get_or_create_normal_deck("Parent::A"), col.get_or_create_normal_deck("Parent::B")];
        if rwkv {
            col.set_deck_rwkv_instant_order(parent, ReviewCardOrder::Random);
        } else {
            col.config_of(parent).review_order = ReviewCardOrder::Random;
        }
        col.set_deck_review_limit(parent, 1);
        let today = col.timing_today().days_elapsed as i32;
        let mut eligible = std::collections::HashSet::new();
        let mut scores = Vec::new();
        for child in children {
            for index in 0..4 {
                let id = col.add_memory_state_card(child, CardQueue::Review, CardType::Review, today, 2 * 86_400, 30.0);
                if !rwkv || index != 0 {
                    eligible.insert(id);
                }
                scores.push((id, if index == 0 { 0.99 } else { 0.20 }));
            }
        }
        if rwkv {
            col.set_rwkv_review_queue_scores(parent, scores);
        }
        let mut seen = std::collections::HashSet::new();
        // each build draws a new salt, as the collection does
        for salt in 0..256u32 {
            col.col.random_salt = salt.wrapping_mul(2_654_435_761);
            let ids = col.queue_as_ids(parent);
            assert_eq!(ids.len(), 1);
            assert!(eligible.contains(&ids[0]));
            seen.insert(ids[0]);
        }
        assert_eq!(seen, eligible, "RWKV enabled: {rwkv}");
    }
}

#[test]
fn rwkv_minimum_child_reviews_count_toward_parent_target() {
    let mut col = TestCollection::new();
    let parent = col.get_or_create_normal_deck("parent");
    let child = col.get_or_create_normal_deck("parent::child");
    col.set_deck_rwkv_review_order_with_desired_retention(parent, ReviewCardOrder::RetrievabilityAscending, 0.75);
    col.set_deck_rwkv_review_order_with_desired_retention(child, ReviewCardOrder::RetrievabilityAscending, 0.75);
    col.set_deck_rwkv_minimum_reviews(parent, 3);
    col.set_deck_rwkv_minimum_reviews(child, 2);
    // one review done today in the child, which the collection counts in
    // the child and in each deck above it
    for deck in [child, parent] {
        col.col.decks.iter_mut().find(|d| d.id == deck).unwrap().review_studied_today = 1;
    }

    let timing = col.timing_today();
    let due = timing.days_elapsed as i32 + 7;
    let child_first = col.add_memory_state_card(child, CardQueue::Review, CardType::Review, due, 2 * 86_400, 30.0);
    let parent_second = col.add_memory_state_card(parent, CardQueue::Review, CardType::Review, due, 2 * 86_400, 30.0);
    let child_last = col.add_memory_state_card(child, CardQueue::Review, CardType::Review, due, 2 * 86_400, 30.0);
    col.set_rwkv_review_queue_score_entries(
        parent,
        vec![
            (child_first, entry(0.80, None, Some(0.75))),
            (parent_second, entry(0.90, None, Some(0.75))),
            (child_last, entry(0.95, None, Some(0.75))),
        ],
    );
    assert_eq!(col.queue_as_ids(parent), vec![child_first, parent_second]);
}

#[test]
fn preserved_current_card_applies_sibling_burying_first() {
    let mut col = TestCollection::new();
    let deck = col.get_or_create_normal_deck("Default");
    col.set_deck_rwkv_instant_order(deck, ReviewCardOrder::RetrievabilityAscending);
    col.config_of(deck).bury_reviews = true;
    let today = col.timing_today().days_elapsed as i32;
    let siblings = col.add_new_note(deck, 2);
    for &id in &siblings {
        let card = col.card_mut(id);
        card.ctype = CardType::Review;
        card.queue = CardQueue::Review;
        card.due = today;
        card.interval = 1;
    }
    let current = siblings[0];
    let sibling = siblings[1];
    let unrelated = col.add_new_card(deck);
    {
        let card = col.card_mut(unrelated);
        card.ctype = CardType::Review;
        card.queue = CardQueue::Review;
        card.due = today;
        card.interval = 1;
    }
    col.set_rwkv_review_queue_scores(deck, vec![(current, 0.80), (sibling, 0.10), (unrelated, 0.20)]);
    let card = *col.col.cards.iter().find(|c| c.id == current).unwrap();
    let queues = col.col.build_queues_with_current_card(deck, col.timing_today(), Some(&card)).unwrap();
    // the current card buries its sibling before the gathering sees it
    assert_eq!(queues.counts_array()[2], 2);
    let mut ids = queues.card_ids();
    ids.sort();
    let mut expected = vec![current, unrelated];
    expected.sort();
    assert_eq!(ids, expected);
}

#[test]
fn preserved_current_new_card_reserves_review_capacity() {
    let mut col = TestCollection::new();
    let deck = col.get_or_create_normal_deck("Default");
    col.set_deck_rwkv_instant_order(deck, ReviewCardOrder::RetrievabilityAscending);
    col.config_of(deck).new_mix = anki_scheduler::queue::model::ReviewMix::BeforeReviews;
    col.config_of(deck).new_per_day = 1;
    col.config_of(deck).reviews_per_day = 2;
    let current = col.add_new_card(deck);
    let timing = col.timing_today();
    let first_review =
        col.add_memory_state_card(deck, CardQueue::Review, CardType::Review, timing.days_elapsed as i32 + 7, 2 * 86_400, 30.0);
    let second_review =
        col.add_memory_state_card(deck, CardQueue::Review, CardType::Review, timing.days_elapsed as i32 + 7, 2 * 86_400, 30.0);
    col.set_rwkv_review_queue_scores(deck, vec![(first_review, 0.10), (second_review, 0.20)]);
    let card = *col.col.cards.iter().find(|c| c.id == current).unwrap();
    let queues = col.col.build_queues_with_current_card(deck, timing, Some(&card)).unwrap();
    assert_eq!(queues.counts_array(), [1, 0, 1]);
    assert_eq!(queues.card_ids(), vec![current, first_review]);
}

#[test]
fn rwkv_minimum_counts_reviews_moved_to_filtered_decks() {
    let mut col = TestCollection::new();
    let source = col.get_or_create_normal_deck("Source");
    col.set_deck_rwkv_review_order_with_desired_retention(source, ReviewCardOrder::RetrievabilityAscending, 0.75);
    col.set_deck_rwkv_minimum_reviews(source, 1);
    let filtered = col.col.decks.len() as i64 + 1;
    col.col.decks.push(Deck {
        id: filtered,
        name: anki_scheduler::queue::model::native_deck_name(b"Filtered"),
        config_id: None,
        new_studied_today: 0,
        review_studied_today: 0,
        desired_retention: None,
    });
    let timing = col.timing_today();
    let moved = col.add_memory_state_card(source, CardQueue::Review, CardType::Review, timing.days_elapsed as i32 + 7, 2 * 86_400, 30.0);
    let moved_card = col.card_mut(moved);
    moved_card.original_deck_id = moved_card.deck_id;
    moved_card.original_due = moved_card.due;
    moved_card.deck_id = filtered;
    moved_card.due = -100_000;
    let pull_candidate =
        col.add_memory_state_card(source, CardQueue::Review, CardType::Review, timing.days_elapsed as i32 + 7, 2 * 86_400, 30.0);
    col.set_rwkv_review_queue_score_entries(source, vec![(pull_candidate, entry(0.90, None, Some(0.75)))]);
    assert!(col.queue_as_ids(source).is_empty());
}
