use anki_scheduler::card::Card;
use anki_scheduler::card::CardQueue;
use anki_scheduler::card::CardType;
use anki_scheduler::card::MemoryStateBits;
use anki_scheduler::card::SchedTimingToday;
use anki_scheduler::collection::Collection;
use anki_scheduler::queue::model::Deck;
use anki_scheduler::queue::model::DeckConfig;
use anki_scheduler::queue::model::ReviewCardOrder;

const NOW: i64 = 1_700_000_000;
const DAYS_ELAPSED: u32 = 1_000;
const DAY: i64 = 86_400;

fn ppm(value: f32) -> u32 {
    (value as f64 * 1_000_000.0).round() as u32
}

/// FSRS-6's forgetting curve with its default decay: the chance of recall
/// `elapsed_secs` after the last review of a card of this stability.
fn fsrs_retrievability(elapsed_secs: i64, stability: f32) -> f32 {
    let decay: f64 = 0.1542;
    let factor = 0.9f64.powf(-1.0 / decay) - 1.0;
    let t = elapsed_secs as f64 / DAY as f64;
    (1.0 + factor * t / stability as f64).powf(-decay) as f32
}

struct TestCollection {
    col: Collection,
    next_id: i64,
    next_note: i64,
}

impl TestCollection {
    fn new(fsrs: bool) -> Self {
        TestCollection {
            col: Collection {
                cards: Vec::new(),
                decks: Vec::new(),
                configs: Vec::new(),
                fsrs,
                learn_ahead_secs: 1200,
                rwkv_review_queue_scores: None,
                exact_order_keys: Vec::new(),
                rwkv_order_keys: Vec::new(),
                random_salt: 0,
                apply_all_parent_limits: false,
            },
            next_id: 1_600_000_000_000,
            next_note: 0,
        }
    }

    fn timing(&self) -> SchedTimingToday {
        SchedTimingToday { now: NOW, days_elapsed: DAYS_ELAPSED, next_day_at: NOW + 10 * 3600 }
    }

    /// A deck with a preset of its own in this review order.
    fn deck(&mut self, name: &str, order: ReviewCardOrder, rwkv_curve: bool) -> i64 {
        let native = anki_scheduler::queue::model::native_deck_name(name.as_bytes());
        let id = self.col.decks.len() as i64 + 1;
        let config_id = self.col.configs.len() as i64 + 1;
        let mut conf = DeckConfig::new(config_id);
        conf.review_order = order;
        conf.rwkv_review_enabled = rwkv_curve;
        conf.desired_retention = ppm(0.9);
        self.col.configs.push(conf);
        self.col.decks.push(Deck {
            id,
            name: native,
            config_id: Some(config_id),
            new_studied_today: 0,
            review_studied_today: 0,
            desired_retention: None,
        });
        id
    }

    fn add_memory_state_card(
        &mut self,
        deck_id: i64,
        queue: CardQueue,
        ctype: CardType,
        due: i32,
        elapsed_secs: i64,
        stability: f32,
    ) -> i64 {
        self.next_id += 1;
        self.next_note += 1;
        let id = self.next_id;
        let mut card = Card::new(self.next_note, 0, deck_id, due);
        card.id = id;
        card.mtime = NOW;
        card.ctype = ctype;
        card.queue = queue;
        card.interval = 1;
        card.memory_state = Some(MemoryStateBits {
            stability: stability.to_bits(),
            stability_internal: stability.to_bits(),
            stability_fast: None,
            difficulty: 5.0f32.to_bits(),
        });
        card.desired_retention = Some(ppm(0.9));
        card.last_review_time = Some(NOW - elapsed_secs);
        self.col.cards.push(card);
        // FSRS's retrievability order ranks by the card's retrievability
        self.col.exact_order_keys.push((id, fsrs_retrievability(elapsed_secs, stability).to_bits()));
        id
    }

    /// Review cards of an RWKV-Curve deck, each (interval, days since the
    /// last review, FSRS stability), due today.
    fn rwkv_curve_cards(&mut self, deck_id: i64, cards: &[(u32, i64, f32)]) -> Vec<i64> {
        let mut ids = Vec::new();
        for &(interval, elapsed_days, stability) in cards {
            let id = self.add_memory_state_card(
                deck_id,
                CardQueue::Review,
                CardType::Review,
                DAYS_ELAPSED as i32,
                elapsed_days * DAY,
                stability,
            );
            let card = self.col.cards.iter_mut().find(|c| c.id == id).unwrap();
            card.interval = interval;
            card.desired_retention = None;
            ids.push(id);
        }
        ids
    }

    /// RWKV-Curve's sort key of a card: its retrievability (the score where
    /// it has one, else 0.9^(elapsed / interval)), over the target retention
    /// for relative overdueness, negated for the descending order.
    fn set_rwkv_curve_keys(&mut self, order: ReviewCardOrder, cards: &[(u32, i64, f32)], ids: &[i64], scores: &[(usize, f32)]) {
        for (index, &(interval, elapsed_days, _)) in cards.iter().enumerate() {
            let r = match scores.iter().find(|(i, _)| *i == index) {
                Some((_, score)) => *score,
                None => 0.9f64.powf(elapsed_days as f64 / interval as f64) as f32,
            };
            let key = match order {
                ReviewCardOrder::RetrievabilityDescending => -r,
                ReviewCardOrder::RelativeOverdueness => r / 0.9,
                _ => r,
            };
            self.col.rwkv_order_keys.push((ids[index], key.to_bits()));
        }
    }

    fn card_mut(&mut self, card_id: i64) -> &mut Card {
        self.col.cards.iter_mut().find(|c| c.id == card_id).unwrap()
    }

    fn queue_as_ids(&self, deck_id: i64) -> Vec<i64> {
        self.col.build_queues(deck_id, self.timing()).unwrap().card_ids()
    }

    fn counts(&self, deck_id: i64) -> [usize; 3] {
        self.col.build_queues(deck_id, self.timing()).unwrap().counts_array()
    }
}

#[test]
fn fsrs_retrievability_order_interleaves_due_non_new_queues() {
    let mut col = TestCollection::new(true);
    let deck = col.deck("Default", ReviewCardOrder::RetrievabilityAscending, false);
    let today = DAYS_ELAPSED as i32;
    let review = col.add_memory_state_card(deck, CardQueue::Review, CardType::Review, today, 2 * DAY, 30.0);
    let day_learning = col.add_memory_state_card(deck, CardQueue::DayLearn, CardType::Relearn, today, 4 * DAY, 30.0);
    let intraday_learning =
        col.add_memory_state_card(deck, CardQueue::Learn, CardType::Relearn, (NOW - 1) as i32, 6 * DAY, 30.0);
    assert_eq!(col.queue_as_ids(deck), vec![intraday_learning, day_learning, review]);
    assert_eq!(col.counts(deck), [0, 2, 1]);
}

#[test]
fn fsrs_descending_retrievability_order_interleaves_due_non_new_queues() {
    let mut col = TestCollection::new(true);
    let deck = col.deck("Default", ReviewCardOrder::RetrievabilityDescending, false);
    let today = DAYS_ELAPSED as i32;
    let review = col.add_memory_state_card(deck, CardQueue::Review, CardType::Review, today, 2 * DAY, 30.0);
    let day_learning = col.add_memory_state_card(deck, CardQueue::DayLearn, CardType::Relearn, today, 4 * DAY, 30.0);
    let intraday_learning =
        col.add_memory_state_card(deck, CardQueue::Learn, CardType::Relearn, (NOW - 1) as i32, 6 * DAY, 30.0);
    // the due intraday learning card comes first, by its due time; the
    // retrievability order ranks the other two
    assert_eq!(col.queue_as_ids(deck), vec![intraday_learning, review, day_learning]);
    assert_eq!(col.counts(deck), [0, 2, 1]);
}

#[test]
fn fsrs_retrievability_order_keeps_learn_ahead() {
    for order in [
        ReviewCardOrder::RetrievabilityAscending,
        ReviewCardOrder::RetrievabilityDescending,
        ReviewCardOrder::RelativeOverdueness,
    ] {
        let mut col = TestCollection::new(true);
        let deck = col.deck("Default", order, false);
        let review =
            col.add_memory_state_card(deck, CardQueue::Review, CardType::Review, DAYS_ELAPSED as i32, 2 * DAY, 30.0);
        let relearning =
            col.add_memory_state_card(deck, CardQueue::Learn, CardType::Relearn, (NOW + 60) as i32, 6 * DAY, 30.0);
        assert_eq!(col.queue_as_ids(deck), vec![review, relearning], "{order:?}");
        assert_eq!(col.counts(deck), [0, 1, 1], "{order:?}");
    }
}

#[test]
fn fsrs_retrievability_order_shows_due_intraday_learning_by_due_time() {
    let mut col = TestCollection::new(true);
    let deck = col.deck("Default", ReviewCardOrder::RetrievabilityAscending, false);
    let review = col.add_memory_state_card(deck, CardQueue::Review, CardType::Review, DAYS_ELAPSED as i32, 40 * DAY, 1.0);
    // due first, and the most likely to be recalled
    let due_earlier = col.add_memory_state_card(deck, CardQueue::Learn, CardType::Relearn, (NOW - 120) as i32, 600, 100.0);
    let due_later = col.add_memory_state_card(deck, CardQueue::Learn, CardType::Relearn, (NOW - 60) as i32, 20 * DAY, 1.0);
    for card_id in [due_earlier, due_later] {
        col.card_mut(card_id).reps = 1;
    }
    assert_eq!(col.queue_as_ids(deck), vec![due_earlier, due_later, review]);
    assert_eq!(col.counts(deck), [0, 2, 1]);
}

#[test]
fn rwkv_curve_retrievability_order_keeps_learn_ahead() {
    let mut col = TestCollection::new(true);
    let order = ReviewCardOrder::RetrievabilityDescending;
    let deck = col.deck("RWKV", order, true);
    let cards = [(10, 10, 10.0)];
    let ids = col.rwkv_curve_cards(deck, &cards);
    col.set_rwkv_curve_keys(order, &cards, &ids, &[]);
    let relearning = col.add_memory_state_card(deck, CardQueue::Learn, CardType::Relearn, (NOW + 60) as i32, 6 * DAY, 30.0);
    assert_eq!(col.queue_as_ids(deck), vec![ids[0], relearning]);
    assert_eq!(col.counts(deck), [0, 1, 1]);
}

#[test]
fn rwkv_curve_relative_overdueness_uses_rwkv_not_fsrs() {
    let mut col = TestCollection::new(true);
    let order = ReviewCardOrder::RelativeOverdueness;
    let deck = col.deck("RWKV", order, true);
    let cards = [
        // unscored, twice its interval: 0.9^(2 - 1) = 0.9
        (10, 20, 100.0),
        // scored 0.5: 0.5 / 0.9 = 0.56
        (10, 11, 100.0),
        // unscored, due exactly: 0.9^0 = 1; its tiny FSRS stability would
        // put it first under FSRS
        (10, 10, 0.01),
    ];
    let ids = col.rwkv_curve_cards(deck, &cards);
    col.set_rwkv_curve_keys(order, &cards, &ids, &[(1, 0.5)]);
    assert_eq!(col.queue_as_ids(deck), vec![ids[1], ids[0], ids[2]]);
}

#[test]
fn rwkv_curve_relative_overdueness_without_scores_uses_the_rwkv_interval() {
    let mut col = TestCollection::new(true);
    let order = ReviewCardOrder::RelativeOverdueness;
    let deck = col.deck("RWKV", order, true);
    let cards = [(20, 30, 1.0), (4, 12, 1.0), (1, 1, 1.0), (10, 25, 1.0)];
    let ids = col.rwkv_curve_cards(deck, &cards);
    col.set_rwkv_curve_keys(order, &cards, &ids, &[]);
    // elapsed / interval: 1.5, 3, 1, 2.5
    assert_eq!(col.queue_as_ids(deck), vec![ids[1], ids[3], ids[0], ids[2]]);
}

#[test]
fn rwkv_curve_retrievability_orders_use_rwkv() {
    // (interval, elapsed): unscored 0.9^2 = 0.81; scored 0.7; unscored
    // 0.9^1 = 0.9 with an FSRS stability that FSRS would rank lowest
    let cards = [(10, 20, 100.0), (10, 5, 100.0), (10, 10, 0.01)];
    for (order, expected) in [
        (ReviewCardOrder::RetrievabilityAscending, [1, 0, 2]),
        (ReviewCardOrder::RetrievabilityDescending, [2, 0, 1]),
    ] {
        let mut col = TestCollection::new(true);
        let deck = col.deck("RWKV", order, true);
        let ids = col.rwkv_curve_cards(deck, &cards);
        col.set_rwkv_curve_keys(order, &cards, &ids, &[(1, 0.7)]);
        assert_eq!(col.queue_as_ids(deck), expected.map(|index| ids[index]).to_vec(), "{order:?}");
    }
}
