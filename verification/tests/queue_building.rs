use anki_scheduler::card::Card;
use anki_scheduler::card::CardQueue;
use anki_scheduler::card::CardType;
use anki_scheduler::card::SchedTimingToday;
use anki_scheduler::collection::Collection;
use anki_scheduler::queue::assemble::QueueBuildError;
use anki_scheduler::queue::gathering::PinCardError;
use anki_scheduler::queue::model::native_deck_name;
use anki_scheduler::queue::model::Deck;
use anki_scheduler::queue::model::DeckConfig;
use anki_scheduler::queue::model::NewCardGatherPriority;
use anki_scheduler::queue::model::ReviewCardOrder;
use anki_scheduler::queue::model::ReviewMix;

const NOW: i64 = 1_700_000_000;

/// A collection made the way the scheduler's own tests make theirs: decks
/// by name, each with a preset of its own, cards added note by note.
struct TestCollection {
    col: Collection,
    days_elapsed: u32,
    next_note: i64,
    next_card: i64,
    next_position: i32,
}

impl TestCollection {
    fn new() -> Self {
        let mut t = TestCollection {
            col: Collection {
                cards: Vec::new(),
                decks: Vec::new(),
                configs: Vec::new(),
                fsrs: false,
                learn_ahead_secs: 1200,
                rwkv_review_queue_scores: None,
                exact_order_keys: Vec::new(),
                rwkv_order_keys: Vec::new(),
                random_salt: 0,
                apply_all_parent_limits: false,
            },
            days_elapsed: 0,
            next_note: 1_000,
            next_card: 1_600_000_000_000,
            next_position: 1,
        };
        t.deck("Default");
        t
    }

    fn timing(&self) -> SchedTimingToday {
        SchedTimingToday { now: NOW, days_elapsed: self.days_elapsed, next_day_at: NOW + 10 * 3600 }
    }

    fn deck(&mut self, name: &str) -> i64 {
        let native = native_deck_name(name.as_bytes());
        if let Some(deck) = self.col.decks.iter().find(|d| d.name == native) {
            return deck.id;
        }
        let id = self.col.decks.len() as i64 + 1;
        let config_id = self.col.configs.len() as i64 + 1;
        self.col.configs.push(DeckConfig::new(config_id));
        self.col.decks.push(Deck {
            id,
            name: native,
            config_id: Some(config_id),
            new_studied_today: 0,
            review_studied_today: 0,
            desired_retention: None,
        });
        id
    }

    fn config(&mut self, deck_id: i64) -> &mut DeckConfig {
        let config_id = self.col.decks.iter().find(|d| d.id == deck_id).unwrap().config_id.unwrap();
        self.col.configs.iter_mut().find(|c| c.id == config_id).unwrap()
    }

    /// Gives the deck a preset of its own, changed by `change`.
    fn new_config(&mut self, deck_id: i64, change: impl FnOnce(&mut DeckConfig)) {
        let config_id = self.col.configs.len() as i64 + 1;
        let mut config = DeckConfig::new(config_id);
        change(&mut config);
        self.col.configs.push(config);
        self.col.decks.iter_mut().find(|d| d.id == deck_id).unwrap().config_id = Some(config_id);
    }

    /// A note with this many new cards (its siblings), next in the new
    /// queue.
    fn add_note(&mut self, deck_id: i64, siblings: u16) -> Vec<i64> {
        self.next_note += 1;
        let position = self.next_position;
        self.next_position += 1;
        let mut ids = Vec::new();
        for template in 0..siblings {
            self.next_card += 1;
            let mut card = Card::new(self.next_note, template, deck_id, position);
            card.id = self.next_card;
            card.mtime = NOW;
            self.col.cards.push(card);
            ids.push(card.id);
        }
        ids
    }

    fn card_mut(&mut self, card_id: i64) -> &mut Card {
        self.col.cards.iter_mut().find(|c| c.id == card_id).unwrap()
    }

    /// Makes the card a review card due `due` with this interval.
    fn make_review(&mut self, card_id: i64, due: i32, interval: u32) {
        let card = self.card_mut(card_id);
        card.ctype = CardType::Review;
        card.queue = CardQueue::Review;
        card.due = due;
        card.interval = interval;
    }

    fn queue_ids(&self, deck_id: i64) -> Vec<i64> {
        self.col.build_queues(deck_id, self.timing()).unwrap().card_ids()
    }

    fn queue_as_deck_and_template(&self, deck_id: i64) -> Vec<(i64, u16)> {
        self.queue_ids(deck_id)
            .into_iter()
            .map(|id| {
                let card = self.col.cards.iter().find(|c| c.id == id).unwrap();
                (card.deck_id, card.template_idx)
            })
            .collect()
    }

    fn queue_as_due_and_ivl(&self, deck_id: i64) -> Vec<(i32, u32)> {
        self.queue_ids(deck_id)
            .into_iter()
            .map(|id| {
                let card = self.col.cards.iter().find(|c| c.id == id).unwrap();
                (card.due, card.interval)
            })
            .collect()
    }
}

#[test]
fn should_build_empty_queue_if_limit_is_reached() {
    let mut t = TestCollection::new();
    let card = t.add_note(1, 1)[0];
    t.make_review(card, 0, 1);
    t.config(1).reviews_per_day = 0;
    assert_eq!(t.queue_as_deck_and_template(1), vec![]);
}

#[test]
fn new_queue_building() {
    let mut t = TestCollection::new();

    // parent
    // ┣━━child━━grandchild
    // ┗━━child_2
    let parent = t.deck("parent");
    let child = t.deck("parent::child");
    let child_2 = t.deck("parent::child_2");
    let grandchild = t.deck("parent::child::grandchild");

    // add 2 new cards to each deck
    for deck in [parent, child, child_2, grandchild] {
        t.add_note(deck, 2);
    }

    // set child's new limit to 3, which should affect grandchild
    t.new_config(child, |c| c.new_per_day = 3);

    // depth-first tree order
    t.new_config(parent, |c| c.new_card_gather_priority = NewCardGatherPriority::Deck);
    let cards = vec![(parent, 0), (parent, 1), (child, 0), (child, 1), (grandchild, 0), (child_2, 0), (child_2, 1)];
    assert_eq!(t.queue_as_deck_and_template(parent), cards);

    // insertion order
    t.new_config(parent, |c| c.new_card_gather_priority = NewCardGatherPriority::LowestPosition);
    let cards = vec![(parent, 0), (parent, 1), (child, 0), (child, 1), (child_2, 0), (child_2, 1), (grandchild, 0)];
    assert_eq!(t.queue_as_deck_and_template(parent), cards);

    // inverted insertion order, but sibling order is preserved
    t.new_config(parent, |c| c.new_card_gather_priority = NewCardGatherPriority::HighestPosition);
    let cards = vec![(grandchild, 0), (grandchild, 1), (child_2, 0), (child_2, 1), (child, 0), (parent, 0), (parent, 1)];
    assert_eq!(t.queue_as_deck_and_template(parent), cards);
}

#[test]
fn review_queue_building() {
    let mut t = TestCollection::new();
    let deck = t.deck("Default");

    // relative overdueness
    let expected_queue = vec![
        (-150, 1),
        (-100, 1),
        (-50, 1),
        (-150, 5),
        (-100, 5),
        (-50, 5),
        (-150, 20),
        (-150, 20),
        (-100, 20),
        (-50, 20),
        (-150, 100),
        (-100, 100),
        (-50, 100),
        (0, 1),
        (0, 5),
        (0, 20),
        (0, 100),
    ];
    for &(due, interval) in expected_queue.iter() {
        let card = t.add_note(deck, 1)[0];
        t.make_review(card, due, interval);
    }
    t.new_config(deck, |c| c.review_order = ReviewCardOrder::RelativeOverdueness);
    assert_eq!(t.queue_as_due_and_ivl(deck), expected_queue);
}

#[test]
fn new_cards_never_ignore_review_limit() {
    let mut t = TestCollection::new();
    t.config(1).reviews_per_day = 0;
    t.add_note(1, 1);
    // the review limit caps the new card
    assert_eq!(t.queue_ids(1).len(), 0);
}

#[test]
fn reviews_dont_affect_new_limit_before_review_limit_is_reached() {
    let mut t = TestCollection::new();
    t.config(1).new_per_day = 1;
    let siblings = t.add_note(1, 2);
    t.make_review(siblings[0], 0, 1);
    assert_eq!(t.queue_ids(1).len(), 2);
}

#[test]
fn missing_deck_gives_no_queue() {
    let t = TestCollection::new();
    assert_eq!(t.col.build_queues(42, t.timing()).unwrap_err(), QueueBuildError::DeckNotFound);
}

#[test]
fn preserved_current_card_outside_selected_deck_is_ignored() {
    let mut t = TestCollection::new();
    let selected = t.deck("Selected");
    let other = t.deck("Other");
    let selected_card = t.add_note(selected, 1)[0];
    let other_card = t.add_note(other, 1)[0];
    let current = *t.col.cards.iter().find(|c| c.id == other_card).unwrap();

    let queues = t.col.build_queues_with_current_card(selected, t.timing(), Some(&current)).unwrap();
    assert_eq!(queues.counts_array()[0], 1);
    assert_eq!(queues.card_ids(), vec![selected_card]);
}

#[test]
fn current_card_counts_once_and_takes_a_limit_share() {
    let mut t = TestCollection::new();
    t.config(1).new_per_day = 1;
    t.config(1).new_mix = ReviewMix::BeforeReviews;
    let current = t.add_note(1, 1)[0];
    let other = t.add_note(1, 1)[0];
    let card = *t.col.cards.iter().find(|c| c.id == current).unwrap();

    // the current card takes the one new card of the day, and is not
    // gathered a second time
    let queues = t.col.build_queues_with_current_card(1, t.timing(), Some(&card)).unwrap();
    assert_eq!(queues.card_ids(), vec![current]);
    // without it, the first card by position is the one
    assert_eq!(t.queue_ids(1), vec![current]);
    assert!(!t.queue_ids(1).contains(&other));
}

#[test]
fn a_suspended_current_card_is_refused() {
    let mut t = TestCollection::new();
    let id = t.add_note(1, 1)[0];
    t.card_mut(id).queue = CardQueue::Suspended;
    let card = *t.col.cards.iter().find(|c| c.id == id).unwrap();
    assert_eq!(
        t.col.build_queues_with_current_card(1, t.timing(), Some(&card)).unwrap_err(),
        QueueBuildError::CurrentCard(PinCardError::NotEligible)
    );
}

#[test]
fn current_review_card_buries_its_gathered_sibling() {
    let mut t = TestCollection::new();
    t.config(1).bury_reviews = true;
    let siblings = t.add_note(1, 2);
    t.make_review(siblings[0], 0, 1);
    t.make_review(siblings[1], 0, 1);
    let card = *t.col.cards.iter().find(|c| c.id == siblings[1]).unwrap();
    let queues = t.col.build_queues_with_current_card(1, t.timing(), Some(&card)).unwrap();
    // the pinned card buries its sibling
    assert_eq!(queues.card_ids(), vec![siblings[1]]);
    assert_eq!(queues.counts_array(), [0, 0, 1]);
}

#[test]
fn queue_tolerates_missing_intermediate_parent_deck() {
    let mut t = TestCollection::new();
    let root = t.deck("Root");
    t.deck("Root::Missing");
    let leaf = t.deck("Root::Missing::Leaf");
    // the intermediate deck is gone
    t.col.decks.retain(|d| d.name != native_deck_name(b"Root::Missing"));
    let card = t.add_note(leaf, 1)[0];
    assert_eq!(t.queue_ids(root), vec![card]);
}

#[test]
fn the_queue_holds_only_cards_of_the_studied_deck_and_the_decks_under_it() {
    let mut t = TestCollection::new();
    let parent = t.deck("parent");
    let child = t.deck("parent::child");
    let sibling = t.deck("parental");
    let other = t.deck("other");
    let mut inside = Vec::new();
    for deck in [parent, child] {
        inside.extend(t.add_note(deck, 1));
        let review = t.add_note(deck, 1)[0];
        t.make_review(review, 0, 3);
        inside.push(review);
    }
    for deck in [sibling, other] {
        t.add_note(deck, 1);
        let review = t.add_note(deck, 1)[0];
        t.make_review(review, 0, 3);
    }
    let mut queued = t.queue_ids(parent);
    queued.sort();
    inside.sort();
    assert_eq!(queued, inside);
}

#[test]
fn parent_limits_apply_to_a_child_deck_only_when_asked() {
    let mut t = TestCollection::new();
    let parent = t.deck("Parent");
    let child = t.deck("Parent::Child");
    t.new_config(parent, |c| c.new_per_day = 1);
    for _ in 0..3 {
        t.add_note(child, 1);
    }
    assert_eq!(t.queue_ids(child).len(), 3);
    t.col.apply_all_parent_limits = true;
    assert_eq!(t.queue_ids(child).len(), 1);
    // the parent's own limit applies to it as before
    assert_eq!(t.queue_ids(parent).len(), 1);
}

#[test]
fn may_apply_parent_limits() {
    let mut t = TestCollection::new();
    t.col.apply_all_parent_limits = true;
    let default = t.deck("Default");
    t.config(default).new_per_day = 0;
    let child = t.deck("Default::child");
    t.add_note(child, 1);
    assert_eq!(t.queue_ids(child).len(), 0);
}
