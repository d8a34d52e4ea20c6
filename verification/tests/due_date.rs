use anki_scheduler::card::Card;
use anki_scheduler::card::CardQueue;
use anki_scheduler::card::CardType;
use anki_scheduler::collection::Collection;
use anki_scheduler::due_date::parse_due_date_str;
use anki_scheduler::due_date::DueDateError;
use anki_scheduler::due_date::DueDateSpecifier;
use anki_scheduler::due_date::SetDueDateError;
use anki_scheduler::queue::model::Deck;
use anki_scheduler::queue::model::DeckConfig;

/// An ease in thousandths, as the card stores it.
fn permille(ease: f32) -> u16 {
    (ease * 1000.0).round() as u16
}

#[test]
fn parse() {
    type S = DueDateSpecifier;
    assert!(parse_due_date_str("").is_err());
    assert!(parse_due_date_str("x").is_err());
    assert!(parse_due_date_str("-5").is_err());
    assert_eq!(parse_due_date_str("5").unwrap(), S { min: 5, max: 5, force_reset: false });
    assert_eq!(parse_due_date_str("5!").unwrap(), S { min: 5, max: 5, force_reset: true });
    assert_eq!(parse_due_date_str("50-70").unwrap(), S { min: 50, max: 70, force_reset: false });
    assert_eq!(parse_due_date_str("70-50!").unwrap(), S { min: 50, max: 70, force_reset: true });
}

#[test]
fn due_date() {
    let mut c = Card::new(0, 0, 0, 0);

    // setting the due date of a new card will convert it
    c.set_due_date(5, 0, 2, permille(1.8), false, false);
    assert_eq!(c.ctype, CardType::Review);
    assert_eq!(c.due, 7);
    assert_eq!(c.interval, 2);
    assert_eq!(c.ease_factor, 1800);

    // reschedule it again the next day, shifting it from day 7 to day 9
    c.set_due_date(6, 0, 3, permille(2.5), false, false);
    assert_eq!(c.due, 9);
    assert_eq!(c.interval, 2);
    assert_eq!(c.ease_factor, 1800); // interval doesn't change

    // we can bring cards forward too - return it to its original due date
    c.set_due_date(6, 0, 1, permille(2.4), false, false);
    assert_eq!(c.due, 7);
    assert_eq!(c.interval, 2);
    assert_eq!(c.ease_factor, 1800); // interval doesn't change

    // we can force the interval to be reset instead of shifted
    c.set_due_date(6, 0, 3, permille(2.3), true, false);
    assert_eq!(c.due, 9);
    assert_eq!(c.interval, 3);
    assert_eq!(c.ease_factor, 1800); // interval doesn't change

    // should work in a filtered deck
    c.interval = 2;
    c.ease_factor = 0;
    c.original_due = 7;
    c.original_deck_id = 1;
    c.due = -10000;
    c.queue = CardQueue::New;
    c.set_due_date(6, 0, 1, permille(2.2), false, false);
    assert_eq!(c.due, 7);
    assert_eq!(c.interval, 2);
    assert_eq!(c.ease_factor, 2200);
    assert_eq!(c.queue, CardQueue::Review);
    assert_eq!(c.original_due, 0);
    assert_eq!(c.original_deck_id, 0);

    // relearning treated like review
    c.ctype = CardType::Relearn;
    c.original_due = c.due;
    c.due = 12345678;
    c.set_due_date(6, 0, 10, permille(2.1), false, false);
    assert_eq!(c.due, 16);
    assert_eq!(c.interval, 2);
    assert_eq!(c.ease_factor, 2200); // interval doesn't change
}

#[test]
fn parse_refuses_numbers_that_do_not_fit() {
    assert_eq!(parse_due_date_str("4294967295").unwrap().max, u32::MAX);
    assert_eq!(parse_due_date_str("4294967296"), Err(DueDateError::NumberTooLarge));
    assert_eq!(parse_due_date_str("1-4294967296!"), Err(DueDateError::NumberTooLarge));
    assert_eq!(parse_due_date_str("1-"), Err(DueDateError::InvalidInput));
    assert_eq!(parse_due_date_str("!"), Err(DueDateError::InvalidInput));
    assert_eq!(parse_due_date_str("1-2-3"), Err(DueDateError::InvalidInput));
    assert_eq!(parse_due_date_str(" 1"), Err(DueDateError::InvalidInput));
}

#[test]
fn fsrs_due_date_keeps_a_review_cards_interval_unless_reset() {
    let next_day_start = 100 * 86_400;
    let mut c = Card::new(0, 0, 0, 0);
    c.ctype = CardType::Review;
    c.queue = CardQueue::Review;
    c.interval = 5;
    c.ease_factor = 2500;
    // reviewed ten days before the day that ends at `next_day_start`
    c.last_review_time = Some(next_day_start - 10 * 86_400);
    let mut reset = c;
    c.set_due_date(99, next_day_start, 4, 2500, false, true);
    assert_eq!(c.due, 103);
    assert_eq!(c.interval, 5);

    // with a reset, the interval is the days since the last review plus
    // the days ahead
    reset.set_due_date(99, next_day_start, 4, 2500, true, true);
    assert_eq!(reset.due, 103);
    assert_eq!(reset.interval, 14);

    // a new card keeps no interval under FSRS
    let mut n = Card::new(0, 0, 0, 0);
    n.set_due_date(99, next_day_start, 4, 2500, false, true);
    assert_eq!(n.interval, 0);
    assert_eq!(n.due, 103);
}

fn collection() -> Collection {
    let mut config = DeckConfig::new(1);
    config.initial_ease = 2300;
    Collection {
        cards: Vec::new(),
        decks: vec![
            Deck { id: 1, name: b"Default".to_vec(), config_id: Some(1), new_studied_today: 0, review_studied_today: 0, desired_retention: None },
            Deck { id: 2, name: b"Filtered".to_vec(), config_id: None, new_studied_today: 0, review_studied_today: 0, desired_retention: None },
            Deck { id: 3, name: b"Orphan".to_vec(), config_id: Some(9), new_studied_today: 0, review_studied_today: 0, desired_retention: None },
        ],
        configs: vec![config],
        fsrs: false,
        learn_ahead_secs: 1200,
        rwkv_review_queue_scores: None,
        exact_order_keys: Vec::new(),
        rwkv_order_keys: Vec::new(),
        random_salt: 0,
        apply_all_parent_limits: false,
    }
}

fn new_card(id: i64, deck_id: i64) -> Card {
    let mut card = Card::new(id, 0, deck_id, 0);
    card.id = id;
    card
}

#[test]
fn set_due_date_draws_each_card_within_the_range_with_its_presets_ease() {
    let mut col = collection();
    col.cards = vec![new_card(1, 1), new_card(2, 1), new_card(3, 3), new_card(4, 1)];
    let log = col.set_due_date(&vec![1, 3, 4], "5-8", 100, 0, false, 1_700_000_123).unwrap();
    assert_eq!(log, vec![(1, 0), (3, 0), (4, 0)]);
    for id in [1, 3, 4] {
        let card = col.cards.iter().find(|c| c.id == id).unwrap();
        assert!((105..=108).contains(&card.due), "{id}: {}", card.due);
        assert_eq!(card.interval as i32, card.due - 100);
        assert_eq!(card.queue, CardQueue::Review);
        assert_eq!(card.mtime, 1_700_000_123);
    }
    // the deck's preset's initial ease; the unchanged preset's where the
    // preset is gone
    assert_eq!(col.cards[0].ease_factor, 2300);
    assert_eq!(col.cards[2].ease_factor, 2500);
    // a card not chosen is left alone
    assert_eq!(col.cards[1], new_card(2, 1));
}

#[test]
fn set_due_date_errors_leave_the_collection_unchanged() {
    let mut col = collection();
    col.cards = vec![new_card(1, 1), new_card(2, 2), new_card(3, 7)];
    let before = col.cards.clone();
    assert_eq!(col.set_due_date(&vec![1], "x", 100, 0, false, 1_700_000_123), Err(SetDueDateError::Days(DueDateError::InvalidInput)));
    assert_eq!(
        col.set_due_date(&vec![1], "99999999999", 100, 0, false, 1_700_000_123),
        Err(SetDueDateError::Days(DueDateError::NumberTooLarge))
    );
    assert_eq!(col.set_due_date(&vec![1, 2], "5", 100, 0, false, 1_700_000_123), Err(SetDueDateError::HomeDeckFiltered));
    assert_eq!(col.set_due_date(&vec![3, 2], "5", 100, 0, false, 1_700_000_123), Err(SetDueDateError::HomeDeckFiltered));
    assert_eq!(col.set_due_date(&vec![3], "5", 100, 0, false, 1_700_000_123), Err(SetDueDateError::DeckNotFound(7)));
    assert_eq!(col.cards, before);
    assert_eq!(col.set_due_date(&vec![1], "5", 100, 0, false, 1_700_000_123), Ok(vec![(1, 0)]));
    assert_eq!(col.cards[0].due, 105);
}
