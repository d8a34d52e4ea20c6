use std::time::SystemTime;
use std::time::UNIX_EPOCH;

use anki_scheduler::card::Card;
use anki_scheduler::card::CardQueue;
use anki_scheduler::card::CardType;
use anki_scheduler::card::SchedTimingToday;
use anki_scheduler::revlog::get_last_revlog_info;
use anki_scheduler::revlog::restore_review_schedule_after_sync;
use anki_scheduler::revlog::LastRevlogInfo;
use anki_scheduler::revlog::RevlogEntry;
use anki_scheduler::revlog::RevlogReviewKind;

fn now_secs() -> i64 {
    SystemTime::now().duration_since(UNIX_EPOCH).unwrap().as_secs() as i64
}

fn now_millis() -> i64 {
    SystemTime::now().duration_since(UNIX_EPOCH).unwrap().as_millis() as i64
}

fn days_ago_ms(days_ago: i64) -> i64 {
    now_millis() - days_ago * 86_400_000
}

fn revlog(review_kind: RevlogReviewKind, days_ago: i64) -> RevlogEntry {
    let button_chosen = match review_kind {
        RevlogReviewKind::Manual | RevlogReviewKind::Rescheduled => 0,
        _ => 3,
    };
    RevlogEntry {
        id: days_ago_ms(days_ago),
        cid: 0,
        usn: 0,
        button_chosen,
        interval: 1,
        last_interval: 0,
        ease_factor: 0,
        taken_millis: 0,
        review_kind,
    }
}

fn review_entry(days_ago: i64, interval: i32, last_interval: i32) -> RevlogEntry {
    RevlogEntry { cid: 1, interval, last_interval, ..revlog(RevlogReviewKind::Review, days_ago) }
}

fn default_card() -> Card {
    Card::new(0, 0, 0, 0)
}

#[test]
fn last_revlog_info_reports_interval_scheduled_by_latest_review() {
    let entries = vec![review_entry(10, 4, 1), review_entry(3, 12, 4)];
    let info = get_last_revlog_info(&entries);
    let info = info.get(&1).unwrap();
    assert_eq!(info.scheduled_interval, Some(12));
    assert_eq!(info.previous_interval, Some(4));
    assert_eq!(info.last_reviewed_at, Some(entries[1].as_secs()));
}

#[test]
fn last_revlog_info_has_no_scheduled_interval_when_latest_review_is_a_learning_step() {
    let entries = vec![
        review_entry(10, 4, 1),
        RevlogEntry {
            cid: 1,
            button_chosen: 1,
            interval: -600,
            last_interval: 4,
            ..revlog(RevlogReviewKind::Relearning, 3)
        },
    ];
    let info = get_last_revlog_info(&entries);
    assert_eq!(info.get(&1).unwrap().scheduled_interval, None);
}

#[test]
fn last_revlog_info_has_no_scheduled_interval_after_a_reset() {
    let entries = vec![
        review_entry(10, 4, 1),
        RevlogEntry { cid: 1, ease_factor: 0, ..revlog(RevlogReviewKind::Manual, 3) },
    ];
    let info = get_last_revlog_info(&entries);
    let info = info.get(&1).unwrap();
    assert_eq!(info.scheduled_interval, None);
    assert_eq!(info.last_reviewed_at, None);
}

fn timing_for_restore_tests() -> SchedTimingToday {
    let now = now_secs();
    SchedTimingToday { now, days_elapsed: 100, next_day_at: now + 3600 }
}

fn info_reviewed_days_ago(days_ago: i64, scheduled_interval: Option<u32>) -> LastRevlogInfo {
    LastRevlogInfo {
        last_reviewed_at: Some(now_secs() - days_ago * 86_400),
        previous_interval: Some(2),
        scheduled_interval,
    }
}

#[test]
fn restore_review_schedule_after_sync_puts_card_where_last_review_did() {
    let mut card = Card {
        ctype: CardType::Review,
        queue: CardQueue::Review,
        interval: 5,
        due: 103,
        ..default_card()
    };
    let timing = timing_for_restore_tests();
    assert!(restore_review_schedule_after_sync(&mut card, Some(&info_reviewed_days_ago(3, Some(12))), timing));
    assert_eq!(card.interval, 12);
    // reviewed on day 97, so due on day 97 + 12
    assert_eq!(card.due, 109);
    // idempotent
    assert!(!restore_review_schedule_after_sync(&mut card, Some(&info_reviewed_days_ago(3, Some(12))), timing));
}

#[test]
fn restore_review_schedule_after_sync_writes_original_due_in_filtered_deck() {
    let mut card = Card {
        ctype: CardType::Review,
        queue: CardQueue::Review,
        interval: 5,
        due: -100_000,
        original_due: 103,
        original_deck_id: 1,
        deck_id: 2,
        ..default_card()
    };
    let timing = timing_for_restore_tests();
    assert!(restore_review_schedule_after_sync(&mut card, Some(&info_reviewed_days_ago(0, Some(7))), timing));
    assert_eq!(card.interval, 7);
    assert_eq!(card.original_due, 107);
    assert_eq!(card.due, -100_000);
}

#[test]
fn restore_review_schedule_after_sync_skips_cards_it_cannot_place() {
    let timing = timing_for_restore_tests();
    let review_card = Card {
        ctype: CardType::Review,
        queue: CardQueue::Review,
        interval: 5,
        due: 103,
        ..default_card()
    };
    // no review information at all
    let mut card = review_card;
    assert!(!restore_review_schedule_after_sync(&mut card, None, timing));
    assert_eq!(card, review_card);
    // the latest review left the card in (re)learning
    let mut card = review_card;
    assert!(!restore_review_schedule_after_sync(&mut card, Some(&info_reviewed_days_ago(1, None)), timing));
    assert_eq!(card, review_card);
    // suspended
    let mut card = Card { queue: CardQueue::Suspended, ..review_card };
    let before = card;
    assert!(!restore_review_schedule_after_sync(&mut card, Some(&info_reviewed_days_ago(1, Some(9))), timing));
    assert_eq!(card, before);
    // not a review card
    let mut card = Card { ctype: CardType::Relearn, queue: CardQueue::Learn, ..review_card };
    let before = card;
    assert!(!restore_review_schedule_after_sync(&mut card, Some(&info_reviewed_days_ago(1, Some(9))), timing));
    assert_eq!(card, before);
}

#[test]
fn a_second_restore_changes_nothing() {
    let timing = timing_for_restore_tests();
    let mut card = Card {
        ctype: CardType::Review,
        queue: CardQueue::Review,
        interval: 3,
        due: 90,
        ..default_card()
    };
    let info = info_reviewed_days_ago(5, Some(20));
    assert!(restore_review_schedule_after_sync(&mut card, Some(&info), timing));
    let once = card;
    assert!(!restore_review_schedule_after_sync(&mut card, Some(&info), timing));
    assert_eq!(card, once);
    assert_eq!(card.due, 95 + 20);
}
