use anki_scheduler::fsrs_reviews::reviews_for_fsrs;
use anki_scheduler::revlog::RevlogEntry;
use anki_scheduler::revlog::RevlogReviewKind;

const NEXT_DAY_AT: i64 = 86400 * 1000;

fn days_ago_ms(days_ago: i64) -> i64 {
    (NEXT_DAY_AT - days_ago * 86400) * 1000
}

fn revlog(review_kind: RevlogReviewKind, days_ago: i64) -> RevlogEntry {
    let button_chosen = match review_kind {
        RevlogReviewKind::Manual | RevlogReviewKind::Rescheduled => 0,
        _ => 3,
    };
    RevlogEntry {
        id: days_ago_ms(days_ago),
        cid: 0,
        usn: 0,
        button_chosen,
        interval: 1,
        last_interval: 0,
        ease_factor: 0,
        taken_millis: 0,
        review_kind,
    }
}

/// A review as FSRS takes it: the rating, and the days since the previous
/// review.
#[derive(Debug, PartialEq, Clone, Copy)]
struct Review {
    rating: u8,
    delta_t: f32,
}

fn review(delta_t: u32) -> Review {
    Review { rating: 3, delta_t: delta_t as f32 }
}

fn review_f(delta_t: f32) -> Review {
    Review { rating: 3, delta_t }
}

/// The items FSRS gets: each the reviews it holds, with the time before
/// each as a fraction of a day.
fn convert_ignore_before(revlog: &[RevlogEntry], training: bool, ignore_before: i64) -> Option<Vec<Vec<Review>>> {
    reviews_for_fsrs(revlog.to_vec(), training, ignore_before).map(|r| {
        r.items
            .iter()
            .map(|&(_, len)| {
                (0..len)
                    .map(|k| Review {
                        rating: r.filtered_revlogs[k].button_chosen,
                        delta_t: r.delta_millis[k] as f32 / 86_400_000.0,
                    })
                    .collect()
            })
            .collect()
    })
}

fn convert(revlog: &[RevlogEntry], training: bool) -> Option<Vec<Vec<Review>>> {
    convert_ignore_before(revlog, training, 0)
}

fn manual(days_ago: i64, ease_factor: u32) -> RevlogEntry {
    RevlogEntry { ease_factor, ..revlog(RevlogReviewKind::Manual, days_ago) }
}

#[test]
fn delta_t_is_correct() {
    assert_eq!(
        convert(&[revlog(RevlogReviewKind::Learning, 1), revlog(RevlogReviewKind::Review, 0)], true),
        Some(vec![vec![review(0), review(1)]])
    );
    assert_eq!(
        convert(
            &[
                revlog(RevlogReviewKind::Learning, 15),
                revlog(RevlogReviewKind::Learning, 13),
                revlog(RevlogReviewKind::Review, 10),
                revlog(RevlogReviewKind::Review, 5)
            ],
            true,
        ),
        Some(vec![
            vec![review(0), review(2)],
            vec![review(0), review(2), review(3)],
            vec![review(0), review(2), review(3), review(5)]
        ])
    );
    assert_eq!(
        convert(&[revlog(RevlogReviewKind::Learning, 15), revlog(RevlogReviewKind::Learning, 13)], true),
        Some(vec![vec![review(0), review(2)]])
    );
}

#[test]
fn cram_is_filtered() {
    assert_eq!(
        convert(
            &[
                revlog(RevlogReviewKind::Learning, 10),
                revlog(RevlogReviewKind::Review, 9),
                revlog(RevlogReviewKind::Filtered, 7),
                revlog(RevlogReviewKind::Review, 4),
            ],
            true,
        ),
        Some(vec![vec![review(0), review(1)], vec![review(0), review(1), review(5)]])
    );
}

#[test]
fn set_due_date_is_filtered() {
    assert_eq!(
        convert(
            &[
                revlog(RevlogReviewKind::Learning, 10),
                revlog(RevlogReviewKind::Review, 9),
                manual(7, 100),
                revlog(RevlogReviewKind::Review, 4),
            ],
            true,
        ),
        Some(vec![vec![review(0), review(1)], vec![review(0), review(1), review(5)]])
    );
}

#[test]
fn card_reset_drops_all_previous_history() {
    // If Reset comes in between two Learn entries, only the ones after the
    // Reset are used.
    assert_eq!(
        convert(
            &[
                revlog(RevlogReviewKind::Learning, 10),
                manual(7, 0),
                revlog(RevlogReviewKind::Learning, 4),
                revlog(RevlogReviewKind::Review, 0),
            ],
            true,
        ),
        Some(vec![vec![review(0), review(4)]])
    );
    // Return None if Reset is the last entry or is followed by only manual
    // entries.
    assert_eq!(
        convert(
            &[revlog(RevlogReviewKind::Learning, 10), revlog(RevlogReviewKind::Review, 9), manual(7, 0), manual(7, 100)],
            false,
        ),
        None,
    );
    // If non-learning user-graded entries are found after Reset, return None
    // during training but return the remaining entries during memory state
    // calculation.
    assert_eq!(
        convert(
            &[
                revlog(RevlogReviewKind::Learning, 10),
                revlog(RevlogReviewKind::Review, 9),
                manual(7, 0),
                revlog(RevlogReviewKind::Review, 1),
                revlog(RevlogReviewKind::Relearning, 0),
            ],
            true,
        ),
        None,
    );
    assert_eq!(
        convert(
            &[
                revlog(RevlogReviewKind::Review, 9),
                manual(7, 0),
                revlog(RevlogReviewKind::Review, 1),
                revlog(RevlogReviewKind::Relearning, 0),
            ],
            false,
        ),
        Some(vec![vec![review(0), review(1)]])
    );
}

#[test]
fn single_learning_step_skipped_when_training() {
    assert_eq!(convert(&[revlog(RevlogReviewKind::Learning, 1)], true), None);
    assert_eq!(convert(&[revlog(RevlogReviewKind::Learning, 1)], false), Some(vec![vec![review(0)]]));
}

#[test]
fn fsrs7_training_includes_same_day_only_targets() {
    let revlogs = &[
        revlog(RevlogReviewKind::Learning, 1),
        revlog(RevlogReviewKind::Review, 1),
        revlog(RevlogReviewKind::Review, 1),
    ];
    assert_eq!(
        convert(revlogs, true),
        Some(vec![
            vec![review(0), review_f(1.0 / 86_400_000.0)],
            vec![review(0), review_f(1.0 / 86_400_000.0), review_f(1.0 / 86_400_000.0)],
        ])
    );
}

#[test]
fn fsrs7_training_keeps_same_day_targets_after_long_term_review() {
    let revlogs = &[
        revlog(RevlogReviewKind::Learning, 3),
        revlog(RevlogReviewKind::Review, 2),
        revlog(RevlogReviewKind::Review, 2),
    ];
    assert_eq!(
        convert(revlogs, true),
        Some(vec![vec![review(0), review(1)], vec![review(0), review(1), review_f(1.0 / 86_400_000.0)]])
    );
}

#[test]
fn fsrs7_same_day_delta_uses_fractional_elapsed_time() {
    let base = days_ago_ms(1) + 3_600_000;
    let revlogs = vec![
        RevlogEntry { id: base, ..revlog(RevlogReviewKind::Learning, 1) },
        RevlogEntry { id: base + 3_600_000, ..revlog(RevlogReviewKind::Review, 1) },
    ];
    let converted = convert(&revlogs, true).unwrap();
    let delta = converted[0][1].delta_t;
    assert!(delta > 0.0);
    assert!((delta - (1.0 / 24.0)).abs() < 1e-6);
}

#[test]
fn fsrs7_same_day_delta_is_positive_when_timestamps_equal() {
    let base = days_ago_ms(1);
    let revlogs = vec![
        RevlogEntry { id: base, ..revlog(RevlogReviewKind::Learning, 1) },
        RevlogEntry { id: base, ..revlog(RevlogReviewKind::Review, 1) },
    ];
    let converted = convert(&revlogs, true).unwrap();
    assert!(converted[0][1].delta_t > 0.0);
}

#[test]
fn fsrs7_interday_delta_uses_fractional_elapsed_time() {
    let revlogs = vec![
        RevlogEntry { id: days_ago_ms(3), ..revlog(RevlogReviewKind::Learning, 3) },
        // 0.5 day after the D-1 boundary -> elapsed days differs from
        // elapsed timestamp.
        RevlogEntry { id: days_ago_ms(1) + 43_200_000, ..revlog(RevlogReviewKind::Review, 1) },
    ];
    let converted7 = convert(&revlogs, true).unwrap();
    assert!((converted7[0][1].delta_t - 2.5).abs() < 1e-6);
}

#[test]
fn ignores_cards_before_ignore_before_date_when_training() {
    let revlogs = &[revlog(RevlogReviewKind::Learning, 10), revlog(RevlogReviewKind::Learning, 8)];
    // | = Ignore before
    // L = learning step
    // L L |
    assert_eq!(convert_ignore_before(revlogs, true, days_ago_ms(7)), None);
    // L | L
    assert_eq!(convert_ignore_before(revlogs, true, days_ago_ms(9)), None);
    // L (|L) (exact same millisecond)
    assert_eq!(convert_ignore_before(revlogs, true, days_ago_ms(10)), convert(revlogs, true));
    // | L L
    assert_eq!(convert_ignore_before(revlogs, true, days_ago_ms(11)), convert(revlogs, true));
}

#[test]
fn partially_ignored_learning_steps_terminate_training() {
    let revlogs = &[
        revlog(RevlogReviewKind::Learning, 10),
        revlog(RevlogReviewKind::Learning, 8),
        revlog(RevlogReviewKind::Review, 6),
    ];
    // L | L R
    assert_eq!(convert_ignore_before(revlogs, true, days_ago_ms(9)), None);
}

#[test]
fn skip_initial_relearning_steps() {
    let revlogs = &[
        revlog(RevlogReviewKind::Review, 10),
        RevlogEntry {
            button_chosen: 1, // Again
            interval: -600,
            ..revlog(RevlogReviewKind::Review, 8)
        },
        revlog(RevlogReviewKind::Relearning, 8),
        revlog(RevlogReviewKind::Review, 6),
    ];
    // R | A X R
    assert_eq!(convert_ignore_before(revlogs, false, days_ago_ms(9)), Some(vec![vec![review(0), review(2)]]));
}

#[test]
fn ignore_before_date_between_learning_steps_when_reviewing() {
    let revlogs = &[
        revlog(RevlogReviewKind::Learning, 10),
        revlog(RevlogReviewKind::Learning, 8),
        revlog(RevlogReviewKind::Review, 2),
    ];
    // L | L R
    assert_ne!(convert_ignore_before(revlogs, false, days_ago_ms(9)), convert(revlogs, false));
    assert_eq!(convert_ignore_before(revlogs, false, days_ago_ms(9)).unwrap().last().unwrap().len(), 2);
    // | L L R
    assert_eq!(convert_ignore_before(revlogs, false, days_ago_ms(11)), convert(revlogs, false));
}

#[test]
fn handle_ignore_before_when_no_learning_steps() {
    let revlogs = &[
        revlog(RevlogReviewKind::Review, 10),
        revlog(RevlogReviewKind::Review, 8),
        revlog(RevlogReviewKind::Review, 6),
    ];
    // R | R R
    assert_eq!(convert_ignore_before(revlogs, false, days_ago_ms(9)).unwrap().last().unwrap().len(), 2);
}

#[test]
fn ignore_before_after_last_revlog_entry() {
    let revlogs = &[revlog(RevlogReviewKind::Learning, 10), revlog(RevlogReviewKind::Review, 6)];
    // L R |
    assert_eq!(convert_ignore_before(revlogs, false, days_ago_ms(4)), None);
}

#[test]
fn a_partial_history_is_reported_incomplete() {
    // the first learning step was before the cutoff: the rest of the
    // history is kept, but it does not hold the card's whole story
    let revlogs = &[
        revlog(RevlogReviewKind::Learning, 10),
        revlog(RevlogReviewKind::Learning, 8),
        revlog(RevlogReviewKind::Review, 2),
    ];
    let partial = reviews_for_fsrs(revlogs.to_vec(), false, days_ago_ms(9)).unwrap();
    assert!(!partial.revlogs_complete);
    let whole = reviews_for_fsrs(revlogs.to_vec(), false, 0).unwrap();
    assert!(whole.revlogs_complete);
    assert_eq!(whole.items, vec![(days_ago_ms(2), 3)]);
    assert_eq!(whole.delta_millis, vec![0, 2 * 86_400_000, 6 * 86_400_000]);
}
