use anki_scheduler::collection::Collection;
use anki_scheduler::fsrs_batch::compute_params_batch_job_lanes_with_count;
use anki_scheduler::fsrs_batch::compute_params_batch_split;
use anki_scheduler::predictions::PredictionBatchAction;
use anki_scheduler::predictions::PredictionBatchOutcome;
use anki_scheduler::predictions::PredictionWrite;
use anki_scheduler::predictions::PREDICTION_WRITE_BATCH_ROWS;
use anki_scheduler::queue::model::Deck;
use anki_scheduler::queue::model::DeckConfig;
use anki_scheduler::stale_presets::add_uncovered_part;
use anki_scheduler::stale_presets::StalePresetsRead;
use anki_scheduler::stale_presets::StalePresetsStep;

fn deck(id: i64, config_id: Option<i64>) -> Deck {
    Deck {
        id,
        name: format!("deck {id}").into_bytes(),
        config_id,
        new_studied_today: 0,
        review_studied_today: 0,
        desired_retention: None,
    }
}

/// The default deck and preset (1), "other" (deck 2, preset 2) and
/// "covered" (deck 3, preset 3).
fn collection() -> Collection {
    Collection {
        cards: Vec::new(),
        decks: vec![deck(1, Some(1)), deck(2, Some(2)), deck(3, Some(3))],
        configs: vec![DeckConfig::new(1), DeckConfig::new(2), DeckConfig::new(3)],
        fsrs: true,
        learn_ahead_secs: 1200,
        rwkv_review_queue_scores: None,
        exact_order_keys: Vec::new(),
        rwkv_order_keys: Vec::new(),
        random_salt: 0,
        apply_all_parent_limits: false,
    }
}

// The uncovered reviews of each deck are what the review log gives at each
// step: a rated review of the default deck, then a second one; a fold over
// the first, a row of another role over the second; folds over both.
#[test]
fn the_pass_covers_every_preset_with_uncovered_reviews() {
    let col = collection();

    // no stored row covers either review, so the preset is stale
    assert_eq!(col.presets_of_uncovered_decks(&vec![(1, 2)]), vec![1]);

    // a validation fold over one of them is not enough
    assert_eq!(col.presets_of_uncovered_decks(&vec![(1, 1)]), vec![1]);

    // a row of another role does not count
    assert_eq!(col.presets_of_uncovered_decks(&vec![(1, 1)]), vec![1]);

    // both reviews covered by folds: nothing left to do
    assert!(col.presets_of_uncovered_decks(&vec![]).is_empty());
    assert!(col.presets_of_uncovered_decks(&vec![(1, 0)]).is_empty());
}

#[test]
fn stale_presets_are_sorted_each_once_and_skip_unknown_and_filtered_decks() {
    let mut col = collection();
    col.decks.push(deck(4, None));
    col.decks.push(deck(5, Some(1)));
    let stale = col.presets_of_uncovered_decks(&vec![(3, 4), (2, 0), (9, 7), (4, 3), (1, 1), (5, 2), (3, 1)]);
    assert_eq!(stale, vec![1, 3]);
}

#[test]
fn decks_of_presets_are_those_that_use_them() {
    let mut col = collection();
    col.decks.push(deck(4, None));
    col.decks.push(deck(5, Some(1)));
    assert_eq!(col.decks_of_presets(&vec![1, 3]), vec![1, 3, 5]);
    assert!(col.decks_of_presets(&vec![]).is_empty());
}

/// The rows of a review log as the stale-preset read sees them: review id,
/// deck, and whether a validation fold covers the review.
struct ReviewLog {
    rows: Vec<(i64, i64, bool)>,
    change_stamp: i64,
}

impl ReviewLog {
    /// The default deck and "other" have uncovered reviews, "covered" has
    /// none: 15 rows, interleaved.
    fn three_presets() -> Self {
        let mut rows = Vec::new();
        for days_ago in [50i64, 40, 30, 20, 10] {
            rows.push((1_000_000 - days_ago * 1_000, 1, false));
            rows.push((1_000_000 - (days_ago + 1) * 1_000, 3, true));
            rows.push((1_000_000 - (days_ago + 2) * 1_000, 2, false));
        }
        rows.sort();
        ReviewLog { rows, change_stamp: 0 }
    }

    fn review_now(&mut self, deck: i64, days_ago: i64) {
        self.rows.push((1_000_000 - days_ago * 1_000, deck, false));
        self.rows.sort();
        self.change_stamp += 1;
    }

    /// Each deck's uncovered reviews among the rows after `from`, at most
    /// `part_rows` of them, and where the next part starts when this one is
    /// full.
    fn part(&self, from: i64, part_rows: usize) -> (Vec<(i64, u32)>, Option<i64>) {
        let taken: Vec<_> = self.rows.iter().filter(|row| row.0 > from).take(part_rows).collect();
        let mut counts: Vec<(i64, u32)> = Vec::new();
        for (_, deck, covered) in &taken {
            match counts.iter_mut().find(|(d, _)| d == deck) {
                Some(entry) => entry.1 += u32::from(!covered),
                None => counts.push((*deck, u32::from(!covered))),
            }
        }
        let next = if taken.len() == part_rows { Some(taken.last().unwrap().0) } else { None };
        (counts, next)
    }

    fn whole(&self) -> Vec<(i64, u32)> {
        self.part(i64::MIN, usize::MAX).0
    }
}

/// The read in parts as the pass drives it, with the collection held once
/// per step; `before_hold` runs as each hold begins.
fn stale_in_parts(
    col: &Collection,
    log: &mut ReviewLog,
    part_rows: usize,
    mut before_hold: impl FnMut(&mut ReviewLog, usize),
) -> (Vec<i64>, usize) {
    let mut read = StalePresetsRead::new();
    let mut holds = 0;
    loop {
        holds += 1;
        before_hold(log, holds);
        match read.next_step() {
            StalePresetsStep::ReadPart(from) => {
                if read.stamp_before_part(log.change_stamp) {
                    let (part, next) = log.part(from, part_rows);
                    read.part_read(&part, next);
                }
            }
            StalePresetsStep::Finish => {
                if read.finish(log.change_stamp) {
                    return (col.presets_of_uncovered_decks(&read.uncovered), holds);
                }
            }
            StalePresetsStep::ReadWhole => {
                return (col.presets_of_uncovered_decks(&log.whole()), holds);
            }
        }
    }
}

#[test]
fn stale_presets_in_parts_are_those_of_one_read() {
    let col = collection();
    let mut log = ReviewLog::three_presets();
    let whole = col.presets_of_uncovered_decks(&log.whole());
    assert_eq!(whole, vec![1, 2]);
    for part_rows in [1, 2, 3, 7, 15, 1_000] {
        let (in_parts, holds) = stale_in_parts(&col, &mut log, part_rows, |_, _| {});
        assert_eq!(in_parts, whole, "part_rows={part_rows}");
        // the parts of the 15 review-log rows (one more when a last part is
        // full) and the mapping to presets
        assert_eq!(holds, (15 / part_rows + 1) + 1, "part_rows={part_rows}");
    }
}

#[test]
fn a_write_between_the_parts_makes_the_stale_presets_read_again() {
    let col = collection();
    let mut log = ReviewLog::three_presets();
    let mut days_ago = 100;

    // an uncovered review early in the review log, in a part the read has
    // already passed
    let (stale, holds) = stale_in_parts(&col, &mut log, 4, |log, hold| {
        if hold == 2 {
            days_ago += 1;
            log.review_now(3, days_ago);
        }
    });
    assert_eq!(stale, col.presets_of_uncovered_decks(&log.whole()));
    assert!(stale.contains(&3));
    // the first read stopped at its second part; the second read is whole
    assert_eq!(holds, 2 + ((16 / 4 + 1) + 1));

    // a review before every hold: after three reads, one piece
    let (stale, holds) = stale_in_parts(&col, &mut log, 4, |log, _| {
        days_ago += 1;
        log.review_now(3, days_ago);
    });
    assert_eq!(stale, col.presets_of_uncovered_decks(&log.whole()));
    assert_eq!(holds, 3 * 2 + 1);
}

#[test]
fn merged_parts_add_up_each_decks_counts() {
    let mut uncovered = vec![(1, 2), (3, 0)];
    add_uncovered_part(&mut uncovered, &vec![(3, 1), (2, 4), (1, 1), (2, 1)]);
    uncovered.sort();
    assert_eq!(uncovered, vec![(1, 3), (2, 5), (3, 1)]);
    let col = collection();
    // the presets of the merged counts are those of the parts read as one
    let one_read = vec![(1, 2), (3, 0), (3, 1), (2, 4), (1, 1), (2, 1)];
    assert_eq!(col.presets_of_uncovered_decks(&uncovered), col.presets_of_uncovered_decks(&one_read));
}

/// Writes `rows` rows a batch at a time, each batch's write answered by
/// `outcome` (given the batch's number and size); the batch sizes and the
/// result.
fn write_in_batches(rows: usize, batch_rows: usize, mut outcome: impl FnMut(usize, usize) -> PredictionBatchOutcome) -> (Vec<usize>, u32) {
    let mut write = PredictionWrite::new(rows, batch_rows);
    let mut sizes = Vec::new();
    while let Some((start, end)) = write.next_batch() {
        sizes.push(end - start);
        let result = outcome(sizes.len(), end - start);
        write.record(end, result);
    }
    (sizes, write.finished.unwrap())
}

#[test]
fn a_presets_rows_are_written_one_bounded_batch_at_a_time() {
    let (sizes, written) = write_in_batches(7, 2, |_, size| PredictionBatchOutcome::Stored(size as u32));
    assert_eq!(sizes, vec![2, 2, 2, 1]);
    assert_eq!(written, 7);
    // a batch of at least one row, and nothing to write is written at once
    let (sizes, written) = write_in_batches(3, 0, |_, size| PredictionBatchOutcome::Stored(size as u32));
    assert_eq!(sizes, vec![1, 1, 1]);
    assert_eq!(written, 3);
    assert_eq!(PredictionWrite::new(0, 2).finished, Some(0));
    assert_eq!(PredictionWrite::new(0, 2).next_batch(), None);
    assert_eq!(PREDICTION_WRITE_BATCH_ROWS, 2_500);
}

#[test]
fn a_save_midway_through_the_write_takes_back_what_was_written() {
    let (sizes, written) = write_in_batches(7, 2, |batch, size| {
        if batch == 2 {
            PredictionBatchOutcome::Superseded
        } else {
            PredictionBatchOutcome::Stored(size as u32)
        }
    });
    // the pass stopped at the batch that found the save, with nothing
    // written
    assert_eq!(sizes.len(), 2);
    assert_eq!(written, 0);
}

#[test]
fn another_collection_stops_the_write_with_what_was_written() {
    let (sizes, written) = write_in_batches(7, 2, |batch, size| {
        if batch == 3 {
            PredictionBatchOutcome::OtherCollection
        } else {
            PredictionBatchOutcome::Stored(size as u32)
        }
    });
    assert_eq!(sizes.len(), 3);
    assert_eq!(written, 4);
}

#[test]
fn rows_computed_before_a_preset_save_are_not_written() {
    let mut col = collection();
    col.decks.push(deck(5, Some(1)));
    col.configs[0].fsrs_params = vec![1, 2, 3];
    col.configs[0].mtime_secs = 100;
    let key = col.fsrs_review_prediction_job_key(7, &col.configs[0]);
    assert_eq!(key.decks, vec![1, 5]);
    assert_eq!(key.params, vec![1, 2, 3]);
    assert_eq!(col.prediction_batch_action(&key, 7), PredictionBatchAction::Store);

    // the parameters change within the same second
    col.configs[0].fsrs_params[0] = 4;
    assert_eq!(col.prediction_batch_action(&key, 7), PredictionBatchAction::TakeBack);
    col.configs[0].fsrs_params[0] = 1;
    assert_eq!(col.prediction_batch_action(&key, 7), PredictionBatchAction::Store);

    // a save, a deck that moves to another preset, a deck that joins
    col.configs[0].mtime_secs = 101;
    assert_eq!(col.prediction_batch_action(&key, 7), PredictionBatchAction::TakeBack);
    col.configs[0].mtime_secs = 100;
    col.decks[3].config_id = Some(2);
    assert_eq!(col.prediction_batch_action(&key, 7), PredictionBatchAction::TakeBack);
    col.decks[3].config_id = Some(1);
    col.decks.push(deck(6, Some(1)));
    assert_eq!(col.prediction_batch_action(&key, 7), PredictionBatchAction::TakeBack);
    col.decks.pop();

    // the preset is gone
    let config = col.configs.remove(0);
    assert_eq!(col.prediction_batch_action(&key, 7), PredictionBatchAction::TakeBack);
    col.configs.insert(0, config);
    assert_eq!(col.prediction_batch_action(&key, 7), PredictionBatchAction::Store);
}

#[test]
fn a_job_never_touches_another_collection_with_an_identical_preset() {
    let col = collection();
    let key = col.fsrs_review_prediction_job_key(7, &col.configs[0]);
    // an identical copy opened since: nothing is written or taken back
    assert_eq!(col.prediction_batch_action(&key, 8), PredictionBatchAction::OtherCollection);
}

#[test]
fn compute_params_batch_job_lanes_start_largest_and_balance_reviews() {
    // small, largest, large, medium
    let lanes = compute_params_batch_job_lanes_with_count(&vec![40, 100, 90, 50], 2);
    let lane_totals: Vec<usize> = lanes.iter().map(|lane| lane.estimated_reviews).collect();
    assert_eq!(lane_totals, vec![140, 140]);
    assert_eq!(lanes[0].jobs[0], 1);
    assert_eq!(lanes[1].jobs[0], 2);
    assert_eq!(lanes[0].jobs, vec![1, 0]);
    assert_eq!(lanes[1].jobs, vec![2, 3]);
}

#[test]
fn batch_lanes_break_ties_by_input_order_and_fill_the_first_emptiest_lane() {
    let lanes = compute_params_batch_job_lanes_with_count(&vec![5, 5, 5, 1], 3);
    assert_eq!(lanes.iter().map(|l| l.jobs.clone()).collect::<Vec<_>>(), vec![vec![0, 3], vec![1], vec![2]]);
    assert!(compute_params_batch_job_lanes_with_count(&vec![], 0).is_empty());
}

#[test]
fn zero_review_presets_are_split_from_the_jobs() {
    let (jobs, skipped) = compute_params_batch_split(&vec![0, 12, 0, 3]);
    assert_eq!(jobs, vec![1, 3]);
    assert_eq!(skipped, vec![0, 2]);
}
