use anki_scheduler::rwkv_inputs::inputs::rwkv_replay_inputs_from_rows;
use anki_scheduler::rwkv_inputs::inputs::FirstReviewElapsedSource;
use anki_scheduler::rwkv_inputs::inputs::RwkvHistoricalReviewInputsResponse;
use anki_scheduler::rwkv_inputs::inputs::RwkvReplayInputsFromRowsRequest;
use anki_scheduler::rwkv_inputs::job::RwkvReplayInputsJob;
use anki_scheduler::rwkv_inputs::job::RwkvReplayInputsSettings;
use anki_scheduler::rwkv_inputs::published::RwkvReplayDays;
use anki_scheduler::rwkv_inputs::published::PACKED_WARM_UP_ROW_BYTES;
use anki_scheduler::rwkv_inputs::stream::ReplayError;
use anki_scheduler::rwkv_inputs::stream::RwkvHistoricalReviewRow;

const DAY: i64 = 86_400_000;
const FIRST: i64 = 1_700_000_000_000;
const SECOND: i64 = FIRST + 1;
const DELETED: i64 = FIRST - 7_000;
const LEARNING: i64 = 0;
const REVIEW: i64 = 1;
const RELEARNING: i64 = 2;

fn row(review_id: i64, card_id: i64, kind: i64, start: bool) -> RwkvHistoricalReviewRow {
    let (note_id, deck_id) = match card_id {
        FIRST => (Some(10), Some(1)),
        SECOND => (Some(11), Some(2)),
        // a card whose row is gone: its reviews are all that is left of it
        _ => (None, None),
    };
    RwkvHistoricalReviewRow {
        review_id,
        card_id,
        note_id,
        deck_id,
        ease: 3,
        duration_millis: 1_000,
        review_kind: kind,
        interval_days: 1,
        ease_factor: 2_500,
        is_learning_start: start,
    }
}

/// Two cards in two decks, a deleted card, and reviews over weeks, in the
/// order the review log gives them.
fn history() -> Vec<RwkvHistoricalReviewRow> {
    let start = SECOND + 10_000;
    [
        (FIRST, LEARNING, true),
        (DELETED, LEARNING, true),
        (SECOND, REVIEW, true),
        (FIRST, REVIEW, false),
        (DELETED, REVIEW, false),
        (SECOND, RELEARNING, false),
        (FIRST, REVIEW, false),
        (SECOND, REVIEW, false),
    ]
    .into_iter()
    .enumerate()
    .map(|(step, (card, kind, first))| row(start + step as i64 * 3 * DAY, card, kind, first))
    .collect()
}

fn column(values: impl IntoIterator<Item = i64>) -> Vec<u8> {
    values.into_iter().flat_map(|value| value.to_le_bytes()).collect()
}

fn i64_values(column: &[u8]) -> Vec<i64> {
    column.chunks_exact(8).map(|bytes| i64::from_le_bytes(bytes.try_into().unwrap())).collect()
}

/// The request of `rows`, every card's deck using preset 1.
fn rows_request(rows: &[RwkvHistoricalReviewRow]) -> RwkvReplayInputsFromRowsRequest {
    let mut presets: Vec<(i64, i64)> = Vec::new();
    for row in rows {
        if row.deck_id.is_some() && !presets.contains(&(row.card_id, 1)) {
            presets.push((row.card_id, 1));
        }
    }
    RwkvReplayInputsFromRowsRequest {
        feature_layout: String::new(),
        review_ids: column(rows.iter().map(|r| r.review_id)),
        card_ids: column(rows.iter().map(|r| r.card_id)),
        note_ids: column(rows.iter().map(|r| r.note_id.unwrap_or(0))),
        deck_ids: column(rows.iter().map(|r| r.deck_id.unwrap_or(0))),
        eases: column(rows.iter().map(|r| r.ease)),
        durations_millis: column(rows.iter().map(|r| r.duration_millis)),
        review_kinds: column(rows.iter().map(|r| r.review_kind)),
        interval_days: column(rows.iter().map(|r| r.interval_days)),
        ease_factors: column(rows.iter().map(|r| r.ease_factor)),
        learning_starts: rows.iter().map(|r| r.is_learning_start as u8).collect(),
        has_note: rows.iter().map(|r| r.note_id.is_some() as u8).collect(),
        has_deck: rows.iter().map(|r| r.deck_id.is_some() as u8).collect(),
        encodable: vec![1; rows.len()],
        preset_card_ids: column(presets.iter().map(|p| p.0)),
        preset_ids: column(presets.iter().map(|p| p.1)),
        has_preset: vec![1; presets.len()],
        routes: Vec::new(),
        seed_previous_review_id_cards: Vec::new(),
        seed_previous_review_ids: Vec::new(),
        seed_previous_interval_cards: Vec::new(),
        seed_previous_interval_days: Vec::new(),
        seed_review_count_cards: Vec::new(),
        seed_review_counts: Vec::new(),
        previous_history_hash: Vec::new(),
        counts_before_cutoff: false,
        hash_history: true,
        recovery_checkpoint_max_age_millis: 0,
        after_review_id: None,
        days_elapsed: 1_000,
        next_day_at: (SECOND + 40 * DAY) / 1_000,
        first_review_elapsed_source: FirstReviewElapsedSource::CardCreation,
        first_review_uses_creation_by_deck_id: Vec::new(),
    }
}

fn response(request: &RwkvReplayInputsFromRowsRequest) -> Result<RwkvHistoricalReviewInputsResponse, ReplayError> {
    rwkv_replay_inputs_from_rows(request)
}

/// A read after a cutoff goes on from the state the whole read had there:
/// it ends with the whole read's hash, count and card states, and its rows
/// are the whole read's after the cutoff.
#[test]
fn a_read_after_a_cutoff_goes_on_from_the_state_before_it() {
    let rows = history();
    let whole = response(&rows_request(&rows)).unwrap();
    assert_eq!(whole.review_count, 8);
    assert_eq!(whole.packed_rows.len(), 8 * PACKED_WARM_UP_ROW_BYTES);
    for cutoff in 1..rows.len() {
        let before = response(&rows_request(&rows[..cutoff])).unwrap();
        let mut after = rows_request(&rows[cutoff..]);
        after.after_review_id = Some(rows[cutoff - 1].review_id);
        after.counts_before_cutoff = true;
        after.previous_history_hash = before.history_hash.clone();
        after.seed_previous_review_id_cards = before.cards.clone();
        after.seed_previous_review_ids = before.card_previous_review_ids.clone();
        after.seed_previous_interval_cards = before.cards.clone();
        after.seed_previous_interval_days = before.card_previous_interval_days.clone();
        after.seed_review_count_cards = before.cards.clone();
        after.seed_review_counts = before.card_review_counts.clone();
        let after = response(&after).unwrap();
        assert_eq!(after.history_hash, whole.history_hash, "cutoff {cutoff}");
        assert_eq!(after.review_count, whole.review_count, "cutoff {cutoff}");
        assert_eq!(after.last_review_id, whole.last_review_id, "cutoff {cutoff}");
        assert_eq!(after.packed_rows, whole.packed_rows[cutoff * PACKED_WARM_UP_ROW_BYTES..], "cutoff {cutoff}");
    }
}

/// A row the caller could not read as whole numbers is counted and not
/// replayed; a card the caller resolved no preset for has none; the rows up
/// to a cutoff without a stored state are counted, and the cards start
/// afresh after it.
#[test]
fn rows_are_counted_as_python_counted_them() {
    let rows = history();
    let mut request = rows_request(&rows);
    request.encodable[3] = 0;
    request.has_preset = vec![0; request.has_preset.len()];
    let built = response(&request).unwrap();
    assert_eq!(built.review_count, 8);
    assert_eq!(i64_values(&built.review_ids).len(), 7);
    assert!(built.packed_rows.chunks_exact(PACKED_WARM_UP_ROW_BYTES).all(|row| row[0] & 0b100 == 0));

    let mut request = rows_request(&rows);
    request.after_review_id = Some(rows[4].review_id);
    let built = response(&request).unwrap();
    assert_eq!(built.review_count, 8);
    assert_eq!(i64_values(&built.review_ids).len(), 3);
    // the first review of each card after the cutoff has no previous one:
    // its elapsed seconds are the -1 sentinel
    let elapsed_seconds = |row: &[u8]| i64::from_le_bytes(row[70..78].try_into().unwrap());
    assert!(built.packed_rows.chunks_exact(PACKED_WARM_UP_ROW_BYTES).take(2).all(|row| elapsed_seconds(row) == -1));
}

#[test]
fn an_unknown_feature_layout_fails() {
    let rows = history();
    let mut request = rows_request(&rows);
    request.feature_layout = "published-92".into();
    assert!(response(&request).is_ok());
    request.feature_layout = "another-layout".into();
    assert_eq!(response(&request).unwrap_err(), ReplayError::UnknownFeatureLayout);
}

#[test]
fn the_recovery_checkpoint_is_the_state_before_the_first_recent_review() {
    let start = SECOND + 10_000;
    let rows = vec![
        row(start, FIRST, REVIEW, true),
        row(start + DAY, SECOND, REVIEW, true),
        row(start + 20 * DAY, FIRST, REVIEW, false),
        row(start + 21 * DAY, SECOND, REVIEW, false),
    ];
    let mut request = rows_request(&rows);
    request.recovery_checkpoint_max_age_millis = 8 * DAY;
    let built = response(&request).unwrap();
    assert_eq!(built.checkpoint_review_count, 2);
    assert_eq!(built.checkpoint_last_review_id, start + DAY);
    assert_eq!(built.checkpoint_card_count, 2);
    assert_eq!(i64_values(&built.checkpoint_card_review_counts)[0], 1);
    assert_eq!(built.checkpoint_history_hash.len(), 64);
}

/// The reviews of a card that is gone stay in the replay, in review order
/// among the others, with no note, deck or preset.
#[test]
fn a_deleted_cards_reviews_stay_in_the_replay_without_ids() {
    let first = FIRST + 10_000;
    let rows = vec![
        row(first, DELETED, LEARNING, true),
        row(first + 1_000, FIRST, LEARNING, true),
        row(first + 2_000, DELETED, REVIEW, false),
        row(first + 3_000, FIRST, REVIEW, false),
    ];
    let built = response(&rows_request(&rows)).unwrap();
    assert_eq!(built.review_count, 4);
    let packed: Vec<&[u8]> = built.packed_rows.chunks_exact(PACKED_WARM_UP_ROW_BYTES).collect();
    let row_i64 = |row: &[u8], at: usize| i64::from_le_bytes(row[at..at + 8].try_into().unwrap());
    // the card id follows the presence bits; the note, deck and preset ids
    // follow it
    assert_eq!(packed.iter().map(|row| row_i64(row, 4)).collect::<Vec<_>>(), [DELETED, FIRST, DELETED, FIRST]);
    assert_eq!(
        packed.iter().map(|row| u32::from_le_bytes(row[..4].try_into().unwrap()) & 0b111).collect::<Vec<_>>(),
        [0, 0b111, 0, 0b111]
    );
    assert_eq!(packed.iter().map(|row| row_i64(row, 12)).collect::<Vec<_>>(), [0, 10, 0, 10]);
    assert_eq!(packed.iter().map(|row| row_i64(row, 20)).collect::<Vec<_>>(), [0, 1, 0, 1]);
    assert_eq!(row_i64(packed[0], 28), 0);
    assert_eq!(i64_values(&built.cards), [DELETED, FIRST]);
    // the deleted card's second review measures from its first: the elapsed
    // seconds are the row's last int64 before the retentions
    assert_eq!(row_i64(packed[2], 70), 2);
    assert_eq!(u32::from_le_bytes(packed[0][..4].try_into().unwrap()), 0x1f8);
    assert_eq!(u32::from_le_bytes(packed[1][..4].try_into().unwrap()), 0x1ff);
}

#[test]
fn columns_that_are_not_whole_numbers_are_refused() {
    let rows = history();
    let mut request = rows_request(&rows);
    request.review_ids.pop();
    assert_eq!(response(&request).unwrap_err(), ReplayError::ColumnNotInt64s);
    let mut request = rows_request(&rows);
    request.card_ids.truncate(8);
    assert_eq!(response(&request).unwrap_err(), ReplayError::ColumnLength);
    let mut request = rows_request(&rows);
    request.has_preset.pop();
    assert_eq!(response(&request).unwrap_err(), ReplayError::PresetsLength);
    let mut request = rows_request(&rows);
    request.seed_review_count_cards = column([FIRST]);
    assert_eq!(response(&request).unwrap_err(), ReplayError::SeedLength);
    let mut request = rows_request(&rows);
    request.previous_history_hash = b"not a hash".to_vec();
    assert_eq!(response(&request).unwrap_err(), ReplayError::InvalidHistoryHash);
}

fn whole_history_job(rows: Vec<RwkvHistoricalReviewRow>) -> RwkvReplayInputsJob {
    RwkvReplayInputsJob {
        rows,
        active_ignored_review_ids: vec![5],
        days: RwkvReplayDays { days_elapsed: 1_000, next_day_at: (SECOND + 40 * DAY) / 1_000 },
        presets_by_card: None,
        decks: vec![(1, Some(1)), (2, Some(1))],
        presets: vec![1],
        first_review_from_creation: vec![(1, false)],
    }
}

fn whole_history_settings() -> RwkvReplayInputsSettings {
    RwkvReplayInputsSettings {
        first_review_elapsed_source: FirstReviewElapsedSource::Missing,
        first_review_uses_creation_by_config_id: vec![],
        hash_history: false,
        recovery_checkpoint_max_age_millis: 0,
    }
}

#[test]
fn the_whole_history_is_replayed_with_each_cards_preset() {
    let rows: Vec<RwkvHistoricalReviewRow> = history();
    let ids: Vec<i64> = rows.iter().map(|row| row.review_id).collect();
    let response = whole_history_job(rows).encode(&whole_history_settings()).unwrap();
    assert_eq!(i64_values(&response.review_ids), ids);
    assert_eq!(response.active_ignored_review_ids, vec![5]);
    assert!(response.history_hash.is_empty());
    // the deleted card has no preset; the others have their deck's
    assert_eq!(i64_values(&response.cards), vec![FIRST, DELETED, SECOND]);
    assert_eq!(response.card_fsrs_preset_ids, vec![b"1".to_vec(), Vec::new(), b"1".to_vec()]);
}

#[test]
fn the_first_row_that_cannot_be_replayed_decides_the_error() {
    let mut rows = history();
    rows[2].deck_id = Some(9);
    rows[4].review_id = -1;
    assert_eq!(
        whole_history_job(rows).encode(&whole_history_settings()).unwrap_err(),
        ReplayError::DeckNotFound { deck_id: 9 }
    );
    let mut job = whole_history_job(history());
    job.decks = vec![(1, None), (2, Some(1))];
    assert_eq!(job.encode(&whole_history_settings()).unwrap_err(), ReplayError::FilteredHomeDeck { deck_id: 1 });
}
