use vstd::prelude::*;

use crate::rwkv_inputs::columns::column_bytes;
use crate::rwkv_inputs::columns::column_values;
use crate::rwkv_inputs::columns::lemma_column_round_trip;
use crate::rwkv_inputs::columns::i64_column;
use crate::rwkv_inputs::columns::i64_values;
use crate::rwkv_inputs::history_hash::hash_of_history;
use crate::rwkv_inputs::published::days_ok;
use crate::rwkv_inputs::published::id_ok;
use crate::rwkv_inputs::published::spec_packed_row;
use crate::rwkv_inputs::published::PACKED_WARM_UP_ROW_BYTES;
use crate::rwkv_inputs::published::PublishedEncoder;
use crate::rwkv_inputs::published::PublishedReviewInput;
use crate::rwkv_inputs::published::RwkvFirstReviewElapsed;
use crate::rwkv_inputs::published::RwkvReplayDays;
use crate::rwkv_inputs::replay::card_order;
use crate::rwkv_inputs::replay::reported_seed;
use crate::rwkv_inputs::replay::card_state_of;
use crate::rwkv_inputs::replay::state_of;
use crate::rwkv_inputs::replay::records_of;
use crate::rwkv_inputs::replay::replay;
use crate::rwkv_inputs::replay::replay_inputs_ok;
use crate::rwkv_inputs::replay::count_sum;
use crate::rwkv_inputs::replay::rows_counted;
use crate::rwkv_inputs::replay::seed_count;
use crate::rwkv_inputs::replay::row_replayed;
use crate::rwkv_inputs::replay::presets_found;
use crate::rwkv_inputs::replay::own_preset_found;
use crate::rwkv_inputs::replay::record_of_row;
use crate::rwkv_inputs::replay::card_listed;
use crate::rwkv_inputs::replay::card_reviewed;
use crate::rwkv_inputs::replay::newest_row_id;
use crate::rwkv_inputs::replay::lemma_newest_of_records;
use crate::rwkv_inputs::replay::seed_hash_invalid;
use crate::rwkv_inputs::replay::seed_count_negative;
use crate::rwkv_inputs::lookup::first_value;
use crate::rwkv_inputs::bytes::spec_from_hex;
use crate::rwkv_inputs::bytes::spec_hex;
use crate::rwkv_inputs::history_hash::empty_history_hash;
use crate::rwkv_inputs::replay::replayed_rows;
use crate::rwkv_inputs::replay::start_hash;
use crate::rwkv_inputs::replay::RwkvReplay;
use crate::rwkv_inputs::replay::RwkvReplayCardState;
use crate::rwkv_inputs::replay::RwkvReplayRows;
use crate::rwkv_inputs::replay::RwkvReplaySeed;
use crate::rwkv_inputs::replay::RwkvReplaySettings;
use crate::rwkv_inputs::stream::ReplayError;
use crate::rwkv_inputs::stream::RwkvHistoricalPresetRoute;
use crate::rwkv_inputs::stream::RwkvHistoricalReviewRow;
use crate::rwkv_inputs::stream::RwkvStreamPresets;
use vstd::string::StringSliceAdditionalSpecFns;

verus! {

/// The input layout a model reads. Each has its own encoder.
#[derive(Clone, Copy, Debug, PartialEq, Eq, Structural)]
pub enum RwkvFeatureLayout {
    /// Today's published model: 92 input features.
    Published92,
}

/// The layout's name, in ASCII.
pub open spec fn published_92_tag() -> Seq<u8> {
    seq![112u8, 117, 98, 108, 105, 115, 104, 101, 100, 45, 57, 50]
}

impl RwkvFeatureLayout {
    /// The layout of a tag; the empty tag is today's published layout.
    pub fn from_tag(tag: &str) -> (layout: Result<RwkvFeatureLayout, ReplayError>)
        ensures
            layout == if tag.spec_bytes().len() == 0 || tag.spec_bytes() == published_92_tag() {
                Ok::<RwkvFeatureLayout, ReplayError>(RwkvFeatureLayout::Published92)
            } else {
                Err::<RwkvFeatureLayout, ReplayError>(ReplayError::UnknownFeatureLayout)
            },
    {
        let bytes = tag.as_bytes();
        if bytes.len() == 0 {
            return Ok(RwkvFeatureLayout::Published92);
        }
        let expected: [u8; 12] = [112, 117, 98, 108, 105, 115, 104, 101, 100, 45, 57, 50];
        proof {
            assert(expected@ =~= published_92_tag());
        }
        if bytes.len() != 12 {
            return Err(ReplayError::UnknownFeatureLayout);
        }
        let mut i: usize = 0;
        while i < 12
            invariant
                i <= 12,
                bytes@.len() == 12,
                bytes@ == tag.spec_bytes(),
                expected@ == published_92_tag(),
                forall|j: int| 0 <= j < i ==> bytes@[j] == expected@[j],
            decreases 12 - i,
        {
            if bytes[i] != expected[i] {
                proof {
                    assert(bytes@[i as int] != published_92_tag()[i as int]);
                }
                return Err(ReplayError::UnknownFeatureLayout);
            }
            i = i + 1;
        }
        proof {
            assert(bytes@ =~= published_92_tag());
        }
        Ok(RwkvFeatureLayout::Published92)
    }
}

/// What a replay answers, as columns of little-endian 64-bit numbers.
#[derive(Clone, Debug)]
pub struct RwkvHistoricalReviewInputsResponse {
    pub last_review_id: i64,
    pub review_count: u64,
    /// Empty where the history was not hashed.
    pub history_hash: Vec<u8>,
    pub packed_rows: Vec<u8>,
    pub review_ids: Vec<u8>,
    pub review_kinds: Vec<u8>,
    pub interval_days: Vec<u8>,
    pub ease_factors: Vec<u8>,
    pub cards: Vec<u8>,
    pub card_previous_review_ids: Vec<u8>,
    pub card_previous_interval_days: Vec<u8>,
    pub card_review_counts: Vec<u8>,
    pub checkpoint_review_count: u64,
    pub checkpoint_last_review_id: i64,
    pub checkpoint_history_hash: Vec<u8>,
    pub checkpoint_card_count: u64,
    pub checkpoint_card_previous_review_ids: Vec<u8>,
    pub checkpoint_card_previous_interval_days: Vec<u8>,
    pub checkpoint_card_review_counts: Vec<u8>,
    pub active_ignored_review_ids: Vec<i64>,
    pub card_fsrs_preset_ids: Vec<Vec<u8>>,
}

/// The packed rows of the reviews, one after another.
pub open spec fn packed_rows(reviews: Seq<PublishedReviewInput>) -> Seq<u8>
    decreases reviews.len(),
{
    if reviews.len() == 0 {
        seq![]
    } else {
        packed_rows(reviews.drop_last()) + spec_packed_row(reviews.last())
    }
}

/// Each review packs into one row of its fixed size.
pub proof fn lemma_packed_rows_len(reviews: Seq<PublishedReviewInput>)
    ensures
        packed_rows(reviews).len() == PACKED_WARM_UP_ROW_BYTES * reviews.len(),
    decreases reviews.len(),
{
    if reviews.len() > 0 {
        lemma_packed_rows_len(reviews.drop_last());
        assert(spec_packed_row(reviews.last()).len() == 95);
    }
}

/// Which of a card's states a column holds.
#[derive(Clone, Copy, Debug, PartialEq, Eq, Structural)]
pub enum CardField {
    CardId,
    PreviousReviewId,
    PreviousIntervalDays,
    ReviewCount,
}

pub open spec fn card_field(card: RwkvReplayCardState, field: CardField) -> i64 {
    match field {
        CardField::CardId => card.card_id,
        CardField::PreviousReviewId => card.previous_review_id,
        CardField::PreviousIntervalDays => card.previous_interval_days,
        CardField::ReviewCount => card.review_count,
    }
}

fn card_column(cards: &Vec<RwkvReplayCardState>, field: CardField) -> (column: Vec<u8>)
    ensures
        column@ == column_bytes(Seq::new(cards@.len(), |i: int| card_field(cards@[i], field))),
{
    let mut values: Vec<i64> = Vec::new();
    let mut i: usize = 0;
    while i < cards.len()
        invariant
            i <= cards@.len(),
            values@.len() == i,
            forall|j: int| 0 <= j < i ==> #[trigger] values@[j] == card_field(cards@[j], field),
        decreases cards@.len() - i,
    {
        let card = cards[i];
        values.push(
            match field {
                CardField::CardId => card.card_id,
                CardField::PreviousReviewId => card.previous_review_id,
                CardField::PreviousIntervalDays => card.previous_interval_days,
                CardField::ReviewCount => card.review_count,
            },
        );
        i = i + 1;
    }
    proof {
        assert(values@ =~= Seq::new(cards@.len(), |i: int| card_field(cards@[i], field)));
    }
    i64_column(&values)
}

fn log_column(log: &Vec<[i64; 3]>, index: usize) -> (column: Vec<u8>)
    requires
        index < 3,
    ensures
        column@ == column_bytes(Seq::new(log@.len(), |i: int| log@[i]@[index as int])),
{
    let mut values: Vec<i64> = Vec::new();
    let mut i: usize = 0;
    while i < log.len()
        invariant
            index < 3,
            i <= log@.len(),
            values@.len() == i,
            forall|j: int| 0 <= j < i ==> #[trigger] values@[j] == log@[j]@[index as int],
        decreases log@.len() - i,
    {
        values.push(log[i][index]);
        i = i + 1;
    }
    proof {
        assert(values@ =~= Seq::new(log@.len(), |i: int| log@[i]@[index as int]));
    }
    i64_column(&values)
}

/// The response of a replay, without the fields only a read of the
/// collection knows (the active ignored reviews, the cards' presets).
pub fn inputs_response(replay: &RwkvReplay) -> (response: RwkvHistoricalReviewInputsResponse)
    ensures
        response.last_review_id == replay.last_review_id,
        response.review_count == replay.review_count,
        response.history_hash@ == match replay.history_hash {
            Some(h) => h@,
            None => Seq::<u8>::empty(),
        },
        response.packed_rows@ == packed_rows(replay.reviews@),
        response.review_ids@ == column_bytes(Seq::new(replay.reviews@.len(), |i: int| replay.reviews@[i].review_id)),
        response.cards@ == column_bytes(Seq::new(replay.cards@.len(), |i: int| replay.cards@[i].card_id)),
        response.review_kinds@ == column_bytes(Seq::new(replay.review_log@.len(), |i: int| replay.review_log@[i]@[0])),
        response.interval_days@ == column_bytes(Seq::new(replay.review_log@.len(), |i: int| replay.review_log@[i]@[1])),
        response.ease_factors@ == column_bytes(Seq::new(replay.review_log@.len(), |i: int| replay.review_log@[i]@[2])),
        replay.checkpoint is None ==> response.checkpoint_review_count == 0 && response.checkpoint_card_count == 0,
        response.card_previous_review_ids@ == column_bytes(
            Seq::new(replay.cards@.len(), |i: int| card_field(replay.cards@[i], CardField::PreviousReviewId)),
        ),
        response.card_previous_interval_days@ == column_bytes(
            Seq::new(replay.cards@.len(), |i: int| card_field(replay.cards@[i], CardField::PreviousIntervalDays)),
        ),
        response.card_review_counts@ == column_bytes(
            Seq::new(replay.cards@.len(), |i: int| card_field(replay.cards@[i], CardField::ReviewCount)),
        ),
{
    let reviews = &replay.reviews;
    let mut packed: Vec<u8> = Vec::new();
    let mut ids: Vec<i64> = Vec::new();
    let mut i: usize = 0;
    while i < reviews.len()
        invariant
            i <= reviews@.len(),
            packed@ == packed_rows(reviews@.subrange(0, i as int)),
            ids@.len() == i,
            forall|j: int| 0 <= j < i ==> #[trigger] ids@[j] == reviews@[j].review_id,
        decreases reviews@.len() - i,
    {
        reviews[i].write_packed_row(&mut packed);
        ids.push(reviews[i].review_id);
        proof {
            assert(reviews@.subrange(0, i + 1 as int).drop_last() =~= reviews@.subrange(0, i as int));
        }
        i = i + 1;
    }
    proof {
        assert(reviews@.subrange(0, reviews@.len() as int) =~= reviews@);
        assert(ids@ =~= Seq::new(replay.reviews@.len(), |i: int| replay.reviews@[i].review_id));
    }
    let cards_column = card_column(&replay.cards, CardField::CardId);
    proof {
        assert(Seq::new(replay.cards@.len(), |i: int| card_field(replay.cards@[i], CardField::CardId)) =~= Seq::new(
            replay.cards@.len(),
            |i: int| replay.cards@[i].card_id,
        ));
    }
    let mut response = RwkvHistoricalReviewInputsResponse {
        last_review_id: replay.last_review_id,
        review_count: replay.review_count,
        history_hash: match &replay.history_hash {
            Some(h) => copy_bytes(h),
            None => Vec::new(),
        },
        packed_rows: packed,
        review_ids: i64_column(&ids),
        review_kinds: log_column(&replay.review_log, 0),
        interval_days: log_column(&replay.review_log, 1),
        ease_factors: log_column(&replay.review_log, 2),
        cards: cards_column,
        card_previous_review_ids: card_column(&replay.cards, CardField::PreviousReviewId),
        card_previous_interval_days: card_column(&replay.cards, CardField::PreviousIntervalDays),
        card_review_counts: card_column(&replay.cards, CardField::ReviewCount),
        checkpoint_review_count: 0,
        checkpoint_last_review_id: 0,
        checkpoint_history_hash: Vec::new(),
        checkpoint_card_count: 0,
        checkpoint_card_previous_review_ids: Vec::new(),
        checkpoint_card_previous_interval_days: Vec::new(),
        checkpoint_card_review_counts: Vec::new(),
        active_ignored_review_ids: Vec::new(),
        card_fsrs_preset_ids: Vec::new(),
    };
    if let Some(checkpoint) = &replay.checkpoint {
        response.checkpoint_review_count = checkpoint.review_count as u64;
        response.checkpoint_last_review_id = checkpoint.last_review_id;
        response.checkpoint_history_hash = copy_bytes(&checkpoint.history_hash);
        response.checkpoint_card_count = checkpoint.cards.len() as u64;
        response.checkpoint_card_previous_review_ids = card_column(&checkpoint.cards, CardField::PreviousReviewId);
        response.checkpoint_card_previous_interval_days = card_column(
            &checkpoint.cards,
            CardField::PreviousIntervalDays,
        );
        response.checkpoint_card_review_counts = card_column(&checkpoint.cards, CardField::ReviewCount);
    }
    response
}

/// A copy of a list of flags by id.
fn copy_flags(flags: &Vec<(i64, bool)>) -> (copy: Vec<(i64, bool)>)
    ensures
        copy@ == flags@,
{
    let mut copy: Vec<(i64, bool)> = Vec::new();
    let mut i: usize = 0;
    while i < flags.len()
        invariant
            i <= flags@.len(),
            copy@ == flags@.take(i as int),
        decreases flags@.len() - i,
    {
        copy.push(flags[i]);
        proof {
            assert(flags@.take(i + 1) =~= flags@.take(i as int).push(flags@[i as int]));
        }
        i = i + 1;
    }
    proof {
        assert(flags@.take(i as int) =~= flags@);
    }
    copy
}

/// A copy of some bytes.
pub fn copy_bytes(bytes: &Vec<u8>) -> (copy: Vec<u8>)
    ensures
        copy@ == bytes@,
{
    let mut copy: Vec<u8> = Vec::new();
    let mut i: usize = 0;
    while i < bytes.len()
        invariant
            i <= bytes@.len(),
            copy@ == bytes@.subrange(0, i as int),
        decreases bytes@.len() - i,
    {
        copy.push(bytes[i]);
        proof {
            assert(bytes@.subrange(0, i + 1 as int) =~= copy@);
        }
        i = i + 1;
    }
    proof {
        assert(bytes@.subrange(0, bytes@.len() as int) =~= copy@);
    }
    copy
}

/// Where the first review of a card measures its elapsed time from, as a
/// request names it.
#[derive(Clone, Copy, Debug, PartialEq, Eq, Structural)]
pub enum FirstReviewElapsedSource {
    DeckConfig,
    CardCreation,
    Missing,
}

/// A route as a request holds it; its card ids are a column.
#[derive(Clone, Debug)]
pub struct RouteRequest {
    pub stable_preset_id: i64,
    pub has_card_ids: bool,
    pub card_ids: Vec<u8>,
    pub min_reps: Option<i64>,
    pub max_reps: Option<i64>,
    pub min_interval_days: Option<i64>,
    pub max_interval_days: Option<i64>,
}

/// Rows the caller read itself, as columns of little-endian 64-bit numbers
/// and of flags (a byte each, nonzero for true), with how to replay them.
#[derive(Clone, Debug)]
pub struct RwkvReplayInputsFromRowsRequest {
    pub feature_layout: String,
    pub review_ids: Vec<u8>,
    pub card_ids: Vec<u8>,
    pub note_ids: Vec<u8>,
    pub deck_ids: Vec<u8>,
    pub eases: Vec<u8>,
    pub durations_millis: Vec<u8>,
    pub review_kinds: Vec<u8>,
    pub interval_days: Vec<u8>,
    pub ease_factors: Vec<u8>,
    pub learning_starts: Vec<u8>,
    pub has_note: Vec<u8>,
    pub has_deck: Vec<u8>,
    pub encodable: Vec<u8>,
    pub preset_card_ids: Vec<u8>,
    pub preset_ids: Vec<u8>,
    pub has_preset: Vec<u8>,
    pub routes: Vec<RouteRequest>,
    pub seed_previous_review_id_cards: Vec<u8>,
    pub seed_previous_review_ids: Vec<u8>,
    pub seed_previous_interval_cards: Vec<u8>,
    pub seed_previous_interval_days: Vec<u8>,
    pub seed_review_count_cards: Vec<u8>,
    pub seed_review_counts: Vec<u8>,
    pub previous_history_hash: Vec<u8>,
    pub counts_before_cutoff: bool,
    pub hash_history: bool,
    pub recovery_checkpoint_max_age_millis: i64,
    pub after_review_id: Option<i64>,
    pub days_elapsed: i64,
    pub next_day_at: i64,
    pub first_review_elapsed_source: FirstReviewElapsedSource,
    pub first_review_uses_creation_by_deck_id: Vec<(i64, bool)>,
}

/// The values of a column that holds whole 64-bit numbers.
fn int64s(column: &Vec<u8>) -> (values: Result<Vec<i64>, ReplayError>)
    ensures
        match values {
            Ok(v) => column@.len() % 8 == 0 && v@ == column_values(column@),
            Err(e) => column@.len() % 8 != 0 && e == ReplayError::ColumnNotInt64s,
        },
{
    if column.len() % 8 != 0 {
        return Err(ReplayError::ColumnNotInt64s);
    }
    Ok(i64_values(column.as_slice()))
}

/// A column that holds one value per review.
fn review_column(column: &Vec<u8>, count: usize) -> (values: Result<Vec<i64>, ReplayError>)
    ensures
        match values {
            Ok(v) => column@.len() % 8 == 0 && v@ == column_values(column@) && v@.len() == count,
            Err(e) => if column@.len() % 8 != 0 {
                e == ReplayError::ColumnNotInt64s
            } else {
                column@.len() / 8 != count && e == ReplayError::ColumnLength
            },
        },
        column@.len() % 8 == 0 && column@.len() / 8 == count ==> values is Ok,
{
    let values = match int64s(column) {
        Ok(v) => v,
        Err(e) => {
            return Err(e);
        },
    };
    if values.len() != count {
        return Err(ReplayError::ColumnLength);
    }
    Ok(values)
}

/// A seed's cards paired with their values.
fn seed_pairs(cards: &Vec<u8>, values: &Vec<u8>) -> (pairs: Result<Vec<(i64, i64)>, ReplayError>)
    ensures
        match pairs {
            Ok(p) => seed_columns_ok(cards@, values@) && p@.len() == column_values(cards@).len() && p@.len()
                == column_values(values@).len() && forall|i: int|
                0 <= i < p@.len() ==> (#[trigger] p@[i]).0 == column_values(cards@)[i] && p@[i].1 == column_values(
                    values@,
                )[i],
            Err(e) => if cards@.len() % 8 != 0 || values@.len() % 8 != 0 {
                e == ReplayError::ColumnNotInt64s
            } else {
                cards@.len() / 8 != values@.len() / 8 && e == ReplayError::SeedLength
            },
        },
        cards@.len() % 8 == 0 && values@.len() % 8 == 0 && cards@.len() == values@.len() ==> pairs is Ok,
{
    let cards = match int64s(cards) {
        Ok(v) => v,
        Err(e) => {
            return Err(e);
        },
    };
    let values = match int64s(values) {
        Ok(v) => v,
        Err(e) => {
            return Err(e);
        },
    };
    if cards.len() != values.len() {
        return Err(ReplayError::SeedLength);
    }
    let mut pairs: Vec<(i64, i64)> = Vec::new();
    let mut i: usize = 0;
    while i < cards.len()
        invariant
            i <= cards@.len(),
            cards@.len() == values@.len(),
            pairs@.len() == i,
            forall|j: int| 0 <= j < i ==> (#[trigger] pairs@[j]).0 == cards@[j] && pairs@[j].1 == values@[j],
        decreases cards@.len() - i,
    {
        pairs.push((cards[i], values[i]));
        i = i + 1;
    }
    Ok(pairs)
}

/// The rows a request's columns describe.
pub open spec fn request_rows(input: RwkvReplayInputsFromRowsRequest) -> Seq<RwkvHistoricalReviewRow> {
    Seq::new(
        column_values(input.review_ids@).len(),
        |i: int|
            RwkvHistoricalReviewRow {
                review_id: column_values(input.review_ids@)[i],
                card_id: column_values(input.card_ids@)[i],
                note_id: if input.has_note@[i] != 0 { Some(column_values(input.note_ids@)[i]) } else { None },
                deck_id: if input.has_deck@[i] != 0 { Some(column_values(input.deck_ids@)[i]) } else { None },
                ease: column_values(input.eases@)[i],
                duration_millis: column_values(input.durations_millis@)[i],
                review_kind: column_values(input.review_kinds@)[i],
                interval_days: column_values(input.interval_days@)[i],
                ease_factor: column_values(input.ease_factors@)[i],
                is_learning_start: input.learning_starts@[i] != 0,
            },
    )
}

/// The request names a layout there is an encoder for.
pub open spec fn layout_known(input: RwkvReplayInputsFromRowsRequest) -> bool {
    let tag = vstd::utf8::encode_utf8(input.feature_layout@);
    tag.len() == 0 || tag == published_92_tag()
}

/// A column of whole 64-bit numbers, one for each of `count` reviews.
pub open spec fn review_column_ok(column: Seq<u8>, count: int) -> bool {
    column.len() % 8 == 0 && column.len() / 8 == count
}

/// A seed's columns of cards and values: whole 64-bit numbers, as many of
/// each.
pub open spec fn seed_columns_ok(cards: Seq<u8>, values: Seq<u8>) -> bool {
    cards.len() % 8 == 0 && values.len() % 8 == 0 && cards.len() == values.len()
}

/// Every column of the request has its shape: a known layout, whole 64-bit
/// numbers one per review (flags one byte per review), as many presets as
/// preset cards, routes with whole card columns, and seeds in pairs.
pub open spec fn request_columns_ok(input: RwkvReplayInputsFromRowsRequest) -> bool {
    let n = (input.review_ids@.len() / 8) as int;
    &&& layout_known(input)
    &&& input.review_ids@.len() % 8 == 0
    &&& review_column_ok(input.card_ids@, n)
    &&& review_column_ok(input.note_ids@, n)
    &&& review_column_ok(input.deck_ids@, n)
    &&& review_column_ok(input.eases@, n)
    &&& review_column_ok(input.durations_millis@, n)
    &&& review_column_ok(input.review_kinds@, n)
    &&& review_column_ok(input.interval_days@, n)
    &&& review_column_ok(input.ease_factors@, n)
    &&& input.learning_starts@.len() == n && input.has_note@.len() == n
    &&& input.has_deck@.len() == n && input.encodable@.len() == n
    &&& input.preset_card_ids@.len() % 8 == 0 && input.preset_ids@.len() % 8 == 0
    &&& input.preset_ids@.len() == input.preset_card_ids@.len()
    &&& input.has_preset@.len() == input.preset_card_ids@.len() / 8
    &&& forall|r: int|
        0 <= r < input.routes@.len() && (#[trigger] input.routes@[r]).has_card_ids ==> input.routes@[r].card_ids@.len() % 8
            == 0
    &&& seed_columns_ok(input.seed_previous_review_id_cards@, input.seed_previous_review_ids@)
    &&& seed_columns_ok(input.seed_previous_interval_cards@, input.seed_previous_interval_days@)
    &&& seed_columns_ok(input.seed_review_count_cards@, input.seed_review_counts@)
}

/// Each preset card of the request with its stable preset id, none where
/// the caller resolved none.
pub open spec fn request_presets(input: RwkvReplayInputsFromRowsRequest) -> Seq<(i64, Option<i64>)> {
    Seq::new(
        column_values(input.preset_card_ids@).len(),
        |p: int|
            (
                column_values(input.preset_card_ids@)[p],
                if input.has_preset@[p] != 0 {
                    Some(column_values(input.preset_ids@)[p])
                } else {
                    None
                },
            ),
    )
}

/// The seed's cards paired with their values.
pub open spec fn seed_pairs_of(cards: Seq<u8>, values: Seq<u8>) -> Seq<(i64, i64)> {
    Seq::new(column_values(cards).len(), |i: int| (column_values(cards)[i], column_values(values)[i]))
}

/// Which rows the request lets the replay encode.
pub open spec fn request_flags(input: RwkvReplayInputsFromRowsRequest) -> Seq<bool> {
    Seq::new(request_rows(input).len(), |i: int| input.encodable@[i] != 0)
}

/// The request's seed history hash is refused: hashing, with a seed hash
/// that is not 64 hexadecimal digits.
pub open spec fn request_seed_hash_invalid(input: RwkvReplayInputsFromRowsRequest) -> bool {
    input.hash_history && input.previous_history_hash@.len() != 0 && (input.previous_history_hash@.len() != 64
        || spec_from_hex(input.previous_history_hash@) is None)
}

/// A read that goes on from a cutoff, counting the reviews before it, has
/// seed counts summing below zero.
pub open spec fn request_count_negative(input: RwkvReplayInputsFromRowsRequest) -> bool {
    input.after_review_id is Some && input.counts_before_cutoff && count_sum(
        seed_pairs_of(input.seed_review_count_cards@, input.seed_review_counts@),
    ) < 0
}

/// The history hash a request's read goes on from: its seed hash, else the
/// hash of an empty history.
pub open spec fn request_start_hash(input: RwkvReplayInputsFromRowsRequest) -> Seq<u8> {
    if input.previous_history_hash@.len() == 0 {
        empty_history_hash()
    } else {
        spec_from_hex(input.previous_history_hash@)->0
    }
}

/// The first-review setting the request's records are encoded under.
pub open spec fn request_source(input: RwkvReplayInputsFromRowsRequest, source: RwkvFirstReviewElapsed) -> bool {
    match input.first_review_elapsed_source {
        FirstReviewElapsedSource::DeckConfig => source matches RwkvFirstReviewElapsed::ByDeck(v) && v@
            == input.first_review_uses_creation_by_deck_id@,
        FirstReviewElapsedSource::CardCreation => source == RwkvFirstReviewElapsed::CardCreation,
        FirstReviewElapsedSource::Missing => source == RwkvFirstReviewElapsed::Missing,
    }
}

/// The state a request's replay reports for a card: what its rows and its
/// seed say of it.
pub open spec fn request_card_state(
    input: RwkvReplayInputsFromRowsRequest,
    replayed: Seq<RwkvHistoricalReviewRow>,
    card_id: i64,
) -> RwkvReplayCardState {
    state_of(
        card_id,
        card_state_of(
            seed_pairs_of(input.seed_previous_review_id_cards@, input.seed_previous_review_ids@),
            seed_pairs_of(input.seed_previous_interval_cards@, input.seed_previous_interval_days@),
            seed_pairs_of(input.seed_review_count_cards@, input.seed_review_counts@),
            replayed,
            card_id,
        ),
    )
}

/// The seed columns a read of `head` from no seed reports (its cards and,
/// beside them, each card's previous review ids, previous intervals or
/// review counts) give back, read as pairs, the seed that read reports: a
/// read that goes on from them goes on from the state after `head`.
pub proof fn lemma_reported_columns_are_the_seed(head: Seq<RwkvHistoricalReviewRow>, field: int)
    requires
        0 <= field <= 2,
    ensures
        seed_pairs_of(
            column_bytes(card_order(head)),
            column_bytes(
                Seq::new(
                    card_order(head).len(),
                    |k: int|
                        {
                            let s = state_of(
                                card_order(head)[k],
                                card_state_of(Seq::empty(), Seq::empty(), Seq::empty(), head, card_order(head)[k]),
                            );
                            if field == 0 {
                                s.previous_review_id
                            } else if field == 1 {
                                s.previous_interval_days
                            } else {
                                s.review_count
                            }
                        },
                ),
            ),
        ) == reported_seed(head, field),
{
    let order = card_order(head);
    let values = Seq::new(
        order.len(),
        |k: int|
            {
                let s = state_of(order[k], card_state_of(Seq::empty(), Seq::empty(), Seq::empty(), head, order[k]));
                if field == 0 {
                    s.previous_review_id
                } else if field == 1 {
                    s.previous_interval_days
                } else {
                    s.review_count
                }
            },
    );
    lemma_column_round_trip(order);
    lemma_column_round_trip(values);
    assert(seed_pairs_of(column_bytes(order), column_bytes(values)) =~= reported_seed(head, field));
}

/// The reviews before the cutoff that the request's seed counts.
pub open spec fn request_seed_count(input: RwkvReplayInputsFromRowsRequest) -> int {
    if input.after_review_id is Some && input.counts_before_cutoff {
        count_sum(seed_pairs_of(input.seed_review_count_cards@, input.seed_review_counts@))
    } else {
        0
    }
}

/// Every row the request replays that belongs to a deck has an entry among
/// the preset cards.
pub open spec fn request_presets_found(input: RwkvReplayInputsFromRowsRequest) -> bool {
    forall|i: int|
        0 <= i < request_rows(input).len() && #[trigger] row_replayed(
            request_rows(input)[i],
            i,
            Some(request_flags(input)),
            input.after_review_id,
        ) && request_rows(input)[i].deck_id is Some ==> first_value(request_presets(input), request_rows(input)[i].card_id)
            is Some
}

/// The request can be answered: its columns have their shapes, its seed
/// is sound, and every replayed row of a deck finds its card's preset.
pub open spec fn request_answerable(input: RwkvReplayInputsFromRowsRequest) -> bool {
    &&& request_columns_ok(input)
    &&& !request_seed_hash_invalid(input)
    &&& !request_count_negative(input)
    &&& request_presets_found(input)
}

/// The numbers of a request stay far from the ends of the integers: its
/// ids, days, counts and ages.
pub open spec fn request_ok(input: RwkvReplayInputsFromRowsRequest) -> bool {
    let rows = request_rows(input);
    &&& days_ok(RwkvReplayDays { days_elapsed: input.days_elapsed, next_day_at: input.next_day_at })
    &&& forall|i: int|
        0 <= i < rows.len() ==> id_ok((#[trigger] rows[i]).review_id) && id_ok(rows[i].card_id)
            && rows[i].review_kind < i64::MAX
    &&& forall|i: int|
        0 <= i < column_values(input.seed_previous_review_ids@).len() ==> id_ok(
            #[trigger] column_values(input.seed_previous_review_ids@)[i],
        )
    &&& forall|i: int|
        0 <= i < column_values(input.seed_review_counts@).len() ==> -0x8000_0000 < #[trigger] column_values(
            input.seed_review_counts@,
        )[i] < 0x8000_0000
    &&& column_values(input.seed_review_count_cards@).len() < 0x8000_0000
    &&& input.recovery_checkpoint_max_age_millis < 0x1000_0000_0000_0000
    &&& input.after_review_id matches Some(a) ==> id_ok(a)
}

/// The replay inputs of rows the caller read itself, encoded as the whole
/// history's are: the columns are checked (each whole 64-bit numbers, one
/// per review, flags too), the rows replayed from the seed, and the replay
/// answered as columns.
#[verifier::rlimit(60)]
#[verifier::spinoff_prover]
pub fn rwkv_replay_inputs_from_rows(input: &RwkvReplayInputsFromRowsRequest) -> (response: Result<RwkvHistoricalReviewInputsResponse, ReplayError>)
    requires
        request_ok(*input),
    ensures
        !layout_known(*input) ==> response == Err::<
            RwkvHistoricalReviewInputsResponse,
            ReplayError,
        >(ReplayError::UnknownFeatureLayout),
        layout_known(*input) && input.review_ids@.len() % 8 != 0
            ==> response == Err::<RwkvHistoricalReviewInputsResponse, ReplayError>(ReplayError::ColumnNotInt64s),
        match response {
            Ok(r) => {
                let rows = request_rows(*input);
                let flags = Seq::new(rows.len(), |i: int| input.encodable@[i] != 0);
                let replayed = replayed_rows(rows, Some(flags), input.after_review_id, rows.len());
                &&& request_columns_ok(*input)
                &&& !request_seed_hash_invalid(*input)
                &&& !request_count_negative(*input)
                &&& r.review_count == request_seed_count(*input) + rows_counted(
                    rows,
                    Some(flags),
                    input.after_review_id,
                    rows.len(),
                )
                &&& r.review_ids@ == column_bytes(Seq::new(replayed.len(), |k: int| replayed[k].review_id))
                &&& !input.hash_history ==> r.history_hash@.len() == 0
                &&& input.hash_history ==> r.history_hash@.len() == 64
                &&& r.packed_rows@.len() == PACKED_WARM_UP_ROW_BYTES * replayed.len()
                &&& exists|records: Seq<PublishedReviewInput>, source: RwkvFirstReviewElapsed|
                    #![trigger packed_rows(records), request_source(*input, source)]
                    packed_rows(records) == r.packed_rows@ && request_source(*input, source) && records_of(
                        records,
                        replayed,
                        seed_pairs_of(input.seed_previous_review_id_cards@, input.seed_previous_review_ids@),
                        seed_pairs_of(input.seed_previous_interval_cards@, input.seed_previous_interval_days@),
                        seed_pairs_of(input.seed_review_count_cards@, input.seed_review_counts@),
                        source,
                        RwkvReplayDays { days_elapsed: input.days_elapsed, next_day_at: input.next_day_at },
                    ) && (forall|k: int|
                        0 <= k < records.len() ==> record_of_row(
                            #[trigger] records[k],
                            replayed[k],
                            RwkvReplayDays { days_elapsed: input.days_elapsed, next_day_at: input.next_day_at },
                        )) && (input.hash_history ==> r.history_hash@ == spec_hex(
                        hash_of_history(request_start_hash(*input), records),
                    ))
                &&& r.cards@ == column_bytes(card_order(replayed))
                &&& r.card_previous_review_ids@ == column_bytes(
                    Seq::new(card_order(replayed).len(), |k: int| request_card_state(*input, replayed, card_order(replayed)[k]).previous_review_id),
                )
                &&& r.card_previous_interval_days@ == column_bytes(
                    Seq::new(card_order(replayed).len(), |k: int| request_card_state(*input, replayed, card_order(replayed)[k]).previous_interval_days),
                )
                &&& r.card_review_counts@ == column_bytes(
                    Seq::new(card_order(replayed).len(), |k: int| request_card_state(*input, replayed, card_order(replayed)[k]).review_count),
                )
                &&& r.last_review_id == newest_row_id(
                    match input.after_review_id {
                        Some(a) => a,
                        None => 0,
                    },
                    replayed,
                )
                &&& r.review_kinds@ == column_bytes(Seq::new(replayed.len(), |k: int| replayed[k].review_kind))
                &&& r.interval_days@ == column_bytes(Seq::new(replayed.len(), |k: int| replayed[k].interval_days))
                &&& r.ease_factors@ == column_bytes(Seq::new(replayed.len(), |k: int| replayed[k].ease_factor))
                &&& exists|ids: Seq<i64>|
                    #[trigger] column_bytes(ids) == r.cards@ && (forall|a: int, b: int|
                        0 <= a < b < ids.len() ==> ids[a] != ids[b]) && (forall|k: int|
                        0 <= k < replayed.len() ==> ids.contains(#[trigger] replayed[k].card_id)) && (forall|m: int|
                        #![trigger ids[m]]
                        0 <= m < ids.len() ==> exists|k: int| 0 <= k < replayed.len() && #[trigger] replayed[k].card_id == ids[m])
            },
            Err(_) => !request_answerable(*input),
        },
        request_answerable(*input) ==> response is Ok,
{
    match RwkvFeatureLayout::from_tag(input.feature_layout.as_str()) {
        Ok(_) => {},
        Err(e) => {
            return Err(e);
        },
    }
    let review_ids = match int64s(&input.review_ids) {
        Ok(v) => v,
        Err(e) => {
            return Err(e);
        },
    };
    let count = review_ids.len();
    let card_ids = match review_column(&input.card_ids, count) { Ok(v) => v, Err(e) => { return Err(e); } };
    let note_ids = match review_column(&input.note_ids, count) { Ok(v) => v, Err(e) => { return Err(e); } };
    let deck_ids = match review_column(&input.deck_ids, count) { Ok(v) => v, Err(e) => { return Err(e); } };
    let eases = match review_column(&input.eases, count) { Ok(v) => v, Err(e) => { return Err(e); } };
    let durations = match review_column(&input.durations_millis, count) { Ok(v) => v, Err(e) => { return Err(e); } };
    let kinds = match review_column(&input.review_kinds, count) { Ok(v) => v, Err(e) => { return Err(e); } };
    let intervals = match review_column(&input.interval_days, count) { Ok(v) => v, Err(e) => { return Err(e); } };
    let ease_factors = match review_column(&input.ease_factors, count) { Ok(v) => v, Err(e) => { return Err(e); } };
    if input.learning_starts.len() != count || input.has_note.len() != count || input.has_deck.len() != count
        || input.encodable.len() != count {
        return Err(ReplayError::ColumnLength);
    }
    let mut rows: Vec<RwkvHistoricalReviewRow> = Vec::new();
    let mut encodable: Vec<bool> = Vec::new();
    let mut i: usize = 0;
    while i < count
        invariant
            i <= count,
            count == review_ids@.len(),
            review_ids@ == column_values(input.review_ids@),
            card_ids@ == column_values(input.card_ids@),
            note_ids@ == column_values(input.note_ids@),
            deck_ids@ == column_values(input.deck_ids@),
            eases@ == column_values(input.eases@),
            durations@ == column_values(input.durations_millis@),
            kinds@ == column_values(input.review_kinds@),
            intervals@ == column_values(input.interval_days@),
            ease_factors@ == column_values(input.ease_factors@),
            card_ids@.len() == count && note_ids@.len() == count && deck_ids@.len() == count,
            eases@.len() == count && durations@.len() == count && kinds@.len() == count,
            intervals@.len() == count && ease_factors@.len() == count,
            input.learning_starts@.len() == count && input.has_note@.len() == count,
            input.has_deck@.len() == count && input.encodable@.len() == count,
            rows@.len() == i,
            encodable@.len() == i,
            forall|j: int| 0 <= j < i ==> #[trigger] rows@[j] == request_rows(*input)[j],
            forall|j: int| 0 <= j < i ==> #[trigger] encodable@[j] == (input.encodable@[j] != 0),
        decreases count - i,
    {
        rows.push(
            RwkvHistoricalReviewRow {
                review_id: review_ids[i],
                card_id: card_ids[i],
                note_id: if input.has_note[i] != 0 { Some(note_ids[i]) } else { None },
                deck_id: if input.has_deck[i] != 0 { Some(deck_ids[i]) } else { None },
                ease: eases[i],
                duration_millis: durations[i],
                review_kind: kinds[i],
                interval_days: intervals[i],
                ease_factor: ease_factors[i],
                is_learning_start: input.learning_starts[i] != 0,
            },
        );
        encodable.push(input.encodable[i] != 0);
        i = i + 1;
    }
    proof {
        assert(rows@ =~= request_rows(*input));
    }
    let preset_card_ids = match int64s(&input.preset_card_ids) { Ok(v) => v, Err(e) => { return Err(e); } };
    let preset_ids = match int64s(&input.preset_ids) { Ok(v) => v, Err(e) => { return Err(e); } };
    if preset_ids.len() != preset_card_ids.len() || input.has_preset.len() != preset_card_ids.len() {
        return Err(ReplayError::PresetsLength);
    }
    let mut presets: Vec<(i64, Option<i64>)> = Vec::new();
    let mut p: usize = 0;
    while p < preset_card_ids.len()
        invariant
            p <= preset_card_ids@.len(),
            preset_ids@.len() == preset_card_ids@.len(),
            input.has_preset@.len() == preset_card_ids@.len(),
            preset_card_ids@ == column_values(input.preset_card_ids@),
            preset_ids@ == column_values(input.preset_ids@),
            presets@ == request_presets(*input).take(p as int),
        decreases preset_card_ids@.len() - p,
    {
        presets.push((preset_card_ids[p], if input.has_preset[p] != 0 { Some(preset_ids[p]) } else { None }));
        proof {
            assert(request_presets(*input).take(p + 1) =~= request_presets(*input).take(p as int).push(
                request_presets(*input)[p as int],
            ));
        }
        p = p + 1;
    }
    proof {
        assert(request_presets(*input).take(p as int) =~= request_presets(*input));
    }
    let mut routes: Vec<RwkvHistoricalPresetRoute> = Vec::new();
    let mut r: usize = 0;
    while r < input.routes.len()
        invariant
            r <= input.routes@.len(),
            layout_known(*input),
            input.review_ids@.len() % 8 == 0,
            forall|q: int|
                0 <= q < r && (#[trigger] input.routes@[q]).has_card_ids ==> input.routes@[q].card_ids@.len() % 8 == 0,
        decreases input.routes@.len() - r,
    {
        let route = &input.routes[r];
        let card_ids = if route.has_card_ids {
            match int64s(&route.card_ids) {
                Ok(v) => Some(v),
                Err(e) => {
                    return Err(e);
                },
            }
        } else {
            None
        };
        routes.push(
            RwkvHistoricalPresetRoute {
                stable_preset_id: route.stable_preset_id,
                card_ids,
                min_reps: route.min_reps,
                max_reps: route.max_reps,
                min_interval_days: route.min_interval_days,
                max_interval_days: route.max_interval_days,
            },
        );
        r = r + 1;
    }
    let previous_review_ids = match seed_pairs(&input.seed_previous_review_id_cards, &input.seed_previous_review_ids) {
        Ok(v) => v,
        Err(e) => {
            return Err(e);
        },
    };
    let previous_interval_days = match seed_pairs(&input.seed_previous_interval_cards, &input.seed_previous_interval_days) {
        Ok(v) => v,
        Err(e) => {
            return Err(e);
        },
    };
    let review_counts = match seed_pairs(&input.seed_review_count_cards, &input.seed_review_counts) {
        Ok(v) => v,
        Err(e) => {
            return Err(e);
        },
    };
    let settings = RwkvReplaySettings {
        hash_history: input.hash_history,
        recovery_checkpoint_max_age_millis: input.recovery_checkpoint_max_age_millis,
        after_review_id: input.after_review_id,
        seed: RwkvReplaySeed {
            previous_review_ids,
            previous_interval_days,
            review_counts,
            history_hash: if input.previous_history_hash.len() == 0 {
                None
            } else {
                Some(copy_bytes(&input.previous_history_hash))
            },
            counts_before_cutoff: input.counts_before_cutoff,
        },
    };
    let days = RwkvReplayDays { days_elapsed: input.days_elapsed, next_day_at: input.next_day_at };
    let first_review = match input.first_review_elapsed_source {
        FirstReviewElapsedSource::DeckConfig => RwkvFirstReviewElapsed::ByDeck(
            copy_flags(&input.first_review_uses_creation_by_deck_id),
        ),
        FirstReviewElapsedSource::CardCreation => RwkvFirstReviewElapsed::CardCreation,
        FirstReviewElapsedSource::Missing => RwkvFirstReviewElapsed::Missing,
    };
    let encoder = PublishedEncoder::new(days, first_review);
    let column_len = input.review_ids.len();
    proof {
        assert(column_len == input.review_ids@.len());
        assert(count <= usize::MAX / 8);
        assert(rows@.len() <= i64::MAX);
        assert(settings.seed.review_counts@ == review_counts@);
    }
    proof {
        assert(encodable@ =~= Seq::new(request_rows(*input).len(), |i: int| input.encodable@[i] != 0));
    }
    let ghost rows_seen = rows@;
    proof {
        assert(review_counts@ =~= seed_pairs_of(input.seed_review_count_cards@, input.seed_review_counts@));
        assert(previous_review_ids@ =~= seed_pairs_of(input.seed_previous_review_id_cards@, input.seed_previous_review_ids@));
        assert(previous_interval_days@ =~= seed_pairs_of(input.seed_previous_interval_cards@, input.seed_previous_interval_days@));
        assert(request_source(*input, first_review));
        assert(seed_hash_invalid(settings) == request_seed_hash_invalid(*input));
        assert(seed_count_negative(settings) == request_count_negative(*input));
        assert(seed_count(settings) == request_seed_count(*input));
    }
    let ghost presets_seen = presets@;
    let stream_presets = RwkvStreamPresets::ByCardOrNone(presets);
    let ghost sp = stream_presets;
    proof {
        if request_answerable(*input) {
            assert forall|i: int|
                0 <= i < rows_seen.len() && #[trigger] row_replayed(
                    rows_seen[i],
                    i,
                    Some(request_flags(*input)),
                    input.after_review_id,
                ) implies own_preset_found(sp, rows_seen[i]) by {
                if rows_seen[i].deck_id is Some {
                    assert(first_value(request_presets(*input), request_rows(*input)[i].card_id) is Some);
                }
            }
            assert(presets_found(rows_seen, Some(request_flags(*input)), input.after_review_id, sp));
        }
    }
    let replayed = match replay(
        RwkvReplayRows {
            rows,
            encodable: Some(encodable),
            presets: stream_presets,
            routes,
        },
        &settings,
        &encoder,
    ) {
        Ok(r) => r,
        Err(e) => {
            return Err(e);
        },
    };
    let response = inputs_response(&replayed);
    proof {
        lemma_packed_rows_len(replayed.reviews@);
        let rows = request_rows(*input);
        let flags = Seq::new(rows.len(), |i: int| input.encodable@[i] != 0);
        let picked = replayed_rows(rows, Some(flags), input.after_review_id, rows.len());
        assert(Seq::new(replayed.review_log@.len(), |i: int| replayed.review_log@[i]@[0]) =~= Seq::new(
            picked.len(),
            |k: int| picked[k].review_kind,
        ));
        assert(Seq::new(replayed.review_log@.len(), |i: int| replayed.review_log@[i]@[1]) =~= Seq::new(
            picked.len(),
            |k: int| picked[k].interval_days,
        ));
        assert(Seq::new(replayed.review_log@.len(), |i: int| replayed.review_log@[i]@[2]) =~= Seq::new(
            picked.len(),
            |k: int| picked[k].ease_factor,
        ));
        let ids = Seq::new(replayed.cards@.len(), |i: int| replayed.cards@[i].card_id);
        assert forall|k: int| 0 <= k < picked.len() implies ids.contains(#[trigger] picked[k].card_id) by {
            assert(record_of_row(replayed.reviews@[k], picked[k], encoder.days));
            assert(card_listed(replayed.cards@, replayed.reviews@[k].card_id));
            let q = choose|q: int| 0 <= q < replayed.cards@.len() && (#[trigger] replayed.cards@[q]).card_id == replayed.reviews@[k].card_id;
            assert(ids[q] == picked[k].card_id);
        }
        assert forall|m: int|
            #![trigger ids[m]]
            0 <= m < ids.len() implies exists|k: int| 0 <= k < picked.len() && #[trigger] picked[k].card_id == ids[m] by {
            assert(card_reviewed(replayed.reviews@, replayed.cards@[m].card_id));
            let j = choose|j: int| 0 <= j < replayed.reviews@.len() && (#[trigger] replayed.reviews@[j]).card_id == replayed.cards@[m].card_id;
            assert(record_of_row(replayed.reviews@[j], picked[j], encoder.days));
            assert(picked[j].card_id == ids[m]);
        }
        assert(column_bytes(ids) == response.cards@);
        let order = card_order(picked);
        assert(ids =~= order);
        assert(Seq::new(replayed.cards@.len(), |i: int| card_field(replayed.cards@[i], CardField::PreviousReviewId)) =~= Seq::new(
            order.len(),
            |k: int| request_card_state(*input, picked, order[k]).previous_review_id,
        ));
        assert(Seq::new(replayed.cards@.len(), |i: int| card_field(replayed.cards@[i], CardField::PreviousIntervalDays)) =~= Seq::new(
            order.len(),
            |k: int| request_card_state(*input, picked, order[k]).previous_interval_days,
        ));
        assert(Seq::new(replayed.cards@.len(), |i: int| card_field(replayed.cards@[i], CardField::ReviewCount)) =~= Seq::new(
            order.len(),
            |k: int| request_card_state(*input, picked, order[k]).review_count,
        ));
        assert(start_hash(settings.seed) == request_start_hash(*input));
        assert(packed_rows(replayed.reviews@) == response.packed_rows@);
        assert forall|k: int| 0 <= k < replayed.reviews@.len() implies record_of_row(
            #[trigger] replayed.reviews@[k],
            picked[k],
            RwkvReplayDays { days_elapsed: input.days_elapsed, next_day_at: input.next_day_at },
        ) by {
            assert(record_of_row(replayed.reviews@[k], picked[k], encoder.days));
        }
        assert forall|k: int| 0 <= k < picked.len() implies (#[trigger] replayed.reviews@[k]).review_id == picked[k].review_id by {
            assert(record_of_row(replayed.reviews@[k], picked[k], encoder.days));
        }
        lemma_newest_of_records(
            match input.after_review_id {
                Some(a) => a,
                None => 0,
            },
            replayed.reviews@,
            picked,
        );
        let rows = request_rows(*input);
        let flags = Seq::new(rows.len(), |i: int| input.encodable@[i] != 0);
        let picked = replayed_rows(rows, Some(flags), input.after_review_id, rows.len());
        assert(Seq::new(replayed.reviews@.len(), |i: int| replayed.reviews@[i].review_id) =~= Seq::new(
            picked.len(),
            |k: int| picked[k].review_id,
        ));
    }
    Ok(response)
}

} // verus!
