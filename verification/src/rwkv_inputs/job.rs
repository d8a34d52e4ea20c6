use vstd::prelude::*;

use crate::rwkv_inputs::inputs::inputs_response;
use crate::rwkv_inputs::inputs::FirstReviewElapsedSource;
use crate::rwkv_inputs::inputs::RwkvHistoricalReviewInputsResponse;
use crate::rwkv_inputs::inputs::copy_bytes;
use crate::rwkv_inputs::lookup::find_value;
use crate::rwkv_inputs::lookup::first_value;
use crate::rwkv_inputs::published::days_ok;
use crate::rwkv_inputs::published::id_ok;
use crate::rwkv_inputs::published::PublishedEncoder;
use crate::rwkv_inputs::published::RwkvFirstReviewElapsed;
use crate::rwkv_inputs::published::RwkvReplayDays;
use crate::rwkv_inputs::columns::column_bytes;
use crate::rwkv_inputs::replay::card_order;
use crate::rwkv_inputs::replay::card_state_of;
use crate::rwkv_inputs::replay::state_of;
use crate::rwkv_inputs::replay::RwkvReplayCardState;
use crate::rwkv_inputs::inputs::card_field;
use crate::rwkv_inputs::inputs::CardField;
use crate::rwkv_inputs::replay::lemma_all_rows_replayed;
use crate::rwkv_inputs::replay::rows_counted;
use crate::rwkv_inputs::replay::replay;
use crate::rwkv_inputs::replay::row_replayed;
use crate::rwkv_inputs::replay::own_preset_found;
use crate::rwkv_inputs::replay::presets_found;
use crate::rwkv_inputs::replay::record_of_row;
use crate::rwkv_inputs::replay::card_reviewed;
use crate::rwkv_inputs::replay::card_listed;
use crate::rwkv_inputs::inputs::lemma_packed_rows_len;
use crate::rwkv_inputs::published::PACKED_WARM_UP_ROW_BYTES;
use crate::rwkv_inputs::replay::card_reviewed_in_deck;
use crate::rwkv_inputs::replay::RwkvReplay;
use crate::rwkv_inputs::replay::RwkvReplayRows;
use crate::rwkv_inputs::replay::RwkvReplaySeed;
use crate::rwkv_inputs::replay::RwkvReplaySettings;
use crate::rwkv_inputs::stream::ReplayError;
use crate::rwkv_inputs::stream::RwkvHistoricalReviewRow;
use crate::rwkv_inputs::stream::RwkvStreamPresets;

verus! {

/// The decimal digits of a number below ten thousand quadrillion and more.
pub open spec fn decimal_digits(n: nat) -> Seq<u8>
    decreases n,
{
    if n < 10 {
        seq![(48 + n) as u8]
    } else {
        decimal_digits(n / 10).push((48 + n % 10) as u8)
    }
}

/// A number in decimal, with a minus sign where it is below 0.
pub open spec fn spec_decimal(v: i64) -> Seq<u8> {
    if v < 0 {
        seq![45u8] + decimal_digits((-v) as nat)
    } else {
        decimal_digits(v as nat)
    }
}

/// A number in decimal, with a minus sign where it is below 0.
pub fn decimal(v: i64) -> (text: Vec<u8>)
    ensures
        text@ == spec_decimal(v),
{
    let negative = v < 0;
    let magnitude: u64 = if negative {
        (-(v as i128)) as u64
    } else {
        v as u64
    };
    let digits = digits_of(magnitude);
    if negative {
        let mut text: Vec<u8> = vec![45u8];
        let mut i: usize = 0;
        while i < digits.len()
            invariant
                i <= digits@.len(),
                text@ == seq![45u8] + digits@.subrange(0, i as int),
            decreases digits@.len() - i,
        {
            text.push(digits[i]);
            proof {
                assert(seq![45u8] + digits@.subrange(0, i + 1 as int) =~= text@);
            }
            i = i + 1;
        }
        proof {
            assert(digits@.subrange(0, digits@.len() as int) =~= digits@);
        }
        text
    } else {
        digits
    }
}

fn digits_of(n: u64) -> (digits: Vec<u8>)
    ensures
        digits@ == decimal_digits(n as nat),
    decreases n,
{
    if n < 10 {
        let d = vec![(48 + n) as u8];
        proof {
            assert(d@ =~= decimal_digits(n as nat));
        }
        d
    } else {
        let mut d = digits_of(n / 10);
        d.push((48 + n % 10) as u8);
        d
    }
}

/// Everything the replay inputs of the whole history read from the
/// collection: the rows (without the ignored reviews), the ignored reviews
/// that still belong to the history, the days, each card's preset where an
/// add-on rule can move cards (as the stable id and as the backend's preset
/// id), and the decks with their presets.
#[derive(Clone, Debug)]
pub struct RwkvReplayInputsJob {
    pub rows: Vec<RwkvHistoricalReviewRow>,
    pub active_ignored_review_ids: Vec<i64>,
    pub days: RwkvReplayDays,
    pub presets_by_card: Option<Vec<(i64, (i64, Vec<u8>))>>,
    pub decks: Vec<(i64, Option<i64>)>,
    pub presets: Vec<i64>,
    /// Each preset's own setting for the first review's elapsed time.
    pub first_review_from_creation: Vec<(i64, bool)>,
}

/// How the replay inputs of the whole history are encoded.
#[derive(Clone, Debug)]
pub struct RwkvReplayInputsSettings {
    pub first_review_elapsed_source: FirstReviewElapsedSource,
    pub first_review_uses_creation_by_config_id: Vec<(i64, bool)>,
    pub hash_history: bool,
    pub recovery_checkpoint_max_age_millis: i64,
}

/// What stops the job before it replays: a review id below 0, or a home
/// deck that is missing or filtered, or whose preset id is below 0 or
/// missing; the first such row decides.
pub open spec fn row_problem(row: RwkvHistoricalReviewRow, decks: Seq<(i64, Option<i64>)>, presets: Seq<i64>) -> Option<ReplayError> {
    if row.review_id < 0 {
        Some(ReplayError::NegativeReviewId)
    } else {
        match row.deck_id {
            None => None,
            Some(deck_id) => match first_value(decks, deck_id) {
                None => Some(ReplayError::DeckNotFound { deck_id }),
                Some(None) => Some(ReplayError::FilteredHomeDeck { deck_id }),
                Some(Some(preset_id)) => if preset_id < 0 {
                    Some(ReplayError::NegativePresetId)
                } else if !presets.contains(preset_id) {
                    Some(ReplayError::PresetNotFound { preset_id })
                } else {
                    None
                },
            },
        }
    }
}

fn contains_preset(presets: &Vec<i64>, id: i64) -> (found: bool)
    ensures
        found == presets@.contains(id),
{
    let mut i: usize = 0;
    while i < presets.len()
        invariant
            i <= presets@.len(),
            forall|j: int| 0 <= j < i ==> presets@[j] != id,
        decreases presets@.len() - i,
    {
        if presets[i] == id {
            proof {
                assert(presets@[i as int] == id);
            }
            return true;
        }
        i = i + 1;
    }
    false
}

fn check_row(row: &RwkvHistoricalReviewRow, decks: &Vec<(i64, Option<i64>)>, presets: &Vec<i64>) -> (problem: Option<ReplayError>)
    ensures
        problem == row_problem(*row, decks@, presets@),
{
    if row.review_id < 0 {
        return Some(ReplayError::NegativeReviewId);
    }
    match row.deck_id {
        None => None,
        Some(deck_id) => match find_value(decks, deck_id) {
            None => Some(ReplayError::DeckNotFound { deck_id }),
            Some(None) => Some(ReplayError::FilteredHomeDeck { deck_id }),
            Some(Some(preset_id)) => if preset_id < 0 {
                Some(ReplayError::NegativePresetId)
            } else if !contains_preset(presets, preset_id) {
                Some(ReplayError::PresetNotFound { preset_id })
            } else {
                None
            },
        },
    }
}

/// Where the job read each card's preset, it read one for every card with
/// a review in a deck.
pub open spec fn job_presets_cover(job: RwkvReplayInputsJob) -> bool {
    job.presets_by_card matches Some(by_card) ==> forall|i: int|
        0 <= i < job.rows@.len() && (#[trigger] job.rows@[i]).deck_id is Some ==> read_preset_name(
            by_card@,
            job.rows@[i].card_id,
        ) is Some
}

/// Each card with the stable id the job read for it.
pub open spec fn stable_presets(by_card: Seq<(i64, (i64, Vec<u8>))>) -> Seq<(i64, i64)> {
    Seq::new(by_card.len(), |k: int| (by_card[k].0, by_card[k].1.0))
}

/// A card has a stable preset id exactly where the job read a preset name
/// for it.
proof fn lemma_stable_presets_found(by_card: Seq<(i64, (i64, Vec<u8>))>, card_id: i64)
    ensures
        first_value(stable_presets(by_card), card_id) is Some <==> read_preset_name(by_card, card_id) is Some,
    decreases by_card.len(),
{
    if by_card.len() > 0 {
        assert(stable_presets(by_card).drop_first() =~= stable_presets(by_card.drop_first()));
        lemma_stable_presets_found(by_card.drop_first(), card_id);
    }
}

fn copy_decks(decks: &Vec<(i64, Option<i64>)>) -> (copy: Vec<(i64, Option<i64>)>)
    ensures
        copy@ == decks@,
{
    let mut copy: Vec<(i64, Option<i64>)> = Vec::new();
    let mut i: usize = 0;
    while i < decks.len()
        invariant
            i <= decks@.len(),
            copy@ == decks@.take(i as int),
        decreases decks@.len() - i,
    {
        copy.push(decks[i]);
        assert(decks@.take(i + 1) =~= decks@.take(i as int).push(decks@[i as int]));
        i = i + 1;
    }
    assert(decks@.take(i as int) =~= decks@);
    copy
}

fn copy_ids(ids: &Vec<i64>) -> (copy: Vec<i64>)
    ensures
        copy@ == ids@,
{
    let mut copy: Vec<i64> = Vec::new();
    let mut i: usize = 0;
    while i < ids.len()
        invariant
            i <= ids@.len(),
            copy@ == ids@.take(i as int),
        decreases ids@.len() - i,
    {
        copy.push(ids[i]);
        assert(ids@.take(i + 1) =~= ids@.take(i as int).push(ids@[i as int]));
        i = i + 1;
    }
    assert(ids@.take(i as int) =~= ids@);
    copy
}

/// The job's numbers stay far from the ends of the integers.
pub open spec fn job_ok(job: RwkvReplayInputsJob, settings: RwkvReplayInputsSettings) -> bool {
    &&& days_ok(job.days)
    &&& job.rows@.len() <= i64::MAX
    &&& forall|i: int|
        0 <= i < job.rows@.len() ==> id_ok((#[trigger] job.rows@[i]).review_id) && id_ok(job.rows@[i].card_id)
            && job.rows@[i].review_kind < i64::MAX
    &&& settings.recovery_checkpoint_max_age_millis < 0x1000_0000_0000_0000
}

impl RwkvReplayInputsJob {
    /// The whole history's replay inputs: the response, the ignored reviews
    /// that still belong to the history, and each replayed card's preset id
    /// (empty for a card that is gone).
    pub fn encode(self, settings: &RwkvReplayInputsSettings) -> (result: Result<RwkvHistoricalReviewInputsResponse, ReplayError>)
        requires
            job_ok(self, *settings),
        ensures
            forall|i: int|
                0 <= i < self.rows@.len() && (#[trigger] row_problem(self.rows@[i], self.decks@, self.presets@)) is Some
                    && (forall|j: int| 0 <= j < i ==> row_problem(#[trigger] self.rows@[j], self.decks@, self.presets@) is None)
                    ==> result == Err::<RwkvHistoricalReviewInputsResponse, ReplayError>(
                    row_problem(self.rows@[i], self.decks@, self.presets@)->0,
                ),
            match result {
                Ok(r) => {
                    &&& forall|i: int| 0 <= i < self.rows@.len() ==> row_problem(#[trigger] self.rows@[i], self.decks@, self.presets@) is None
                    &&& r.review_ids@ == column_bytes(Seq::new(self.rows@.len(), |i: int| self.rows@[i].review_id))
                    &&& r.active_ignored_review_ids@ == self.active_ignored_review_ids@
                    &&& !settings.hash_history ==> r.history_hash@.len() == 0
                    &&& settings.hash_history ==> r.history_hash@.len() == 64
                    &&& r.packed_rows@.len() == PACKED_WARM_UP_ROW_BYTES * self.rows@.len()
                    &&& r.review_count == self.rows@.len()
                    &&& r.cards@ == column_bytes(card_order(self.rows@))
                    &&& r.card_review_counts@ == column_bytes(
                        Seq::new(card_order(self.rows@).len(), |k: int| fresh_card_state(self.rows@, card_order(self.rows@)[k]).review_count),
                    )
                    &&& r.card_previous_review_ids@ == column_bytes(
                        Seq::new(card_order(self.rows@).len(), |k: int| fresh_card_state(self.rows@, card_order(self.rows@)[k]).previous_review_id),
                    )
                    &&& r.card_previous_interval_days@ == column_bytes(
                        Seq::new(card_order(self.rows@).len(), |k: int| fresh_card_state(self.rows@, card_order(self.rows@)[k]).previous_interval_days),
                    )
                    &&& exists|ids: Seq<i64>|
                        #[trigger] column_bytes(ids) == r.cards@ && r.card_fsrs_preset_ids@.len() == ids.len() && (forall|a: int, b: int|
                            0 <= a < b < ids.len() ==> ids[a] != ids[b]) && (forall|k: int|
                            0 <= k < self.rows@.len() ==> ids.contains(#[trigger] self.rows@[k].card_id)) && (forall|m: int|
                            #![trigger ids[m]]
                            0 <= m < ids.len() ==> exists|k: int| 0 <= k < self.rows@.len() && #[trigger] self.rows@[k].card_id == ids[m])
                },
                Err(_) => !((forall|i: int| 0 <= i < self.rows@.len() ==> row_problem(#[trigger] self.rows@[i], self.decks@, self.presets@) is None)
                    && job_presets_cover(self)),
            },
            (forall|i: int| 0 <= i < self.rows@.len() ==> row_problem(#[trigger] self.rows@[i], self.decks@, self.presets@) is None)
                && job_presets_cover(self) ==> result is Ok,
    {
        let mut i: usize = 0;
        while i < self.rows.len()
            invariant
                i <= self.rows@.len(),
                forall|j: int| 0 <= j < i ==> row_problem(#[trigger] self.rows@[j], self.decks@, self.presets@) is None,
            decreases self.rows@.len() - i,
        {
            match check_row(&self.rows[i], &self.decks, &self.presets) {
                Some(e) => {
                    return Err(e);
                },
                None => {},
            }
            i = i + 1;
        }
        let presets = match &self.presets_by_card {
            Some(by_card) => {
                let mut stable: Vec<(i64, i64)> = Vec::new();
                let mut k: usize = 0;
                while k < by_card.len()
                    invariant
                        k <= by_card@.len(),
                        stable@ == stable_presets(by_card@).take(k as int),
                    decreases by_card@.len() - k,
                {
                    stable.push((by_card[k].0, by_card[k].1.0));
                    proof {
                        assert(stable_presets(by_card@).take(k + 1) =~= stable_presets(by_card@).take(k as int).push(
                            (by_card@[k as int].0, by_card@[k as int].1.0),
                        ));
                    }
                    k = k + 1;
                }
                proof {
                    assert(stable_presets(by_card@).take(k as int) =~= stable_presets(by_card@));
                }
                RwkvStreamPresets::ByCard(stable)
            },
            None => RwkvStreamPresets::HomeDeck { decks: copy_decks(&self.decks), presets: copy_ids(&self.presets) },
        };
        let ghost sp = presets;
        proof {
            if job_presets_cover(self) {
                assert forall|i: int| 0 <= i < self.rows@.len() && #[trigger] row_replayed(self.rows@[i], i, None, None)
                    implies own_preset_found(sp, self.rows@[i]) by {
                    assert(row_problem(self.rows@[i], self.decks@, self.presets@) is None);
                    if self.rows@[i].deck_id is Some {
                        if let Some(by_card) = self.presets_by_card {
                            lemma_stable_presets_found(by_card@, self.rows@[i].card_id);
                        }
                    }
                }
                assert(presets_found(self.rows@, None, None, sp));
            }
        }
        let first_review = match settings.first_review_elapsed_source {
            FirstReviewElapsedSource::DeckConfig => RwkvFirstReviewElapsed::DeckConfig {
                decks: self.decks.clone(),
                configs: self.first_review_from_creation.clone(),
                requested: settings.first_review_uses_creation_by_config_id.clone(),
            },
            FirstReviewElapsedSource::CardCreation => RwkvFirstReviewElapsed::CardCreation,
            FirstReviewElapsedSource::Missing => RwkvFirstReviewElapsed::Missing,
        };
        let encoder = PublishedEncoder::new(self.days, first_review);
        let replay_settings = RwkvReplaySettings {
            hash_history: settings.hash_history,
            recovery_checkpoint_max_age_millis: settings.recovery_checkpoint_max_age_millis,
            after_review_id: None,
            seed: RwkvReplaySeed {
                previous_review_ids: Vec::new(),
                previous_interval_days: Vec::new(),
                review_counts: Vec::new(),
                history_hash: None,
                counts_before_cutoff: false,
            },
        };
        let rows = self.rows;
        let ghost all_rows = rows@;
        let replayed = match replay(RwkvReplayRows { rows, encodable: None, presets, routes: Vec::new() }, &replay_settings, &encoder) {
            Ok(r) => r,
            Err(e) => {
                return Err(e);
            },
        };
        proof {
            lemma_all_rows_replayed(all_rows, all_rows.len());
            if all_rows.len() > 0 {
                assert(row_replayed(all_rows[all_rows.len() - 1], all_rows.len() - 1, None, None));
            }
            assert(rows_counted(all_rows, None, None, all_rows.len()) == all_rows.len());
            assert(all_rows.take(all_rows.len() as int) =~= all_rows);
            assert(Seq::new(replayed.reviews@.len(), |i: int| replayed.reviews@[i].review_id) =~= Seq::new(
                all_rows.len(),
                |i: int| all_rows[i].review_id,
            ));
        }
        proof {
            if job_presets_cover(self) {
                assert forall|i: int| 0 <= i < replayed.cards@.len() implies (#[trigger] card_preset_text(
                    replayed,
                    self.presets_by_card,
                    i,
                )) is Some by {
                    let card_id = replayed.cards@[i].card_id;
                    if !card_gone(replayed, card_id) {
                        assert(card_reviewed(replayed.reviews@, card_id));
                        let j = choose|j: int| 0 <= j < replayed.reviews@.len() && (#[trigger] replayed.reviews@[j]).card_id == card_id;
                        assert(replayed.reviews@[j].deck_id is Some);
                        assert(record_of_row(replayed.reviews@[j], all_rows[j], self.days));
                        assert(card_reviewed_in_deck(replayed.reviews@, card_id));
                        if let Some(by_card) = self.presets_by_card {
                            assert(all_rows[j].deck_id is Some);
                        }
                    }
                }
            }
        }
        let preset_ids = match card_fsrs_preset_ids(&replayed, &self.presets_by_card) {
            Some(ids) => ids,
            None => {
                return Err(ReplayError::CardWithoutPreset);
            },
        };
        let mut response = inputs_response(&replayed);
        proof {
            lemma_packed_rows_len(replayed.reviews@);
            let ids = Seq::new(replayed.cards@.len(), |i: int| replayed.cards@[i].card_id);
            assert forall|k: int| 0 <= k < all_rows.len() implies ids.contains(#[trigger] all_rows[k].card_id) by {
                assert(record_of_row(replayed.reviews@[k], all_rows[k], self.days));
                assert(card_listed(replayed.cards@, replayed.reviews@[k].card_id));
                let q = choose|q: int| 0 <= q < replayed.cards@.len() && (#[trigger] replayed.cards@[q]).card_id == replayed.reviews@[k].card_id;
                assert(ids[q] == all_rows[k].card_id);
            }
            assert forall|m: int|
                #![trigger ids[m]]
                0 <= m < ids.len() implies exists|k: int| 0 <= k < all_rows.len() && #[trigger] all_rows[k].card_id == ids[m] by {
                assert(card_reviewed(replayed.reviews@, replayed.cards@[m].card_id));
                let j = choose|j: int| 0 <= j < replayed.reviews@.len() && (#[trigger] replayed.reviews@[j]).card_id == replayed.cards@[m].card_id;
                assert(record_of_row(replayed.reviews@[j], all_rows[j], self.days));
                assert(all_rows[j].card_id == ids[m]);
            }
            assert(column_bytes(ids) == response.cards@);
            let order = card_order(all_rows);
            assert(ids =~= order);
            assert(replay_settings.seed.previous_review_ids@ =~= Seq::<(i64, i64)>::empty());
            assert(replay_settings.seed.previous_interval_days@ =~= Seq::<(i64, i64)>::empty());
            assert(replay_settings.seed.review_counts@ =~= Seq::<(i64, i64)>::empty());
            assert(Seq::new(replayed.cards@.len(), |i: int| card_field(replayed.cards@[i], CardField::PreviousReviewId)) =~= Seq::new(
                order.len(),
                |k: int| fresh_card_state(all_rows, order[k]).previous_review_id,
            ));
            assert(Seq::new(replayed.cards@.len(), |i: int| card_field(replayed.cards@[i], CardField::PreviousIntervalDays)) =~= Seq::new(
                order.len(),
                |k: int| fresh_card_state(all_rows, order[k]).previous_interval_days,
            ));
            assert(Seq::new(replayed.cards@.len(), |i: int| card_field(replayed.cards@[i], CardField::ReviewCount)) =~= Seq::new(
                order.len(),
                |k: int| fresh_card_state(all_rows, order[k]).review_count,
            ));
        }
        response.active_ignored_review_ids = self.active_ignored_review_ids;
        response.card_fsrs_preset_ids = preset_ids;
        Ok(response)
    }
}

/// A card's state after the rows of a whole history, read from no seed.
pub open spec fn fresh_card_state(rows: Seq<RwkvHistoricalReviewRow>, card_id: i64) -> RwkvReplayCardState {
    state_of(card_id, card_state_of(Seq::empty(), Seq::empty(), Seq::empty(), rows, card_id))
}

/// A card is gone when one of its replayed reviews has no home deck.
pub open spec fn card_gone(replayed: RwkvReplay, card_id: i64) -> bool {
    exists|r: int|
        0 <= r < replayed.reviews@.len() && (#[trigger] replayed.reviews@[r]).card_id == card_id
            && replayed.reviews@[r].deck_id is None
}

/// The preset name that the job read for a card: that of its first entry.
pub open spec fn read_preset_name(by_card: Seq<(i64, (i64, Vec<u8>))>, card_id: i64) -> Option<Seq<u8>>
    decreases by_card.len(),
{
    if by_card.len() == 0 {
        None
    } else if by_card[0].0 == card_id {
        Some(by_card[0].1.1@)
    } else {
        read_preset_name(by_card.drop_first(), card_id)
    }
}

/// The preset id of the `i`th replayed card: empty for a card that is gone,
/// else the name the job read for it where an add-on rule can move cards,
/// else its own preset in decimal.
pub open spec fn card_preset_text(
    replayed: RwkvReplay,
    presets_by_card: Option<Vec<(i64, (i64, Vec<u8>))>>,
    i: int,
) -> Option<Seq<u8>> {
    let card_id = replayed.cards@[i].card_id;
    if card_gone(replayed, card_id) {
        Some(Seq::empty())
    } else {
        match presets_by_card {
            Some(by_card) => read_preset_name(by_card@, card_id),
            None => match replayed.card_own_preset_ids@[i] {
                Some(preset_id) => Some(spec_decimal(preset_id)),
                None => None,
            },
        }
    }
}

fn card_is_gone(replayed: &RwkvReplay, card_id: i64) -> (gone: bool)
    ensures
        gone == card_gone(*replayed, card_id),
{
    let mut r: usize = 0;
    while r < replayed.reviews.len()
        invariant
            r <= replayed.reviews@.len(),
            forall|j: int|
                0 <= j < r ==> !((#[trigger] replayed.reviews@[j]).card_id == card_id
                    && replayed.reviews@[j].deck_id is None),
        decreases replayed.reviews@.len() - r,
    {
        if replayed.reviews[r].card_id == card_id && replayed.reviews[r].deck_id.is_none() {
            proof {
                assert(replayed.reviews@[r as int].card_id == card_id);
            }
            return true;
        }
        r = r + 1;
    }
    false
}

fn find_preset_name(by_card: &Vec<(i64, (i64, Vec<u8>))>, card_id: i64) -> (name: Option<Vec<u8>>)
    ensures
        match read_preset_name(by_card@, card_id) {
            Some(text) => name matches Some(n) && n@ == text,
            None => name is None,
        },
{
    let mut k: usize = 0;
    assert(by_card@.skip(0) =~= by_card@);
    while k < by_card.len()
        invariant
            k <= by_card@.len(),
            read_preset_name(by_card@, card_id) == read_preset_name(by_card@.skip(k as int), card_id),
        decreases by_card@.len() - k,
    {
        assert(by_card@.skip(k as int)[0] == by_card@[k as int]);
        if by_card[k].0 == card_id {
            return Some(copy_bytes(&by_card[k].1.1));
        }
        assert(by_card@.skip(k as int).drop_first() =~= by_card@.skip(k as int + 1));
        k = k + 1;
    }
    assert(by_card@.skip(k as int).len() == 0);
    None
}

/// Each replayed card's preset id, as the backend names presets: the id the
/// job read for it where an add-on rule can move cards, else its own preset
/// in decimal; empty for a card that is gone. None where a card has none.
pub fn card_fsrs_preset_ids(replayed: &RwkvReplay, presets_by_card: &Option<Vec<(i64, (i64, Vec<u8>))>>) -> (ids: Option<Vec<Vec<u8>>>)
    ensures
        ids is Some <==> (replayed.cards@.len() <= replayed.card_own_preset_ids@.len() && forall|i: int|
            0 <= i < replayed.cards@.len() ==> (#[trigger] card_preset_text(*replayed, *presets_by_card, i)) is Some),
        ids matches Some(v) ==> v@.len() == replayed.cards@.len() && forall|i: int|
            0 <= i < v@.len() ==> (#[trigger] v@[i])@ == card_preset_text(*replayed, *presets_by_card, i)->0,
{
    let mut ids: Vec<Vec<u8>> = Vec::new();
    let mut i: usize = 0;
    let n = if replayed.cards.len() <= replayed.card_own_preset_ids.len() {
        replayed.cards.len()
    } else {
        return None;
    };
    while i < n
        invariant
            n == replayed.cards@.len(),
            n <= replayed.card_own_preset_ids@.len(),
            i <= n,
            ids@.len() == i,
            forall|j: int| 0 <= j < i ==> (#[trigger] card_preset_text(*replayed, *presets_by_card, j)) is Some,
            forall|j: int|
                0 <= j < i ==> (#[trigger] ids@[j])@ == card_preset_text(*replayed, *presets_by_card, j)->0,
        decreases n - i,
    {
        let card_id = replayed.cards[i].card_id;
        let text = if card_is_gone(replayed, card_id) {
            Vec::new()
        } else {
            let id = match presets_by_card {
                Some(by_card) => find_preset_name(by_card, card_id),
                None => match replayed.card_own_preset_ids[i] {
                    Some(preset_id) => Some(decimal(preset_id)),
                    None => None,
                },
            };
            match id {
                Some(text) => text,
                None => {
                    return None;
                },
            }
        };
        assert(text@ == card_preset_text(*replayed, *presets_by_card, i as int)->0);
        ids.push(text);
        i = i + 1;
    }
    Some(ids)
}

/// How the backend names an FSRS preset: a deck config by its id, or an
/// add-on's preset by its own name.
#[derive(Clone, Debug)]
pub enum FsrsPresetId {
    DeckConfig(i64),
    Addon(Vec<u8>),
}

/// The preset id as `GetFsrsPresetIdsForCards` gives it: a deck config's id
/// in decimal, an add-on preset's name as it is.
pub fn fsrs_preset_id_string(preset_id: &FsrsPresetId) -> (text: Vec<u8>)
    ensures
        text@ == match preset_id {
            FsrsPresetId::DeckConfig(id) => spec_decimal(*id),
            FsrsPresetId::Addon(name) => name@,
        },
{
    match preset_id {
        FsrsPresetId::DeckConfig(id) => decimal(*id),
        FsrsPresetId::Addon(name) => copy_bytes(name),
    }
}

/// The stable id of the first entry with this name, if any.
pub open spec fn stable_id_of(stable_preset_ids: Seq<(Vec<u8>, i64)>, name: Seq<u8>) -> Option<i64>
    decreases stable_preset_ids.len(),
{
    if stable_preset_ids.len() == 0 {
        None
    } else if stable_preset_ids[0].0@ == name {
        Some(stable_preset_ids[0].1)
    } else {
        stable_id_of(stable_preset_ids.drop_first(), name)
    }
}

/// Whether two byte strings are the same.
fn same_bytes(a: &Vec<u8>, b: &Vec<u8>) -> (same: bool)
    ensures
        same == (a@ == b@),
{
    if a.len() != b.len() {
        return false;
    }
    let mut i: usize = 0;
    while i < a.len()
        invariant
            i <= a@.len(),
            a@.len() == b@.len(),
            forall|j: int| 0 <= j < i ==> a@[j] == b@[j],
        decreases a@.len() - i,
    {
        if a[i] != b[i] {
            return false;
        }
        i = i + 1;
    }
    proof {
        assert(a@ =~= b@);
    }
    true
}

/// The stable id the replay gives a preset: a deck config's own id (which
/// must not be below 0); an add-on preset's from `stable_preset_ids`, the
/// ids its caller computed for them.
pub fn python_stable_preset_id(preset_id: &FsrsPresetId, stable_preset_ids: &Vec<(Vec<u8>, i64)>) -> (id: Result<i64, ReplayError>)
    ensures
        id == match preset_id {
            FsrsPresetId::DeckConfig(c) => if *c >= 0 {
                Ok::<i64, ReplayError>(*c)
            } else {
                Err(ReplayError::NegativePresetId)
            },
            FsrsPresetId::Addon(name) => match stable_id_of(stable_preset_ids@, name@) {
                Some(s) => Ok(s),
                None => Err(ReplayError::MissingStableId),
            },
        },
{
    match preset_id {
        FsrsPresetId::DeckConfig(c) => if *c >= 0 {
            Ok(*c)
        } else {
            Err(ReplayError::NegativePresetId)
        },
        FsrsPresetId::Addon(name) => {
            let mut i: usize = 0;
            proof {
                assert(stable_preset_ids@.subrange(0, stable_preset_ids@.len() as int) =~= stable_preset_ids@);
            }
            while i < stable_preset_ids.len()
                invariant
                    i <= stable_preset_ids@.len(),
                    *preset_id == FsrsPresetId::Addon(*name),
                    stable_id_of(stable_preset_ids@, name@) == stable_id_of(stable_preset_ids@.subrange(i as int, stable_preset_ids@.len() as int), name@),
                decreases stable_preset_ids@.len() - i,
            {
                proof {
                    let rest = stable_preset_ids@.subrange(i as int, stable_preset_ids@.len() as int);
                    assert(rest.drop_first() =~= stable_preset_ids@.subrange(i + 1, stable_preset_ids@.len() as int));
                    assert(rest[0] == stable_preset_ids@[i as int]);
                }
                if same_bytes(&stable_preset_ids[i].0, name) {
                    proof {
                        let rest = stable_preset_ids@.subrange(i as int, stable_preset_ids@.len() as int);
                        assert(rest[0].0@ == name@);
                        assert(stable_id_of(rest, name@) == Some(rest[0].1));
                        assert(stable_id_of(stable_preset_ids@, name@) == Some(stable_preset_ids@[i as int].1));
                    }
                    return Ok(stable_preset_ids[i].1);
                }
                i = i + 1;
            }
            proof {
                assert(stable_preset_ids@.subrange(i as int, stable_preset_ids@.len() as int).len() == 0);
            }
            Err(ReplayError::MissingStableId)
        },
    }
}

/// Each card's preset as the replay needs it where an add-on rule can move
/// cards: its stable id and the backend's name for it. The first preset
/// without a stable id stops it.
pub fn rwkv_presets_by_card(presets: &Vec<(i64, FsrsPresetId)>, stable_preset_ids: &Vec<(Vec<u8>, i64)>) -> (by_card: Result<
    Vec<(i64, (i64, Vec<u8>))>,
    ReplayError,
>)
    ensures
        match by_card {
            Ok(v) => {
                &&& v@.len() == presets@.len()
                &&& forall|k: int| 0 <= k < presets@.len() ==> {
                    &&& (#[trigger] v@[k]).0 == presets@[k].0
                    &&& Ok::<i64, ReplayError>(v@[k].1.0) == stable_id_result(presets@[k].1, stable_preset_ids@)
                    &&& v@[k].1.1@ == preset_id_text(presets@[k].1)
                }
            },
            Err(e) => exists|k: int| {
                &&& 0 <= k < presets@.len()
                &&& Err::<i64, ReplayError>(e) == #[trigger] stable_id_result(presets@[k].1, stable_preset_ids@)
                &&& forall|j: int| 0 <= j < k ==> #[trigger] stable_id_result(presets@[j].1, stable_preset_ids@) is Ok
            },
        },
{
    let mut out: Vec<(i64, (i64, Vec<u8>))> = Vec::new();
    let mut k: usize = 0;
    while k < presets.len()
        invariant
            k <= presets@.len(),
            out@.len() == k,
            forall|j: int| 0 <= j < k ==> {
                &&& (#[trigger] out@[j]).0 == presets@[j].0
                &&& Ok::<i64, ReplayError>(out@[j].1.0) == stable_id_result(presets@[j].1, stable_preset_ids@)
                &&& out@[j].1.1@ == preset_id_text(presets@[j].1)
            },
        decreases presets@.len() - k,
    {
        let (card_id, preset_id) = &presets[k];
        let stable = match python_stable_preset_id(preset_id, stable_preset_ids) {
            Ok(s) => s,
            Err(e) => {
                proof {
                    assert forall|j: int| 0 <= j < k implies #[trigger] stable_id_result(presets@[j].1, stable_preset_ids@) is Ok by {
                        assert(Ok::<i64, ReplayError>(out@[j].1.0) == stable_id_result(presets@[j].1, stable_preset_ids@));
                    }
                    assert(Err::<i64, ReplayError>(e) == stable_id_result(presets@[k as int].1, stable_preset_ids@));
                }
                return Err(e);
            },
        };
        let name = fsrs_preset_id_string(preset_id);
        out.push((*card_id, (stable, name)));
        k = k + 1;
    }
    Ok(out)
}

/// What [`python_stable_preset_id`] gives for a preset.
pub open spec fn stable_id_result(preset_id: FsrsPresetId, stable_preset_ids: Seq<(Vec<u8>, i64)>) -> Result<i64, ReplayError> {
    match preset_id {
        FsrsPresetId::DeckConfig(c) => if c >= 0 {
            Ok(c)
        } else {
            Err(ReplayError::NegativePresetId)
        },
        FsrsPresetId::Addon(name) => match stable_id_of(stable_preset_ids, name@) {
            Some(s) => Ok(s),
            None => Err(ReplayError::MissingStableId),
        },
    }
}

/// What [`fsrs_preset_id_string`] gives for a preset.
pub open spec fn preset_id_text(preset_id: FsrsPresetId) -> Seq<u8> {
    match preset_id {
        FsrsPresetId::DeckConfig(id) => spec_decimal(id),
        FsrsPresetId::Addon(name) => name@,
    }
}

} // verus!
