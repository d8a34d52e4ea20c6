use vstd::prelude::*;

use crate::rwkv_inputs::lookup::find_value;
use crate::rwkv_inputs::lookup::first_value;

verus! {

/// Why a replay failed.
#[derive(Clone, Copy, Debug, PartialEq, Eq, Structural)]
pub enum ReplayError {
    /// A card's review needs a preset and none was found for it.
    MissingPreset,
    /// A home deck is not in the collection.
    DeckNotFound { deck_id: i64 },
    /// A home deck is a filtered deck, which has no preset.
    FilteredHomeDeck { deck_id: i64 },
    /// A home deck's preset is not in the collection.
    PresetNotFound { preset_id: i64 },
    /// The hash of the history a read goes on from is not 64 lowercase
    /// hexadecimal digits.
    InvalidHistoryHash,
    /// The review counts a read goes on from add up to less than nothing.
    NegativeReviewCount,
    /// No encoder reads the layout asked for.
    UnknownFeatureLayout,
    /// A column's length is not a whole number of 64-bit values.
    ColumnNotInt64s,
    /// A column holds another number of values than the review ids.
    ColumnLength,
    /// The presets' columns differ in length.
    PresetsLength,
    /// A seed's card and value columns differ in length.
    SeedLength,
    /// A review id is below 0.
    NegativeReviewId,
    /// A preset id is below 0.
    NegativePresetId,
    /// A replayed card has no preset.
    CardWithoutPreset,
    /// An add-on preset was given no stable id.
    MissingStableId,
}

/// One row of the review log as the replay reads it. A review of a
/// deleted card has no note and no deck.
#[derive(Clone, Copy, Debug, PartialEq, Eq, Structural)]
pub struct RwkvHistoricalReviewRow {
    pub review_id: i64,
    pub card_id: i64,
    pub note_id: Option<i64>,
    pub deck_id: Option<i64>,
    pub ease: i64,
    pub duration_millis: i64,
    pub review_kind: i64,
    pub interval_days: i64,
    pub ease_factor: i64,
    /// The row the card's replay starts from.
    pub is_learning_start: bool,
}

/// One rated review of the replay history, as the encoder reads it.
#[derive(Clone, Copy, Debug, PartialEq, Eq, Structural)]
pub struct RwkvReviewEvent {
    /// When the answer was given, in milliseconds.
    pub review_id: i64,
    pub card_id: i64,
    pub note_id: Option<i64>,
    /// The card's home deck.
    pub deck_id: Option<i64>,
    /// The stable id of the preset the review counts under.
    pub preset_id: Option<i64>,
    /// The answer button, 1-4.
    pub rating: i64,
    pub duration_millis: i64,
    pub review_kind: i64,
    pub interval_days: i64,
    pub ease_factor: i64,
    pub replay_start: bool,
}

impl RwkvReviewEvent {
    /// When the card was shown: the answer time less the time the answer
    /// took.
    pub fn show_millis(&self) -> (millis: i64)
        requires
            i64::MIN <= self.review_id - self.duration_millis <= i64::MAX,
        ensures
            millis == self.review_id - self.duration_millis,
    {
        self.review_id - self.duration_millis
    }
}

/// A rule that routes a review to another preset while the card's review
/// count and previous interval lie in its bounds. The interval bounds are
/// whole days: the least whole day at or above a fractional minimum, the
/// greatest at or below a fractional maximum.
#[derive(Clone, Debug)]
pub struct RwkvHistoricalPresetRoute {
    pub stable_preset_id: i64,
    pub card_ids: Option<Vec<i64>>,
    pub min_reps: Option<i64>,
    pub max_reps: Option<i64>,
    pub min_interval_days: Option<i64>,
    pub max_interval_days: Option<i64>,
}

pub open spec fn route_matches(route: RwkvHistoricalPresetRoute, card_id: i64, reps: i64, interval_days: i64) -> bool {
    &&& match route.card_ids {
        Some(ids) => ids@.contains(card_id),
        None => true,
    }
    &&& match route.min_reps {
        Some(m) => reps >= m,
        None => true,
    }
    &&& match route.max_reps {
        Some(m) => reps <= m,
        None => true,
    }
    &&& match route.min_interval_days {
        Some(m) => interval_days >= m,
        None => true,
    }
    &&& match route.max_interval_days {
        Some(m) => interval_days <= m,
        None => true,
    }
}

fn contains_id(ids: &Vec<i64>, id: i64) -> (found: bool)
    ensures
        found == ids@.contains(id),
{
    let mut i: usize = 0;
    while i < ids.len()
        invariant
            i <= ids@.len(),
            forall|j: int| 0 <= j < i ==> ids@[j] != id,
        decreases ids@.len() - i,
    {
        if ids[i] == id {
            proof {
                assert(ids@[i as int] == id);
            }
            return true;
        }
        i = i + 1;
    }
    false
}

impl RwkvHistoricalPresetRoute {
    /// The route applies to the card with `reps` reviews, the last of
    /// `interval_days`.
    pub fn matches(&self, card_id: i64, reps: i64, interval_days: i64) -> (applies: bool)
        ensures
            applies == route_matches(*self, card_id, reps, interval_days),
    {
        let in_cards = match &self.card_ids {
            Some(ids) => contains_id(ids, card_id),
            None => true,
        };
        in_cards && match self.min_reps {
            Some(m) => reps >= m,
            None => true,
        } && match self.max_reps {
            Some(m) => reps <= m,
            None => true,
        } && match self.min_interval_days {
            Some(m) => interval_days >= m,
            None => true,
        } && match self.max_interval_days {
            Some(m) => interval_days <= m,
            None => true,
        }
    }
}

/// The first route that applies, if any.
pub open spec fn first_route(routes: Seq<RwkvHistoricalPresetRoute>, card_id: i64, reps: i64, interval_days: i64) -> Option<i64>
    decreases routes.len(),
{
    if routes.len() == 0 {
        None
    } else if route_matches(routes[0], card_id, reps, interval_days) {
        Some(routes[0].stable_preset_id)
    } else {
        first_route(routes.drop_first(), card_id, reps, interval_days)
    }
}

fn find_route(routes: &Vec<RwkvHistoricalPresetRoute>, card_id: i64, reps: i64, interval_days: i64) -> (preset: Option<i64>)
    ensures
        preset == first_route(routes@, card_id, reps, interval_days),
{
    let mut i: usize = 0;
    proof {
        assert(routes@.skip(0) =~= routes@);
    }
    while i < routes.len()
        invariant
            i <= routes@.len(),
            first_route(routes@, card_id, reps, interval_days) == first_route(routes@.skip(i as int), card_id, reps, interval_days),
        decreases routes@.len() - i,
    {
        let ghost rest = routes@.skip(i as int);
        proof {
            assert(rest[0] == routes@[i as int]);
            assert(rest.drop_first() =~= routes@.skip(i + 1));
        }
        if routes[i].matches(card_id, reps, interval_days) {
            return Some(routes[i].stable_preset_id);
        }
        i = i + 1;
    }
    proof {
        assert(routes@.skip(i as int).len() == 0);
    }
    None
}

/// Where each card's own preset comes from.
#[derive(Clone, Debug)]
pub enum RwkvStreamPresets {
    /// Every card's preset is its home deck's: the decks with their presets
    /// (none for a filtered deck), and the presets that exist.
    HomeDeck { decks: Vec<(i64, Option<i64>)>, presets: Vec<i64> },
    /// Each card's stable preset id, where it has one.
    ByCard(Vec<(i64, i64)>),
    /// Each card's stable preset id as the caller resolved it, none where it
    /// resolved none.
    ByCardOrNone(Vec<(i64, Option<i64>)>),
}

/// A card's own preset, as the stream found it.
#[derive(Clone, Copy, Debug, PartialEq, Eq, Structural)]
pub enum StreamPreset {
    Id(i64),
    /// The caller resolved no preset for the card.
    Unresolved,
    /// The card has no preset where one is required.
    Missing,
}

/// The preset of a card whose preset is its home deck's.
pub open spec fn spec_home_deck_preset(decks: Seq<(i64, Option<i64>)>, presets: Seq<i64>, deck_id: i64) -> Result<i64, ReplayError> {
    match first_value(decks, deck_id) {
        None => Err(ReplayError::DeckNotFound { deck_id }),
        Some(None) => Err(ReplayError::FilteredHomeDeck { deck_id }),
        Some(Some(preset_id)) => if presets.contains(preset_id) {
            Ok(preset_id)
        } else {
            Err(ReplayError::PresetNotFound { preset_id })
        },
    }
}

/// The stable preset id of a card whose preset is its home deck's: an
/// error where the deck is missing or filtered, or its preset is missing.
pub fn rwkv_home_deck_preset_id(deck_id: i64, decks: &Vec<(i64, Option<i64>)>, presets: &Vec<i64>) -> (preset: Result<i64, ReplayError>)
    ensures
        preset == spec_home_deck_preset(decks@, presets@, deck_id),
{
    match find_value(decks, deck_id) {
        None => Err(ReplayError::DeckNotFound { deck_id }),
        Some(None) => Err(ReplayError::FilteredHomeDeck { deck_id }),
        Some(Some(preset_id)) => if contains_id(presets, preset_id) {
            Ok(preset_id)
        } else {
            Err(ReplayError::PresetNotFound { preset_id })
        },
    }
}

/// A card's own preset when the stream first meets it, in a row of
/// `deck_id`.
pub open spec fn spec_own_preset(presets: RwkvStreamPresets, card_id: i64, deck_id: i64) -> Result<StreamPreset, ReplayError> {
    match presets {
        RwkvStreamPresets::ByCard(by_card) => match first_value(by_card@, card_id) {
            Some(id) => Ok(StreamPreset::Id(id)),
            None => Ok(StreamPreset::Missing),
        },
        RwkvStreamPresets::ByCardOrNone(by_card) => match first_value(by_card@, card_id) {
            Some(Some(id)) => Ok(StreamPreset::Id(id)),
            Some(None) => Ok(StreamPreset::Unresolved),
            None => Ok(StreamPreset::Missing),
        },
        RwkvStreamPresets::HomeDeck { decks, presets } => match spec_home_deck_preset(decks@, presets@, deck_id) {
            Ok(id) => Ok(StreamPreset::Id(id)),
            Err(e) => Err(e),
        },
    }
}

/// The preset a review counts under, given the card's own: the first route
/// that applies, else the card's own; an error where it has none and needs
/// one.
pub open spec fn spec_review_preset(routed: Option<i64>, own: StreamPreset) -> Result<Option<i64>, ReplayError> {
    match (routed, own) {
        (Some(id), _) => Ok(Some(id)),
        (None, StreamPreset::Id(id)) => Ok(Some(id)),
        (None, StreamPreset::Unresolved) => Ok(None),
        (None, StreamPreset::Missing) => Err(ReplayError::MissingPreset),
    }
}

/// The event of a row whose review counts under `preset_id`.
pub open spec fn spec_event(row: RwkvHistoricalReviewRow, preset_id: Option<i64>) -> RwkvReviewEvent {
    RwkvReviewEvent {
        review_id: row.review_id,
        card_id: row.card_id,
        note_id: row.note_id,
        deck_id: row.deck_id,
        preset_id,
        rating: row.ease,
        duration_millis: row.duration_millis,
        review_kind: row.review_kind,
        interval_days: row.interval_days,
        ease_factor: row.ease_factor,
        replay_start: row.is_learning_start,
    }
}

/// Turns the replay's rows into events, one row at a time and in order,
/// remembering each card's own preset from the first row that needed it.
#[derive(Clone, Debug)]
pub struct RwkvReviewStream {
    pub presets: RwkvStreamPresets,
    pub routes: Vec<RwkvHistoricalPresetRoute>,
    pub cards: Vec<(i64, StreamPreset)>,
}

impl RwkvReviewStream {
    pub fn new(presets: RwkvStreamPresets, routes: Vec<RwkvHistoricalPresetRoute>) -> (stream: RwkvReviewStream)
        ensures
            stream.presets == presets,
            stream.routes == routes,
            stream.cards@.len() == 0,
    {
        RwkvReviewStream { presets, routes, cards: Vec::new() }
    }

    /// The card's own stable preset id, once the stream has seen the card.
    pub fn card_preset_id(&self, card_id: i64) -> (preset: Option<i64>)
        ensures
            preset == match first_value(self.cards@, card_id) {
                Some(StreamPreset::Id(id)) => Some(id),
                _ => None,
            },
    {
        match find_value(&self.cards, card_id) {
            Some(StreamPreset::Id(id)) => Some(id),
            _ => None,
        }
    }

    /// The event of the next row, whose card had `review_count` reviews
    /// before it, the last of `previous_interval_days`. A deleted card's
    /// review has no preset; any other counts under the first route that
    /// applies, else the card's own preset.
    pub fn event(&mut self, row: RwkvHistoricalReviewRow, review_count: i64, previous_interval_days: i64) -> (event: Result<RwkvReviewEvent, ReplayError>)
        ensures
            final(self).presets == old(self).presets,
            final(self).routes == old(self).routes,
            row.deck_id is None ==> event == Ok::<RwkvReviewEvent, ReplayError>(spec_event(row, None))
                && final(self).cards == old(self).cards,
            row.deck_id matches Some(deck_id) ==> {
                let known = first_value(old(self).cards@, row.card_id);
                let own = match known {
                    Some(p) => Ok(p),
                    None => spec_own_preset(old(self).presets, row.card_id, deck_id),
                };
                let routed = first_route(old(self).routes@, row.card_id, review_count, previous_interval_days);
                &&& match own {
                    Err(e) => event == Err::<RwkvReviewEvent, ReplayError>(e),
                    Ok(p) => match spec_review_preset(routed, p) {
                        Ok(preset_id) => event == Ok::<RwkvReviewEvent, ReplayError>(spec_event(row, preset_id)),
                        Err(e) => event == Err::<RwkvReviewEvent, ReplayError>(e),
                    },
                }
                &&& match (known, own) {
                    (None, Ok(p)) => final(self).cards@ == old(self).cards@.push((row.card_id, p)),
                    _ => final(self).cards == old(self).cards,
                }
            },
    {
        let preset_id = match row.deck_id {
            None => None,
            Some(deck_id) => {
                let own = match find_value(&self.cards, row.card_id) {
                    Some(p) => p,
                    None => {
                        let computed = match &self.presets {
                            RwkvStreamPresets::ByCard(by_card) => match find_value(by_card, row.card_id) {
                                Some(id) => StreamPreset::Id(id),
                                None => StreamPreset::Missing,
                            },
                            RwkvStreamPresets::ByCardOrNone(by_card) => match find_value(by_card, row.card_id) {
                                Some(Some(id)) => StreamPreset::Id(id),
                                Some(None) => StreamPreset::Unresolved,
                                None => StreamPreset::Missing,
                            },
                            RwkvStreamPresets::HomeDeck { decks, presets } => match rwkv_home_deck_preset_id(
                                deck_id,
                                decks,
                                presets,
                            ) {
                                Ok(id) => StreamPreset::Id(id),
                                Err(e) => {
                                    return Err(e);
                                },
                            },
                        };
                        self.cards.push((row.card_id, computed));
                        computed
                    },
                };
                let routed = find_route(&self.routes, row.card_id, review_count, previous_interval_days);
                match (routed, own) {
                    (Some(id), _) => Some(id),
                    (None, StreamPreset::Id(id)) => Some(id),
                    (None, StreamPreset::Unresolved) => None,
                    (None, StreamPreset::Missing) => {
                        return Err(ReplayError::MissingPreset);
                    },
                }
            },
        };
        Ok(
            RwkvReviewEvent {
                review_id: row.review_id,
                card_id: row.card_id,
                note_id: row.note_id,
                deck_id: row.deck_id,
                preset_id,
                rating: row.ease,
                duration_millis: row.duration_millis,
                review_kind: row.review_kind,
                interval_days: row.interval_days,
                ease_factor: row.ease_factor,
                replay_start: row.is_learning_start,
            },
        )
    }
}

} // verus!
