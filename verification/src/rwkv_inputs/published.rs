use vstd::prelude::*;

use crate::rwkv_inputs::bytes::le_i64;
use crate::rwkv_inputs::bytes::le_u32;
use crate::rwkv_inputs::bytes::opt_i64_bytes;
use crate::rwkv_inputs::bytes::opt_text_bytes;
use crate::rwkv_inputs::bytes::write_i64;
use crate::rwkv_inputs::bytes::write_optional_i64;
use crate::rwkv_inputs::bytes::write_optional_text;
use crate::rwkv_inputs::bytes::write_u32;
use crate::rwkv_inputs::lookup::find_value;
use crate::rwkv_inputs::lookup::first_value;
use crate::rwkv_inputs::stream::RwkvReviewEvent;

verus! {

/// The size of one packed warm-up row.
pub const PACKED_WARM_UP_ROW_BYTES: usize = 95;

/// One review as today's published model reads it.
#[derive(Clone, Copy, Debug, PartialEq, Eq, Structural)]
pub struct PublishedReviewInput {
    pub review_id: i64,
    pub card_id: i64,
    /// None, as the deck and the preset, for a deleted card's review.
    pub note_id: Option<i64>,
    pub deck_id: Option<i64>,
    pub preset_id: Option<i64>,
    pub ease: i64,
    pub duration_millis: i64,
    /// 0 on the replay's start row, else the review log's type plus one.
    pub card_type: i64,
    pub review_kind: i64,
    pub interval_days: i64,
    pub ease_factor: i64,
    pub day_offset: i64,
    pub elapsed_days: i64,
    pub elapsed_seconds: i64,
}

/// The names of a review's state, as the model's records spell them.
#[derive(Clone, Copy, Debug, PartialEq, Eq, Structural)]
pub enum StateKind {
    Normal,
    Filtered,
    Learning,
    Relearning,
    Review,
}

pub open spec fn state_kind_name(kind: StateKind) -> Seq<u8> {
    match kind {
        StateKind::Normal => seq![110u8, 111, 114, 109, 97, 108],
        StateKind::Filtered => seq![102u8, 105, 108, 116, 101, 114, 101, 100],
        StateKind::Learning => seq![108u8, 101, 97, 114, 110, 105, 110, 103],
        StateKind::Relearning => seq![114u8, 101, 108, 101, 97, 114, 110, 105, 110, 103],
        StateKind::Review => seq![114u8, 101, 118, 105, 101, 119],
    }
}

/// The name of a state kind, in ASCII.
pub fn state_kind_bytes(kind: StateKind) -> (name: Vec<u8>)
    ensures
        name@ == state_kind_name(kind),
{
    let name = match kind {
        StateKind::Normal => vec![110u8, 111, 114, 109, 97, 108],
        StateKind::Filtered => vec![102u8, 105, 108, 116, 101, 114, 101, 100],
        StateKind::Learning => vec![108u8, 101, 97, 114, 110, 105, 110, 103],
        StateKind::Relearning => vec![114u8, 101, 108, 101, 97, 114, 110, 105, 110, 103],
        StateKind::Review => vec![114u8, 101, 118, 105, 101, 119],
    };
    proof {
        assert(name@ =~= state_kind_name(kind));
    }
    name
}

pub open spec fn spec_card_queue(review_kind: i64) -> i64 {
    if review_kind == 0 {
        1
    } else if review_kind == 2 {
        3
    } else {
        2
    }
}

pub open spec fn spec_state_kinds(review_kind: i64) -> (Option<StateKind>, Option<StateKind>) {
    if review_kind == 0 {
        (Some(StateKind::Normal), Some(StateKind::Learning))
    } else if review_kind == 2 {
        (Some(StateKind::Normal), Some(StateKind::Relearning))
    } else if review_kind == 3 {
        (Some(StateKind::Filtered), None)
    } else {
        (Some(StateKind::Normal), Some(StateKind::Review))
    }
}

pub open spec fn opt_name(kind: Option<StateKind>) -> Option<Seq<u8>> {
    match kind {
        Some(k) => Some(state_kind_name(k)),
        None => None,
    }
}

/// The delta record of a review: the bytes the history hash chains.
pub open spec fn spec_delta_record(r: PublishedReviewInput) -> Seq<u8> {
    le_i64(r.review_id) + le_i64(r.card_id) + opt_i64_bytes(r.note_id) + opt_i64_bytes(r.deck_id)
        + opt_i64_bytes(r.preset_id) + seq![0u8] + opt_i64_bytes(Some(r.ease)) + opt_i64_bytes(
        Some(r.duration_millis),
    ) + opt_i64_bytes(Some(r.card_type)) + opt_i64_bytes(Some(spec_card_queue(r.review_kind)))
        + opt_i64_bytes(None) + opt_i64_bytes(Some(r.interval_days)) + opt_i64_bytes(Some(r.ease_factor))
        + opt_i64_bytes(None) + opt_i64_bytes(None) + opt_i64_bytes(Some(r.day_offset)) + opt_text_bytes(
        opt_name(spec_state_kinds(r.review_kind).0),
    ) + opt_text_bytes(opt_name(spec_state_kinds(r.review_kind).1)) + opt_i64_bytes(Some(r.elapsed_days))
        + opt_i64_bytes(Some(r.elapsed_seconds))
}

/// Which of the note, deck and preset a row holds: bits 0 to 2, over the
/// bits that are always set.
pub open spec fn spec_presence(r: PublishedReviewInput) -> u32 {
    0x1f8u32 | (if r.note_id is Some { 1u32 } else { 0u32 }) | (if r.deck_id is Some { 2u32 } else { 0u32 })
        | (if r.preset_id is Some { 4u32 } else { 0u32 })
}

pub open spec fn or_zero(v: Option<i64>) -> i64 {
    match v {
        Some(x) => x,
        None => 0,
    }
}

/// The packed warm-up row of a review.
pub open spec fn spec_packed_row(r: PublishedReviewInput) -> Seq<u8> {
    le_u32(spec_presence(r)) + le_i64(r.card_id) + le_i64(or_zero(r.note_id)) + le_i64(or_zero(r.deck_id))
        + le_i64(or_zero(r.preset_id)) + seq![0u8, r.ease as u8] + le_i64(r.duration_millis) + le_i64(
        r.card_type,
    ) + le_i64(r.day_offset) + le_i64(r.elapsed_days) + le_i64(r.elapsed_seconds) + Seq::new(
        16,
        |i: int| 0u8,
    ) + seq![1u8]
}

impl PublishedReviewInput {
    /// The queue a review leaves its card in: learning, interday
    /// relearning, or review.
    pub fn card_queue(&self) -> (queue: i64)
        ensures
            queue == spec_card_queue(self.review_kind),
    {
        if self.review_kind == 0 {
            1
        } else if self.review_kind == 2 {
            3
        } else {
            2
        }
    }

    /// The state kind and the normal state kind of a review.
    pub fn state_kinds(&self) -> (kinds: (Option<StateKind>, Option<StateKind>))
        ensures
            kinds == spec_state_kinds(self.review_kind),
    {
        if self.review_kind == 0 {
            (Some(StateKind::Normal), Some(StateKind::Learning))
        } else if self.review_kind == 2 {
            (Some(StateKind::Normal), Some(StateKind::Relearning))
        } else if self.review_kind == 3 {
            (Some(StateKind::Filtered), None)
        } else {
            (Some(StateKind::Normal), Some(StateKind::Review))
        }
    }

    /// Appends the review's delta record.
    pub fn write_delta_record(&self, out: &mut Vec<u8>)
        ensures
            final(out)@ == old(out)@ + spec_delta_record(*self),
    {
        let ghost start = out@;
        let ghost mut acc: Seq<u8> = seq![];
        proof {
            assert(out@ =~= start + acc);
        }
        write_i64(out, self.review_id);
        proof { lemma_append(start, acc, le_i64(self.review_id)); acc = acc + le_i64(self.review_id); }
        write_i64(out, self.card_id);
        proof { lemma_append(start, acc, le_i64(self.card_id)); acc = acc + le_i64(self.card_id); }
        write_optional_i64(out, self.note_id);
        proof { lemma_append(start, acc, opt_i64_bytes(self.note_id)); acc = acc + opt_i64_bytes(self.note_id); }
        write_optional_i64(out, self.deck_id);
        proof { lemma_append(start, acc, opt_i64_bytes(self.deck_id)); acc = acc + opt_i64_bytes(self.deck_id); }
        write_optional_i64(out, self.preset_id);
        proof { lemma_append(start, acc, opt_i64_bytes(self.preset_id)); acc = acc + opt_i64_bytes(self.preset_id); }
        let ghost before_zero = out@;
        out.push(0);
        proof {
            assert(out@ =~= before_zero + seq![0u8]);
            lemma_append(start, acc, seq![0u8]);
            acc = acc + seq![0u8];
        }
        write_optional_i64(out, Some(self.ease));
        proof { lemma_append(start, acc, opt_i64_bytes(Some(self.ease))); acc = acc + opt_i64_bytes(Some(self.ease)); }
        write_optional_i64(out, Some(self.duration_millis));
        proof { lemma_append(start, acc, opt_i64_bytes(Some(self.duration_millis))); acc = acc + opt_i64_bytes(Some(self.duration_millis)); }
        write_optional_i64(out, Some(self.card_type));
        proof { lemma_append(start, acc, opt_i64_bytes(Some(self.card_type))); acc = acc + opt_i64_bytes(Some(self.card_type)); }
        let queue = self.card_queue();
        write_optional_i64(out, Some(queue));
        proof { lemma_append(start, acc, opt_i64_bytes(Some(queue))); acc = acc + opt_i64_bytes(Some(queue)); }
        write_optional_i64(out, None);
        proof { lemma_append(start, acc, opt_i64_bytes(None)); acc = acc + opt_i64_bytes(None); }
        write_optional_i64(out, Some(self.interval_days));
        proof { lemma_append(start, acc, opt_i64_bytes(Some(self.interval_days))); acc = acc + opt_i64_bytes(Some(self.interval_days)); }
        write_optional_i64(out, Some(self.ease_factor));
        proof { lemma_append(start, acc, opt_i64_bytes(Some(self.ease_factor))); acc = acc + opt_i64_bytes(Some(self.ease_factor)); }
        write_optional_i64(out, None);
        proof { lemma_append(start, acc, opt_i64_bytes(None)); acc = acc + opt_i64_bytes(None); }
        write_optional_i64(out, None);
        proof { lemma_append(start, acc, opt_i64_bytes(None)); acc = acc + opt_i64_bytes(None); }
        write_optional_i64(out, Some(self.day_offset));
        proof { lemma_append(start, acc, opt_i64_bytes(Some(self.day_offset))); acc = acc + opt_i64_bytes(Some(self.day_offset)); }
        let (state_kind, normal_state_kind) = self.state_kinds();
        let state_name = match state_kind {
            Some(k) => Some(state_kind_bytes(k)),
            None => None,
        };
        let normal_name = match normal_state_kind {
            Some(k) => Some(state_kind_bytes(k)),
            None => None,
        };
        let ghost state_seq = opt_name(state_kind);
        let ghost normal_seq = opt_name(normal_state_kind);
        proof {
            assert(match state_name { Some(t) => Some(t@), None => None::<Seq<u8>> } == state_seq);
            assert(match normal_name { Some(t) => Some(t@), None => None::<Seq<u8>> } == normal_seq);
        }
        write_optional_text(out, &state_name);
        proof { lemma_append(start, acc, opt_text_bytes(state_seq)); acc = acc + opt_text_bytes(state_seq); }
        write_optional_text(out, &normal_name);
        proof { lemma_append(start, acc, opt_text_bytes(normal_seq)); acc = acc + opt_text_bytes(normal_seq); }
        write_optional_i64(out, Some(self.elapsed_days));
        proof { lemma_append(start, acc, opt_i64_bytes(Some(self.elapsed_days))); acc = acc + opt_i64_bytes(Some(self.elapsed_days)); }
        write_optional_i64(out, Some(self.elapsed_seconds));
        proof { lemma_append(start, acc, opt_i64_bytes(Some(self.elapsed_seconds))); acc = acc + opt_i64_bytes(Some(self.elapsed_seconds)); }
        proof {
            assert(acc == spec_delta_record(*self));
        }
    }

    /// Appends the review's packed warm-up row: the note (bit 0), deck (bit
    /// 1) and preset (bit 2) where the card has them, and no target
    /// retentions; the grade order is enforced.
    pub fn write_packed_row(&self, out: &mut Vec<u8>)
        ensures
            final(out)@ == old(out)@ + spec_packed_row(*self),
            spec_packed_row(*self).len() == PACKED_WARM_UP_ROW_BYTES,
    {
        let ghost start = out@;
        let presence: u32 = 0x1f8u32 | (if self.note_id.is_some() { 1u32 } else { 0u32 }) | (if self.deck_id.is_some() {
            2u32
        } else {
            0u32
        }) | (if self.preset_id.is_some() { 4u32 } else { 0u32 });
        write_u32(out, presence);
        write_i64(out, self.card_id);
        write_i64(out, match self.note_id { Some(x) => x, None => 0 });
        write_i64(out, match self.deck_id { Some(x) => x, None => 0 });
        write_i64(out, match self.preset_id { Some(x) => x, None => 0 });
        out.push(0);
        out.push(self.ease as u8);
        write_i64(out, self.duration_millis);
        write_i64(out, self.card_type);
        write_i64(out, self.day_offset);
        write_i64(out, self.elapsed_days);
        write_i64(out, self.elapsed_seconds);
        let mut k: usize = 0;
        let ghost before_zeros = out@;
        while k < 16
            invariant
                k <= 16,
                out@ == before_zeros + Seq::new(k as nat, |i: int| 0u8),
            decreases 16 - k,
        {
            out.push(0);
            proof {
                assert(before_zeros + Seq::new((k + 1) as nat, |i: int| 0u8) =~= out@);
            }
            k = k + 1;
        }
        out.push(1);
        proof {
            assert(out@ =~= start + spec_packed_row(*self));
        }
    }
}

/// Appending `b` after `a` to a text that ended with `s + a`.
pub proof fn lemma_append(s: Seq<u8>, a: Seq<u8>, b: Seq<u8>)
    ensures
        (s + a) + b == s + (a + b),
{
    assert((s + a) + b =~= s + (a + b));
}

/// The days the replay measures reviews in: the collection's day today and
/// when the next one starts (seconds).
#[derive(Clone, Copy, Debug, PartialEq, Eq, Structural)]
pub struct RwkvReplayDays {
    pub days_elapsed: i64,
    pub next_day_at: i64,
}

/// The replay's days stay far from the ends of the integers.
pub open spec fn days_ok(days: RwkvReplayDays) -> bool {
    &&& 0 <= days.days_elapsed < 0x1_0000_0000
    &&& -0x1000_0000_0000_0000 < days.next_day_at < 0x1000_0000_0000_0000
}

/// The collection day a review fell on: today less the whole days between
/// the review and the start of tomorrow, never before day 0 (division
/// rounds down).
pub open spec fn spec_day_offset(review_id: i64, days: RwkvReplayDays) -> int {
    let review_secs = review_id / 1000;
    let gap = days.next_day_at - 1 - review_secs;
    let days_before_today = if gap > 0 { gap / 86_400 } else { 0 };
    let offset = days.days_elapsed - days_before_today;
    if offset > 0 { offset } else { 0 }
}

/// `x / 1000`, rounded down.
fn floor_div_1000(x: i64) -> (q: i64)
    ensures
        q == x / 1000,
{
    let q = x / 1000;
    if x % 1000 < 0 {
        q - 1
    } else {
        q
    }
}

/// The collection day a review fell on (see `spec_day_offset`).
pub fn rwkv_historical_day_offset(review_id: i64, days: &RwkvReplayDays) -> (offset: i64)
    requires
        days_ok(*days),
    ensures
        offset == spec_day_offset(review_id, *days),
{
    let review_secs = floor_div_1000(review_id);
    let gap = days.next_day_at - 1 - review_secs;
    let days_before_today = if gap > 0 {
        gap / 86_400
    } else {
        0
    };
    let offset = days.days_elapsed - days_before_today;
    if offset > 0 {
        offset
    } else {
        0
    }
}

/// Where the first review of a card measures its elapsed time from.
#[derive(Clone, Debug)]
pub enum RwkvFirstReviewElapsed {
    /// From the card's creation where its home deck's preset says so:
    /// the decks with their presets, each preset's setting, and the
    /// settings the caller asked for, which come first.
    DeckConfig { decks: Vec<(i64, Option<i64>)>, configs: Vec<(i64, bool)>, requested: Vec<(i64, bool)> },
    CardCreation,
    Missing,
    /// From the card's creation where the caller says so for its home deck.
    ByDeck(Vec<(i64, bool)>),
}

pub open spec fn spec_uses_card_creation(source: RwkvFirstReviewElapsed, deck_id: Option<i64>) -> bool {
    match source {
        RwkvFirstReviewElapsed::ByDeck(by_deck) => match deck_id {
            Some(d) => first_value(by_deck@, d) == Some(true),
            None => false,
        },
        RwkvFirstReviewElapsed::DeckConfig { decks, configs, requested } => match deck_id {
            Some(d) => match first_value(decks@, d) {
                Some(Some(config_id)) => match first_value(requested@, config_id) {
                    Some(flag) => flag,
                    None => first_value(configs@, config_id) == Some(true),
                },
                _ => false,
            },
            None => false,
        },
        RwkvFirstReviewElapsed::CardCreation => true,
        RwkvFirstReviewElapsed::Missing => false,
    }
}

/// Whether a card's first review measures its elapsed time from the card's
/// creation. A deleted card (no deck) has no preset to ask, so only a
/// source that asks none says so for it.
pub fn first_review_uses_card_creation(source: &RwkvFirstReviewElapsed, deck_id: Option<i64>) -> (uses: bool)
    ensures
        uses == spec_uses_card_creation(*source, deck_id),
{
    match source {
        RwkvFirstReviewElapsed::ByDeck(by_deck) => match deck_id {
            Some(d) => match find_value(by_deck, d) {
                Some(flag) => flag,
                None => false,
            },
            None => false,
        },
        RwkvFirstReviewElapsed::DeckConfig { decks, configs, requested } => match deck_id {
            Some(d) => match find_value(decks, d) {
                Some(Some(config_id)) => match find_value(requested, config_id) {
                    Some(flag) => flag,
                    None => match find_value(configs, config_id) {
                        Some(flag) => flag,
                        None => false,
                    },
                },
                _ => false,
            },
            None => false,
        },
        RwkvFirstReviewElapsed::CardCreation => true,
        RwkvFirstReviewElapsed::Missing => false,
    }
}

/// Review and card ids are millisecond times far from the ends of the
/// integers.
pub open spec fn id_ok(id: i64) -> bool {
    -0x1000_0000_0000_0000 < id < 0x1000_0000_0000_0000
}

/// The time since the card's previous review, as whole days and seconds
/// (never below 0); or since its creation, for the start of a replay that
/// is a real learning start whose deck says so; else unknown (-1, -1).
pub open spec fn spec_elapsed(event: RwkvReviewEvent, previous_review_id: Option<i64>, source: RwkvFirstReviewElapsed, days: RwkvReplayDays) -> (int, int) {
    match previous_review_id {
        Some(previous) => {
            let d = spec_day_offset(event.review_id, days) - spec_day_offset(previous, days);
            let s = (event.review_id - previous) / 1000;
            (if d > 0 { d } else { 0 }, if s > 0 { s } else { 0 })
        },
        None => if event.replay_start && event.review_kind == 0 && spec_uses_card_creation(source, event.deck_id) {
            let s0 = (event.review_id - event.card_id) / 1000;
            let s = if s0 > 0 { s0 } else { 0 };
            (s / 86_400, s)
        } else {
            (-1, -1)
        },
    }
}

/// The record of an event.
pub open spec fn spec_encode_review(event: RwkvReviewEvent, previous_review_id: Option<i64>, source: RwkvFirstReviewElapsed, days: RwkvReplayDays) -> PublishedReviewInput {
    let (elapsed_days, elapsed_seconds) = spec_elapsed(event, previous_review_id, source, days);
    PublishedReviewInput {
        review_id: event.review_id,
        card_id: event.card_id,
        note_id: event.note_id,
        deck_id: event.deck_id,
        preset_id: event.preset_id,
        ease: event.rating,
        duration_millis: event.duration_millis,
        card_type: if event.replay_start { 0 } else { (event.review_kind + 1) as i64 },
        review_kind: event.review_kind,
        interval_days: event.interval_days,
        ease_factor: event.ease_factor,
        day_offset: spec_day_offset(event.review_id, days) as i64,
        elapsed_days: elapsed_days as i64,
        elapsed_seconds: elapsed_seconds as i64,
    }
}

/// Encodes a replay's events for today's published model.
#[derive(Clone, Debug)]
pub struct PublishedEncoder {
    pub days: RwkvReplayDays,
    pub first_review: RwkvFirstReviewElapsed,
}

/// A later review never falls on an earlier collection day.
pub proof fn lemma_day_offset_monotone(earlier: i64, later: i64, days: RwkvReplayDays)
    requires
        earlier <= later,
    ensures
        spec_day_offset(earlier, days) <= spec_day_offset(later, days),
{
    vstd::arithmetic::div_mod::lemma_div_is_ordered(earlier as int, later as int, 1000);
    let gap_e = days.next_day_at - 1 - earlier / 1000;
    let gap_l = days.next_day_at - 1 - later / 1000;
    if gap_l > 0 {
        vstd::arithmetic::div_mod::lemma_div_is_ordered(gap_l, gap_e, 86_400);
    } else if gap_e > 0 {
        vstd::arithmetic::div_mod::lemma_div_pos_is_pos(gap_e, 86_400);
    }
}

/// A record of a card that was reviewed before in the replay counts the
/// collection days between the two reviews: the day of the review less the
/// day of the previous one, never below 0; and the whole seconds between
/// them, never below 0. When the previous review came first, the days are
/// exactly the difference of the two days.
pub proof fn lemma_elapsed_since_previous_review(
    event: RwkvReviewEvent,
    previous: i64,
    source: RwkvFirstReviewElapsed,
    days: RwkvReplayDays,
)
    requires
        days_ok(days),
        id_ok(event.review_id),
        id_ok(previous),
    ensures
        ({
            let record = spec_encode_review(event, Some(previous), source, days);
            let here = spec_day_offset(event.review_id, days);
            let there = spec_day_offset(previous, days);
            &&& record.day_offset == here
            &&& record.elapsed_days == if here >= there { here - there } else { 0 }
            &&& record.elapsed_seconds == if event.review_id - previous >= 1000 {
                (event.review_id - previous) / 1000
            } else {
                0
            }
            &&& previous <= event.review_id ==> record.elapsed_days == here - there
        }),
{
    if previous <= event.review_id {
        lemma_day_offset_monotone(previous, event.review_id, days);
    }
}

impl PublishedEncoder {
    pub fn new(days: RwkvReplayDays, first_review: RwkvFirstReviewElapsed) -> (encoder: PublishedEncoder)
        ensures
            encoder.days == days,
            encoder.first_review == first_review,
    {
        PublishedEncoder { days, first_review }
    }

    /// The record of `event`, whose card's previous review in the replay
    /// (or in the state it goes on from) is `previous_review_id`.
    pub fn encode_review(&self, event: &RwkvReviewEvent, previous_review_id: Option<i64>) -> (record: PublishedReviewInput)
        requires
            days_ok(self.days),
            id_ok(event.review_id),
            id_ok(event.card_id),
            event.review_kind < i64::MAX,
            previous_review_id matches Some(p) ==> id_ok(p),
        ensures
            record == spec_encode_review(*event, previous_review_id, self.first_review, self.days),
            record.day_offset == spec_day_offset(event.review_id, self.days),
            previous_review_id matches Some(p) ==> {
                &&& record.elapsed_days == if spec_day_offset(event.review_id, self.days) >= spec_day_offset(p, self.days) {
                    spec_day_offset(event.review_id, self.days) - spec_day_offset(p, self.days)
                } else {
                    0
                }
                &&& record.elapsed_seconds == if event.review_id - p >= 1000 {
                    (event.review_id - p) / 1000
                } else {
                    0
                }
            },
    {
        let day_offset = rwkv_historical_day_offset(event.review_id, &self.days);
        let (elapsed_days, elapsed_seconds) = match previous_review_id {
            Some(previous) => {
                let d = day_offset - rwkv_historical_day_offset(previous, &self.days);
                let s = floor_div_1000(event.review_id - previous);
                (if d > 0 { d } else { 0 }, if s > 0 { s } else { 0 })
            },
            None => if event.replay_start && event.review_kind == 0 && first_review_uses_card_creation(
                &self.first_review,
                event.deck_id,
            ) {
                let s0 = floor_div_1000(event.review_id - event.card_id);
                let s = if s0 > 0 { s0 } else { 0 };
                (s / 86_400, s)
            } else {
                (-1, -1)
            },
        };
        PublishedReviewInput {
            review_id: event.review_id,
            card_id: event.card_id,
            note_id: event.note_id,
            deck_id: event.deck_id,
            preset_id: event.preset_id,
            ease: event.rating,
            duration_millis: event.duration_millis,
            card_type: if event.replay_start { 0 } else { event.review_kind + 1 },
            review_kind: event.review_kind,
            interval_days: event.interval_days,
            ease_factor: event.ease_factor,
            day_offset,
            elapsed_days,
            elapsed_seconds,
        }
    }
}

} // verus!
