use vstd::prelude::*;
use crate::card::stamped;

use crate::card::spec_elapsed_days_since;
use crate::card::elapsed_days_since;
use crate::card::Card;
use crate::card::CardQueue;
use crate::card::CardType;
use vstd::string::StringSliceAdditionalSpecFns;
use crate::collection::Collection;
use crate::memory::home_deck;
use crate::predictions::contains_i64;
use crate::queue::model::find_config;
use crate::queue::model::find_deck;
use crate::queue::model::first_config;
use crate::queue::model::first_deck;
use crate::queue::model::Deck;
use crate::queue::model::DeckConfig;
use crate::queue::model::DEFAULT_INITIAL_EASE;

verus! {

/// The days a card may be made due in: a random day from `min` to `max`
/// (inclusive), and whether its interval is reset rather than shifted.
#[derive(Clone, Copy, Debug, PartialEq, Eq, Structural)]
pub struct DueDateSpecifier {
    pub min: u32,
    pub max: u32,
    pub force_reset: bool,
}

/// Why a due-date text was refused.
#[derive(Clone, Copy, Debug, PartialEq, Eq, Structural)]
pub enum DueDateError {
    /// It is not a number, optionally a hyphen and a second number, and
    /// optionally an exclamation mark.
    InvalidInput,
    /// A number does not fit in 32 bits.
    NumberTooLarge,
}

pub open spec fn is_digit(b: u8) -> bool {
    48 <= b <= 57
}

/// One or more ASCII digits.
pub open spec fn is_digits(d: Seq<u8>) -> bool {
    d.len() > 0 && forall|i: int| 0 <= i < d.len() ==> is_digit(#[trigger] d[i])
}

/// The number that decimal digits write.
pub open spec fn digits_value(d: Seq<u8>) -> int
    decreases d.len(),
{
    if d.len() == 0 {
        0
    } else {
        digits_value(d.drop_last()) * 10 + (d.last() - 48)
    }
}

/// The position of the first hyphen at or after `i`, or the length.
pub open spec fn first_dash_from(b: Seq<u8>, i: int) -> int
    decreases b.len() - i,
{
    if i >= b.len() || i < 0 {
        b.len() as int
    } else if b[i] == 45 {
        i
    } else {
        first_dash_from(b, i + 1)
    }
}

/// The text ends with an exclamation mark.
pub open spec fn has_bang(s: Seq<u8>) -> bool {
    s.len() > 0 && s.last() == 33
}

/// The text without its exclamation mark.
pub open spec fn body_of(s: Seq<u8>) -> Seq<u8> {
    if has_bang(s) {
        s.drop_last()
    } else {
        s
    }
}

pub open spec fn min_part(s: Seq<u8>) -> Seq<u8> {
    body_of(s).take(first_dash_from(body_of(s), 0))
}

pub open spec fn has_max_part(s: Seq<u8>) -> bool {
    first_dash_from(body_of(s), 0) < body_of(s).len()
}

pub open spec fn max_part(s: Seq<u8>) -> Seq<u8> {
    body_of(s).skip(first_dash_from(body_of(s), 0) + 1)
}

/// The text has the form: digits, optionally a hyphen and digits, optionally
/// an exclamation mark.
pub open spec fn due_date_syntax_ok(s: Seq<u8>) -> bool {
    is_digits(min_part(s)) && (has_max_part(s) ==> is_digits(max_part(s)))
}

/// Its numbers fit in 32 bits.
pub open spec fn due_date_numbers_fit(s: Seq<u8>) -> bool {
    digits_value(min_part(s)) <= u32::MAX && (has_max_part(s) ==> digits_value(max_part(s)) <= u32::MAX)
}

/// What a due-date text says: the smaller and larger of its numbers (the
/// one number twice where there is one), and whether it ends with `!`.
pub open spec fn spec_due_date(s: Seq<u8>) -> DueDateSpecifier {
    let a = digits_value(min_part(s));
    let b = if has_max_part(s) {
        digits_value(max_part(s))
    } else {
        a
    };
    DueDateSpecifier {
        min: (if a <= b { a } else { b }) as u32,
        max: (if a <= b { b } else { a }) as u32,
        force_reset: has_bang(s),
    }
}

proof fn lemma_digits_value_nonneg(d: Seq<u8>)
    requires
        forall|i: int| 0 <= i < d.len() ==> is_digit(#[trigger] d[i]),
    ensures
        digits_value(d) >= 0,
    decreases d.len(),
{
    if d.len() > 0 {
        assert(is_digit(d[d.len() - 1]));
        lemma_digits_value_nonneg(d.drop_last());
    }
}

/// The value of the digits `d[from..to]`, or none where it does not fit in
/// 32 bits.
fn digits_u32(d: &[u8], from: usize, to: usize) -> (value: Option<u32>)
    requires
        from <= to <= d@.len(),
        forall|i: int| from <= i < to ==> is_digit(#[trigger] d@[i]),
    ensures
        match value {
            Some(v) => v == digits_value(d@.subrange(from as int, to as int)),
            None => digits_value(d@.subrange(from as int, to as int)) > u32::MAX,
        },
{
    let mut acc: u64 = 0;
    let mut i: usize = from;
    proof {
        assert(d@.subrange(from as int, from as int) =~= Seq::<u8>::empty());
    }
    while i < to
        invariant
            from <= i <= to <= d@.len(),
            forall|k: int| from <= k < to ==> is_digit(#[trigger] d@[k]),
            acc == digits_value(d@.subrange(from as int, i as int)),
            acc <= u32::MAX,
        decreases to - i,
    {
        let ghost prefix = d@.subrange(from as int, i as int);
        let ghost next = d@.subrange(from as int, i + 1);
        proof {
            assert(next.drop_last() =~= prefix);
            assert(next.last() == d@[i as int]);
            assert(is_digit(d@[i as int]));
        }
        let digit = (d[i] - 48) as u64;
        acc = acc * 10 + digit;
        if acc > u32::MAX as u64 {
            proof {
                assert forall|j: int| i + 1 <= j <= to implies digits_value(#[trigger] d@.subrange(from as int, j))
                    > u32::MAX by {
                    lemma_value_grows(d@, from as int, i + 1, j);
                }
            }
            return None;
        }
        i = i + 1;
    }
    Some(acc as u32)
}

/// Appending digits never makes the value smaller.
proof fn lemma_value_grows(d: Seq<u8>, from: int, i: int, j: int)
    requires
        0 <= from <= i <= j <= d.len(),
        forall|k: int| from <= k < j ==> is_digit(#[trigger] d[k]),
    ensures
        digits_value(d.subrange(from, j)) >= digits_value(d.subrange(from, i)),
    decreases j - i,
{
    if j > i {
        lemma_value_grows(d, from, i, j - 1);
        let s = d.subrange(from, j);
        assert(s.drop_last() =~= d.subrange(from, j - 1));
        assert(is_digit(d[j - 1]));
        assert(forall|k: int| 0 <= k < d.subrange(from, j - 1).len() ==> is_digit(
            #[trigger] d.subrange(from, j - 1)[k],
        ));
        lemma_digits_value_nonneg(d.subrange(from, j - 1));
    }
}

/// Reads a due-date text: a number of days from today, or a range such as
/// `50-70` (in either order), optionally ending with `!` to reset the
/// interval.
pub fn parse_due_date_str(s: &str) -> (result: Result<DueDateSpecifier, DueDateError>)
    ensures
        !due_date_syntax_ok(s.spec_bytes()) <==> result == Err::<DueDateSpecifier, DueDateError>(
            DueDateError::InvalidInput,
        ),
        due_date_syntax_ok(s.spec_bytes()) && !due_date_numbers_fit(s.spec_bytes()) <==> result
            == Err::<DueDateSpecifier, DueDateError>(DueDateError::NumberTooLarge),
        due_date_syntax_ok(s.spec_bytes()) && due_date_numbers_fit(s.spec_bytes()) ==> result == Ok::<
            DueDateSpecifier,
            DueDateError,
        >(spec_due_date(s.spec_bytes())),
        result matches Ok(spec) ==> spec.min <= spec.max,
{
    let bytes = s.as_bytes();
    let ghost text = bytes@;
    let bang = bytes.len() > 0 && bytes[bytes.len() - 1] == 33;
    let end: usize = if bang {
        bytes.len() - 1
    } else {
        bytes.len()
    };
    let ghost body = body_of(text);
    proof {
        assert(body =~= text.subrange(0, end as int));
    }
    // the first hyphen
    let mut dash: usize = 0;
    while dash < end && bytes[dash] != 45
        invariant
            dash <= end <= text.len(),
            bytes@ == text,
            body == text.subrange(0, end as int),
            first_dash_from(body, 0) == first_dash_from(body, dash as int),
        decreases end - dash,
    {
        dash = dash + 1;
    }
    proof {
        assert(first_dash_from(body, 0) == dash);
        assert(min_part(text) =~= text.subrange(0, dash as int));
        if dash < end {
            assert(max_part(text) =~= text.subrange(dash + 1, end as int));
        }
    }
    // digits before it, and after it where there is one
    let min_ok = dash > 0 && all_digits(bytes, 0, dash);
    let max_ok = dash == end || (dash + 1 < end && all_digits(bytes, dash + 1, end));
    proof {
        if dash < end && dash + 1 >= end {
            assert(max_part(text).len() == 0);
        }
    }
    if !(min_ok && max_ok) {
        return Err(DueDateError::InvalidInput);
    }
    let min = digits_u32(bytes, 0, dash);
    let max = if dash < end {
        digits_u32(bytes, dash + 1, end)
    } else {
        min
    };
    match (min, max) {
        (Some(a), Some(b)) => Ok(
            DueDateSpecifier {
                min: if a <= b { a } else { b },
                max: if a <= b { b } else { a },
                force_reset: bang,
            },
        ),
        _ => Err(DueDateError::NumberTooLarge),
    }
}

/// Whether `d[from..to]` are all ASCII digits.
fn all_digits(d: &[u8], from: usize, to: usize) -> (ok: bool)
    requires
        from <= to <= d@.len(),
    ensures
        ok == forall|i: int| from <= i < to ==> is_digit(#[trigger] d@[i]),
        ok == forall|i: int| 0 <= i < to - from ==> is_digit(#[trigger] d@.subrange(from as int, to as int)[i]),
{
    let mut i: usize = from;
    while i < to
        invariant
            from <= i <= to <= d@.len(),
            forall|k: int| from <= k < i ==> is_digit(#[trigger] d@[k]),
        decreases to - i,
    {
        if !(48 <= d[i] && d[i] <= 57) {
            proof {
                assert(d@.subrange(from as int, to as int)[i - from] == d@[i as int]);
            }
            return false;
        }
        i = i + 1;
    }
    proof {
        assert forall|k: int| 0 <= k < to - from implies is_digit(#[trigger] d@.subrange(from as int, to as int)[k]) by {
            assert(d@.subrange(from as int, to as int)[k] == d@[from + k]);
        }
    }
    true
}

/// A due number above a billion is a time in seconds, not a day.
pub open spec fn is_unix_epoch_timestamp(due: i32) -> bool {
    due > 1_000_000_000
}

/// A new card's place in the new queue, else the place it last had.
pub open spec fn spec_last_position(card: Card) -> Option<u32> {
    if card.ctype == CardType::New {
        Some(card.spec_original_or_current_due() as u32)
    } else {
        card.original_position
    }
}

/// The card as a review card due on `due` with `interval`: out of any
/// filtered deck (back in its home deck), keeping its place in the new
/// queue, and with `ease_factor` where it had none.
pub open spec fn spec_schedule_as_review(card: Card, interval: u32, due: i32, ease_factor: u16) -> Card {
    let filtered = card.original_deck_id != 0;
    Card {
        original_position: spec_last_position(card),
        deck_id: if filtered { card.original_deck_id } else { card.deck_id },
        original_deck_id: 0,
        original_due: if filtered { 0 } else { card.original_due },
        interval,
        due,
        ctype: CardType::Review,
        queue: CardQueue::Review,
        ease_factor: if card.ease_factor == 0 { ease_factor } else { card.ease_factor },
        ..card
    }
}

/// `interval + diff`, kept within 0 and the largest 32-bit number.
pub open spec fn saturating_add_signed(interval: u32, diff: int) -> u32 {
    let v = interval + diff;
    if v < 0 {
        0
    } else if v > u32::MAX {
        u32::MAX
    } else {
        v as u32
    }
}

/// How far the new due day is from the card's current one, in days.
pub open spec fn due_shift(card: Card, today: u32, next_day_start: i64, new_due: int) -> int {
    let due = card.spec_original_or_current_due();
    if is_unix_epoch_timestamp(due) {
        let diff = due - next_day_start;
        // division that rounds toward zero
        let offset = if diff >= 0 { diff / 86_400 } else { -((-diff) / 86_400) };
        new_due - (today + offset)
    } else {
        new_due - due
    }
}

/// The interval a card gets when made due `days_from_today` from today.
pub open spec fn spec_due_date_interval(
    card: Card,
    today: u32,
    next_day_start: i64,
    days_from_today: u32,
    force_reset: bool,
    fsrs_enabled: bool,
) -> u32 {
    let new_due = today + days_from_today;
    if fsrs_enabled && !force_reset && (card.ctype == CardType::Review || card.ctype == CardType::Relearn) {
        card.interval
    } else if fsrs_enabled {
        if card.queue == CardQueue::New || card.interval == 0 {
            0
        } else {
            match card.last_review_time {
                Some(last) => (spec_elapsed_days_since(next_day_start, last) + days_from_today) as u32,
                None => saturating_add_signed(card.interval, due_shift(card, today, next_day_start, new_due)),
            }
        }
    } else if force_reset || !(card.ctype == CardType::Review || card.ctype == CardType::Relearn) {
        if days_from_today > 1 { days_from_today } else { 1 }
    } else {
        if card.interval > 1 { card.interval } else { 1 }
    }
}

/// The numbers stay in range.
pub open spec fn due_date_in_range(card: Card, today: u32, next_day_start: i64, days_from_today: u32) -> bool {
    &&& today + days_from_today <= i32::MAX
    &&& card.last_review_time matches Some(last) ==> spec_elapsed_days_since(next_day_start, last)
        + days_from_today <= u32::MAX
    &&& -0x1000_0000_0000_0000 < next_day_start < 0x1000_0000_0000_0000
}

impl Card {
    /// Makes the card a review card due `days_from_today` after `today`.
    /// Review and relearning cards keep their interval unless `force_reset`
    /// (at least one day without FSRS). Otherwise, under FSRS the interval
    /// becomes the time since the last review plus those days (new cards
    /// and cards without an interval keep none), and without FSRS the days
    /// themselves (at least one). A card without an ease factor gets
    /// `ease_factor` (permille).
    pub fn set_due_date(
        &mut self,
        today: u32,
        next_day_start: i64,
        days_from_today: u32,
        ease_factor: u16,
        force_reset: bool,
        fsrs_enabled: bool,
    )
        requires
            due_date_in_range(*old(self), today, next_day_start, days_from_today),
        ensures
            *final(self) == spec_schedule_as_review(
                *old(self),
                spec_due_date_interval(*old(self), today, next_day_start, days_from_today, force_reset, fsrs_enabled),
                (today + days_from_today) as i32,
                ease_factor,
            ),
            final(self).deck_id == if old(self).original_deck_id != 0 {
                old(self).original_deck_id
            } else {
                old(self).deck_id
            },
            final(self).original_deck_id == 0,
            old(self).original_deck_id != 0 ==> final(self).original_due == 0,
            final(self).due == today + days_from_today,
            !force_reset && (old(self).ctype == CardType::Review || old(self).ctype == CardType::Relearn)
                ==> final(self).interval == if fsrs_enabled || old(self).interval > 1 {
                old(self).interval
            } else {
                1
            },
    {
        let new_due = (today + days_from_today) as i32;
        let keeps_interval = !force_reset && (self.ctype == CardType::Review || self.ctype == CardType::Relearn);
        let new_interval = if fsrs_enabled && keeps_interval {
            self.interval
        } else if fsrs_enabled {
            if self.queue == CardQueue::New || self.interval == 0 {
                0
            } else if let Some(last_review_time) = self.last_review_time {
                let elapsed_days = elapsed_days_since(next_day_start, last_review_time);
                (elapsed_days + days_from_today as u64) as u32
            } else {
                let due = self.original_or_current_due();
                let due_diff: i64 = if due > 1_000_000_000 {
                    let offset: i64 = (due as i64 - next_day_start) / 86_400;
                    new_due as i64 - (today as i64 + offset)
                } else {
                    new_due as i64 - due as i64
                };
                let v: i64 = self.interval as i64 + due_diff;
                if v < 0 {
                    0
                } else if v > u32::MAX as i64 {
                    u32::MAX
                } else {
                    v as u32
                }
            }
        } else if force_reset || !(self.ctype == CardType::Review || self.ctype == CardType::Relearn) {
            if days_from_today > 1 { days_from_today } else { 1 }
        } else {
            if self.interval > 1 { self.interval } else { 1 }
        };
        self.schedule_as_review(new_interval, new_due, ease_factor);
    }

    /// Makes the card a review card due on `due` with `interval`: it leaves
    /// any filtered deck, keeps its place in the new queue, and gets
    /// `ease_factor` where it had none.
    pub fn schedule_as_review(&mut self, interval: u32, due: i32, ease_factor: u16)
        ensures
            *final(self) == spec_schedule_as_review(*old(self), interval, due, ease_factor),
            final(self).deck_id == if old(self).original_deck_id != 0 {
                old(self).original_deck_id
            } else {
                old(self).deck_id
            },
            final(self).original_deck_id == 0,
            old(self).original_deck_id != 0 ==> final(self).original_due == 0,
            final(self).due == due,
            final(self).interval == interval,
    {
        self.original_position = if self.ctype == CardType::New {
            Some(self.original_or_current_due() as u32)
        } else {
            self.original_position
        };
        if self.original_deck_id != 0 {
            self.deck_id = self.original_deck_id;
            self.original_deck_id = 0;
            self.original_due = 0;
        }
        self.interval = interval;
        self.due = due;
        self.ctype = CardType::Review;
        self.queue = CardQueue::Review;
        if self.ease_factor == 0 {
            self.ease_factor = ease_factor;
        }
    }
}

/// The card made due `days_from_today` after `today`.
pub open spec fn spec_card_due_in(
    card: Card,
    today: u32,
    next_day_start: i64,
    days_from_today: u32,
    ease_factor: u16,
    force_reset: bool,
    fsrs_enabled: bool,
) -> Card {
    spec_schedule_as_review(
        card,
        spec_due_date_interval(card, today, next_day_start, days_from_today, force_reset, fsrs_enabled),
        (today + days_from_today) as i32,
        ease_factor,
    )
}

/// Setting a card's due date brings it home: a card that sat in a filtered
/// deck (it has an original deck) is back in that deck, with no original
/// deck or original due left; any other card stays in its deck. Either way
/// it is a review card due on the chosen day.
pub proof fn lemma_due_date_brings_card_home(
    card: Card,
    today: u32,
    next_day_start: i64,
    days_from_today: u32,
    ease_factor: u16,
    force_reset: bool,
    fsrs_enabled: bool,
)
    requires
        due_date_in_range(card, today, next_day_start, days_from_today),
    ensures
        ({
            let after = spec_card_due_in(card, today, next_day_start, days_from_today, ease_factor, force_reset, fsrs_enabled);
            &&& card.original_deck_id != 0 ==> after.deck_id == card.original_deck_id && after.original_due == 0
            &&& card.original_deck_id == 0 ==> after.deck_id == card.deck_id
            &&& after.original_deck_id == 0
            &&& after.due == today + days_from_today
            &&& after.ctype == CardType::Review
            &&& after.queue == CardQueue::Review
        }),
{
}

/// Why the due dates of cards were not set.
#[derive(Clone, Copy, Debug, PartialEq, Eq, Structural)]
pub enum SetDueDateError {
    /// The text of days was refused.
    Days(DueDateError),
    /// A card's home deck is not in the collection.
    DeckNotFound(i64),
    /// A card's home deck is a filtered deck.
    HomeDeckFiltered,
}

/// The initial ease of a preset; that of an unchanged preset where there is
/// no preset with this id.
pub open spec fn preset_initial_ease(configs: Seq<DeckConfig>, id: i64) -> u16 {
    match first_config(configs, id) {
        Some(c) => c.initial_ease,
        None => DEFAULT_INITIAL_EASE,
    }
}

/// The ease a card of this home deck gets where it has none.
pub open spec fn home_deck_ease(decks: Seq<Deck>, configs: Seq<DeckConfig>, deck_id: i64) -> Result<u16, SetDueDateError> {
    match first_deck(decks, deck_id) {
        None => Err(SetDueDateError::DeckNotFound(deck_id)),
        Some(deck) => match deck.config_id {
            None => Err(SetDueDateError::HomeDeckFiltered),
            Some(c) => Ok(preset_initial_ease(configs, c)),
        },
    }
}

/// The first error that a chosen card's home deck gives, in collection
/// order.
pub open spec fn first_ease_error(cards: Seq<Card>, cids: Seq<i64>, decks: Seq<Deck>, configs: Seq<DeckConfig>) -> Option<SetDueDateError>
    decreases cards.len(),
{
    if cards.len() == 0 {
        None
    } else {
        match first_ease_error(cards.drop_last(), cids, decks, configs) {
            Some(e) => Some(e),
            None => if cids.contains(cards.last().id) {
                match home_deck_ease(decks, configs, home_deck(cards.last())) {
                    Err(e) => Some(e),
                    Ok(_) => None,
                }
            } else {
                None
            },
        }
    }
}

/// The chosen cards' ids and intervals before, in collection order: what
/// the review log records of a manual reschedule.
pub open spec fn manual_reschedules(cards: Seq<Card>, cids: Seq<i64>) -> Seq<(i64, u32)>
    decreases cards.len(),
{
    if cards.len() == 0 {
        Seq::empty()
    } else {
        let rest = manual_reschedules(cards.drop_last(), cids);
        if cids.contains(cards.last().id) {
            rest.push((cards.last().id, cards.last().interval))
        } else {
            rest
        }
    }
}

/// A number of days drawn uniformly from `min` to `max`, both included.
#[verifier::external_body]
fn draw_days(min: u32, max: u32) -> (days: u32)
    requires
        min <= max,
    ensures
        min <= days <= max,
{
    let distribution = rand::distr::Uniform::new_inclusive(min, max).unwrap();
    rand::distr::Distribution::sample(&distribution, &mut rand::rng())
}

impl Collection {
    /// The ease a card of this home deck gets where it has none.
    fn home_deck_ease(&self, deck_id: i64) -> (ease: Result<u16, SetDueDateError>)
        ensures
            ease == home_deck_ease(self.decks@, self.configs@, deck_id),
    {
        match find_deck(&self.decks, deck_id) {
            None => Err(SetDueDateError::DeckNotFound(deck_id)),
            Some(d) => match self.decks[d].config_id {
                None => Err(SetDueDateError::HomeDeckFiltered),
                Some(c) => match find_config(&self.configs, c) {
                    Some(i) => Ok(self.configs[i].initial_ease),
                    None => Ok(DEFAULT_INITIAL_EASE),
                },
            },
        }
    }

    /// Makes the cards with these ids due on a day drawn from `days` (see
    /// [`parse_due_date_str`]), each on its own draw, as
    /// [`Card::set_due_date`] does, with the initial ease of its home deck's
    /// preset. Returns each rescheduled card's id and interval before, in
    /// collection order, for the review log; each changed card is marked
    /// modified at `modified_at`. On an error nothing changes.
    pub fn set_due_date(
        &mut self,
        cids: &Vec<i64>,
        days: &str,
        today: u32,
        next_day_start: i64,
        fsrs_enabled: bool,
        modified_at: i64,
    ) -> (result: Result<Vec<(i64, u32)>, SetDueDateError>)
        requires
            due_date_syntax_ok(days.spec_bytes()) && due_date_numbers_fit(days.spec_bytes()) ==> forall|i: int|
                0 <= i < old(self).cards@.len() && cids@.contains(#[trigger] old(self).cards@[i].id)
                    ==> due_date_in_range(old(self).cards@[i], today, next_day_start, spec_due_date(days.spec_bytes()).max),
        ensures
            !due_date_syntax_ok(days.spec_bytes()) ==> result == Err::<Vec<(i64, u32)>, SetDueDateError>(
                SetDueDateError::Days(DueDateError::InvalidInput),
            ) && *final(self) == *old(self),
            due_date_syntax_ok(days.spec_bytes()) && !due_date_numbers_fit(days.spec_bytes()) ==> result == Err::<
                Vec<(i64, u32)>,
                SetDueDateError,
            >(SetDueDateError::Days(DueDateError::NumberTooLarge)) && *final(self) == *old(self),
            due_date_syntax_ok(days.spec_bytes()) && due_date_numbers_fit(days.spec_bytes()) ==> match first_ease_error(
                old(self).cards@,
                cids@,
                old(self).decks@,
                old(self).configs@,
            ) {
                Some(e) => result == Err::<Vec<(i64, u32)>, SetDueDateError>(e) && *final(self) == *old(self),
                None => {
                    &&& result is Ok
                    &&& result->Ok_0@ == manual_reschedules(old(self).cards@, cids@)
                    &&& *final(self) == (Collection { cards: final(self).cards, ..*old(self) })
                    &&& final(self).cards@.len() == old(self).cards@.len()
                    &&& forall|i: int| 0 <= i < old(self).cards@.len() ==> if cids@.contains(#[trigger] old(self).cards@[i].id) {
                        exists|d: u32| {
                            &&& spec_due_date(days.spec_bytes()).min <= d <= spec_due_date(days.spec_bytes()).max
                            &&& final(self).cards@[i] == stamped(spec_card_due_in(
                                old(self).cards@[i],
                                today,
                                next_day_start,
                                d,
                                home_deck_ease(old(self).decks@, old(self).configs@, home_deck(old(self).cards@[i]))->Ok_0,
                                spec_due_date(days.spec_bytes()).force_reset,
                                fsrs_enabled,
                            ), modified_at)
                        }
                    } else {
                        final(self).cards@[i] == old(self).cards@[i]
                    }
                },
            },
    {
        let spec = match parse_due_date_str(days) {
            Ok(spec) => spec,
            Err(e) => return Err(SetDueDateError::Days(e)),
        };
        let n = self.cards.len();
        // the ease of each chosen card's home deck, first: an error there
        // stops everything before any card changes
        let mut eases: Vec<u16> = Vec::new();
        let mut i: usize = 0;
        while i < n
            invariant
                *self == *old(self),
                due_date_syntax_ok(days.spec_bytes()) && due_date_numbers_fit(days.spec_bytes()),
                spec == spec_due_date(days.spec_bytes()),
                spec.min <= spec.max,
                n == self.cards@.len(),
                i <= n,
                eases@.len() == i,
                first_ease_error(self.cards@.subrange(0, i as int), cids@, self.decks@, self.configs@) is None,
                forall|k: int| 0 <= k < i && cids@.contains(#[trigger] self.cards@[k].id) ==> home_deck_ease(
                    self.decks@,
                    self.configs@,
                    home_deck(self.cards@[k]),
                ) == Ok::<u16, SetDueDateError>(eases@[k]),
            decreases n - i,
        {
            let card = self.cards[i];
            proof {
                assert(self.cards@.subrange(0, i + 1 as int).drop_last() =~= self.cards@.subrange(0, i as int));
                assert(self.cards@.subrange(0, i + 1 as int).last() == card);
            }
            if contains_i64(cids, card.id) {
                let home = if card.original_deck_id != 0 {
                    card.original_deck_id
                } else {
                    card.deck_id
                };
                match self.home_deck_ease(home) {
                    Ok(ease) => eases.push(ease),
                    Err(e) => {
                        proof {
                            lemma_first_ease_error_stays(self.cards@, (i + 1) as int, cids@, self.decks@, self.configs@);
                        }
                        return Err(e);
                    },
                }
            } else {
                eases.push(0);
            }
            i = i + 1;
        }
        proof {
            assert(self.cards@.subrange(0, n as int) =~= self.cards@);
        }
        let ghost old_cards = self.cards@;
        let mut log: Vec<(i64, u32)> = Vec::new();
        let mut i: usize = 0;
        while i < n
            invariant
                old_cards == old(self).cards@,
                n == old_cards.len(),
                self.cards@.len() == n,
                i <= n,
                eases@.len() == n,
                *self == (Collection { cards: self.cards, ..*old(self) }),
                spec == spec_due_date(days.spec_bytes()),
                spec.min <= spec.max,
                forall|k: int| 0 <= k < n && cids@.contains(#[trigger] old_cards[k].id) ==> home_deck_ease(
                    old(self).decks@,
                    old(self).configs@,
                    home_deck(old_cards[k]),
                ) == Ok::<u16, SetDueDateError>(eases@[k]),
                forall|k: int| 0 <= k < n && cids@.contains(#[trigger] old_cards[k].id) ==> due_date_in_range(
                    old_cards[k],
                    today,
                    next_day_start,
                    spec.max,
                ),
                forall|k: int| i <= k < n ==> #[trigger] self.cards@[k] == old_cards[k],
                forall|k: int| 0 <= k < i ==> if cids@.contains(#[trigger] old_cards[k].id) {
                    exists|d: u32| {
                        &&& spec.min <= d <= spec.max
                        &&& self.cards@[k] == stamped(spec_card_due_in(old_cards[k], today, next_day_start, d, eases@[k], spec.force_reset, fsrs_enabled), modified_at)
                    }
                } else {
                    self.cards@[k] == old_cards[k]
                },
                log@ == manual_reschedules(old_cards.subrange(0, i as int), cids@),
            decreases n - i,
        {
            let before = self.cards[i];
            proof {
                assert(old_cards.subrange(0, i + 1 as int).drop_last() =~= old_cards.subrange(0, i as int));
                assert(old_cards.subrange(0, i + 1 as int).last() == before);
            }
            if contains_i64(cids, before.id) {
                let d = draw_days(spec.min, spec.max);
                let mut card = before;
                card.set_due_date(today, next_day_start, d, eases[i], spec.force_reset, fsrs_enabled);
                card.mtime = modified_at;
                self.cards.set(i, card);
                log.push((before.id, before.interval));
                proof {
                    assert(self.cards@[i as int] == stamped(spec_card_due_in(old_cards[i as int], today, next_day_start, d, eases@[i as int], spec.force_reset, fsrs_enabled), modified_at));
                }
            }
            i = i + 1;
        }
        proof {
            assert(old_cards.subrange(0, n as int) =~= old_cards);
            assert forall|k: int| 0 <= k < n && cids@.contains(#[trigger] old_cards[k].id) implies exists|d: u32| {
                &&& spec.min <= d <= spec.max
                &&& self.cards@[k] == stamped(spec_card_due_in(
                    old_cards[k],
                    today,
                    next_day_start,
                    d,
                    home_deck_ease(old(self).decks@, old(self).configs@, home_deck(old_cards[k]))->Ok_0,
                    spec.force_reset,
                    fsrs_enabled,
                ), modified_at)
            } by {
                let d = choose|d: u32| {
                    &&& spec.min <= d <= spec.max
                    &&& self.cards@[k] == stamped(spec_card_due_in(old_cards[k], today, next_day_start, d, eases@[k], spec.force_reset, fsrs_enabled), modified_at)
                };
                assert(home_deck_ease(old(self).decks@, old(self).configs@, home_deck(old_cards[k]))->Ok_0 == eases@[k]);
            }
        }
        Ok(log)
    }
}

/// Once a prefix of the cards gives an error, the cards give that error.
proof fn lemma_first_ease_error_stays(cards: Seq<Card>, k: int, cids: Seq<i64>, decks: Seq<Deck>, configs: Seq<DeckConfig>)
    requires
        0 <= k <= cards.len(),
        first_ease_error(cards.subrange(0, k), cids, decks, configs) is Some,
    ensures
        first_ease_error(cards, cids, decks, configs) == first_ease_error(cards.subrange(0, k), cids, decks, configs),
    decreases cards.len(),
{
    if cards.len() == k {
        assert(cards.subrange(0, k) =~= cards);
    } else {
        assert(cards.drop_last().subrange(0, k) =~= cards.subrange(0, k));
        lemma_first_ease_error_stays(cards.drop_last(), k, cids, decks, configs);
    }
}

} // verus!
