use vstd::prelude::*;

verus! {

/// The kind of a card: where it stands in its learning.
#[derive(Clone, Copy, Debug, PartialEq, Eq, Structural)]
pub enum CardType {
    New,
    Learn,
    Review,
    Relearn,
}

/// The queue a card is shown from.
#[derive(Clone, Copy, Debug, PartialEq, Eq, Structural)]
pub enum CardQueue {
    New,
    Learn,
    Review,
    DayLearn,
    PreviewRepeat,
    Suspended,
    SchedBuried,
    UserBuried,
}

/// A card's FSRS memory state, each value held as the bits of the
/// single-precision number it is.
#[derive(Clone, Copy, Debug, PartialEq, Eq, Structural)]
pub struct MemoryStateBits {
    pub stability: u32,
    pub stability_internal: u32,
    pub stability_fast: Option<u32>,
    pub difficulty: u32,
}

/// One card of a collection. Retentions are held in millionths.
#[derive(Clone, Copy, Debug, PartialEq, Eq, Structural)]
pub struct Card {
    pub id: i64,
    pub note_id: i64,
    pub deck_id: i64,
    pub template_idx: u16,
    pub mtime: i64,
    pub ctype: CardType,
    pub queue: CardQueue,
    pub due: i32,
    pub interval: u32,
    pub ease_factor: u16,
    pub reps: u32,
    pub lapses: u32,
    pub original_due: i32,
    pub original_deck_id: i64,
    pub original_position: Option<u32>,
    pub memory_state: Option<MemoryStateBits>,
    pub desired_retention: Option<u32>,
    pub decay: Option<u32>,
    pub last_review_time: Option<i64>,
}

/// Today as the scheduler sees it: the current time, the number of days
/// since the collection was created, and when the next day starts (both
/// times in seconds since the epoch).
#[derive(Clone, Copy, Debug, PartialEq, Eq, Structural)]
pub struct SchedTimingToday {
    pub now: i64,
    pub days_elapsed: u32,
    pub next_day_at: i64,
}

/// Whole days from `earlier` to `later`, none when `earlier` is later.
pub open spec fn spec_elapsed_days_since(later: i64, earlier: i64) -> int {
    if later - earlier > 0 {
        (later - earlier) / 86_400
    } else {
        0
    }
}

/// Whole days from `earlier` to `later` (both in seconds), 0 when `earlier`
/// is later.
pub fn elapsed_days_since(later: i64, earlier: i64) -> (days: u64)
    ensures
        days == spec_elapsed_days_since(later, earlier),
{
    let diff: i128 = later as i128 - earlier as i128;
    if diff > 0 {
        (diff / 86_400) as u64
    } else {
        0
    }
}

/// The card as written at `mtime`: marked modified then.
pub open spec fn stamped(card: Card, mtime: i64) -> Card {
    Card { mtime, ..card }
}

impl Card {
    /// A new card of a note, in a deck, at a position in the new queue.
    pub fn new(note_id: i64, template_idx: u16, deck_id: i64, due: i32) -> (card: Card)
        ensures
            card.note_id == note_id,
            card.template_idx == template_idx,
            card.deck_id == deck_id,
            card.due == due,
            card.id == 0,
            card.ctype == CardType::New,
            card.queue == CardQueue::New,
            card.interval == 0,
            card.ease_factor == 0,
            card.original_due == 0,
            card.original_deck_id == 0,
            card.original_position.is_none(),
            card.memory_state.is_none(),
            card.desired_retention.is_none(),
            card.last_review_time.is_none(),
            card.reps == 0,
            card.lapses == 0,
            card.mtime == 0,
            card.decay.is_none(),
    {
        Card {
            id: 0,
            note_id,
            deck_id,
            template_idx,
            mtime: 0,
            ctype: CardType::New,
            queue: CardQueue::New,
            due,
            interval: 0,
            ease_factor: 0,
            reps: 0,
            lapses: 0,
            original_due: 0,
            original_deck_id: 0,
            original_position: None,
            memory_state: None,
            desired_retention: None,
            decay: None,
            last_review_time: None,
        }
    }

    /// The due number of the card's home deck: `original_due` while the
    /// card sits in a filtered deck.
    pub open spec fn spec_original_or_current_due(self) -> i32 {
        if self.original_deck_id != 0 {
            self.original_due
        } else {
            self.due
        }
    }

    pub fn original_or_current_due(&self) -> (due: i32)
        ensures
            due == self.spec_original_or_current_due(),
    {
        if self.original_deck_id != 0 {
            self.original_due
        } else {
            self.due
        }
    }
}

} // verus!
