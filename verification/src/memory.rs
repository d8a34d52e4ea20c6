use vstd::prelude::*;

use crate::card::elapsed_days_since;
use crate::card::spec_elapsed_days_since;
use crate::card::Card;
use crate::card::CardQueue;
use crate::card::CardType;
use crate::card::MemoryStateBits;
use crate::card::SchedTimingToday;
use crate::revlog::restore_in_range;
use crate::revlog::restore_review_schedule_after_sync;
use crate::revlog::spec_restore;
use crate::revlog::LastRevlogInfo;

verus! {

/// How far the computation of one preset's memory states has come.
#[derive(Clone, Debug)]
pub struct ComputeMemoryPresetProgress {
    pub name: String,
    pub current_cards: u32,
    pub total_cards: u32,
    pub finished: bool,
    pub rescheduling: bool,
    pub saving: bool,
}

/// How far the computation of memory states has come: the active preset's
/// progress, and every preset's.
#[derive(Clone, Debug)]
pub struct ComputeMemoryProgress {
    pub current_cards: u32,
    pub total_cards: u32,
    pub preset_name: String,
    pub current_preset: u32,
    pub total_presets: u32,
    pub rescheduling: bool,
    pub saving: bool,
    pub presets: Vec<ComputeMemoryPresetProgress>,
}

/// The progress of each preset before any card was computed: its name,
/// whether its cards will be rescheduled, and nothing done yet.
pub fn initial_preset_progress(presets: &Vec<(String, bool)>) -> (progress: Vec<ComputeMemoryPresetProgress>)
    ensures
        progress@.len() == presets@.len(),
        forall|i: int|
            0 <= i < presets@.len() ==> {
                &&& (#[trigger] progress@[i]).name == presets@[i].0
                &&& progress@[i].rescheduling == presets@[i].1
                &&& progress@[i].current_cards == 0
                &&& progress@[i].total_cards == 0
                &&& !progress@[i].finished
                &&& !progress@[i].saving
            },
{
    let mut progress: Vec<ComputeMemoryPresetProgress> = Vec::new();
    let mut i: usize = 0;
    while i < presets.len()
        invariant
            i <= presets@.len(),
            progress@.len() == i,
            forall|k: int|
                0 <= k < i ==> {
                    &&& (#[trigger] progress@[k]).name == presets@[k].0
                    &&& progress@[k].rescheduling == presets@[k].1
                    &&& progress@[k].current_cards == 0
                    &&& progress@[k].total_cards == 0
                    &&& !progress@[k].finished
                    &&& !progress@[k].saving
                },
        decreases presets@.len() - i,
    {
        progress.push(
            ComputeMemoryPresetProgress {
                name: presets[i].0.clone(),
                current_cards: 0,
                total_cards: 0,
                finished: false,
                rescheduling: presets[i].1,
                saving: false,
            },
        );
        i = i + 1;
    }
    progress
}

/// A copy of a preset's progress.
pub fn copy_preset_progress(p: &ComputeMemoryPresetProgress) -> (copy: ComputeMemoryPresetProgress)
    ensures
        copy == *p,
{
    ComputeMemoryPresetProgress {
        name: p.name.clone(),
        current_cards: p.current_cards,
        total_cards: p.total_cards,
        finished: p.finished,
        rescheduling: p.rescheduling,
        saving: p.saving,
    }
}

/// Before a preset's cards are computed: how many there are, and, where
/// there are none, that the preset is done. An index past the list changes
/// nothing.
pub fn prepare_memory_progress_entry(preset_progress: &mut Vec<ComputeMemoryPresetProgress>, entry_index: usize, total_cards: usize)
    ensures
        final(preset_progress)@.len() == old(preset_progress)@.len(),
        forall|i: int|
            0 <= i < old(preset_progress)@.len() && i != entry_index ==> #[trigger] final(preset_progress)@[i]
                == old(preset_progress)@[i],
        entry_index < old(preset_progress)@.len() ==> final(preset_progress)@[entry_index as int]
            == (ComputeMemoryPresetProgress {
            total_cards: total_cards as u32,
            finished: total_cards == 0,
            ..old(preset_progress)@[entry_index as int]
        }),
{
    if entry_index < preset_progress.len() {
        let mut entry = copy_preset_progress(&preset_progress[entry_index]);
        entry.total_cards = total_cards as u32;
        entry.finished = total_cards == 0;
        preset_progress.set(entry_index, entry);
    }
}

/// After a preset's cards were computed: all of them are done, and so is
/// the preset. An index past the list changes nothing.
pub fn finish_memory_progress_entry(preset_progress: &mut Vec<ComputeMemoryPresetProgress>, entry_index: usize, total_cards: usize)
    ensures
        final(preset_progress)@.len() == old(preset_progress)@.len(),
        forall|i: int|
            0 <= i < old(preset_progress)@.len() && i != entry_index ==> #[trigger] final(preset_progress)@[i]
                == old(preset_progress)@[i],
        entry_index < old(preset_progress)@.len() ==> final(preset_progress)@[entry_index as int]
            == (ComputeMemoryPresetProgress {
            current_cards: total_cards as u32,
            total_cards: total_cards as u32,
            finished: true,
            ..old(preset_progress)@[entry_index as int]
        }),
{
    if entry_index < preset_progress.len() {
        let mut entry = copy_preset_progress(&preset_progress[entry_index]);
        entry.current_cards = total_cards as u32;
        entry.total_cards = total_cards as u32;
        entry.finished = true;
        preset_progress.set(entry_index, entry);
    }
}

/// Makes the preset at `active_index` the one the overall progress shows:
/// its counts, name and flags. An index past the list changes nothing.
pub fn set_active_memory_progress(progress: &mut ComputeMemoryProgress, active_index: usize)
    ensures
        active_index >= old(progress).presets@.len() ==> *final(progress) == *old(progress),
        active_index < old(progress).presets@.len() ==> {
            let active = old(progress).presets@[active_index as int];
            *final(progress) == ComputeMemoryProgress {
                current_cards: active.current_cards,
                total_cards: active.total_cards,
                preset_name: active.name,
                rescheduling: active.rescheduling,
                saving: active.saving,
                ..*old(progress)
            }
        },
{
    if active_index < progress.presets.len() {
        let current_cards = progress.presets[active_index].current_cards;
        let total_cards = progress.presets[active_index].total_cards;
        let name = progress.presets[active_index].name.clone();
        let rescheduling = progress.presets[active_index].rescheduling;
        let saving = progress.presets[active_index].saving;
        progress.current_cards = current_cards;
        progress.total_cards = total_cards;
        progress.preset_name = name;
        progress.rescheduling = rescheduling;
        progress.saving = saving;
    }
}

/// The desired retention a card is held to: its home deck's own, where the
/// preset's decks have one, else the preset's.
pub open spec fn spec_deck_retention(deck_retention: Seq<(i64, u32)>, deck_id: i64, preset_retention: u32) -> u32 {
    if exists|i: int| 0 <= i < deck_retention.len() && (#[trigger] deck_retention[i]).0 == deck_id {
        deck_retention[choose|i: int|
            0 <= i < deck_retention.len() && (#[trigger] deck_retention[i]).0 == deck_id && forall|j: int|
                0 <= j < i ==> (#[trigger] deck_retention[j]).0 != deck_id].1
    } else {
        preset_retention
    }
}

/// The card's home deck: its original deck while it sits in a filtered deck.
pub open spec fn home_deck(card: Card) -> i64 {
    if card.original_deck_id != 0 {
        card.original_deck_id
    } else {
        card.deck_id
    }
}

/// Stores on the card the desired retention it is held to (its home deck's
/// own, else its preset's) and the decay of its preset's parameters, so that
/// readers of the card need not look at the preset.
pub fn set_decay_and_desired_retention(card: &mut Card, deck_retention: &Vec<(i64, u32)>, preset_retention: u32, decay: u32)
    ensures
        *final(card) == (Card {
            desired_retention: Some(spec_deck_retention(deck_retention@, home_deck(*old(card)), preset_retention)),
            decay: Some(decay),
            ..*old(card)
        }),
{
    let deck_id = if card.original_deck_id != 0 {
        card.original_deck_id
    } else {
        card.deck_id
    };
    let retention = match first_deck_entry(deck_retention, deck_id) {
        Some(i) => deck_retention[i].1,
        None => preset_retention,
    };
    card.desired_retention = Some(retention);
    card.decay = Some(decay);
}

/// The position of the first entry of a deck.
fn first_deck_entry(entries: &Vec<(i64, u32)>, deck_id: i64) -> (index: Option<usize>)
    ensures
        match index {
            Some(i) => i < entries@.len() && entries@[i as int].0 == deck_id && forall|j: int|
                0 <= j < i ==> (#[trigger] entries@[j]).0 != deck_id,
            None => forall|j: int| 0 <= j < entries@.len() ==> (#[trigger] entries@[j]).0 != deck_id,
        },
        match index {
            Some(i) => spec_deck_retention(entries@, deck_id, 0) == entries@[i as int].1,
            None => true,
        },
{
    let mut i: usize = 0;
    while i < entries.len()
        invariant
            i <= entries@.len(),
            forall|j: int| 0 <= j < i ==> (#[trigger] entries@[j]).0 != deck_id,
        decreases entries@.len() - i,
    {
        if entries[i].0 == deck_id {
            proof {
                assert(entries@[i as int].0 == deck_id);
                let w = choose|k: int|
                    0 <= k < entries@.len() && (#[trigger] entries@[k]).0 == deck_id && forall|j: int|
                        0 <= j < k ==> (#[trigger] entries@[j]).0 != deck_id;
                if w < i {
                    assert(entries@[w].0 != deck_id);
                } else if w > i {
                    assert(entries@[i as int].0 != deck_id);
                }
            }
            return Some(i);
        }
        i = i + 1;
    }
    None
}

/// A rescheduled card's due day: the day of its last review plus its new
/// interval, in the collection's days.
pub open spec fn rescheduled_due(last_review: i64, interval: u32, timing: SchedTimingToday) -> int {
    (timing.days_elapsed as i32) - (spec_elapsed_days_since(timing.next_day_at, last_review) as i32)
        + (interval as i32)
}

/// A card is rescheduled when its last real review is known and it is an
/// unsuspended review card.
pub open spec fn reschedule_applies(card: Card, info: Option<LastRevlogInfo>) -> bool {
    &&& info matches Some(i)
    &&& i.last_reviewed_at is Some
    &&& card.ctype == CardType::Review
    &&& card.queue != CardQueue::Suspended
}

/// The rescheduled due day fits the card's due number.
pub open spec fn reschedule_in_range(card: Card, info: Option<LastRevlogInfo>, timing: SchedTimingToday, interval: u32) -> bool {
    reschedule_applies(card, info) ==> {
        let last = info->0.last_reviewed_at->0;
        &&& i32::MIN <= (timing.days_elapsed as i32) - (spec_elapsed_days_since(timing.next_day_at, last) as i32)
            <= i32::MAX
        &&& i32::MIN <= rescheduled_due(last, interval, timing) <= i32::MAX
    }
}

/// The card after rescheduling with `interval`.
pub open spec fn spec_reschedule(card: Card, info: Option<LastRevlogInfo>, timing: SchedTimingToday, interval: u32) -> Card {
    if reschedule_applies(card, info) {
        let due = rescheduled_due(info->0.last_reviewed_at->0, interval, timing) as i32;
        if card.original_due != 0 {
            Card { interval, original_due: due, ..card }
        } else {
            Card { interval, due, ..card }
        }
    } else {
        card
    }
}

/// After its memory state changed, reschedules a review card whose last
/// real review is known: `interval` (the scheduler's next interval for its
/// new state, fuzzed and balanced) counted from the day of that review
/// (written to `original_due` while the card sits in a filtered deck). Other
/// cards are left alone. No review-log row is written.
pub fn reschedule_after_memory_update(card: &mut Card, last_info: Option<LastRevlogInfo>, timing: SchedTimingToday, interval: u32)
    requires
        reschedule_in_range(*old(card), last_info, timing, interval),
    ensures
        *final(card) == spec_reschedule(*old(card), last_info, timing, interval),
{
    let last_review = match last_info {
        Some(info) => match info.last_reviewed_at {
            Some(last) => last,
            None => {
                return;
            },
        },
        None => {
            return;
        },
    };
    if !(card.ctype == CardType::Review && card.queue != CardQueue::Suspended) {
        return;
    }
    let days_since_review: i32 = elapsed_days_since(timing.next_day_at, last_review) as i32;
    let new_due: i32 = timing.days_elapsed as i32 - days_since_review + interval as i32;
    card.interval = interval;
    if card.original_due != 0 {
        card.original_due = new_due;
    } else {
        card.due = new_due;
    }
}

/// What differed between a locally changed card row and the row a sync
/// brought for it.
#[derive(Clone, Copy, Debug, PartialEq, Eq, Structural)]
pub struct FsrsSyncConflict {
    /// `interval`, `due` or `original_due` differed.
    pub schedule_differs: bool,
    /// Both rows carried the same memory state (or both none).
    pub memory_state_agreed: bool,
    /// Both rows carried the same last review time (or both none).
    pub last_review_time_agreed: bool,
}

pub open spec fn spec_merged(a: FsrsSyncConflict, b: FsrsSyncConflict) -> FsrsSyncConflict {
    FsrsSyncConflict {
        schedule_differs: a.schedule_differs || b.schedule_differs,
        memory_state_agreed: a.memory_state_agreed && b.memory_state_agreed,
        last_review_time_agreed: a.last_review_time_agreed && b.last_review_time_agreed,
    }
}

impl FsrsSyncConflict {
    /// Folds a second observation of the same card into this one: the
    /// schedule differs if it differed in either, and the rows agree only
    /// where they agreed in both.
    pub fn merge(&mut self, other: FsrsSyncConflict)
        ensures
            *final(self) == spec_merged(*old(self), other),
    {
        self.schedule_differs = self.schedule_differs || other.schedule_differs;
        self.memory_state_agreed = self.memory_state_agreed && other.memory_state_agreed;
        self.last_review_time_agreed = self.last_review_time_agreed && other.last_review_time_agreed;
    }
}

/// Folding observations does not depend on their order, and folding one in
/// twice changes nothing.
pub proof fn lemma_merge_order_free(a: FsrsSyncConflict, b: FsrsSyncConflict, c: FsrsSyncConflict)
    ensures
        spec_merged(a, b) == spec_merged(b, a),
        spec_merged(spec_merged(a, b), c) == spec_merged(a, spec_merged(b, c)),
        spec_merged(spec_merged(a, b), b) == spec_merged(a, b),
{
}

/// A card that FSRS has no review to compute from: the retention it is
/// held to and the decay, and no memory state.
pub open spec fn spec_itemless(card: Card, deck_retention: Seq<(i64, u32)>, preset_retention: u32, decay: u32) -> Card {
    Card {
        desired_retention: Some(spec_deck_retention(deck_retention, home_deck(card), preset_retention)),
        decay: Some(decay),
        memory_state: None,
        ..card
    }
}

/// The card without its FSRS data.
pub open spec fn spec_cleared(card: Card) -> Card {
    Card { memory_state: None, desired_retention: None, decay: None, ..card }
}

impl Card {
    /// Drops the card's FSRS data: memory state, desired retention, decay.
    pub fn clear_fsrs_data(&mut self)
        ensures
            *final(self) == spec_cleared(*old(self)),
    {
        self.memory_state = None;
        self.desired_retention = None;
        self.decay = None;
    }
}

/// A card whose merged review log holds no real review, after the sync: its
/// memory state is cleared unless both devices held the same, and its last
/// review time comes from the review log unless both held the same.
pub open spec fn spec_reconcile_itemless(card: Card, conflict: FsrsSyncConflict, last_info: Option<LastRevlogInfo>) -> Card {
    Card {
        memory_state: if conflict.memory_state_agreed { card.memory_state } else { None },
        last_review_time: if conflict.last_review_time_agreed {
            card.last_review_time
        } else {
            match last_info {
                Some(i) => i.last_reviewed_at,
                None => None,
            }
        },
        ..card
    }
}

/// A card whose merged review log holds no real review, after the sync: the
/// retention it is held to and the decay, then the memory state and last
/// review time its conflict (none where it has no entry) and its last review
/// (where it has an entry) give.
pub open spec fn spec_reconciled_after_sync(
    card: Card,
    conflicts: Seq<(i64, FsrsSyncConflict)>,
    last_info: Seq<(i64, LastRevlogInfo)>,
    deck_retention: Seq<(i64, u32)>,
    preset_retention: u32,
    decay: u32,
) -> Card {
    let conflict = match crate::rwkv_inputs::lookup::first_value(conflicts, card.id) {
        Some(c) => c,
        None => FsrsSyncConflict { schedule_differs: false, memory_state_agreed: false, last_review_time_agreed: false },
    };
    spec_reconcile_itemless(
        Card {
            desired_retention: Some(spec_deck_retention(deck_retention, home_deck(card), preset_retention)),
            decay: Some(decay),
            ..card
        },
        conflict,
        crate::rwkv_inputs::lookup::first_value(last_info, card.id),
    )
}

/// Reconciles a card whose merged review log holds no real review; see
/// `spec_reconcile_itemless`.
pub fn reconcile_itemless_card(card: &mut Card, conflict: FsrsSyncConflict, last_info: Option<LastRevlogInfo>)
    ensures
        *final(card) == spec_reconcile_itemless(*old(card), conflict, last_info),
{
    if !conflict.memory_state_agreed {
        card.memory_state = None;
    }
    if !conflict.last_review_time_agreed {
        card.last_review_time = match last_info {
            Some(i) => i.last_reviewed_at,
            None => None,
        };
    }
}

/// A card with a real review, after the sync: the memory state FSRS
/// computed from the merged review log, its last review time from the log
/// unless both devices held the same, and (where the user reschedules on
/// change and the schedules differed) the schedule its latest review gave.
pub open spec fn spec_reconcile_with_item(
    card: Card,
    state: MemoryStateBits,
    conflict: FsrsSyncConflict,
    last_info: Option<LastRevlogInfo>,
    restore_schedule: bool,
    timing: SchedTimingToday,
) -> Card {
    let with_state = Card {
        memory_state: Some(state),
        last_review_time: if conflict.last_review_time_agreed {
            card.last_review_time
        } else {
            match last_info {
                Some(i) => i.last_reviewed_at,
                None => None,
            }
        },
        ..card
    };
    if restore_schedule && conflict.schedule_differs {
        spec_restore(with_state, last_info, timing).0
    } else {
        with_state
    }
}

/// Reconciling a card after a sync leaves its schedule (due day, interval,
/// queue and type) as it was unless the user reschedules cards on change
/// and the two devices' schedules differed.
pub proof fn lemma_schedule_kept_unless_rescheduling(
    card: Card,
    state: MemoryStateBits,
    conflict: FsrsSyncConflict,
    last_info: Option<LastRevlogInfo>,
    restore_schedule: bool,
    timing: SchedTimingToday,
)
    requires
        !(restore_schedule && conflict.schedule_differs),
    ensures
        ({
            let r = spec_reconcile_with_item(card, state, conflict, last_info, restore_schedule, timing);
            &&& r.due == card.due
            &&& r.original_due == card.original_due
            &&& r.interval == card.interval
            &&& r.queue == card.queue
            &&& r.ctype == card.ctype
        }),
{
}

/// Reconciles a card with a real review; see `spec_reconcile_with_item`.
pub fn reconcile_card_with_item(
    card: &mut Card,
    state: MemoryStateBits,
    conflict: FsrsSyncConflict,
    last_info: Option<LastRevlogInfo>,
    restore_schedule: bool,
    timing: SchedTimingToday,
)
    requires
        restore_in_range(
            Card {
                memory_state: Some(state),
                last_review_time: if conflict.last_review_time_agreed {
                    old(card).last_review_time
                } else {
                    match last_info {
                        Some(i) => i.last_reviewed_at,
                        None => None,
                    }
                },
                ..*old(card)
            },
            last_info,
            timing,
        ),
    ensures
        *final(card) == spec_reconcile_with_item(*old(card), state, conflict, last_info, restore_schedule, timing),
{
    card.memory_state = Some(state);
    if !conflict.last_review_time_agreed {
        card.last_review_time = match last_info {
            Some(i) => i.last_reviewed_at,
            None => None,
        };
    }
    if restore_schedule && conflict.schedule_differs {
        let info = last_info;
        let _ = restore_review_schedule_after_sync(card, match &info {
            Some(i) => Some(i),
            None => None,
        }, timing);
    }
}

/// The card's new memory state: the computed one, keeping the stored
/// stability where asked and the card has one.
pub open spec fn spec_new_memory_state(card: Card, computed: MemoryStateBits, keep_stability: bool) -> MemoryStateBits {
    match card.memory_state {
        Some(stored) => if keep_stability {
            MemoryStateBits { stability: stored.stability, ..computed }
        } else {
            computed
        },
        None => computed,
    }
}

/// A card with the memory state FSRS computed for it (keeping its stored
/// stability where asked), the retention it is held to and the decay.
pub open spec fn spec_with_state(
    card: Card,
    computed: MemoryStateBits,
    keep_stability: bool,
    deck_retention: Seq<(i64, u32)>,
    preset_retention: u32,
    decay: u32,
) -> Card {
    Card {
        desired_retention: Some(spec_deck_retention(deck_retention, home_deck(card), preset_retention)),
        decay: Some(decay),
        memory_state: Some(spec_new_memory_state(card, computed, keep_stability)),
        ..card
    }
}

/// Gives a card the memory state FSRS computed for it (keeping its stored
/// stability where asked), with the retention it is held to and the decay.
pub fn set_computed_memory_state(
    card: &mut Card,
    computed: MemoryStateBits,
    keep_stability: bool,
    deck_retention: &Vec<(i64, u32)>,
    preset_retention: u32,
    decay: u32,
)
    ensures
        *final(card) == (Card {
            desired_retention: Some(spec_deck_retention(deck_retention@, home_deck(*old(card)), preset_retention)),
            decay: Some(decay),
            memory_state: Some(spec_new_memory_state(*old(card), computed, keep_stability)),
            ..*old(card)
        }),
{
    set_decay_and_desired_retention(card, deck_retention, preset_retention, decay);
    let state = match card.memory_state {
        Some(stored) => if keep_stability {
            MemoryStateBits { stability: stored.stability, ..computed }
        } else {
            computed
        },
        None => computed,
    };
    card.memory_state = Some(state);
}

/// A card the memory-state update reschedules, with what its new interval
/// is computed from: a review card that is not suspended and whose last
/// review time is known; the whole days from that review to the start of
/// the next day (as a 32-bit number), and the interval before that review
/// (0 where unknown).
pub open spec fn spec_reschedule_inputs(card: Card, last: Option<LastRevlogInfo>, next_day_at: i64) -> Option<(i32, u32)> {
    match last {
        Some(info) => match info.last_reviewed_at {
            Some(at) => if card.ctype == CardType::Review && card.queue != CardQueue::Suspended {
                Some(
                    (
                        spec_elapsed_days_since(next_day_at, at) as i32,
                        match info.previous_interval {
                            Some(p) => p,
                            None => 0,
                        },
                    ),
                )
            } else {
                None
            },
            None => None,
        },
        None => None,
    }
}

/// Whether the memory-state update reschedules the card, and from what.
pub fn reschedule_inputs(card: &Card, last: Option<LastRevlogInfo>, next_day_at: i64) -> (inputs: Option<(i32, u32)>)
    ensures
        inputs == spec_reschedule_inputs(*card, last, next_day_at),
{
    let info = match last {
        Some(info) => info,
        None => {
            return None;
        },
    };
    let at = match info.last_reviewed_at {
        Some(at) => at,
        None => {
            return None;
        },
    };
    if !(card.ctype == CardType::Review && card.queue != CardQueue::Suspended) {
        return None;
    }
    let days = elapsed_days_since(next_day_at, at);
    let previous = match info.previous_interval {
        Some(p) => p,
        None => 0,
    };
    Some((#[verifier::truncate] (days as i32), previous))
}

/// The card rescheduled to `interval` days after its last review, which was
/// `days_elapsed` days before `today`: the interval, and the due day (the
/// original due day where the card sits in a filtered deck) becomes
/// `today - days_elapsed + interval`. Nothing else of the card changes and
/// no review is logged.
pub fn apply_rescheduled_interval(card: &mut Card, interval: u32, days_elapsed: i32, today: u32)
    requires
        i32::MIN <= today - days_elapsed + interval <= i32::MAX,
    ensures
        *final(card) == (if old(card).original_due != 0 {
            Card { interval, original_due: (today - days_elapsed + interval) as i32, ..*old(card) }
        } else {
            Card { interval, due: (today - days_elapsed + interval) as i32, ..*old(card) }
        }),
{
    let new_due: i32 = (today as i64 - days_elapsed as i64 + interval as i64) as i32;
    card.interval = interval;
    if card.original_due != 0 {
        card.original_due = new_due;
    } else {
        card.due = new_due;
    }
}

/// The cards whose merged review log gives FSRS an item, in the items'
/// order.
pub open spec fn cards_with_items(items: Seq<(i64, bool)>) -> Seq<i64>
    decreases items.len(),
{
    if items.len() == 0 {
        Seq::empty()
    } else {
        let rest = cards_with_items(items.drop_last());
        if items.last().1 {
            rest.push(items.last().0)
        } else {
            rest
        }
    }
}

/// The cards the items list without an item, in the items' order.
pub open spec fn listed_without_items(items: Seq<(i64, bool)>) -> Seq<i64>
    decreases items.len(),
{
    if items.len() == 0 {
        Seq::empty()
    } else {
        let rest = listed_without_items(items.drop_last());
        if !items.last().1 {
            rest.push(items.last().0)
        } else {
            rest
        }
    }
}

/// The items list the card, with an item or without.
pub open spec fn card_listed_in(items: Seq<(i64, bool)>, card_id: i64) -> bool {
    exists|k: int| 0 <= k < items.len() && (#[trigger] items[k]).0 == card_id
}

/// The cards the items do not list (a card without any review log row), in
/// their order.
pub open spec fn unlisted_cards(items: Seq<(i64, bool)>, card_ids: Seq<i64>) -> Seq<i64>
    decreases card_ids.len(),
{
    if card_ids.len() == 0 {
        Seq::empty()
    } else {
        let rest = unlisted_cards(items, card_ids.drop_last());
        if card_listed_in(items, card_ids.last()) {
            rest
        } else {
            rest.push(card_ids.last())
        }
    }
}

/// Splits one preset's cards after a sync by whether their merged review
/// log gives FSRS an item (`item_cards` holds each listed card and whether
/// it has one): the cards with an item, in the items' order; then those
/// without, the listed ones first and then the cards the items miss.
pub fn split_cards_by_items(item_cards: &Vec<(i64, bool)>, card_ids: &Vec<i64>) -> (split: (Vec<i64>, Vec<i64>))
    ensures
        split.0@ == cards_with_items(item_cards@),
        split.1@ == listed_without_items(item_cards@) + unlisted_cards(item_cards@, card_ids@),
{
    let mut with_items: Vec<i64> = Vec::new();
    let mut without_items: Vec<i64> = Vec::new();
    let mut i: usize = 0;
    while i < item_cards.len()
        invariant
            i <= item_cards@.len(),
            with_items@ == cards_with_items(item_cards@.take(i as int)),
            without_items@ == listed_without_items(item_cards@.take(i as int)),
        decreases item_cards@.len() - i,
    {
        proof {
            assert(item_cards@.take(i + 1).drop_last() =~= item_cards@.take(i as int));
        }
        let (card_id, has_item) = item_cards[i];
        if has_item {
            with_items.push(card_id);
        } else {
            without_items.push(card_id);
        }
        i = i + 1;
    }
    proof {
        assert(item_cards@.take(i as int) =~= item_cards@);
    }
    let ghost listed = without_items@;
    let mut j: usize = 0;
    while j < card_ids.len()
        invariant
            j <= card_ids@.len(),
            without_items@ == listed + unlisted_cards(item_cards@, card_ids@.take(j as int)),
        decreases card_ids@.len() - j,
    {
        proof {
            assert(card_ids@.take(j + 1).drop_last() =~= card_ids@.take(j as int));
        }
        let card_id = card_ids[j];
        let mut seen = false;
        let mut k: usize = 0;
        while k < item_cards.len()
            invariant
                k <= item_cards@.len(),
                seen <==> exists|q: int| 0 <= q < k && (#[trigger] item_cards@[q]).0 == card_id,
            decreases item_cards@.len() - k,
        {
            if item_cards[k].0 == card_id {
                seen = true;
            }
            k = k + 1;
        }
        if !seen {
            without_items.push(card_id);
            proof {
                assert(listed + unlisted_cards(item_cards@, card_ids@.take(j + 1)) =~= (listed + unlisted_cards(
                    item_cards@,
                    card_ids@.take(j as int),
                )).push(card_id));
            }
        }
        j = j + 1;
    }
    proof {
        assert(card_ids@.take(j as int) =~= card_ids@);
    }
    (with_items, without_items)
}

} // verus!
