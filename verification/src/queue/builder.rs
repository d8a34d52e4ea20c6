use std::hash::Hasher;

use vstd::prelude::*;

use crate::card::Card;
use crate::card::CardQueue;
use crate::card::SchedTimingToday;
use crate::queue::limits::LimitKind;
use crate::queue::limits::LimitTree;
use crate::queue::model::find_config;
use crate::queue::model::find_deck;
use crate::queue::model::first_config;
use crate::queue::model::first_deck;
use crate::queue::model::Deck;
use crate::queue::model::DeckConfig;
use crate::queue::model::NewCardGatherPriority;
use crate::queue::model::ReviewCardOrder;
use crate::queue::model::ReviewMix;
use crate::queue::model::RwkvReviewQueueScoreEntry;
use crate::collection::Collection;
use crate::queue::rwkv::RwkvDeferral;
use crate::sort::key_bounded;
use crate::sort::SortKey;

verus! {

/// Which queue a gathered due card came from.
#[derive(Clone, Copy, Debug, PartialEq, Eq, Structural)]
pub enum DueCardKind {
    Review,
    Learning,
}

/// A review or learning card on its way into the queue.
#[derive(Clone, Copy, Debug, PartialEq, Eq, Structural)]
pub struct DueCard {
    pub id: i64,
    pub note_id: i64,
    pub mtime: i64,
    pub due: i32,
    pub current_deck_id: i64,
    pub original_deck_id: i64,
    pub kind: DueCardKind,
    pub reps: u32,
}

impl DueCard {
    pub open spec fn spec_from_card(card: Card, kind: DueCardKind) -> DueCard {
        DueCard {
            id: card.id,
            note_id: card.note_id,
            mtime: card.mtime,
            due: card.due,
            current_deck_id: card.deck_id,
            original_deck_id: card.original_deck_id,
            kind,
            reps: card.reps,
        }
    }

    /// The entry the gathering makes of a card's row.
    pub fn from_card(card: &Card, kind: DueCardKind) -> (due_card: DueCard)
        ensures
            due_card == DueCard::spec_from_card(*card, kind),
    {
        DueCard {
            id: card.id,
            note_id: card.note_id,
            mtime: card.mtime,
            due: card.due,
            current_deck_id: card.deck_id,
            original_deck_id: card.original_deck_id,
            kind,
            reps: card.reps,
        }
    }
}

/// A new card on its way into the queue.
#[derive(Clone, Copy, Debug, PartialEq, Eq, Structural)]
pub struct NewCard {
    pub id: i64,
    pub note_id: i64,
    pub mtime: i64,
    pub current_deck_id: i64,
    pub original_deck_id: i64,
    pub template_index: u32,
}

/// What kind of card a main-queue entry is.
#[derive(Clone, Copy, Debug, PartialEq, Eq, Structural)]
pub enum MainQueueEntryKind {
    New,
    Review,
    InterdayLearning,
}

#[derive(Clone, Copy, Debug, PartialEq, Eq, Structural)]
pub struct MainQueueEntry {
    pub id: i64,
    pub mtime: i64,
    pub kind: MainQueueEntryKind,
}

/// An intraday learning card: due at a time, in seconds.
#[derive(Clone, Copy, Debug, PartialEq, Eq, Structural)]
pub struct LearningQueueEntry {
    pub due: i64,
    pub id: i64,
    pub mtime: i64,
    pub reps: u32,
}

pub open spec fn main_entry_of_due(c: DueCard) -> MainQueueEntry {
    MainQueueEntry {
        id: c.id,
        mtime: c.mtime,
        kind: match c.kind {
            DueCardKind::Review => MainQueueEntryKind::Review,
            DueCardKind::Learning => MainQueueEntryKind::InterdayLearning,
        },
    }
}

pub open spec fn main_entry_of_new(c: NewCard) -> MainQueueEntry {
    MainQueueEntry { id: c.id, mtime: c.mtime, kind: MainQueueEntryKind::New }
}

pub fn main_entry_from_due(c: &DueCard) -> (e: MainQueueEntry)
    ensures
        e == main_entry_of_due(*c),
{
    MainQueueEntry {
        id: c.id,
        mtime: c.mtime,
        kind: match c.kind {
            DueCardKind::Review => MainQueueEntryKind::Review,
            DueCardKind::Learning => MainQueueEntryKind::InterdayLearning,
        },
    }
}

pub fn main_entry_from_new(c: &NewCard) -> (e: MainQueueEntry)
    ensures
        e == main_entry_of_new(*c),
{
    MainQueueEntry { id: c.id, mtime: c.mtime, kind: MainQueueEntryKind::New }
}

pub fn learning_entry_from_due(c: &DueCard) -> (e: LearningQueueEntry)
    ensures
        e == (LearningQueueEntry { due: c.due as i64, id: c.id, mtime: c.mtime, reps: c.reps }),
{
    LearningQueueEntry { due: c.due as i64, id: c.id, mtime: c.mtime, reps: c.reps }
}

/// The number of cards of each kind that the queue holds for today.
#[derive(Clone, Copy, Debug, PartialEq, Eq, Structural)]
pub struct Counts {
    pub new: usize,
    pub learning: usize,
    pub review: usize,
}

/// Which siblings of a card are kept back once the card is shown.
#[derive(Clone, Copy, Debug, PartialEq, Eq, Structural)]
pub struct BuryMode {
    pub bury_new: bool,
    pub bury_reviews: bool,
    pub bury_interday_learning: bool,
}

/// The sort and mix options of the studied deck's preset.
#[derive(Clone, Copy, Debug, PartialEq, Eq, Structural)]
pub struct QueueSortOptions {
    pub new_gather_priority: NewCardGatherPriority,
    pub review_order: ReviewCardOrder,
    pub day_learn_mix: ReviewMix,
    pub new_review_mix: ReviewMix,
    pub rwkv_review_enabled: bool,
    pub rwkv_review_instant_order_enabled: bool,
    pub rwkv_review_allow_same_day_review: bool,
    pub rwkv_review_min_intervening_reviews: u32,
    pub rwkv_review_min_elapsed_secs: u32,
}

pub open spec fn is_retrievability_order(order: ReviewCardOrder) -> bool {
    order == ReviewCardOrder::RetrievabilityAscending || order
        == ReviewCardOrder::RetrievabilityDescending || order == ReviewCardOrder::RelativeOverdueness
}

pub fn retrievability_order(order: ReviewCardOrder) -> (r: bool)
    ensures
        r == is_retrievability_order(order),
{
    match order {
        ReviewCardOrder::RetrievabilityAscending
        | ReviewCardOrder::RetrievabilityDescending
        | ReviewCardOrder::RelativeOverdueness => true,
        _ => false,
    }
}

impl QueueSortOptions {
    /// RWKV-Instant orders the reviews.
    pub fn uses_rwkv_review_order(&self) -> (r: bool)
        ensures
            r == self.rwkv_review_instant_order_enabled,
    {
        self.rwkv_review_instant_order_enabled
    }

    /// Only RWKV-Instant reads its scores.
    pub fn uses_rwkv_retrievability_scores(&self) -> (r: bool)
        ensures
            r == self.rwkv_review_instant_order_enabled,
    {
        self.uses_rwkv_review_order()
    }

    /// The retrievability and relative-overdueness orders of an RWKV preset
    /// rank by RWKV's own measure, never FSRS's.
    pub fn review_order_from_rwkv_keys(&self) -> (r: bool)
        ensures
            r == ((self.rwkv_review_enabled || self.rwkv_review_instant_order_enabled)
                && is_retrievability_order(self.review_order)),
    {
        (self.rwkv_review_enabled || self.rwkv_review_instant_order_enabled) && retrievability_order(
            self.review_order,
        )
    }
}

pub open spec fn spec_options_of(config: DeckConfig) -> QueueSortOptions {
    QueueSortOptions {
        new_gather_priority: config.new_card_gather_priority,
        review_order: config.review_order,
        day_learn_mix: config.interday_learning_mix,
        new_review_mix: config.new_mix,
        rwkv_review_enabled: config.rwkv_review_enabled,
        rwkv_review_instant_order_enabled: config.rwkv_review_instant_order_enabled,
        rwkv_review_allow_same_day_review: config.rwkv_review_allow_same_day_review,
        rwkv_review_min_intervening_reviews: config.rwkv_review_min_intervening_reviews,
        rwkv_review_min_elapsed_secs: config.rwkv_review_min_elapsed_secs,
    }
}

/// The options of a filtered deck, or of a deck whose preset is gone.
pub open spec fn spec_default_options() -> QueueSortOptions {
    QueueSortOptions {
        new_gather_priority: NewCardGatherPriority::Deck,
        review_order: ReviewCardOrder::Day,
        day_learn_mix: ReviewMix::MixWithReviews,
        new_review_mix: ReviewMix::MixWithReviews,
        rwkv_review_enabled: false,
        rwkv_review_instant_order_enabled: false,
        rwkv_review_allow_same_day_review: false,
        rwkv_review_min_intervening_reviews: 0,
        rwkv_review_min_elapsed_secs: 0,
    }
}

/// The first preset with this id.
pub open spec fn first_config_with_id(configs: Seq<DeckConfig>, id: i64) -> int {
    choose|i: int|
        0 <= i < configs.len() && configs[i].id == id && forall|j: int|
            0 <= j < i ==> #[trigger] configs[j].id != id
}

pub open spec fn spec_sort_options(deck: Deck, configs: Seq<DeckConfig>) -> QueueSortOptions {
    match deck.config_id {
        Some(id) => if exists|i: int| 0 <= i < configs.len() && #[trigger] configs[i].id == id {
            spec_options_of(configs[first_config_with_id(configs, id)])
        } else {
            spec_default_options()
        },
        None => spec_default_options(),
    }
}

/// The sort options of the studied deck: its preset's, or the defaults
/// where it has none.
pub fn sort_options(deck: &Deck, configs: &Vec<DeckConfig>) -> (options: QueueSortOptions)
    ensures
        options == spec_sort_options(*deck, configs@),
{
    let found = match deck.config_id {
        Some(config_id) => find_config(configs, config_id),
        None => None,
    };
    match found {
        Some(i) => {
            let config = &configs[i];
            QueueSortOptions {
                new_gather_priority: config.new_card_gather_priority,
                review_order: config.review_order,
                day_learn_mix: config.interday_learning_mix,
                new_review_mix: config.new_mix,
                rwkv_review_enabled: config.rwkv_review_enabled,
                rwkv_review_instant_order_enabled: config.rwkv_review_instant_order_enabled,
                rwkv_review_allow_same_day_review: config.rwkv_review_allow_same_day_review,
                rwkv_review_min_intervening_reviews: config.rwkv_review_min_intervening_reviews,
                rwkv_review_min_elapsed_secs: config.rwkv_review_min_elapsed_secs,
            }
        },
        None => QueueSortOptions {
            new_gather_priority: NewCardGatherPriority::Deck,
            review_order: ReviewCardOrder::Day,
            day_learn_mix: ReviewMix::MixWithReviews,
            new_review_mix: ReviewMix::MixWithReviews,
            rwkv_review_enabled: false,
            rwkv_review_instant_order_enabled: false,
            rwkv_review_allow_same_day_review: false,
            rwkv_review_min_intervening_reviews: 0,
            rwkv_review_min_elapsed_secs: 0,
        },
    }
}

/// The FNV-1a hash of a card's id and modification time (or of any two
/// numbers), as the `fnv` crate computes it; it breaks ties between cards.
pub uninterp spec fn fnv_hash_pair(a: i64, b: i64) -> i64;

/// Calls `fnv::FnvHasher`: `write_i64` of both numbers, then `finish`,
/// reinterpreted as signed. Claims only that the result is
/// `fnv_hash_pair` of the two numbers.
#[verifier::external_body]
pub(crate) fn fnv_hash_of_pair(a: i64, b: i64) -> (hash: i64)
    ensures
        hash == fnv_hash_pair(a, b),
{
    let mut hasher = fnv::FnvHasher::default();
    hasher.write_i64(a);
    hasher.write_i64(b);
    hasher.finish() as i64
}

/// The tie-break hash of a due card: of its id and modification time.
pub fn fnvhash_due_card(card: &DueCard) -> (hash: i64)
    ensures
        hash == fnv_hash_pair(card.id, card.mtime),
{
    fnv_hash_of_pair(card.id, card.mtime)
}

/// The order `f32::total_cmp` gives a single-precision number's bits, as
/// an integer.
pub open spec fn spec_total_order_key(bits: u32) -> i32 {
    let b = bits as i32;
    b ^ ((((b >> 31u32) as u32) >> 1u32) as i32)
}

pub fn total_order_key(bits: u32) -> (key: i32)
    ensures
        key == spec_total_order_key(bits),
{
    let b = bits as i32;
    b ^ ((((b >> 31u32) as u32) >> 1u32) as i32)
}

/// The bits of positive infinity: the key of a card without one.
pub const INFINITY_BITS: u32 = 0x7f80_0000;

/// A generator of salts from a small number (Knuth's multiplicative hash).
pub fn knuth_salt(base_salt: u32) -> (salt: u32)
    ensures
        salt == (base_salt as int * 2654435761) % 0x1_0000_0000,
{
    base_salt.wrapping_mul(2654435761)
}

} // verus!

verus! {

/// The data the gathering works with besides the cards.
#[derive(Clone, Debug)]
pub struct Context {
    pub timing: SchedTimingToday,
    pub root_deck: Deck,
    /// The studied deck and every deck under it.
    pub active_deck_ids: Vec<i64>,
    pub sort_options: QueueSortOptions,
    pub seen_note_ids: Vec<(i64, BuryMode)>,
    pub fsrs: bool,
    pub rwkv_review_queue_scores: Option<Vec<(i64, RwkvReviewQueueScoreEntry)>>,
}

impl Context {
    pub open spec fn spec_non_news_sorted_by_retrievability(&self) -> bool {
        self.fsrs && !self.sort_options.rwkv_review_instant_order_enabled
            && !self.sort_options.rwkv_review_enabled && is_retrievability_order(
            self.sort_options.review_order,
        )
    }

    /// FSRS ranks the interday learning and review cards together by their
    /// retrievability.
    pub fn non_news_sorted_by_retrievability(&self) -> (r: bool)
        ensures
            r == self.spec_non_news_sorted_by_retrievability(),
    {
        self.fsrs && !self.sort_options.uses_rwkv_review_order()
            && !self.sort_options.rwkv_review_enabled && retrievability_order(
            self.sort_options.review_order,
        )
    }

    /// RWKV-Instant orders the reviews, and has scores for them.
    pub fn uses_rwkv_review_order(&self) -> (r: bool)
        ensures
            r == (self.rwkv_review_queue_scores is Some
                && self.sort_options.rwkv_review_instant_order_enabled),
    {
        self.rwkv_review_queue_scores.is_some() && self.sort_options.uses_rwkv_review_order()
    }

    /// RWKV-Instant takes review cards only from its scores: without scores
    /// for the studied deck it gathers none, and the client waits.
    pub fn rwkv_scores_pending(&self) -> (r: bool)
        ensures
            r == (self.sort_options.rwkv_review_instant_order_enabled
                && self.rwkv_review_queue_scores is None),
    {
        self.sort_options.uses_rwkv_review_order() && self.rwkv_review_queue_scores.is_none()
    }
}

/// The queue being built.
#[derive(Clone, Debug)]
pub struct QueueBuilder {
    pub new: Vec<NewCard>,
    pub review: Vec<DueCard>,
    pub learning: Vec<DueCard>,
    pub day_learning: Vec<DueCard>,
    pub r_sorted_non_new: Vec<DueCard>,
    pub pinned_card_id: Option<i64>,
    pub deferred_rwkv_reviews: Vec<(i64, RwkvDeferral)>,
    pub limits: LimitTree,
    pub context: Context,
}

/// The times the queue works with stay far from the ends of the integers.
pub open spec fn timing_ok(timing: SchedTimingToday) -> bool {
    &&& timing.days_elapsed < 49_710
    &&& -0x1000_0000_0000_0000 < timing.now < 0x1000_0000_0000_0000
    &&& -0x1000_0000_0000_0000 < timing.next_day_at < 0x1000_0000_0000_0000
}

impl QueueBuilder {
    pub open spec fn inv(&self) -> bool {
        &&& self.limits.wf()
        &&& timing_ok(self.context.timing)
    }

    /// The card is the one pinned as the current card.
    pub fn card_is_pinned(&self, card_id: i64) -> (pinned: bool)
        ensures
            pinned == (self.pinned_card_id == Some(card_id)),
    {
        match self.pinned_card_id {
            Some(id) => id == card_id,
            None => false,
        }
    }

    /// The card's deck is one of the studied decks.
    pub fn deck_is_active(&self, deck_id: i64) -> (active: bool)
        ensures
            active == self.context.active_deck_ids@.contains(deck_id),
    {
        let mut i: usize = 0;
        while i < self.context.active_deck_ids.len()
            invariant
                i <= self.context.active_deck_ids@.len(),
                forall|j: int| 0 <= j < i ==> #[trigger] self.context.active_deck_ids@[j] != deck_id,
            decreases self.context.active_deck_ids@.len() - i,
        {
            if self.context.active_deck_ids[i] == deck_id {
                proof {
                    assert(self.context.active_deck_ids@[i as int] == deck_id);
                }
                return true;
            }
            i = i + 1;
        }
        false
    }

    /// The previous bury mode of the note, if a sibling was seen, and the
    /// note's mode widened by `mode`.
    pub fn get_and_update_bury_mode_for_note(&mut self, note_id: i64, mode: BuryMode) -> (previous: Option<BuryMode>)
        ensures
            final(self).limits == old(self).limits,
            final(self).context.timing == old(self).context.timing,
            final(self).context.active_deck_ids == old(self).context.active_deck_ids,
            final(self).context.sort_options == old(self).context.sort_options,
            final(self).context.rwkv_review_queue_scores == old(self).context.rwkv_review_queue_scores,
            final(self).context.fsrs == old(self).context.fsrs,
            final(self).context.root_deck == old(self).context.root_deck,
            final(self).pinned_card_id == old(self).pinned_card_id,
            final(self).new == old(self).new,
            final(self).review == old(self).review,
            final(self).learning == old(self).learning,
            final(self).day_learning == old(self).day_learning,
            final(self).r_sorted_non_new == old(self).r_sorted_non_new,
            final(self).deferred_rwkv_reviews == old(self).deferred_rwkv_reviews,
            previous == spec_seen_mode(old(self).context.seen_note_ids@, note_id),
            seen_widens(old(self).context.seen_note_ids@, final(self).context.seen_note_ids@),
    {
        update_bury_mode(&mut self.context.seen_note_ids, note_id, mode)
    }
}

/// The bury mode recorded for a note, if any of its cards was seen.
pub open spec fn spec_seen_mode(seen: Seq<(i64, BuryMode)>, note_id: i64) -> Option<BuryMode> {
    if exists|i: int| 0 <= i < seen.len() && (#[trigger] seen[i]).0 == note_id {
        Some(seen[choose|i: int| 0 <= i < seen.len() && (#[trigger] seen[i]).0 == note_id && forall|j: int|
            0 <= j < i ==> (#[trigger] seen[j]).0 != note_id].1)
    } else {
        None
    }
}

/// The first entry of the note among the seen ones is at `i`.
pub open spec fn first_seen(seen: Seq<(i64, BuryMode)>, note_id: i64, i: int) -> bool {
    0 <= i < seen.len() && seen[i].0 == note_id && forall|j: int| 0 <= j < i ==> (#[trigger] seen[j]).0 != note_id
}

proof fn lemma_first_seen(seen: Seq<(i64, BuryMode)>, note_id: i64, i: int)
    requires
        first_seen(seen, note_id, i),
    ensures
        spec_seen_mode(seen, note_id) == Some(seen[i].1),
{
    let c = choose|c: int| 0 <= c < seen.len() && (#[trigger] seen[c]).0 == note_id && forall|j: int|
        0 <= j < c ==> (#[trigger] seen[j]).0 != note_id;
    assert(seen[i].0 == note_id);
    if c < i {
        assert(seen[c].0 != note_id);
    } else if c > i {
        assert(seen[i].0 != note_id);
    }
}

proof fn lemma_first_seen_exists(seen: Seq<(i64, BuryMode)>, note_id: i64, i: int) -> (f: int)
    requires
        0 <= i < seen.len(),
        seen[i].0 == note_id,
    ensures
        first_seen(seen, note_id, f),
    decreases i,
{
    if exists|j: int| 0 <= j < i && (#[trigger] seen[j]).0 == note_id {
        let j = choose|j: int| 0 <= j < i && (#[trigger] seen[j]).0 == note_id;
        lemma_first_seen_exists(seen, note_id, j)
    } else {
        i
    }
}

proof fn lemma_seen_some(seen: Seq<(i64, BuryMode)>, note_id: i64) -> (f: int)
    requires
        spec_seen_mode(seen, note_id) is Some,
    ensures
        first_seen(seen, note_id, f),
{
    let i = choose|i: int| 0 <= i < seen.len() && (#[trigger] seen[i]).0 == note_id;
    lemma_first_seen_exists(seen, note_id, i)
}

/// Every bury flag `a` sets, `b` sets too.
pub open spec fn mode_within(a: BuryMode, b: BuryMode) -> bool {
    &&& a.bury_new ==> b.bury_new
    &&& a.bury_reviews ==> b.bury_reviews
    &&& a.bury_interday_learning ==> b.bury_interday_learning
}

/// Every note seen in `before` is seen in `after`, with at least its flags.
pub open spec fn seen_widens(before: Seq<(i64, BuryMode)>, after: Seq<(i64, BuryMode)>) -> bool {
    forall|n: i64|
        #[trigger] spec_seen_mode(before, n) is Some ==> spec_seen_mode(after, n) is Some && mode_within(
            spec_seen_mode(before, n)->0,
            spec_seen_mode(after, n)->0,
        )
}

pub proof fn lemma_seen_widens_refl(seen: Seq<(i64, BuryMode)>)
    ensures
        seen_widens(seen, seen),
{
}

pub proof fn lemma_seen_widens_trans(a: Seq<(i64, BuryMode)>, b: Seq<(i64, BuryMode)>, c: Seq<(i64, BuryMode)>)
    requires
        seen_widens(a, b),
        seen_widens(b, c),
    ensures
        seen_widens(a, c),
{
    assert forall|n: i64| #[trigger] spec_seen_mode(a, n) is Some implies spec_seen_mode(c, n) is Some && mode_within(
        spec_seen_mode(a, n)->0,
        spec_seen_mode(c, n)->0,
    ) by {
        assert(spec_seen_mode(b, n) is Some);
    }
}

fn update_bury_mode(seen: &mut Vec<(i64, BuryMode)>, note_id: i64, mode: BuryMode) -> (previous: Option<BuryMode>)
    ensures
        previous == spec_seen_mode(old(seen)@, note_id),
        seen_widens(old(seen)@, final(seen)@),
{
    let mut i: usize = 0;
    while i < seen.len()
        invariant
            i <= seen@.len(),
            seen@ == old(seen)@,
            forall|j: int| 0 <= j < i ==> (#[trigger] seen@[j]).0 != note_id,
        decreases seen@.len() - i,
    {
        let (id, earlier) = seen[i];
        if id == note_id {
            proof {
                assert(seen@[i as int].0 == note_id);
            }
            let widened = BuryMode {
                bury_new: earlier.bury_new || mode.bury_new,
                bury_reviews: earlier.bury_reviews || mode.bury_reviews,
                bury_interday_learning: earlier.bury_interday_learning || mode.bury_interday_learning,
            };
            let ghost before = seen@;
            seen.set(i, (note_id, widened));
            proof {
                lemma_first_seen(before, note_id, i as int);
                assert forall|n: i64| #[trigger] spec_seen_mode(before, n) is Some implies spec_seen_mode(seen@, n) is Some
                    && mode_within(spec_seen_mode(before, n)->0, spec_seen_mode(seen@, n)->0) by {
                    let f = lemma_seen_some(before, n);
                    assert forall|j: int| 0 <= j < f implies (#[trigger] seen@[j]).0 != n by {
                        assert(before[j].0 != n);
                        assert(seen@[j].0 == before[j].0);
                    }
                    assert(first_seen(seen@, n, f));
                    lemma_first_seen(seen@, n, f);
                    lemma_first_seen(before, n, f);
                }
            }
            return Some(earlier);
        }
        i = i + 1;
    }
    let ghost before = seen@;
    seen.push((note_id, mode));
    proof {
        assert forall|n: i64| #[trigger] spec_seen_mode(before, n) is Some implies spec_seen_mode(seen@, n) is Some
            && mode_within(spec_seen_mode(before, n)->0, spec_seen_mode(seen@, n)->0) by {
            let f = lemma_seen_some(before, n);
            assert forall|j: int| 0 <= j < f implies (#[trigger] seen@[j]).0 != n by {
                assert(before[j].0 != n);
                assert(seen@[j] == before[j]);
            }
            assert(seen@[f] == before[f]);
            assert(first_seen(seen@, n, f));
            lemma_first_seen(seen@, n, f);
            lemma_first_seen(before, n, f);
        }
    }
    None
}

/// The deck a card belongs to: its original deck while it is in a
/// filtered deck, else its deck.
pub open spec fn home_deck_id(card_deck_id: i64, original_deck_id: i64) -> i64 {
    if original_deck_id != 0 {
        original_deck_id
    } else {
        card_deck_id
    }
}

/// The preset of the first deck with this id, if it has one.
pub open spec fn home_config(decks: Seq<Deck>, configs: Seq<DeckConfig>, home: i64) -> Option<DeckConfig> {
    match first_deck(decks, home) {
        Some(deck) => match deck.config_id {
            Some(config_id) => first_config(configs, config_id),
            None => None,
        },
        None => None,
    }
}

/// The bury mode of a card's home deck's preset; nothing is buried where
/// the home deck has no preset.
pub open spec fn spec_bury_mode(decks: Seq<Deck>, configs: Seq<DeckConfig>, card_deck_id: i64, original_deck_id: i64) -> BuryMode {
    match home_config(decks, configs, home_deck_id(card_deck_id, original_deck_id)) {
        Some(config) => BuryMode {
            bury_new: config.bury_new,
            bury_reviews: config.bury_reviews,
            bury_interday_learning: config.bury_interday_learning,
        },
        None => BuryMode { bury_new: false, bury_reviews: false, bury_interday_learning: false },
    }
}

/// The desired retention of a card's home deck's preset, in millionths;
/// 0.9 where the home deck has no preset.
pub open spec fn spec_preset_retention(decks: Seq<Deck>, configs: Seq<DeckConfig>, card: Card) -> u32 {
    match home_config(decks, configs, home_deck_id(card.deck_id, card.original_deck_id)) {
        Some(config) => config.desired_retention,
        None => 900_000,
    }
}

/// The bury mode a card's home deck's preset gives it (none where the home
/// deck has no preset).
pub fn bury_mode_of_card(col: &Collection, card_deck_id: i64, original_deck_id: i64) -> (mode: BuryMode)
    ensures
        mode == spec_bury_mode(col.decks@, col.configs@, card_deck_id, original_deck_id),
{
    let home = if original_deck_id != 0 {
        original_deck_id
    } else {
        card_deck_id
    };
    let none = BuryMode { bury_new: false, bury_reviews: false, bury_interday_learning: false };
    match find_deck(&col.decks, home) {
        Some(d) => match col.decks[d].config_id {
            Some(config_id) => match find_config(&col.configs, config_id) {
                Some(c) => {
                    let config = &col.configs[c];
                    BuryMode {
                        bury_new: config.bury_new,
                        bury_reviews: config.bury_reviews,
                        bury_interday_learning: config.bury_interday_learning,
                    }
                },
                None => none,
            },
            None => none,
        },
        None => none,
    }
}

/// The desired retention of a card's home deck's preset (0.9 where it has
/// none), in millionths.
pub fn preset_retention_of_card(col: &Collection, card: &Card) -> (retention: u32)
    ensures
        retention == spec_preset_retention(col.decks@, col.configs@, *card),
{
    let home = if card.original_deck_id != 0 {
        card.original_deck_id
    } else {
        card.deck_id
    };
    match find_deck(&col.decks, home) {
        Some(d) => match col.decks[d].config_id {
            Some(config_id) => match find_config(&col.configs, config_id) {
                Some(c) => col.configs[c].desired_retention,
                None => 900_000,
            },
            None => 900_000,
        },
        None => 900_000,
    }
}

/// Find a card by id.
pub fn find_card(cards: &Vec<Card>, card_id: i64) -> (index: Option<usize>)
    ensures
        match index {
            Some(i) => i < cards@.len() && cards@[i as int].id == card_id && forall|j: int|
                0 <= j < i ==> #[trigger] cards@[j].id != card_id,
            None => forall|j: int| 0 <= j < cards@.len() ==> #[trigger] cards@[j].id != card_id,
        },
{
    let mut i: usize = 0;
    while i < cards.len()
        invariant
            i <= cards@.len(),
            forall|j: int| 0 <= j < i ==> #[trigger] cards@[j].id != card_id,
        decreases cards@.len() - i,
    {
        if cards[i].id == card_id {
            return Some(i);
        }
        i = i + 1;
    }
    None
}

} // verus!
