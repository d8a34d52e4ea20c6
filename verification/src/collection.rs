use vstd::prelude::*;

use crate::card::Card;
use crate::card::stamped;
use crate::card::MemoryStateBits;
use crate::memory::reconcile_itemless_card;
use crate::memory::set_computed_memory_state;
use crate::memory::set_decay_and_desired_retention;
use crate::memory::FsrsSyncConflict;
use crate::revlog::LastRevlogInfo;
use crate::rwkv_inputs::lookup::find_value;
use crate::queue::model::Deck;
use crate::queue::model::DeckConfig;
use crate::queue::model::RwkvReviewQueueScores;

verus! {

/// A collection: its cards, decks and presets, and what the study queue
/// reads besides. `exact_order_keys`
/// and `rwkv_order_keys` hold, as the bits of single-precision numbers, the
/// sort keys of FSRS's and RWKV-Curve's retrievability orders, computed by
/// their models; a card without one sorts last. `random_salt` is drawn
/// anew for each build of the study queue: the random review order hashes
/// the cards with it.
#[derive(Clone, Debug)]
pub struct Collection {
    pub cards: Vec<Card>,
    pub decks: Vec<Deck>,
    pub configs: Vec<DeckConfig>,
    pub fsrs: bool,
    pub learn_ahead_secs: u32,
    pub rwkv_review_queue_scores: Option<RwkvReviewQueueScores>,
    pub exact_order_keys: Vec<(i64, u32)>,
    pub rwkv_order_keys: Vec<(i64, u32)>,
    pub random_salt: u32,
    /// The limits of the decks above the studied one apply to it too.
    pub apply_all_parent_limits: bool,
}

/// What FSRS computed for a card: its memory state (none for a card it
/// cannot place), the desired retention of its preset (in millionths), and
/// the decay of the preset's parameters (the bits of a single-precision
/// number).
#[derive(Clone, Copy, Debug, PartialEq, Eq, Structural)]
pub struct ComputedMemoryState {
    pub memory_state: Option<MemoryStateBits>,
    pub desired_retention: u32,
    pub decay: u32,
}

/// The cards after `card` was written over the stored card with its id
/// (every such card; nothing changes where there is none).
pub open spec fn spec_updated_cards(cards: Seq<Card>, card: Card) -> Seq<Card> {
    Seq::new(cards.len(), |i: int| if cards[i].id == card.id { card } else { cards[i] })
}

/// The card with its FSRS data replaced by what was computed.
pub open spec fn spec_with_memory_state(card: Card, computed: ComputedMemoryState) -> Card {
    Card {
        memory_state: computed.memory_state,
        desired_retention: Some(computed.desired_retention),
        decay: Some(computed.decay),
        ..card
    }
}

impl Collection {
    /// Writes `card` over the stored card with its id.
    pub fn update_card(&mut self, card: &Card)
        ensures
            final(self).cards@ == spec_updated_cards(old(self).cards@, *card),
            final(self).decks == old(self).decks,
            final(self).configs == old(self).configs,
    {
        let mut i: usize = 0;
        while i < self.cards.len()
            invariant
                i <= self.cards@.len(),
                self.cards@.len() == old(self).cards@.len(),
                self.decks == old(self).decks,
                self.configs == old(self).configs,
                forall|j: int| 0 <= j < i ==> #[trigger] self.cards@[j] == spec_updated_cards(old(self).cards@, *card)[j],
                forall|j: int| i <= j < self.cards@.len() ==> #[trigger] self.cards@[j] == old(self).cards@[j],
            decreases self.cards@.len() - i,
        {
            if self.cards[i].id == card.id {
                self.cards.set(i, *card);
            }
            i = i + 1;
        }
        proof {
            assert(self.cards@ =~= spec_updated_cards(old(self).cards@, *card));
        }
    }

    /// Stores what FSRS computed for a card (its memory state, its preset's
    /// desired retention and decay) on the card and in the collection,
    /// marked modified at `modified_at`. Used where a memory state is needed
    /// but none is kept, such as after the card moved to another deck. An
    /// error, with nothing changed, where no stored card has its id.
    pub fn compute_and_update_memory_state(&mut self, card: &mut Card, computed: ComputedMemoryState, modified_at: i64) -> (result: Result<(), CollectionError>)
        ensures
            result is Ok <==> has_card(old(self).cards@, old(card).id),
            result is Ok ==> *final(card) == stamped(spec_with_memory_state(*old(card), computed), modified_at)
                && final(self).cards@ == spec_updated_cards(old(self).cards@, *final(card)),
            result is Err ==> result == Err::<(), CollectionError>(CollectionError::CardNotFound { card_id: old(card).id })
                && *final(card) == *old(card) && final(self).cards == old(self).cards,
            final(self).decks == old(self).decks,
            final(self).configs == old(self).configs,
    {
        match self.card_index(card.id) {
            Some(i) => {
                proof {
                    assert(self.cards@[i as int].id == card.id);
                }
            },
            None => {
                return Err(CollectionError::CardNotFound { card_id: card.id });
            },
        }
        card.memory_state = computed.memory_state;
        card.desired_retention = Some(computed.desired_retention);
        card.decay = Some(computed.decay);
        card.mtime = modified_at;
        self.update_card(card);
        Ok(())
    }
}

/// The id at `k` appears nowhere else in the list.
pub open spec fn appears_once(ids: Seq<i64>, k: int) -> bool {
    forall|i: int| 0 <= i < ids.len() && i != k ==> ids[i] != ids[k]
}

/// No two cards share an id.
pub open spec fn unique_card_ids(cards: Seq<Card>) -> bool {
    forall|i: int, j: int| 0 <= i < j < cards.len() ==> #[trigger] cards[i].id != #[trigger] cards[j].id
}

/// Some card has this id.
pub open spec fn has_card(cards: Seq<Card>, card_id: i64) -> bool {
    exists|j: int| 0 <= j < cards.len() && #[trigger] cards[j].id == card_id
}

/// Why a change to the collection failed.
#[derive(Clone, Copy, Debug, PartialEq, Eq, Structural)]
pub enum CollectionError {
    /// No card has this id.
    CardNotFound { card_id: i64 },
}

impl Collection {
    /// The position of the card with this id, the first.
    pub fn card_index(&self, card_id: i64) -> (index: Option<usize>)
        ensures
            match index {
                Some(i) => i < self.cards@.len() && self.cards@[i as int].id == card_id,
                None => forall|j: int| 0 <= j < self.cards@.len() ==> #[trigger] self.cards@[j].id != card_id,
            },
    {
        let mut i: usize = 0;
        while i < self.cards.len()
            invariant
                i <= self.cards@.len(),
                forall|j: int| 0 <= j < i ==> #[trigger] self.cards@[j].id != card_id,
            decreases self.cards@.len() - i,
        {
            if self.cards[i].id == card_id {
                return Some(i);
            }
            i = i + 1;
        }
        None
    }

    /// Drops the FSRS data of each listed card (memory state, desired
    /// retention, decay). An error where a card is missing; the cards before
    /// it were changed.
    pub fn clear_fsrs_data_for_cards(&mut self, card_ids: &Vec<i64>, modified_at: i64) -> (result: Result<(), CollectionError>)
        requires
            unique_card_ids(old(self).cards@),
        ensures
            final(self).cards@.len() == old(self).cards@.len(),
            final(self).decks == old(self).decks,
            final(self).configs == old(self).configs,
            forall|j: int|
                0 <= j < old(self).cards@.len() && !card_ids@.contains(old(self).cards@[j].id) ==> #[trigger] final(self).cards@[j] == old(self).cards@[j],
            result is Ok <==> forall|k: int| 0 <= k < card_ids@.len() ==> has_card(old(self).cards@, #[trigger] card_ids@[k]),
            result is Ok ==> forall|j: int|
                0 <= j < old(self).cards@.len() && card_ids@.contains(old(self).cards@[j].id) ==> #[trigger] final(self).cards@[j] == stamped(crate::memory::spec_cleared(old(self).cards@[j]), modified_at),
    {
        let ghost before = self.cards@;
        let mut k: usize = 0;
        while k < card_ids.len()
            invariant
                k <= card_ids@.len(),
                self.cards@.len() == before.len(),
                before == old(self).cards@,
                unique_card_ids(before),
                forall|i: int| 0 <= i < k ==> has_card(before, #[trigger] card_ids@[i]),
                self.decks == old(self).decks,
                self.configs == old(self).configs,
                forall|j: int| 0 <= j < before.len() ==> (#[trigger] self.cards@[j]).id == before[j].id,
                forall|j: int|
                    0 <= j < before.len() && !card_ids@.subrange(0, k as int).contains(before[j].id) ==> #[trigger] self.cards@[j]
                        == before[j],
                forall|j: int|
                    0 <= j < before.len() && card_ids@.subrange(0, k as int).contains(before[j].id) ==> #[trigger] self.cards@[j]
                        == stamped(crate::memory::spec_cleared(before[j]), modified_at),
            decreases card_ids@.len() - k,
        {
            let card_id = card_ids[k];
            let index = match self.card_index(card_id) {
                Some(i) => i,
                None => {
                    proof {
                        assert forall|j: int| 0 <= j < before.len() implies #[trigger] before[j].id != card_ids@[k as int] by {
                            assert(self.cards@[j].id == before[j].id);
                        }
                        assert(!has_card(before, card_ids@[k as int]));
                    }
                    return Err(CollectionError::CardNotFound { card_id });
                },
            };
            let mut card = self.cards[index];
            let ghost now = self.cards@;
            card.clear_fsrs_data();
            card.mtime = modified_at;
            proof {
                assert(card == stamped(crate::memory::spec_cleared(now[index as int]), modified_at));
                assert(before[index as int].id == card_id);
                assert(has_card(before, card_ids@[k as int]));
            }
            self.update_card(&card);
            proof {
                let done = card_ids@.subrange(0, k + 1 as int);
                assert(done =~= card_ids@.subrange(0, k as int).push(card_id));
                assert forall|j: int| 0 <= j < before.len() implies (#[trigger] self.cards@[j]).id == before[j].id by {
                    assert(now[j].id == before[j].id);
                }
                assert forall|j: int|
                    0 <= j < before.len() && !done.contains(before[j].id) implies #[trigger] self.cards@[j] == before[j] by {
                    assert(!card_ids@.subrange(0, k as int).contains(before[j].id));
                    if before[j].id == card_id {
                        assert(done[k as int] == card_id);
                    }
                }
                assert forall|j: int|
                    0 <= j < before.len() && done.contains(before[j].id) implies #[trigger] self.cards@[j]
                        == stamped(crate::memory::spec_cleared(before[j]), modified_at) by {
                    if before[j].id == card_id {
                        assert(now[index as int].id == before[index as int].id);
                        if index as int != j {
                            if (index as int) < j {
                                assert(before[index as int].id != before[j].id);
                            } else {
                                assert(before[j].id != before[index as int].id);
                            }
                        }
                        if card_ids@.subrange(0, k as int).contains(before[j].id) {
                            assert(now[j] == stamped(crate::memory::spec_cleared(before[j]), modified_at));
                        } else {
                            assert(now[j] == before[j]);
                        }
                        assert(now[index as int].id == card_id);
                    } else {
                        assert(card_ids@.subrange(0, k as int).contains(before[j].id)) by {
                            let w = choose|w: int| 0 <= w < done.len() && done[w] == before[j].id;
                            assert(w < k);
                            assert(card_ids@.subrange(0, k as int)[w] == before[j].id);
                        }
                    }
                }
            }
            k = k + 1;
        }
        proof {
            assert(card_ids@.subrange(0, card_ids@.len() as int) =~= card_ids@);
        }
        Ok(())
    }
}

impl Collection {
    /// Gives each listed card that FSRS has no review to compute from the
    /// retention it is held to and the decay, and no memory state. An error
    /// where a card is missing; the cards before it were changed.
    pub fn update_memory_state_for_itemless_cards(&mut self, card_ids: &Vec<i64>, deck_retention: &Vec<(i64, u32)>, preset_retention: u32, decay: u32, modified_at: i64) -> (result: Result<(), CollectionError>)
        requires
            unique_card_ids(old(self).cards@),
        ensures
            final(self).cards@.len() == old(self).cards@.len(),
            final(self).decks == old(self).decks,
            final(self).configs == old(self).configs,
            forall|j: int|
                0 <= j < old(self).cards@.len() && !card_ids@.contains(old(self).cards@[j].id) ==> #[trigger] final(self).cards@[j] == old(self).cards@[j],
            result is Ok <==> forall|k: int| 0 <= k < card_ids@.len() ==> has_card(old(self).cards@, #[trigger] card_ids@[k]),
            result is Ok ==> forall|j: int|
                0 <= j < old(self).cards@.len() && card_ids@.contains(old(self).cards@[j].id) ==> #[trigger] final(self).cards@[j]
                    == stamped(crate::memory::spec_itemless(old(self).cards@[j], deck_retention@, preset_retention, decay), modified_at),
    {
        let ghost before = self.cards@;
        let mut k: usize = 0;
        while k < card_ids.len()
            invariant
                k <= card_ids@.len(),
                self.cards@.len() == before.len(),
                before == old(self).cards@,
                unique_card_ids(before),
                self.decks == old(self).decks,
                self.configs == old(self).configs,
                forall|i: int| 0 <= i < k ==> has_card(before, #[trigger] card_ids@[i]),
                forall|j: int| 0 <= j < before.len() ==> (#[trigger] self.cards@[j]).id == before[j].id,
                forall|j: int|
                    0 <= j < before.len() && !card_ids@.subrange(0, k as int).contains(before[j].id) ==> #[trigger] self.cards@[j]
                        == before[j],
                forall|j: int|
                    0 <= j < before.len() && card_ids@.subrange(0, k as int).contains(before[j].id) ==> #[trigger] self.cards@[j]
                        == stamped(crate::memory::spec_itemless(before[j], deck_retention@, preset_retention, decay), modified_at),
            decreases card_ids@.len() - k,
        {
            let card_id = card_ids[k];
            let index = match self.card_index(card_id) {
                Some(i) => i,
                None => {
                    proof {
                        assert forall|j: int| 0 <= j < before.len() implies #[trigger] before[j].id != card_ids@[k as int] by {
                            assert(self.cards@[j].id == before[j].id);
                        }
                        assert(!has_card(before, card_ids@[k as int]));
                    }
                    return Err(CollectionError::CardNotFound { card_id });
                },
            };
            let mut card = self.cards[index];
            let ghost now = self.cards@;
            set_decay_and_desired_retention(&mut card, deck_retention, preset_retention, decay);
            card.memory_state = None;
            card.mtime = modified_at;
            proof {
                assert(card == stamped(crate::memory::spec_itemless(now[index as int], deck_retention@, preset_retention, decay), modified_at));
                assert(before[index as int].id == card_id);
                assert(has_card(before, card_ids@[k as int]));
            }
            self.update_card(&card);
            proof {
                let done = card_ids@.subrange(0, k + 1 as int);
                assert(done =~= card_ids@.subrange(0, k as int).push(card_id));
                assert forall|j: int| 0 <= j < before.len() implies (#[trigger] self.cards@[j]).id == before[j].id by {
                    assert(now[j].id == before[j].id);
                }
                assert forall|j: int|
                    0 <= j < before.len() && !done.contains(before[j].id) implies #[trigger] self.cards@[j] == before[j] by {
                    assert(!card_ids@.subrange(0, k as int).contains(before[j].id));
                    if before[j].id == card_id {
                        assert(done[k as int] == card_id);
                    }
                }
                assert forall|j: int|
                    0 <= j < before.len() && done.contains(before[j].id) implies #[trigger] self.cards@[j]
                        == stamped(crate::memory::spec_itemless(before[j], deck_retention@, preset_retention, decay), modified_at) by {
                    if before[j].id == card_id {
                        assert(now[index as int].id == before[index as int].id);
                        if index as int != j {
                            if (index as int) < j {
                                assert(before[index as int].id != before[j].id);
                            } else {
                                assert(before[j].id != before[index as int].id);
                            }
                        }
                        if card_ids@.subrange(0, k as int).contains(before[j].id) {
                            assert(now[j] == stamped(crate::memory::spec_itemless(before[j], deck_retention@, preset_retention, decay), modified_at));
                        } else {
                            assert(now[j] == before[j]);
                        }
                        assert(now[index as int].id == card_id);
                    } else {
                        assert(card_ids@.subrange(0, k as int).contains(before[j].id)) by {
                            let w = choose|w: int| 0 <= w < done.len() && done[w] == before[j].id;
                            assert(w < k);
                            assert(card_ids@.subrange(0, k as int)[w] == before[j].id);
                        }
                    }
                }
            }
            k = k + 1;
        }
        proof {
            assert(card_ids@.subrange(0, card_ids@.len() as int) =~= card_ids@);
        }
        Ok(())
    }

    /// Gives each listed card the memory state FSRS computed for it (keeping
    /// its stored stability where asked), the retention it is held to and
    /// the decay. An error where a card is missing; the cards before it were
    /// changed.
    pub fn update_memory_state_for_cards_with_items(&mut self, card_ids: &Vec<i64>, states: &Vec<MemoryStateBits>, keep_stability: bool, deck_retention: &Vec<(i64, u32)>, preset_retention: u32, decay: u32, modified_at: i64) -> (result: Result<(), CollectionError>)
        requires
            states@.len() == card_ids@.len(),
            unique_card_ids(old(self).cards@),
        ensures
            final(self).cards@.len() == old(self).cards@.len(),
            final(self).decks == old(self).decks,
            final(self).configs == old(self).configs,
            forall|j: int|
                0 <= j < old(self).cards@.len() && !card_ids@.contains(old(self).cards@[j].id) ==> #[trigger] final(self).cards@[j] == old(self).cards@[j],
            result is Ok <==> forall|k: int| 0 <= k < card_ids@.len() ==> has_card(old(self).cards@, #[trigger] card_ids@[k]),
            result is Ok ==> forall|k: int, j: int|
                0 <= k < card_ids@.len() && appears_once(card_ids@, k) && 0 <= j < old(self).cards@.len()
                    && old(self).cards@[j].id == #[trigger] card_ids@[k] ==> #[trigger] final(self).cards@[j] == stamped(crate::memory::spec_with_state(
                    old(self).cards@[j],
                    states@[k],
                    keep_stability,
                    deck_retention@,
                    preset_retention,
                    decay,
                ), modified_at),
    {
        let ghost before = self.cards@;
        let mut k: usize = 0;
        while k < card_ids.len()
            invariant
                k <= card_ids@.len(),
                states@.len() == card_ids@.len(),
                self.cards@.len() == before.len(),
                before == old(self).cards@,
                unique_card_ids(before),
                self.decks == old(self).decks,
                self.configs == old(self).configs,
                forall|i: int| 0 <= i < k ==> has_card(before, #[trigger] card_ids@[i]),
                forall|j: int| 0 <= j < before.len() ==> (#[trigger] self.cards@[j]).id == before[j].id,
                forall|j: int|
                    0 <= j < before.len() && !card_ids@.subrange(0, k as int).contains(before[j].id) ==> #[trigger] self.cards@[j]
                        == before[j],
                forall|i: int, j: int|
                    0 <= i < k && appears_once(card_ids@, i) && 0 <= j < before.len() && before[j].id == #[trigger] card_ids@[i]
                        ==> #[trigger] self.cards@[j] == stamped(crate::memory::spec_with_state(before[j], states@[i], keep_stability, deck_retention@, preset_retention, decay), modified_at),
            decreases card_ids@.len() - k,
        {
            let card_id = card_ids[k];
            let index = match self.card_index(card_id) {
                Some(i) => i,
                None => {
                    proof {
                        assert forall|j: int| 0 <= j < before.len() implies #[trigger] before[j].id != card_ids@[k as int] by {
                            assert(self.cards@[j].id == before[j].id);
                        }
                        assert(!has_card(before, card_ids@[k as int]));
                    }
                    return Err(CollectionError::CardNotFound { card_id });
                },
            };
            let mut card = self.cards[index];
            let ghost now = self.cards@;
            set_computed_memory_state(&mut card, states[k], keep_stability, deck_retention, preset_retention, decay);
            card.mtime = modified_at;
            proof {
                assert(card == stamped(crate::memory::spec_with_state(now[index as int], states@[k as int], keep_stability, deck_retention@, preset_retention, decay), modified_at));
                assert(before[index as int].id == card_id);
                assert(has_card(before, card_ids@[k as int]));
            }
            self.update_card(&card);
            proof {
                let done = card_ids@.subrange(0, k + 1 as int);
                assert(done =~= card_ids@.subrange(0, k as int).push(card_ids@[k as int]));
                assert forall|j: int| 0 <= j < before.len() implies (#[trigger] self.cards@[j]).id == before[j].id by {
                    assert(now[j].id == before[j].id);
                }
                assert forall|j: int|
                    0 <= j < before.len() && !done.contains(before[j].id) implies #[trigger] self.cards@[j] == before[j] by {
                    assert(!card_ids@.subrange(0, k as int).contains(before[j].id));
                    if before[j].id == card_id {
                        assert(done[k as int] == card_id);
                    }
                }
                assert forall|i: int, j: int|
                    0 <= i < k + 1 && appears_once(card_ids@, i) && 0 <= j < before.len() && before[j].id == #[trigger] card_ids@[i]
                        implies #[trigger] self.cards@[j] == stamped(crate::memory::spec_with_state(before[j], states@[i], keep_stability, deck_retention@, preset_retention, decay), modified_at) by {
                    if i < k {
                        assert(card_ids@[i] != card_ids@[k as int]);
                        assert(before[j].id != card_id);
                        assert(now[j] == stamped(crate::memory::spec_with_state(before[j], states@[i], keep_stability, deck_retention@, preset_retention, decay), modified_at));
                    } else {
                        assert(now[index as int].id == before[index as int].id);
                        if index as int != j {
                            if (index as int) < j {
                                assert(before[index as int].id != before[j].id);
                            } else {
                                assert(before[j].id != before[index as int].id);
                            }
                        }
                        assert(!card_ids@.subrange(0, k as int).contains(before[j].id)) by {
                            if card_ids@.subrange(0, k as int).contains(before[j].id) {
                                let w = choose|w: int| 0 <= w < k && card_ids@.subrange(0, k as int)[w] == before[j].id;
                                assert(card_ids@[w] == card_ids@[k as int]);
                            }
                        }
                        assert(now[j] == before[j]);
                    }
                }
            }
            k = k + 1;
        }
        proof {
            assert(card_ids@.subrange(0, card_ids@.len() as int) =~= card_ids@);
        }
        Ok(())
    }

    /// After a sync, each listed card whose merged review log holds no real
    /// review: the retention it is held to and the decay, then its memory
    /// state and last review time as its conflict says (see
    /// `spec_reconcile_itemless`). An error where a card is missing; the cards
    /// before it were changed.
    pub fn reconcile_itemless_cards_after_sync(&mut self, card_ids: &Vec<i64>, conflicts: &Vec<(i64, FsrsSyncConflict)>, last_info: &Vec<(i64, LastRevlogInfo)>, deck_retention: &Vec<(i64, u32)>, preset_retention: u32, decay: u32, modified_at: i64) -> (result: Result<(), CollectionError>)
        requires
            unique_card_ids(old(self).cards@),
        ensures
            final(self).cards@.len() == old(self).cards@.len(),
            final(self).decks == old(self).decks,
            final(self).configs == old(self).configs,
            forall|j: int|
                0 <= j < old(self).cards@.len() && !card_ids@.contains(old(self).cards@[j].id) ==> #[trigger] final(self).cards@[j] == old(self).cards@[j],
            result is Ok <==> forall|k: int| 0 <= k < card_ids@.len() ==> has_card(old(self).cards@, #[trigger] card_ids@[k]),
            result is Ok ==> forall|j: int|
                0 <= j < old(self).cards@.len() && card_ids@.contains(old(self).cards@[j].id) ==> #[trigger] final(self).cards@[j]
                    == stamped(crate::memory::spec_reconciled_after_sync(old(self).cards@[j], conflicts@, last_info@, deck_retention@, preset_retention, decay), modified_at),
    {
        let ghost before = self.cards@;
        let mut k: usize = 0;
        while k < card_ids.len()
            invariant
                k <= card_ids@.len(),
                self.cards@.len() == before.len(),
                before == old(self).cards@,
                unique_card_ids(before),
                self.decks == old(self).decks,
                self.configs == old(self).configs,
                forall|i: int| 0 <= i < k ==> has_card(before, #[trigger] card_ids@[i]),
                forall|j: int| 0 <= j < before.len() ==> (#[trigger] self.cards@[j]).id == before[j].id,
                forall|j: int|
                    0 <= j < before.len() && !card_ids@.subrange(0, k as int).contains(before[j].id) ==> #[trigger] self.cards@[j]
                        == before[j],
                forall|j: int|
                    0 <= j < before.len() && card_ids@.subrange(0, k as int).contains(before[j].id) ==> #[trigger] self.cards@[j]
                        == stamped(crate::memory::spec_reconciled_after_sync(before[j], conflicts@, last_info@, deck_retention@, preset_retention, decay), modified_at),
            decreases card_ids@.len() - k,
        {
            let card_id = card_ids[k];
            let index = match self.card_index(card_id) {
                Some(i) => i,
                None => {
                    proof {
                        assert forall|j: int| 0 <= j < before.len() implies #[trigger] before[j].id != card_ids@[k as int] by {
                            assert(self.cards@[j].id == before[j].id);
                        }
                        assert(!has_card(before, card_ids@[k as int]));
                    }
                    return Err(CollectionError::CardNotFound { card_id });
                },
            };
            let mut card = self.cards[index];
            let ghost now = self.cards@;
            let conflict = match find_value(conflicts, card_id) {
                Some(c) => c,
                None => FsrsSyncConflict { schedule_differs: false, memory_state_agreed: false, last_review_time_agreed: false },
            };
            set_decay_and_desired_retention(&mut card, deck_retention, preset_retention, decay);
            reconcile_itemless_card(&mut card, conflict, find_value(last_info, card_id));
            card.mtime = modified_at;
            proof {
                assert(card == stamped(crate::memory::spec_reconciled_after_sync(now[index as int], conflicts@, last_info@, deck_retention@, preset_retention, decay), modified_at));
                assert(before[index as int].id == card_id);
                assert(has_card(before, card_ids@[k as int]));
            }
            self.update_card(&card);
            proof {
                let done = card_ids@.subrange(0, k + 1 as int);
                assert(done =~= card_ids@.subrange(0, k as int).push(card_id));
                assert forall|j: int| 0 <= j < before.len() implies (#[trigger] self.cards@[j]).id == before[j].id by {
                    assert(now[j].id == before[j].id);
                }
                assert forall|j: int|
                    0 <= j < before.len() && !done.contains(before[j].id) implies #[trigger] self.cards@[j] == before[j] by {
                    assert(!card_ids@.subrange(0, k as int).contains(before[j].id));
                    if before[j].id == card_id {
                        assert(done[k as int] == card_id);
                    }
                }
                assert forall|j: int|
                    0 <= j < before.len() && done.contains(before[j].id) implies #[trigger] self.cards@[j]
                        == stamped(crate::memory::spec_reconciled_after_sync(before[j], conflicts@, last_info@, deck_retention@, preset_retention, decay), modified_at) by {
                    if before[j].id == card_id {
                        assert(now[index as int].id == before[index as int].id);
                        if index as int != j {
                            if (index as int) < j {
                                assert(before[index as int].id != before[j].id);
                            } else {
                                assert(before[j].id != before[index as int].id);
                            }
                        }
                        if card_ids@.subrange(0, k as int).contains(before[j].id) {
                            assert(now[j] == stamped(crate::memory::spec_reconciled_after_sync(before[j], conflicts@, last_info@, deck_retention@, preset_retention, decay), modified_at));
                        } else {
                            assert(now[j] == before[j]);
                        }
                        assert(now[index as int].id == card_id);
                    } else {
                        assert(card_ids@.subrange(0, k as int).contains(before[j].id)) by {
                            let w = choose|w: int| 0 <= w < done.len() && done[w] == before[j].id;
                            assert(w < k);
                            assert(card_ids@.subrange(0, k as int)[w] == before[j].id);
                        }
                    }
                }
            }
            k = k + 1;
        }
        proof {
            assert(card_ids@.subrange(0, card_ids@.len() as int) =~= card_ids@);
        }
        Ok(())
    }

}

} // verus!
