use vstd::prelude::*;

use crate::queue::gathering::within_limits;
use crate::queue::gathering::new_buried;
use crate::queue::gathering::root_left_not_up;
use crate::queue::gathering::state_grows;
use crate::queue::gathering::lemma_state_grows_refl;
use crate::queue::gathering::lemma_state_grows_trans;
use crate::queue::collect::lemma_found_covered;
use crate::queue::builder::spec_seen_mode;
use crate::queue::limits::deck_reached;
use crate::queue::limits::lemma_deck_reached_stays;

use crate::card::Card;
use crate::card::CardQueue;
use crate::queue::builder::fnv_hash_of_pair;
use crate::queue::builder::knuth_salt;
use crate::queue::builder::NewCard;
use crate::queue::builder::QueueBuilder;
use crate::queue::collect::selected;
use crate::queue::gathering::gathered_from;
use crate::queue::gathering::lemma_gathered_nothing;
use crate::queue::gathering::of_studied_decks;
use crate::queue::gathering::setup_same;
use crate::queue::limits::left;
use crate::queue::limits::LimitKind;
use crate::queue::model::find_score;
use crate::queue::model::NewCardGatherPriority;
use crate::collection::Collection;
use crate::sort::key_bounded;
use crate::sort::sorted_order;
use crate::sort::SortKey;

verus! {

/// How new cards are sorted as they are read.
#[derive(Clone, Copy, Debug, PartialEq, Eq, Structural)]
pub enum NewCardSorting {
    /// By position, then template.
    LowestPosition,
    /// By position, highest first, then template.
    HighestPosition,
    /// By a salted hash of the note, then template.
    RandomNotes { salt: u32 },
    /// By a salted hash of the card.
    RandomCards { salt: u32 },
}

/// The queue entry of a new card.
pub open spec fn spec_new_card_of(card: Card) -> NewCard {
    NewCard {
        id: card.id,
        note_id: card.note_id,
        mtime: card.mtime,
        current_deck_id: card.deck_id,
        original_deck_id: card.original_deck_id,
        template_index: card.template_idx as u32,
    }
}

pub fn new_card_of(card: &Card) -> (new_card: NewCard)
    ensures
        new_card == spec_new_card_of(*card),
{
    NewCard {
        id: card.id,
        note_id: card.note_id,
        mtime: card.mtime,
        current_deck_id: card.deck_id,
        original_deck_id: card.original_deck_id,
        template_index: card.template_idx as u32,
    }
}

/// A card the gathering of new cards may add: a new card of one of the
/// studied decks, other than the pinned card.
pub open spec fn new_candidate(b: QueueBuilder, cards: Seq<Card>, c: NewCard) -> bool {
    &&& b.pinned_card_id != Some(c.id)
    &&& exists|i: int|
        0 <= i < cards.len() && #[trigger] selected(b, cards[i], CardQueue::New, None) && c == spec_new_card_of(
            cards[i],
        )
}

/// Every new card of `after` was already one of `b`'s, or is a card the
/// gathering may add.
pub open spec fn new_cards_from(b: QueueBuilder, after: Seq<NewCard>, cards: Seq<Card>) -> bool {
    forall|k: int| 0 <= k < after.len() ==> b.new@.contains(#[trigger] after[k]) || new_candidate(b, cards, after[k])
}

/// A new card taken into the queue keeps the new cards coming from `b`.
proof fn lemma_new_card_taken(b: QueueBuilder, cur: Seq<NewCard>, next: Seq<NewCard>, cards: Seq<Card>, i: int)
    requires
        new_cards_from(b, cur, cards),
        0 <= i < cards.len(),
        selected(b, cards[i], CardQueue::New, None),
        next == cur || (next == cur.push(spec_new_card_of(cards[i])) && b.pinned_card_id != Some(cards[i].id)),
    ensures
        new_cards_from(b, next, cards),
{
    assert forall|k: int| 0 <= k < next.len() implies b.new@.contains(#[trigger] next[k]) || new_candidate(
        b,
        cards,
        next[k],
    ) by {
        if k < cur.len() {
            assert(next[k] == cur[k]);
        } else {
            assert(new_candidate(b, cards, spec_new_card_of(cards[i])));
        }
    }
}

/// New cards the gathering may add are cards of the studied decks.
proof fn lemma_new_cards_gathered(before: QueueBuilder, after: QueueBuilder, cards: Seq<Card>)
    requires
        new_cards_from(before, after.new@, cards),
        after.review == before.review,
        after.learning == before.learning,
        after.day_learning == before.day_learning,
        after.r_sorted_non_new == before.r_sorted_non_new,
    ensures
        gathered_from(before, after, cards),
{
    lemma_gathered_nothing(before, cards);
    assert forall|k: int| 0 <= k < after.new@.len() implies before.new@.contains(#[trigger] after.new@[k]) || of_studied_decks(
        before,
        cards,
        after.new@[k].id,
    ) by {
        if !before.new@.contains(after.new@[k]) {
            let i = choose|i: int|
                0 <= i < cards.len() && #[trigger] selected(before, cards[i], CardQueue::New, None) && after.new@[k]
                    == spec_new_card_of(cards[i]);
            assert(cards[i].id == after.new@[k].id);
        }
    }
}

/// A new card is held: it is in the queue, or the root has no new cards
/// left, or its deck's limits have none, or it is the pinned card, or a
/// sibling seen earlier buries it.
pub open spec fn new_held(b: QueueBuilder, c: NewCard) -> bool {
    ||| b.new@.contains(c)
    ||| left(b.limits.nodes@[0], LimitKind::New) == 0
    ||| deck_reached(b.limits.nodes@, c.current_deck_id, LimitKind::New)
    ||| b.pinned_card_id == Some(c.id)
    ||| new_buried(b.context.seen_note_ids@, c)
}

/// Every new card of the studied decks is held.
pub open spec fn new_cards_held(before: QueueBuilder, after: QueueBuilder, cards: Seq<Card>) -> bool {
    forall|i: int|
        0 <= i < cards.len() && #[trigger] selected(before, cards[i], CardQueue::New, None) ==> new_held(
            after,
            spec_new_card_of(cards[i]),
        )
}

/// The gathering's setup decides which cards are the studied decks' new
/// cards.
pub proof fn lemma_new_cards_held_setup(a: QueueBuilder, b: QueueBuilder, after: QueueBuilder, cards: Seq<Card>)
    requires
        setup_same(a, b),
        new_cards_held(b, after, cards),
    ensures
        new_cards_held(a, after, cards),
{
    assert forall|i: int| 0 <= i < cards.len() && #[trigger] selected(a, cards[i], CardQueue::New, None) implies new_held(
        after,
        spec_new_card_of(cards[i]),
    ) by {
        assert(selected(b, cards[i], CardQueue::New, None));
    }
}

/// Every new card of the deck is held.
pub open spec fn deck_cards_held(b: QueueBuilder, cards: Seq<Card>, deck_id: i64) -> bool {
    forall|i: int|
        0 <= i < cards.len() && (#[trigger] cards[i]).deck_id == deck_id && cards[i].queue == CardQueue::New ==> new_held(
            b,
            spec_new_card_of(cards[i]),
        )
}

proof fn lemma_deck_cards_held_stays(b1: QueueBuilder, b2: QueueBuilder, cards: Seq<Card>, deck_id: i64)
    requires
        deck_cards_held(b1, cards, deck_id),
        state_grows(b1, b2),
        root_left_not_up(b1, b2),
        b1.pinned_card_id == b2.pinned_card_id,
        forall|x: NewCard| b1.new@.contains(x) ==> b2.new@.contains(x),
    ensures
        deck_cards_held(b2, cards, deck_id),
{
    assert forall|i: int|
        0 <= i < cards.len() && (#[trigger] cards[i]).deck_id == deck_id && cards[i].queue == CardQueue::New implies new_held(
        b2,
        spec_new_card_of(cards[i]),
    ) by {
        lemma_new_held_stays(b1, b2, spec_new_card_of(cards[i]));
    }
}

/// What holds a new card back stays so as the gathering goes on.
proof fn lemma_new_held_stays(b1: QueueBuilder, b2: QueueBuilder, c: NewCard)
    requires
        new_held(b1, c),
        state_grows(b1, b2),
        root_left_not_up(b1, b2),
        b1.pinned_card_id == b2.pinned_card_id,
        forall|x: NewCard| b1.new@.contains(x) ==> b2.new@.contains(x),
    ensures
        new_held(b2, c),
{
    if deck_reached(b1.limits.nodes@, c.current_deck_id, LimitKind::New) {
        lemma_deck_reached_stays(b1.limits.nodes@, b2.limits.nodes@, c.current_deck_id, LimitKind::New);
    }
    if new_buried(b1.context.seen_note_ids@, c) {
        assert(spec_seen_mode(b1.context.seen_note_ids@, c.note_id) is Some);
    }
}

proof fn lemma_new_pushed(before: Seq<NewCard>, after: Seq<NewCard>, c: NewCard)
    requires
        after == before.push(c),
    ensures
        forall|x: NewCard| before.contains(x) ==> after.contains(x),
        after.contains(c),
{
    assert(after[before.len() as int] == c);
    assert forall|x: NewCard| before.contains(x) implies after.contains(x) by {
        let j = choose|j: int| 0 <= j < before.len() && before[j] == x;
        assert(after[j] == x);
    }
}

/// The new cards at every position of `found` (all the selected new cards)
/// stand in `sorted`, and those are held.
proof fn lemma_sorted_held(before: QueueBuilder, after: QueueBuilder, cards: Seq<Card>, found: Seq<usize>, sorted: Seq<usize>)
    requires
        cards.len() <= usize::MAX,
        forall|i: int|
            0 <= i < cards.len() && selected(before, cards[i], CardQueue::New, None) ==> found.contains(i as usize),
        forall|q: int| 0 <= q < found.len() ==> sorted.contains(#[trigger] found[q]),
        forall|q: int| 0 <= q < sorted.len() ==> new_held(after, spec_new_card_of(cards[#[trigger] sorted[q] as int])),
    ensures
        new_cards_held(before, after, cards),
{
    assert forall|i: int| 0 <= i < cards.len() && #[trigger] selected(before, cards[i], CardQueue::New, None) implies new_held(
        after,
        spec_new_card_of(cards[i]),
    ) by {
        assert(found.contains(i as usize));
        let q = choose|q: int| 0 <= q < found.len() && found[q] == i as usize;
        assert(sorted.contains(found[q]));
        let m = choose|m: int| 0 <= m < sorted.len() && sorted[m] == found[q];
        assert(sorted[m] as int == i);
    }
}

/// Positions taken from selected new cards are selected new cards.
proof fn lemma_found_selected(b: QueueBuilder, cards: Seq<Card>, found: Seq<usize>, taken: Seq<usize>)
    requires
        forall|k: int| 0 <= k < found.len() ==> #[trigger] found[k] < cards.len() && selected(
            b,
            cards[found[k] as int],
            CardQueue::New,
            None,
        ),
        forall|k: int| 0 <= k < taken.len() ==> found.contains(#[trigger] taken[k]),
    ensures
        forall|q: int| 0 <= q < taken.len() ==> #[trigger] taken[q] < cards.len() && selected(
            b,
            cards[taken[q] as int],
            CardQueue::New,
            None,
        ),
{
    assert forall|q: int| 0 <= q < taken.len() implies #[trigger] taken[q] < cards.len() && selected(
        b,
        cards[taken[q] as int],
        CardQueue::New,
        None,
    ) by {
        assert(found.contains(taken[q]));
        let j = choose|j: int| 0 <= j < found.len() && found[j] == taken[q];
        assert(found[j] < cards.len());
    }
}

/// The key of a new card under a sorting.
fn new_card_key(card: &Card, sort: NewCardSorting) -> (key: SortKey)
    ensures
        key_bounded(key),
{
    let template = card.template_idx as i128;
    match sort {
        NewCardSorting::LowestPosition => SortKey { a: card.due as i128, num: 0, den: 1, b: template, c: card.id as i128 },
        NewCardSorting::HighestPosition => SortKey { a: -(card.due as i128), num: 0, den: 1, b: template, c: card.id as i128 },
        NewCardSorting::RandomNotes { salt } => SortKey {
            a: fnv_hash_of_pair(card.note_id, salt as i64) as i128,
            num: 0,
            den: 1,
            b: template,
            c: card.id as i128,
        },
        NewCardSorting::RandomCards { salt } => SortKey {
            a: fnv_hash_of_pair(card.id, salt as i64) as i128,
            num: 0,
            den: 1,
            b: card.id as i128,
            c: 0,
        },
    }
}

/// The positions of the new cards among `found` (positions in `cards`),
/// sorted.
fn sorted_new_cards(cards: &Vec<Card>, found: &Vec<usize>, sort: NewCardSorting) -> (sorted: Vec<usize>)
    requires
        forall|k: int| 0 <= k < found@.len() ==> #[trigger] found@[k] < cards@.len(),
    ensures
        sorted@.len() == found@.len(),
        forall|k: int| 0 <= k < sorted@.len() ==> #[trigger] sorted@[k] < cards@.len(),
        forall|k: int| 0 <= k < sorted@.len() ==> found@.contains(#[trigger] sorted@[k]),
        forall|q: int| 0 <= q < found@.len() ==> sorted@.contains(#[trigger] found@[q]),
{
    let mut keys: Vec<SortKey> = Vec::new();
    let mut i: usize = 0;
    while i < found.len()
        invariant
            i <= found@.len(),
            keys@.len() == i,
            forall|k: int| 0 <= k < found@.len() ==> #[trigger] found@[k] < cards@.len(),
            forall|m: int| 0 <= m < keys@.len() ==> key_bounded(#[trigger] keys@[m]),
        decreases found@.len() - i,
    {
        keys.push(new_card_key(&cards[found[i]], sort));
        i = i + 1;
    }
    permute(found, &keys, Ghost(cards@.len()))
}

/// `items` rearranged in the order of `keys`, ties in their order.
fn permute(items: &Vec<usize>, keys: &Vec<SortKey>, Ghost(bound): Ghost<nat>) -> (sorted: Vec<usize>)
    requires
        keys@.len() == items@.len(),
        forall|m: int| 0 <= m < keys@.len() ==> key_bounded(#[trigger] keys@[m]),
        forall|k: int| 0 <= k < items@.len() ==> #[trigger] items@[k] < bound,
    ensures
        sorted@.len() == items@.len(),
        forall|k: int| 0 <= k < sorted@.len() ==> #[trigger] sorted@[k] < bound,
        forall|k: int| 0 <= k < sorted@.len() ==> items@.contains(#[trigger] sorted@[k]),
        forall|q: int| 0 <= q < items@.len() ==> sorted@.contains(#[trigger] items@[q]),
{
    let ranking = sorted_order(keys);
    let mut sorted: Vec<usize> = Vec::new();
    let mut k: usize = 0;
    while k < ranking.len()
        invariant
            ranking@.len() == items@.len(),
            k <= ranking@.len(),
            sorted@.len() == k,
            forall|m: int| 0 <= m < ranking@.len() ==> #[trigger] ranking@[m] < items@.len(),
            forall|m: int| 0 <= m < items@.len() ==> #[trigger] items@[m] < bound,
            forall|m: int| 0 <= m < sorted@.len() ==> #[trigger] sorted@[m] < bound,
            forall|m: int| 0 <= m < sorted@.len() ==> items@.contains(#[trigger] sorted@[m]),
            forall|m: int| 0 <= m < sorted@.len() ==> #[trigger] sorted@[m] == items@[ranking@[m] as int],
        decreases ranking@.len() - k,
    {
        let ghost before = sorted@;
        sorted.push(items[ranking[k]]);
        proof {
            assert forall|m: int| 0 <= m < sorted@.len() implies items@.contains(#[trigger] sorted@[m]) by {
                if m < before.len() {
                    assert(before[m] == sorted@[m]);
                } else {
                    assert(items@[ranking@[k as int] as int] == sorted@[m]);
                }
            }
        }
        k = k + 1;
    }
    proof {
        lemma_found_covered(items@, ranking@, sorted@);
    }
    sorted
}

impl QueueBuilder {
    /// The new cards of the studied decks, in the preset's gather order,
    /// each taken while the new-card limits allow.
    pub fn gather_new_cards(&mut self, col: &Collection)
        requires
            old(self).inv(),
        ensures
            state_grows(*old(self), *final(self)),
            forall|x: NewCard| old(self).new@.contains(x) ==> final(self).new@.contains(x),
            new_cards_held(*old(self), *final(self), col.cards@),
            within_limits(*old(self), *final(self)),
            final(self).inv(),
            setup_same(*old(self), *final(self)),
            final(self).review == old(self).review,
            final(self).learning == old(self).learning,
            final(self).day_learning == old(self).day_learning,
            final(self).r_sorted_non_new == old(self).r_sorted_non_new,
            final(self).deferred_rwkv_reviews == old(self).deferred_rwkv_reviews,
            new_cards_from(*old(self), final(self).new@, col.cards@),
            gathered_from(*old(self), *final(self), col.cards@),
            left(old(self).limits.nodes@[0], LimitKind::New) == 0 ==> *final(self) == *old(self),
    {
        proof {
            assert forall|k: int| 0 <= k < self.new@.len() implies self.new@.contains(#[trigger] self.new@[k]) by {}
        }
        if self.limits.root_limit_reached(LimitKind::New) {
            proof {
                lemma_gathered_nothing(*self, col.cards@);
                lemma_state_grows_refl(*self);
            }
            return;
        }
        let salt = knuth_salt(self.context.timing.days_elapsed);
        let scored = self.context.rwkv_review_queue_scores.is_some();
        match self.context.sort_options.new_gather_priority {
            NewCardGatherPriority::Deck => self.gather_new_cards_by_deck(col, NewCardSorting::LowestPosition),
            NewCardGatherPriority::DeckThenRandomNotes => self.gather_new_cards_by_deck(
                col,
                NewCardSorting::RandomNotes { salt },
            ),
            NewCardGatherPriority::LowestPosition => self.gather_new_cards_sorted(col, NewCardSorting::LowestPosition),
            NewCardGatherPriority::HighestPosition => self.gather_new_cards_sorted(col, NewCardSorting::HighestPosition),
            NewCardGatherPriority::AscendingRetrievability => if scored {
                self.gather_new_cards_by_retrievability(col, false)
            } else {
                self.gather_new_cards_by_deck(col, NewCardSorting::LowestPosition)
            },
            NewCardGatherPriority::DescendingRetrievability => if scored {
                self.gather_new_cards_by_retrievability(col, true)
            } else {
                self.gather_new_cards_by_deck(col, NewCardSorting::LowestPosition)
            },
            NewCardGatherPriority::RandomNotes => self.gather_new_cards_sorted(col, NewCardSorting::RandomNotes { salt }),
            NewCardGatherPriority::RandomCards => self.gather_new_cards_sorted(col, NewCardSorting::RandomCards { salt }),
        }
        proof {
            lemma_new_cards_gathered(*old(self), *self, col.cards@);
        }
    }

    /// Deck by deck in the order of their names: each deck's new cards,
    /// sorted, while its limit allows.
    fn gather_new_cards_by_deck(&mut self, col: &Collection, sort: NewCardSorting)
        requires
            old(self).inv(),
        ensures
            state_grows(*old(self), *final(self)),
            forall|x: NewCard| old(self).new@.contains(x) ==> final(self).new@.contains(x),
            new_cards_held(*old(self), *final(self), col.cards@),
            within_limits(*old(self), *final(self)),
            final(self).inv(),
            setup_same(*old(self), *final(self)),
            final(self).review == old(self).review,
            final(self).learning == old(self).learning,
            final(self).day_learning == old(self).day_learning,
            final(self).r_sorted_non_new == old(self).r_sorted_non_new,
            final(self).deferred_rwkv_reviews == old(self).deferred_rwkv_reviews,
            new_cards_from(*old(self), final(self).new@, col.cards@),
    {
        let decks = self.context.active_deck_ids.clone();
        proof {
            assert(decks@ =~= self.context.active_deck_ids@);
            assert forall|k: int| 0 <= k < self.new@.len() implies self.new@.contains(#[trigger] self.new@[k]) by {}
            lemma_state_grows_refl(*self);
        }
        let mut d: usize = 0;
        while d < decks.len()
            invariant
                d <= decks@.len(),
                decks@ == old(self).context.active_deck_ids@,
                new_cards_from(*old(self), self.new@, col.cards@),
                self.inv(),
                setup_same(*old(self), *self),
                within_limits(*old(self), *self),
                self.review == old(self).review,
                self.learning == old(self).learning,
                self.day_learning == old(self).day_learning,
                self.r_sorted_non_new == old(self).r_sorted_non_new,
                self.deferred_rwkv_reviews == old(self).deferred_rwkv_reviews,
                state_grows(*old(self), *self),
                forall|x: NewCard| old(self).new@.contains(x) ==> self.new@.contains(x),
                forall|dd: int| 0 <= dd < d ==> deck_cards_held(*self, col.cards@, #[trigger] decks@[dd]),
            ensures
                d == decks@.len() || left(self.limits.nodes@[0], LimitKind::New) == 0,
            decreases decks@.len() - d,
        {
            if self.limits.root_limit_reached(LimitKind::New) {
                break;
            }
            let deck_id = decks[d];
            let ghost deck_start = *self;
            if self.deck_limit_reached(deck_id, LimitKind::New) {
                proof {
                    assert forall|i: int|
                        0 <= i < col.cards@.len() && (#[trigger] col.cards@[i]).deck_id == deck_id && col.cards@[i].queue
                            == CardQueue::New implies new_held(*self, spec_new_card_of(col.cards@[i])) by {}
                }
            } else {
                let found = cards_in_deck(&col.cards, deck_id);
                proof {
                    assert(decks@[d as int] == deck_id);
                    assert(old(self).context.active_deck_ids@.contains(deck_id));
                    assert forall|k: int| 0 <= k < found@.len() implies #[trigger] found@[k] < col.cards@.len() && selected(
                        *old(self),
                        col.cards@[found@[k] as int],
                        CardQueue::New,
                        None,
                    ) by {}
                }
                let sorted = sorted_new_cards(&col.cards, &found, sort);
                proof {
                    lemma_found_selected(*old(self), col.cards@, found@, sorted@);
                }
                let mut k: usize = 0;
                while k < sorted.len()
                    invariant
                        k <= sorted@.len(),
                        decks@ == old(self).context.active_deck_ids@,
                        forall|q: int| 0 <= q < sorted@.len() ==> #[trigger] selected(
                            *old(self),
                            col.cards@[sorted@[q] as int],
                            CardQueue::New,
                            None,
                        ),
                        new_cards_from(*old(self), self.new@, col.cards@),
                        forall|q: int| 0 <= q < sorted@.len() ==> #[trigger] sorted@[q] < col.cards@.len(),
                        self.inv(),
                        setup_same(*old(self), *self),
                        within_limits(*old(self), *self),
                        self.review == old(self).review,
                        self.learning == old(self).learning,
                        self.day_learning == old(self).day_learning,
                        self.r_sorted_non_new == old(self).r_sorted_non_new,
                        self.deferred_rwkv_reviews == old(self).deferred_rwkv_reviews,
                        state_grows(*old(self), *self),
                        forall|x: NewCard| old(self).new@.contains(x) ==> self.new@.contains(x),
                        forall|dd: int| 0 <= dd < d ==> deck_cards_held(*self, col.cards@, #[trigger] decks@[dd]),
                        forall|q: int| 0 <= q < sorted@.len() ==> #[trigger] col.cards@[sorted@[q] as int].deck_id == deck_id,
                        forall|m: int| 0 <= m < k ==> new_held(*self, spec_new_card_of(col.cards@[#[trigger] sorted@[m] as int])),
                    ensures
                        k == sorted@.len() || deck_reached(self.limits.nodes@, deck_id, LimitKind::New),
                    decreases sorted@.len() - k,
                {
                    if self.deck_limit_reached(deck_id, LimitKind::New) {
                        break;
                    }
                    let card = new_card_of(&col.cards[sorted[k]]);
                    let ghost cur = self.new@;
                    let ghost cur_b = *self;
                    proof {
                        assert(selected(*old(self), col.cards@[sorted@[k as int] as int], CardQueue::New, None));
                        assert(col.cards@[sorted@[k as int] as int].deck_id == deck_id);
                    }
                    let added = self.add_new_card(col, card);
                    let ghost mid = *self;
                    proof {
                        if added {
                            lemma_new_pushed(cur, mid.new@, card);
                        } else if new_buried(cur_b.context.seen_note_ids@, card) {
                            assert(spec_seen_mode(cur_b.context.seen_note_ids@, card.note_id) is Some);
                        }
                        assert(new_held(mid, card));
                    }
                    if added {
                        proof {
                            lemma_new_card_taken(*old(self), cur, self.new@, col.cards@, sorted@[k as int] as int);
                        }
                        self.reserve(deck_id, LimitKind::New);
                    }
                    proof {
                        lemma_state_grows_trans(*old(self), cur_b, *self);
                        assert forall|m: int| 0 <= m < k + 1 implies new_held(
                            *self,
                            spec_new_card_of(col.cards@[#[trigger] sorted@[m] as int]),
                        ) by {
                            let c = spec_new_card_of(col.cards@[sorted@[m] as int]);
                            if m < k {
                                lemma_new_held_stays(cur_b, *self, c);
                            } else {
                                lemma_new_held_stays(mid, *self, c);
                            }
                        }
                        assert forall|dd: int| 0 <= dd < d implies deck_cards_held(*self, col.cards@, #[trigger] decks@[dd]) by {
                            lemma_deck_cards_held_stays(cur_b, *self, col.cards@, decks@[dd]);
                        }
                    }
                    k = k + 1;
                }
                proof {
                    assert forall|i: int|
                        0 <= i < col.cards@.len() && (#[trigger] col.cards@[i]).deck_id == deck_id && col.cards@[i].queue
                            == CardQueue::New implies new_held(*self, spec_new_card_of(col.cards@[i])) by {
                        if k == sorted@.len() {
                            assert(col.cards@.len() == col.cards.len());
                            assert(found@.contains(i as usize));
                            let q = choose|q: int| 0 <= q < found@.len() && found@[q] == i as usize;
                            assert(sorted@.contains(found@[q]));
                            let m = choose|m: int| 0 <= m < sorted@.len() && sorted@[m] == found@[q];
                            assert(sorted@[m] as int == i);
                        }
                    }
                }
            }
            proof {
                assert(deck_cards_held(*self, col.cards@, deck_id));
                assert(decks@[d as int] == deck_id);
            }
            d = d + 1;
        }
        proof {
            assert forall|i: int|
                0 <= i < col.cards@.len() && #[trigger] selected(*old(self), col.cards@[i], CardQueue::New, None) implies new_held(
                *self,
                spec_new_card_of(col.cards@[i]),
            ) by {
                if d == decks@.len() {
                    let dd = choose|dd: int| 0 <= dd < decks@.len() && decks@[dd] == col.cards@[i].deck_id;
                    assert(deck_cards_held(*self, col.cards@, decks@[dd]));
                    assert(col.cards@[i].deck_id == decks@[dd]);
                }
            }
        }
    }

    /// The new cards of all the studied decks, sorted, each taken while its
    /// deck's limit allows.
    fn gather_new_cards_sorted(&mut self, col: &Collection, sort: NewCardSorting)
        requires
            old(self).inv(),
        ensures
            state_grows(*old(self), *final(self)),
            forall|x: NewCard| old(self).new@.contains(x) ==> final(self).new@.contains(x),
            new_cards_held(*old(self), *final(self), col.cards@),
            within_limits(*old(self), *final(self)),
            final(self).inv(),
            setup_same(*old(self), *final(self)),
            final(self).review == old(self).review,
            final(self).learning == old(self).learning,
            final(self).day_learning == old(self).day_learning,
            final(self).r_sorted_non_new == old(self).r_sorted_non_new,
            final(self).deferred_rwkv_reviews == old(self).deferred_rwkv_reviews,
            new_cards_from(*old(self), final(self).new@, col.cards@),
    {
        let found = self.select_cards(col, CardQueue::New, None);
        let sorted = sorted_new_cards(&col.cards, &found, sort);
        proof {
            lemma_found_selected(*self, col.cards@, found@, sorted@);
        }
        self.take_new_cards(col, &sorted);
        proof {
            assert(col.cards@.len() == col.cards.len());
            lemma_sorted_held(*old(self), *self, col.cards@, found@, sorted@);
        }
    }

    /// RWKV-Instant's retrievability orders: the new cards by position, then
    /// the scored ones by their retrievability (ascending or descending)
    /// before the unscored ones.
    fn gather_new_cards_by_retrievability(&mut self, col: &Collection, descending: bool)
        requires
            old(self).inv(),
        ensures
            state_grows(*old(self), *final(self)),
            forall|x: NewCard| old(self).new@.contains(x) ==> final(self).new@.contains(x),
            new_cards_held(*old(self), *final(self), col.cards@),
            within_limits(*old(self), *final(self)),
            final(self).inv(),
            setup_same(*old(self), *final(self)),
            final(self).review == old(self).review,
            final(self).learning == old(self).learning,
            final(self).day_learning == old(self).day_learning,
            final(self).r_sorted_non_new == old(self).r_sorted_non_new,
            final(self).deferred_rwkv_reviews == old(self).deferred_rwkv_reviews,
            new_cards_from(*old(self), final(self).new@, col.cards@),
    {
        let found = self.select_cards(col, CardQueue::New, None);
        let by_position = sorted_new_cards(&col.cards, &found, NewCardSorting::LowestPosition);
        let sorted = match &self.context.rwkv_review_queue_scores {
            Some(scores) => {
                let mut keys: Vec<SortKey> = Vec::new();
                let mut i: usize = 0;
                while i < by_position.len()
                    invariant
                        i <= by_position@.len(),
                        keys@.len() == i,
                        forall|q: int| 0 <= q < by_position@.len() ==> #[trigger] by_position@[q] < col.cards@.len(),
                        forall|m: int| 0 <= m < keys@.len() ==> key_bounded(#[trigger] keys@[m]),
                    decreases by_position@.len() - i,
                {
                    let key = match find_score(scores, col.cards[by_position[i]].id) {
                        Some(entry) => {
                            let r = entry.retrievability as i128;
                            SortKey { a: 0, num: if descending { -r } else { r }, den: 1, b: 0, c: 0 }
                        },
                        None => SortKey { a: 1, num: 0, den: 1, b: 0, c: 0 },
                    };
                    keys.push(key);
                    i = i + 1;
                }
                permute(&by_position, &keys, Ghost(col.cards@.len()))
            },
            None => by_position,
        };
        proof {
            lemma_found_selected(*self, col.cards@, found@, by_position@);
            lemma_found_selected(*self, col.cards@, by_position@, sorted@);
            assert forall|q: int| 0 <= q < found@.len() implies sorted@.contains(#[trigger] found@[q]) by {
                assert(by_position@.contains(found@[q]));
                let j = choose|j: int| 0 <= j < by_position@.len() && by_position@[j] == found@[q];
                assert(sorted@.contains(by_position@[j]));
            }
        }
        self.take_new_cards(col, &sorted);
        proof {
            assert(col.cards@.len() == col.cards.len());
            lemma_sorted_held(*old(self), *self, col.cards@, found@, sorted@);
        }
    }

    /// Takes the new cards at `sorted` in order while the limits allow.
    fn take_new_cards(&mut self, col: &Collection, sorted: &Vec<usize>)
        requires
            old(self).inv(),
            forall|q: int| 0 <= q < sorted@.len() ==> #[trigger] sorted@[q] < col.cards@.len(),
            forall|q: int| 0 <= q < sorted@.len() ==> #[trigger] selected(
                *old(self),
                col.cards@[sorted@[q] as int],
                CardQueue::New,
                None,
            ),
        ensures
            state_grows(*old(self), *final(self)),
            forall|x: NewCard| old(self).new@.contains(x) ==> final(self).new@.contains(x),
            forall|q: int| 0 <= q < sorted@.len() ==> new_held(*final(self), spec_new_card_of(col.cards@[#[trigger] sorted@[q] as int])),
            within_limits(*old(self), *final(self)),
            new_cards_from(*old(self), final(self).new@, col.cards@),
            final(self).inv(),
            setup_same(*old(self), *final(self)),
            final(self).review == old(self).review,
            final(self).learning == old(self).learning,
            final(self).day_learning == old(self).day_learning,
            final(self).r_sorted_non_new == old(self).r_sorted_non_new,
            final(self).deferred_rwkv_reviews == old(self).deferred_rwkv_reviews,
    {
        proof {
            lemma_state_grows_refl(*self);
            assert forall|k: int| 0 <= k < self.new@.len() implies self.new@.contains(#[trigger] self.new@[k]) by {}
        }
        let mut k: usize = 0;
        while k < sorted.len()
            invariant
                k <= sorted@.len(),
                forall|q: int| 0 <= q < sorted@.len() ==> #[trigger] sorted@[q] < col.cards@.len(),
                self.inv(),
                setup_same(*old(self), *self),
                within_limits(*old(self), *self),
                self.review == old(self).review,
                self.learning == old(self).learning,
                self.day_learning == old(self).day_learning,
                self.r_sorted_non_new == old(self).r_sorted_non_new,
                self.deferred_rwkv_reviews == old(self).deferred_rwkv_reviews,
                forall|q: int| 0 <= q < sorted@.len() ==> #[trigger] selected(
                    *old(self),
                    col.cards@[sorted@[q] as int],
                    CardQueue::New,
                    None,
                ),
                new_cards_from(*old(self), self.new@, col.cards@),
                state_grows(*old(self), *self),
                forall|x: NewCard| old(self).new@.contains(x) ==> self.new@.contains(x),
                forall|m: int| 0 <= m < k ==> new_held(*self, spec_new_card_of(col.cards@[#[trigger] sorted@[m] as int])),
            ensures
                k == sorted@.len() || left(self.limits.nodes@[0], LimitKind::New) == 0,
            decreases sorted@.len() - k,
        {
            if self.limits.root_limit_reached(LimitKind::New) {
                break;
            }
            let card = new_card_of(&col.cards[sorted[k]]);
            let ghost cur = self.new@;
            let ghost cur_b = *self;
            proof {
                assert(selected(*old(self), col.cards@[sorted@[k as int] as int], CardQueue::New, None));
            }
            let reached = self.deck_limit_reached(card.current_deck_id, LimitKind::New);
            let added = if reached {
                false
            } else {
                self.add_new_card(col, card)
            };
            let ghost mid = *self;
            proof {
                if added {
                    lemma_new_pushed(cur, mid.new@, card);
                } else if !reached {
                    if new_buried(cur_b.context.seen_note_ids@, card) {
                        assert(spec_seen_mode(cur_b.context.seen_note_ids@, card.note_id) is Some);
                    }
                }
                assert(new_held(mid, card));
            }
            if added {
                proof {
                    lemma_new_card_taken(*old(self), cur, self.new@, col.cards@, sorted@[k as int] as int);
                }
                self.reserve(card.current_deck_id, LimitKind::New);
            }
            proof {
                lemma_state_grows_trans(*old(self), cur_b, *self);
                assert forall|m: int| 0 <= m < k + 1 implies new_held(
                    *self,
                    spec_new_card_of(col.cards@[#[trigger] sorted@[m] as int]),
                ) by {
                    let c = spec_new_card_of(col.cards@[sorted@[m] as int]);
                    if m < k {
                        lemma_new_held_stays(cur_b, *self, c);
                    } else {
                        lemma_new_held_stays(mid, *self, c);
                    }
                }
            }
            k = k + 1;
        }
        proof {
            if k < sorted@.len() {
                assert forall|q: int| 0 <= q < sorted@.len() implies new_held(
                    *self,
                    spec_new_card_of(col.cards@[#[trigger] sorted@[q] as int]),
                ) by {}
            }
        }
    }
}

/// The positions, among the first `n` cards, of the new cards in a deck,
/// in collection order.
pub open spec fn deck_new_positions(cards: Seq<Card>, deck_id: i64, n: nat) -> Seq<usize>
    decreases n,
{
    if n == 0 {
        Seq::empty()
    } else {
        let rest = deck_new_positions(cards, deck_id, (n - 1) as nat);
        if cards[n - 1].deck_id == deck_id && cards[n - 1].queue == CardQueue::New {
            rest.push((n - 1) as usize)
        } else {
            rest
        }
    }
}

/// The positions of the new cards in a deck.
fn cards_in_deck(cards: &Vec<Card>, deck_id: i64) -> (found: Vec<usize>)
    ensures
        forall|k: int| 0 <= k < found@.len() ==> #[trigger] found@[k] < cards@.len()
            && cards@[found@[k] as int].deck_id == deck_id && cards@[found@[k] as int].queue
            == CardQueue::New,
        found@ == deck_new_positions(cards@, deck_id, cards@.len()),
        forall|i: int|
            0 <= i < cards@.len() && (#[trigger] cards@[i]).deck_id == deck_id && cards@[i].queue == CardQueue::New
                ==> found@.contains(i as usize),
{
    let mut found: Vec<usize> = Vec::new();
    let mut i: usize = 0;
    while i < cards.len()
        invariant
            i <= cards@.len(),
            forall|k: int| 0 <= k < found@.len() ==> #[trigger] found@[k] < i
                && cards@[found@[k] as int].deck_id == deck_id && cards@[found@[k] as int].queue
                == CardQueue::New,
            found@ == deck_new_positions(cards@, deck_id, i as nat),
            forall|m: int|
                0 <= m < i && (#[trigger] cards@[m]).deck_id == deck_id && cards@[m].queue == CardQueue::New
                    ==> found@.contains(m as usize),
        decreases cards@.len() - i,
    {
        if cards[i].deck_id == deck_id && cards[i].queue == CardQueue::New {
            let ghost before = found@;
            found.push(i);
            proof {
                assert(found@[before.len() as int] == i);
                assert forall|m: int|
                    0 <= m <= i && (#[trigger] cards@[m]).deck_id == deck_id && cards@[m].queue == CardQueue::New
                        implies found@.contains(m as usize) by {
                    if m < i {
                        let w = choose|w: int| 0 <= w < before.len() && before[w] == m as usize;
                        assert(found@[w] == m as usize);
                    }
                }
            }
        }
        i = i + 1;
    }
    found
}

} // verus!
