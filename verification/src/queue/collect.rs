use vstd::prelude::*;

use crate::queue::gathering::limits_spent_on;
use crate::queue::gathering::limits_spent_on_reviews;
use crate::queue::gathering::lemma_spent_nothing;
use crate::queue::gathering::lemma_spent_step;
use crate::queue::gathering::lemma_spent_reordered;
use crate::queue::gathering::within_limits;
use crate::queue::gathering::due_buried;
use crate::queue::gathering::root_left_not_up;
use crate::queue::gathering::state_grows;
use crate::queue::gathering::lemma_state_grows_refl;
use crate::queue::gathering::lemma_state_grows_trans;
use crate::queue::builder::spec_seen_mode;
use crate::queue::limits::reviews_reserved;
use crate::queue::limits::lemma_reviews_reserved_push;
use crate::queue::limits::deck_reached;
use crate::queue::limits::lemma_deck_reached_stays;
use crate::sort::lemma_order_covers;

use crate::card::Card;
use crate::card::CardQueue;
use crate::queue::builder::bury_mode_of_card;
use crate::queue::builder::fnv_hash_of_pair;
use crate::queue::builder::fnvhash_due_card;
use crate::queue::builder::preset_retention_of_card;
use crate::queue::builder::spec_preset_retention;
use crate::queue::builder::total_order_key;
use crate::queue::builder::DueCard;
use crate::queue::builder::DueCardKind;
use crate::queue::builder::QueueBuilder;
use crate::queue::builder::INFINITY_BITS;
use crate::queue::gathering::copy_scores;
use crate::queue::gathering::first_entry_of;
use crate::queue::gathering::has_score;
use crate::queue::gathering::is_active_review_card;
use crate::queue::gathering::due_list_from;
use crate::queue::gathering::gathered_from;
use crate::queue::gathering::of_studied_decks;
use crate::queue::gathering::lemma_gathered_nothing;
use crate::queue::gathering::lemma_gathered_scored_reviews;
use crate::queue::gathering::lemma_reviews_from_reordered;
use crate::queue::gathering::lemma_reviews_from_self;
use crate::queue::gathering::lemma_take_keeps_reviews_from;
use crate::queue::gathering::reviews_from;
use crate::queue::gathering::review_order_key;
use crate::queue::gathering::setup_same;
use crate::queue::gathering::review_taken;
use crate::queue::gathering::reviews_admitted;
use crate::queue::gathering::score_admits;
use crate::queue::gathering::lemma_admitted_self;
use crate::queue::gathering::lemma_admitted_reordered;
use crate::queue::gathering::lemma_take_keeps_admitted;
use crate::queue::gathering::timing_ok_days;
use crate::queue::limits::left;
use crate::queue::limits::LimitKind;
use crate::queue::model::find_key;
use crate::queue::model::find_score;
use crate::queue::model::first_score;
use crate::queue::model::ReviewCardOrder;
use crate::queue::model::RwkvReviewQueueScoreEntry;
use crate::collection::Collection;
use crate::queue::rwkv::rwkv_review_candidate_metadata;
use crate::queue::rwkv::spec_candidate_metadata;
use crate::queue::rwkv::spec_eligibility;
use crate::queue::rwkv::rwkv_review_score_eligibility;
use crate::queue::rwkv::rwkv_review_score_eligibility_ignoring_retention;
use crate::queue::rwkv::RwkvDeferral;
use crate::queue::rwkv::RwkvReviewScoreEligibility;
use crate::sort::is_sorted_order;
use crate::queue::builder::spec_total_order_key;
use crate::rwkv_inputs::lookup::first_value;
use crate::queue::builder::fnv_hash_pair;
use crate::queue::gathering::spec_review_order_key;
use crate::sort::ranked_before;
use crate::sort::key_lt;
use crate::sort::key_bounded;
use crate::sort::sorted_order;
use crate::sort::SortKey;

verus! {

/// A card of `queue` in one of the studied decks, due by `max_due` where
/// one is given.
pub open spec fn selected(b: QueueBuilder, card: Card, queue: CardQueue, max_due: Option<i64>) -> bool {
    &&& card.queue == queue
    &&& b.context.active_deck_ids@.contains(card.deck_id)
    &&& match max_due {
        Some(m) => card.due <= m,
        None => true,
    }
}

/// A card the gathering of due cards of a kind may add: a card of the
/// kind's queue in one of the studied decks, due by today, other than the
/// pinned card.
pub open spec fn due_candidate(b: QueueBuilder, cards: Seq<Card>, kind: DueCardKind, c: DueCard) -> bool {
    &&& exists|i: int|
        0 <= i < cards.len() && #[trigger] selected(
            b,
            cards[i],
            queue_of_kind(kind),
            Some(b.context.timing.days_elapsed as i64),
        ) && c == DueCard::spec_from_card(cards[i], kind)
    &&& b.pinned_card_id != Some(c.id)
}

/// Every card of `after` was in `earlier`, or is a due card of the kind the
/// gathering may add.
pub open spec fn due_cards_from(b: QueueBuilder, earlier: Seq<DueCard>, after: Seq<DueCard>, cards: Seq<Card>, kind: DueCardKind) -> bool {
    forall|k: int| 0 <= k < after.len() ==> earlier.contains(#[trigger] after[k]) || due_candidate(b, cards, kind, after[k])
}

/// The `i`th card of the collection gives `c` to the retrievability sort:
/// as an intraday learning or preview card due before the next day and due
/// by now, or as an interday learning or review card due today.
pub open spec fn ranked_from(b: QueueBuilder, cards: Seq<Card>, i: int, c: DueCard) -> bool {
    let cutoff = (b.context.timing.next_day_at - 1) as i64;
    let today = b.context.timing.days_elapsed as i64;
    ||| (selected(b, cards[i], CardQueue::Learn, Some(cutoff)) || selected(b, cards[i], CardQueue::PreviewRepeat, Some(cutoff)))
        && c == DueCard::spec_from_card(cards[i], DueCardKind::Learning) && c.due <= b.context.timing.now
    ||| selected(b, cards[i], CardQueue::DayLearn, Some(today)) && c == DueCard::spec_from_card(cards[i], DueCardKind::Learning)
    ||| selected(b, cards[i], CardQueue::Review, Some(today)) && c == DueCard::spec_from_card(cards[i], DueCardKind::Review)
}

/// A card one of the cards of the studied decks gives the retrievability
/// sort.
pub open spec fn ranked_source(b: QueueBuilder, cards: Seq<Card>, c: DueCard) -> bool {
    exists|i: int| 0 <= i < cards.len() && #[trigger] ranked_from(b, cards, i, c)
}

/// A card the retrievability sort may rank with the others: one a card of
/// the studied decks gives it, other than the pinned card.
pub open spec fn ranked_candidate(b: QueueBuilder, cards: Seq<Card>, c: DueCard) -> bool {
    &&& b.pinned_card_id != Some(c.id)
    &&& ranked_source(b, cards, c)
}

/// `c` is the card of kind `kind` made of one of the cards at `found`.
pub open spec fn made_from_found(cards: Seq<Card>, found: Seq<usize>, kind: DueCardKind, c: DueCard) -> bool {
    exists|k: int| 0 <= k < found.len() && c == DueCard::spec_from_card(cards[#[trigger] found[k] as int], kind)
}

/// Due cards of a kind that the gathering may add are cards of the studied
/// decks.
pub proof fn lemma_due_cards_gathered(b: QueueBuilder, earlier: Seq<DueCard>, after: Seq<DueCard>, cards: Seq<Card>, kind: DueCardKind)
    requires
        due_cards_from(b, earlier, after, cards, kind),
    ensures
        due_list_from(b, earlier, after, cards),
{
    assert forall|k: int| 0 <= k < after.len() implies earlier.contains(#[trigger] after[k]) || of_studied_decks(
        b,
        cards,
        after[k].id,
    ) by {
        if !earlier.contains(after[k]) {
            let i = choose|i: int|
                0 <= i < cards.len() && #[trigger] selected(
                    b,
                    cards[i],
                    queue_of_kind(kind),
                    Some(b.context.timing.days_elapsed as i64),
                ) && after[k] == DueCard::spec_from_card(cards[i], kind);
            assert(cards[i].id == after[k].id);
        }
    }
}

/// Cards ranked by the retrievability sort are cards of the studied decks.
pub proof fn lemma_ranked_gathered(b: QueueBuilder, earlier: Seq<DueCard>, after: Seq<DueCard>, cards: Seq<Card>)
    requires
        forall|q: int| 0 <= q < after.len() ==> earlier.contains(#[trigger] after[q]) || ranked_candidate(b, cards, after[q]),
    ensures
        due_list_from(b, earlier, after, cards),
{
    assert forall|k: int| 0 <= k < after.len() implies earlier.contains(#[trigger] after[k]) || of_studied_decks(
        b,
        cards,
        after[k].id,
    ) by {
        if !earlier.contains(after[k]) {
            let i = choose|i: int| 0 <= i < cards.len() && #[trigger] ranked_from(b, cards, i, after[k]);
            assert(cards[i].id == after[k].id);
        }
    }
}

/// The intraday learning cards added from positions of the studied decks'
/// cards are cards of the studied decks.
pub proof fn lemma_learning_added_gathered(b: QueueBuilder, pinned: Option<i64>, cards: Seq<Card>, found: Seq<usize>, only_not_due: bool, now: i64)
    requires
        forall|k: int| 0 <= k < found.len() ==> #[trigger] found[k] < cards.len() && b.context.active_deck_ids@.contains(
            cards[found[k] as int].deck_id,
        ),
    ensures
        forall|k: int|
            0 <= k < learning_added(pinned, cards, found, only_not_due, now).len() ==> of_studied_decks(
                b,
                cards,
                (#[trigger] learning_added(pinned, cards, found, only_not_due, now)[k]).id,
            ),
    decreases found.len(),
{
    if found.len() > 0 {
        let rest = found.drop_last();
        assert forall|k: int| 0 <= k < rest.len() implies #[trigger] rest[k] < cards.len()
            && b.context.active_deck_ids@.contains(cards[rest[k] as int].deck_id) by {
            assert(rest[k] == found[k]);
        }
        lemma_learning_added_gathered(b, pinned, cards, rest, only_not_due, now);
        let last = found.last();
        assert(found[found.len() - 1] == last);
        assert(cards[last as int].id == DueCard::spec_from_card(cards[last as int], DueCardKind::Learning).id);
    }
}

/// A list with cards of the studied decks added at its end.
pub proof fn lemma_appended_gathered(b: QueueBuilder, earlier: Seq<DueCard>, added: Seq<DueCard>, cards: Seq<Card>)
    requires
        forall|k: int| 0 <= k < added.len() ==> of_studied_decks(b, cards, (#[trigger] added[k]).id),
    ensures
        due_list_from(b, earlier, earlier + added, cards),
{
    assert forall|k: int| 0 <= k < (earlier + added).len() implies earlier.contains(#[trigger] (earlier + added)[k])
        || of_studied_decks(b, cards, (earlier + added)[k].id) by {
        if k < earlier.len() {
            assert((earlier + added)[k] == earlier[k]);
        } else {
            assert((earlier + added)[k] == added[k - earlier.len()]);
        }
    }
}

/// The positions among the first `n` cards of the cards `selected` picks,
/// in collection order.
pub open spec fn selected_positions(b: QueueBuilder, cards: Seq<Card>, queue: CardQueue, max_due: Option<i64>, n: nat) -> Seq<usize>
    decreases n,
{
    if n == 0 {
        Seq::empty()
    } else {
        let rest = selected_positions(b, cards, queue, max_due, (n - 1) as nat);
        if selected(b, cards[n - 1], queue, max_due) {
            rest.push((n - 1) as usize)
        } else {
            rest
        }
    }
}

/// The intraday learning cards that the cards at `found` add to the
/// learning queue, in order: all but the pinned card, or, for the
/// retrievability sort, only those not due by `now`.
pub open spec fn learning_added(pinned: Option<i64>, cards: Seq<Card>, found: Seq<usize>, only_not_due: bool, now: i64) -> Seq<DueCard>
    decreases found.len(),
{
    if found.len() == 0 {
        Seq::empty()
    } else {
        let rest = learning_added(pinned, cards, found.drop_last(), only_not_due, now);
        let card = DueCard::spec_from_card(cards[found.last() as int], DueCardKind::Learning);
        if pinned == Some(card.id) || (only_not_due && card.due <= now) {
            rest
        } else {
            rest.push(card)
        }
    }
}

impl QueueBuilder {
    /// The positions in `cards` of the cards of `queue` in the studied
    /// decks (due by `max_due` where one is given), in collection order.
    pub fn select_cards(&self, col: &Collection, queue: CardQueue, max_due: Option<i64>) -> (found: Vec<usize>)
        ensures
            forall|k: int| 0 <= k < found@.len() ==> #[trigger] found@[k] < col.cards@.len()
                && selected(*self, col.cards@[found@[k] as int], queue, max_due),
            forall|i: int|
                0 <= i < col.cards@.len() && selected(*self, col.cards@[i], queue, max_due) ==> found@.contains(
                    i as usize,
                ),
            forall|j: int, k: int| 0 <= j < k < found@.len() ==> found@[j] < found@[k],
            found@ == selected_positions(*self, col.cards@, queue, max_due, col.cards@.len()),
    {
        let mut found: Vec<usize> = Vec::new();
        let mut i: usize = 0;
        while i < col.cards.len()
            invariant
                i <= col.cards@.len(),
                forall|k: int| 0 <= k < found@.len() ==> #[trigger] found@[k] < i
                    && selected(*self, col.cards@[found@[k] as int], queue, max_due),
                forall|m: int|
                    0 <= m < i && selected(*self, col.cards@[m], queue, max_due) ==> found@.contains(
                        m as usize,
                    ),
                forall|j: int, k: int| 0 <= j < k < found@.len() ==> found@[j] < found@[k],
                found@ == selected_positions(*self, col.cards@, queue, max_due, i as nat),
            decreases col.cards@.len() - i,
        {
            let card = &col.cards[i];
            let due_ok = match max_due {
                Some(m) => card.due as i64 <= m,
                None => true,
            };
            if card.queue == queue && due_ok && self.deck_is_active(card.deck_id) {
                let ghost before = found@;
                found.push(i);
                proof {
                    assert forall|m: int|
                        0 <= m <= i && selected(*self, col.cards@[m], queue, max_due) implies found@.contains(
                        m as usize,
                    ) by {
                        if m < i {
                            let w = choose|w: int| 0 <= w < before.len() && before[w] == m as usize;
                            assert(found@[w] == m as usize);
                        } else {
                            assert(found@[before.len() as int] == m as usize);
                        }
                    }
                }
            }
            i = i + 1;
        }
        found
    }

    /// The positions of `found` sorted by the preset's review order.
    fn in_review_order(&self, col: &Collection, found: &Vec<usize>) -> (sorted: Vec<usize>)
        requires
            forall|k: int| 0 <= k < found@.len() ==> #[trigger] found@[k] < col.cards@.len(),
        ensures
            sorted@.len() == found@.len(),
            forall|k: int| 0 <= k < sorted@.len() ==> #[trigger] sorted@[k] < col.cards@.len(),
            forall|k: int| 0 <= k < sorted@.len() ==> found@.contains(#[trigger] sorted@[k]),
            forall|q: int| 0 <= q < found@.len() ==> sorted@.contains(#[trigger] found@[q]),
            forall|j: int, k: int|
                0 <= j < k < sorted@.len() ==> !key_lt(
                    configured_key(*self, *col, col.cards@[#[trigger] sorted@[k] as int]),
                    configured_key(*self, *col, col.cards@[#[trigger] sorted@[j] as int]),
                ),
    {
        let order = self.context.sort_options.review_order;
        let days = self.context.timing.days_elapsed;
        // the random order draws anew for each build
        let salt = col.random_salt as i64;
        let mut keys: Vec<SortKey> = Vec::new();
        let mut i: usize = 0;
        while i < found.len()
            invariant
                i <= found@.len(),
                keys@.len() == i,
                forall|k: int| 0 <= k < found@.len() ==> #[trigger] found@[k] < col.cards@.len(),
                forall|m: int| 0 <= m < keys@.len() ==> key_bounded(#[trigger] keys@[m]),
                order == self.context.sort_options.review_order,
                days == self.context.timing.days_elapsed,
                salt == col.random_salt as i64,
                forall|m: int| 0 <= m < keys@.len() ==> #[trigger] keys@[m] == configured_key(*self, *col, col.cards@[found@[m] as int]),
            decreases found@.len() - i,
        {
            let card = &col.cards[found[i]];
            let due_card = DueCard::from_card(card, DueCardKind::Review);
            let hash = fnvhash_due_card(&due_card);
            let salted = fnv_hash_of_pair(card.id, salt);
            keys.push(review_order_key(card, order, days, hash, salted));
            i = i + 1;
        }
        let ranking = sorted_order(&keys);
        let mut sorted: Vec<usize> = Vec::new();
        let mut k: usize = 0;
        while k < ranking.len()
            invariant
                ranking@.len() == found@.len(),
                k <= ranking@.len(),
                sorted@.len() == k,
                forall|m: int| 0 <= m < ranking@.len() ==> #[trigger] ranking@[m] < found@.len(),
                forall|m: int| 0 <= m < found@.len() ==> #[trigger] found@[m] < col.cards@.len(),
                forall|m: int| 0 <= m < sorted@.len() ==> #[trigger] sorted@[m] < col.cards@.len(),
                forall|m: int| 0 <= m < sorted@.len() ==> found@.contains(#[trigger] sorted@[m]),
                forall|m: int| 0 <= m < sorted@.len() ==> #[trigger] sorted@[m] == found@[ranking@[m] as int],
                is_sorted_order(keys@, ranking@),
                keys@.len() == found@.len(),
                forall|m: int| 0 <= m < keys@.len() ==> #[trigger] keys@[m] == configured_key(*self, *col, col.cards@[found@[m] as int]),
            decreases ranking@.len() - k,
        {
            let p = ranking[k];
            let ghost before = sorted@;
            sorted.push(found[p]);
            proof {
                assert forall|m: int| 0 <= m < sorted@.len() implies found@.contains(#[trigger] sorted@[m]) by {
                    if m < before.len() {
                        assert(before[m] == sorted@[m]);
                    } else {
                        assert(found@[p as int] == sorted@[m]);
                    }
                }
            }
            k = k + 1;
        }
        proof {
            lemma_found_covered(found@, ranking@, sorted@);
            assert forall|j: int, k: int| 0 <= j < k < sorted@.len() implies !key_lt(
                configured_key(*self, *col, col.cards@[#[trigger] sorted@[k] as int]),
                configured_key(*self, *col, col.cards@[#[trigger] sorted@[j] as int]),
            ) by {
                assert(ranked_before(keys@, ranking@[j] as int, ranking@[k] as int));
                assert(keys@[ranking@[j] as int] == configured_key(*self, *col, col.cards@[sorted@[j] as int]));
                assert(keys@[ranking@[k] as int] == configured_key(*self, *col, col.cards@[sorted@[k] as int]));
            }
        }
        sorted
    }
}

/// An active review card with an id of its own stands in the cards sorted
/// from the selection at the first position that holds its id.
proof fn lemma_position_of_active(b: QueueBuilder, col: Collection, found: Seq<usize>, cards: Seq<usize>, i: int) -> (f: int)
    requires
        0 <= i < col.cards@.len(),
        col.cards@.len() <= usize::MAX,
        unique_card_id(col.cards@, i),
        is_active_review_card(b, col.cards@[i]),
        forall|q: int| 0 <= q < col.cards@.len() && selected(b, col.cards@[q], CardQueue::Review, None) ==> found.contains(
            q as usize,
        ),
        forall|q: int| 0 <= q < found.len() ==> cards.contains(#[trigger] found[q]),
        forall|m: int| 0 <= m < cards.len() ==> #[trigger] cards[m] < col.cards@.len(),
    ensures
        0 <= f < cards.len(),
        cards[f] as int == i,
        index_of_id(ids_at(col.cards@, cards), col.cards@[i].id) == Some(f),
{
    let ids = ids_at(col.cards@, cards);
    let id = col.cards@[i].id;
    assert(selected(b, col.cards@[i], CardQueue::Review, None));
    assert(found.contains(i as usize));
    let q = choose|q: int| 0 <= q < found.len() && found[q] == i as usize;
    assert(cards.contains(found[q]));
    let m = choose|m: int| 0 <= m < cards.len() && cards[m] == found[q];
    assert(cards[m] as int == i);
    assert(ids[m] == col.cards@[cards[m] as int].id);
    assert(ids[m] == id);
    assert(exists|x: int| 0 <= x < ids.len() && ids[x] == id);
    let f = lemma_first_of(ids, id);
    assert(col.cards@[cards[f] as int].id == id);
    assert(cards[f] as int == i);
    lemma_index_of_id(ids, id, f);
    f
}

/// The first position of an id that stands somewhere.
proof fn lemma_first_of(ids: Seq<i64>, id: i64) -> (f: int)
    requires
        exists|x: int| 0 <= x < ids.len() && ids[x] == id,
    ensures
        first_index_of(ids, id, f),
    decreases ids.len(),
{
    if ids.last() == id && !(exists|x: int| 0 <= x < ids.len() - 1 && ids[x] == id) {
        (ids.len() - 1) as int
    } else {
        let rest = ids.drop_last();
        if !(exists|x: int| 0 <= x < rest.len() && rest[x] == id) {
            assert forall|x: int| 0 <= x < ids.len() - 1 implies ids[x] != id by {
                assert(rest[x] == ids[x]);
            }
            assert(false);
        }
        let f = lemma_first_of(rest, id);
        assert forall|m: int| 0 <= m < f implies #[trigger] ids[m] != id by {
            assert(rest[m] == ids[m]);
        }
        assert(ids[f] == rest[f]);
        f
    }
}

/// A review card's key under its preset's review order, as the builder
/// sorts it: ties by the hash of its id and modification time, the random
/// order by the hash of its id with the collection's salt.
pub open spec fn configured_key(b: QueueBuilder, col: Collection, card: Card) -> SortKey {
    spec_review_order_key(
        card,
        b.context.sort_options.review_order,
        b.context.timing.days_elapsed,
        fnv_hash_pair(card.id, card.mtime),
        fnv_hash_pair(card.id, col.random_salt as i64),
    )
}

/// No other card of the collection has this card's id.
pub open spec fn unique_card_id(cards: Seq<Card>, i: int) -> bool {
    forall|q: int| 0 <= q < cards.len() && #[trigger] cards[q].id == cards[i].id ==> q == i
}

impl QueueBuilder {
    /// Whether RWKV-Instant may show the card at `index` with this score,
    /// under the studied deck's repeat guards and the card's retention.
    fn scored_eligibility(&self, col: &Collection, index: usize, entry: RwkvReviewQueueScoreEntry, ignore_retention: bool) -> (eligibility: RwkvReviewScoreEligibility)
        requires
            self.inv(),
            index < col.cards@.len(),
        ensures
            eligibility == spec_scored_eligibility(*self, *col, col.cards@[index as int], entry, ignore_retention),
    {
        let timing = self.context.timing;
        let retention = preset_retention_of_card(col, &col.cards[index]);
        let meta = rwkv_review_candidate_metadata(&col.cards[index], timing, retention);
        let options = self.context.sort_options;
        if ignore_retention {
            rwkv_review_score_eligibility_ignoring_retention(
                entry.retrievability,
                &meta,
                options.rwkv_review_allow_same_day_review,
                options.rwkv_review_min_intervening_reviews,
                options.rwkv_review_min_elapsed_secs,
                entry.intervening_reviews,
                timing.now,
            )
        } else {
            rwkv_review_score_eligibility(
                entry.retrievability,
                &meta,
                options.rwkv_review_allow_same_day_review,
                options.rwkv_review_min_intervening_reviews,
                options.rwkv_review_min_elapsed_secs,
                entry.intervening_reviews,
                entry.target_retention,
                timing.now,
            )
        }
    }

    /// RWKV-Instant with any other review order: the review cards of the
    /// studied decks (due or not) in the preset's order, each taken while
    /// the limits allow when its score makes it eligible; an unscored card
    /// waits for its score. Scored cards the repeat guards hold back are
    /// recorded as deferred. The daily minimum of RWKV reviews may then pull,
    /// lowest retrievability first, cards that only the retention held back.
    /// The reviews keep the preset's order.
    pub fn gather_review_cards_by_configured_order(&mut self, col: &Collection)
        requires
            old(self).inv(),
        ensures
            within_limits(*old(self), *final(self)),
            final(self).inv(),
            setup_same(*old(self), *final(self)),
            final(self).new == old(self).new,
            final(self).learning == old(self).learning,
            final(self).r_sorted_non_new == old(self).r_sorted_non_new,
            reviews_from(*old(self), final(self).review@, col.cards@),
            final(self).day_learning == old(self).day_learning,
            gathered_from(*old(self), *final(self), col.cards@),
            left(old(self).limits.nodes@[0], LimitKind::Review) == 0 || old(self).context.rwkv_review_queue_scores is None
                ==> *final(self) == *old(self),
            forall|i: int|
                0 <= i < col.cards@.len() && #[trigger] is_active_review_card(*old(self), col.cards@[i])
                    && eligible_by_score(*old(self), *col, col.cards@[i]) ==> due_held(
                    *final(self),
                    DueCardKind::Review,
                    DueCard::spec_from_card(col.cards@[i], DueCardKind::Review),
                ),
            reviews_admitted(*old(self), final(self).review@, *col),
            limits_spent_on_reviews(*old(self), *final(self)),
            left(old(self).limits.nodes@[0], LimitKind::Review) != 0 && old(self).context.rwkv_review_queue_scores is Some
                ==> forall|j: int, k: int, i1: int, i2: int|
                #![trigger final(self).review@[j], final(self).review@[k], col.cards@[i1], col.cards@[i2]]
                0 <= j < k < final(self).review@.len() && 0 <= i1 < col.cards@.len() && 0 <= i2 < col.cards@.len()
                    && unique_card_id(col.cards@, i1) && unique_card_id(col.cards@, i2)
                    && is_active_review_card(*old(self), col.cards@[i1]) && is_active_review_card(*old(self), col.cards@[i2])
                    && final(self).review@[j].id == col.cards@[i1].id && final(self).review@[k].id == col.cards@[i2].id
                    ==> !key_lt(configured_key(*old(self), *col, col.cards@[i2]), configured_key(*old(self), *col, col.cards@[i1])),
    {
        proof {
            lemma_reviews_from_self(*self, col.cards@);
            lemma_gathered_nothing(*self, col.cards@);
            lemma_admitted_self(*self, *col);
            lemma_spent_nothing(*self);
        }
        if self.limits.root_limit_reached(LimitKind::Review) {
            return;
        }
        let scores = match &self.context.rwkv_review_queue_scores {
            Some(scores) => copy_scores(scores),
            None => {
                return;
            },
        };
        let found = self.select_cards(col, CardQueue::Review, None);
        let cards = self.in_review_order(col, &found);
        proof {
            assert forall|m: int| 0 <= m < cards@.len() implies #[trigger] is_active_review_card(
                *old(self),
                col.cards@[cards@[m] as int],
            ) by {
                assert(found@.contains(cards@[m]));
                let j = choose|j: int| 0 <= j < found@.len() && found@[j] == cards@[m];
                assert(found@[j] < col.cards@.len());
            }
        }
        // each candidate's score and eligibility
        let mut eligibility: Vec<Option<(RwkvReviewQueueScoreEntry, RwkvReviewScoreEligibility)>> = Vec::new();
        let mut i: usize = 0;
        while i < cards.len()
            invariant
                self.inv(),
                *self == *old(self),
                old(self).context.rwkv_review_queue_scores matches Some(sc) && sc@ == scores@,
                i <= cards@.len(),
                eligibility@.len() == i,
                forall|m: int| 0 <= m < cards@.len() ==> #[trigger] cards@[m] < col.cards@.len(),
                forall|m: int|
                    0 <= m < eligibility@.len() ==> (#[trigger] eligibility@[m] is Some ==> has_score(
                        scores@,
                        col.cards@[cards@[m] as int].id,
                    )),
                forall|m: int|
                    0 <= m < eligibility@.len() ==> #[trigger] eligibility@[m] == score_eligibility(
                        *old(self),
                        *col,
                        scores@,
                        col.cards@[cards@[m] as int],
                    ),
            decreases cards@.len() - i,
        {
            let index = cards[i];
            let value = match find_score(&scores, col.cards[index].id) {
                Some(entry) => Some((entry, self.scored_eligibility(col, index, entry, false))),
                None => None,
            };
            proof {
                if value is Some {
                    let pair = value->0;
                    let w = choose|w: int|
                        0 <= w < scores@.len() && scores@[w].0 == col.cards@[index as int].id && scores@[w].1 == pair.0
                            && forall|j: int| 0 <= j < w ==> #[trigger] scores@[j].0 != col.cards@[index as int].id;
                    assert(scores@[w].0 == col.cards@[index as int].id);
                }
            }
            eligibility.push(value);
            i = i + 1;
        }
        // the deferred cards, in the order of their scores
        let mut s: usize = 0;
        while s < scores.len()
            invariant
                s <= scores@.len(),
                setup_same(*old(self), *self),
                within_limits(*old(self), *self),
                self.inv(),
                self.new == old(self).new,
                self.learning == old(self).learning,
                self.r_sorted_non_new == old(self).r_sorted_non_new,
                self.day_learning == old(self).day_learning,
                forall|m: int| 0 <= m < cards@.len() ==> #[trigger] cards@[m] < col.cards@.len(),
                eligibility@.len() == cards@.len(),
                reviews_from(*old(self), self.review@, col.cards@),
                reviews_admitted(*old(self), self.review@, *col),
                self.review == old(self).review,
                self.limits == old(self).limits,
            decreases scores@.len() - s,
        {
            let card_id = scores[s].0;
            let mut m: usize = 0;
            while m < cards.len()
                invariant
                    m <= cards@.len(),
                    s < scores@.len(),
                    setup_same(*old(self), *self),
                    within_limits(*old(self), *self),
                    self.inv(),
                    self.new == old(self).new,
                    self.learning == old(self).learning,
                    self.r_sorted_non_new == old(self).r_sorted_non_new,
                self.day_learning == old(self).day_learning,
                    forall|q: int| 0 <= q < cards@.len() ==> #[trigger] cards@[q] < col.cards@.len(),
                    eligibility@.len() == cards@.len(),
                    reviews_from(*old(self), self.review@, col.cards@),
                    reviews_admitted(*old(self), self.review@, *col),
                    self.review == old(self).review,
                    self.limits == old(self).limits,
                decreases cards@.len() - m,
            {
                if col.cards[cards[m]].id == card_id {
                    if let Some((_, RwkvReviewScoreEligibility::Deferred { reason })) = eligibility[m] {
                        if first_entry_of(&scores, s) {
                            self.deferred_rwkv_reviews.push((card_id, reason));
                        }
                    }
                    break;
                }
                m = m + 1;
            }
            s = s + 1;
        }
        // the eligible cards in the preset's order
        let ghost mut taken: Seq<DueCard> = Seq::empty();
        proof {
            lemma_spent_nothing(*self);
        }
        let mut k: usize = 0;
        while k < cards.len()
            invariant
                k <= cards@.len(),
                setup_same(*old(self), *self),
                within_limits(*old(self), *self),
                self.inv(),
                self.new == old(self).new,
                self.learning == old(self).learning,
                self.r_sorted_non_new == old(self).r_sorted_non_new,
                self.day_learning == old(self).day_learning,
                forall|q: int| 0 <= q < cards@.len() ==> #[trigger] cards@[q] < col.cards@.len(),
                eligibility@.len() == cards@.len(),
                reviews_from(*old(self), self.review@, col.cards@),
                forall|m: int|
                    0 <= m < eligibility@.len() ==> (#[trigger] eligibility@[m] is Some ==> has_score(
                        scores@,
                        col.cards@[cards@[m] as int].id,
                    )),
                forall|m: int| 0 <= m < cards@.len() ==> #[trigger] is_active_review_card(
                    *old(self),
                    col.cards@[cards@[m] as int],
                ),
                old(self).context.rwkv_review_queue_scores matches Some(sc) && sc@ == scores@,
                reviews_admitted(*old(self), self.review@, *col),
                limits_spent_on(*old(self), *self, taken),
                forall|m: int|
                    0 <= m < eligibility@.len() ==> #[trigger] eligibility@[m] == score_eligibility(
                        *old(self),
                        *col,
                        scores@,
                        col.cards@[cards@[m] as int],
                    ),
                forall|m: int|
                    0 <= m < k && scored_eligible(#[trigger] eligibility@[m]) ==> due_held(
                        *self,
                        DueCardKind::Review,
                        DueCard::spec_from_card(col.cards@[cards@[m] as int], DueCardKind::Review),
                    ),
            ensures
                k == cards@.len() || left(self.limits.nodes@[0], LimitKind::Review) == 0,
            decreases cards@.len() - k,
        {
            if self.limits.root_limit_reached(LimitKind::Review) {
                break;
            }
            if let Some((_, RwkvReviewScoreEligibility::Eligible)) = eligibility[k] {
                let ghost cur = *self;
                self.take_review(col, cards[k]);
                proof {
                    taken = lemma_spent_step(
                        *old(self),
                        cur,
                        *self,
                        taken,
                        DueCard::spec_from_card(col.cards@[cards@[k as int] as int], DueCardKind::Review),
                    );
                    assert(eligibility@[k as int] is Some);
                    assert(is_active_review_card(*old(self), col.cards@[cards@[k as int] as int]));
                    lemma_take_keeps_reviews_from(*old(self), cur, *self, col.cards@, cards@[k as int] as int);
                    assert(eligibility@[k as int] == score_eligibility(*old(self), *col, scores@, col.cards@[cards@[k as int] as int]));
                    assert(score_admits(*old(self), *col, col.cards@[cards@[k as int] as int]));
                    lemma_take_keeps_admitted(*old(self), cur.review@, self.review@, *col, cards@[k as int] as int);
                    let c = DueCard::spec_from_card(col.cards@[cards@[k as int] as int], DueCardKind::Review);
                    lemma_taken_held(cur, *self, c);
                    lemma_scored_held_stay(cur, *self, col.cards@, cards@, eligibility@, k as int);
                }
            }
            k = k + 1;
        }
        proof {
            assert forall|m: int|
                0 <= m < cards@.len() && scored_eligible(#[trigger] eligibility@[m]) implies due_held(
                *self,
                DueCardKind::Review,
                DueCard::spec_from_card(col.cards@[cards@[m] as int], DueCardKind::Review),
            ) by {}
        }
        // the daily minimum, lowest retrievability first
        if self.limits.any_rwkv_review_minimum_remaining() {
            let mut pull_keys: Vec<SortKey> = Vec::new();
            let mut p: usize = 0;
            while p < cards.len()
                invariant
                    p <= cards@.len(),
                    pull_keys@.len() == p,
                    eligibility@.len() == cards@.len(),
                    forall|q: int| 0 <= q < cards@.len() ==> #[trigger] cards@[q] < col.cards@.len(),
                    forall|q: int| 0 <= q < pull_keys@.len() ==> key_bounded(#[trigger] pull_keys@[q]),
                decreases cards@.len() - p,
            {
                let key = match eligibility[p] {
                    Some((entry, _)) => SortKey {
                        a: 0,
                        num: entry.retrievability as i128,
                        den: 1,
                        b: col.cards[cards[p]].id as i128,
                        c: 0,
                    },
                    None => SortKey { a: 1, num: 0, den: 1, b: 0, c: 0 },
                };
                pull_keys.push(key);
                p = p + 1;
            }
            let pull = sorted_order(&pull_keys);
            let mut q: usize = 0;
            while q < pull.len()
                invariant
                    q <= pull@.len(),
                    pull@.len() == cards@.len(),
                    setup_same(*old(self), *self),
                    within_limits(*old(self), *self),
                    self.inv(),
                    self.new == old(self).new,
                    self.learning == old(self).learning,
                    self.r_sorted_non_new == old(self).r_sorted_non_new,
                self.day_learning == old(self).day_learning,
                    forall|m: int| 0 <= m < pull@.len() ==> #[trigger] pull@[m] < cards@.len(),
                    forall|m: int| 0 <= m < cards@.len() ==> #[trigger] cards@[m] < col.cards@.len(),
                    eligibility@.len() == cards@.len(),
                    reviews_from(*old(self), self.review@, col.cards@),
                    forall|m: int|
                        0 <= m < eligibility@.len() ==> (#[trigger] eligibility@[m] is Some ==> has_score(
                            scores@,
                            col.cards@[cards@[m] as int].id,
                        )),
                    forall|m: int| 0 <= m < cards@.len() ==> #[trigger] is_active_review_card(
                        *old(self),
                        col.cards@[cards@[m] as int],
                    ),
                    old(self).context.rwkv_review_queue_scores matches Some(sc) && sc@ == scores@,
                    reviews_admitted(*old(self), self.review@, *col),
                    limits_spent_on(*old(self), *self, taken),
                    forall|m: int|
                        0 <= m < eligibility@.len() ==> #[trigger] eligibility@[m] == score_eligibility(
                            *old(self),
                            *col,
                            scores@,
                            col.cards@[cards@[m] as int],
                        ),
                    forall|m: int|
                        0 <= m < cards@.len() && scored_eligible(#[trigger] eligibility@[m]) ==> due_held(
                            *self,
                            DueCardKind::Review,
                            DueCard::spec_from_card(col.cards@[cards@[m] as int], DueCardKind::Review),
                        ),
                decreases pull@.len() - q,
            {
                if !self.limits.any_rwkv_review_minimum_remaining() || self.limits.root_limit_reached(
                    LimitKind::Review,
                ) {
                    break;
                }
                let position = pull[q];
                let index = cards[position];
                if let Some((entry, RwkvReviewScoreEligibility::Blocked)) = eligibility[position] {
                    let wants = match self.limits.index_of(col.cards[index].deck_id) {
                        Some(d) => self.limits.rwkv_review_minimum_remaining(d),
                        None => false,
                    };
                    if wants {
                        match self.scored_eligibility(col, index, entry, true) {
                            RwkvReviewScoreEligibility::Eligible => {
                                let ghost cur = *self;
                                self.take_review(col, index);
                                proof {
                                    taken = lemma_spent_step(
                                        *old(self),
                                        cur,
                                        *self,
                                        taken,
                                        DueCard::spec_from_card(col.cards@[index as int], DueCardKind::Review),
                                    );
                                    assert(eligibility@[position as int] is Some);
                                    assert(is_active_review_card(*old(self), col.cards@[cards@[position as int] as int]));
                                    lemma_take_keeps_reviews_from(*old(self), cur, *self, col.cards@, index as int);
                                    assert(eligibility@[position as int] == score_eligibility(*old(self), *col, scores@, col.cards@[index as int]));
                                    assert(score_admits(*old(self), *col, col.cards@[index as int]));
                                    lemma_take_keeps_admitted(*old(self), cur.review@, self.review@, *col, index as int);
                                    lemma_taken_held(
                                        cur,
                                        *self,
                                        DueCard::spec_from_card(col.cards@[index as int], DueCardKind::Review),
                                    );
                                    lemma_scored_held_stay(cur, *self, col.cards@, cards@, eligibility@, cards@.len() as int);
                                }
                            },
                            RwkvReviewScoreEligibility::Deferred { reason } => {
                                self.deferred_rwkv_reviews.push((col.cards[index].id, reason));
                            },
                            RwkvReviewScoreEligibility::Blocked => {},
                        }
                    }
                }
                q = q + 1;
            }
        }
        let ghost sorted_from = self.review@;
        let ghost before_sort = *self;
        self.sort_reviews_by_position(col, &cards);
        proof {
            lemma_spent_reordered(*old(self), before_sort, *self);
            lemma_reviews_from_reordered(*old(self), sorted_from, self.review@, col.cards@);
            lemma_admitted_reordered(*old(self), sorted_from, self.review@, *col);
            lemma_gathered_scored_reviews(*old(self), *self, col.cards@);
            let ids = ids_at(col.cards@, cards@);
            let ks = Seq::new(sorted_from.len(), |i: int| position_key(ids, sorted_from[i].id));
            let ord = choose|ord: Seq<usize>| is_sorted_order(ks, ord) && #[trigger] reordered(sorted_from, ord) == self.review@;
            assert forall|j: int, k: int, i1: int, i2: int|
                #![trigger self.review@[j], self.review@[k], col.cards@[i1], col.cards@[i2]]
                0 <= j < k < self.review@.len() && 0 <= i1 < col.cards@.len() && 0 <= i2 < col.cards@.len()
                    && unique_card_id(col.cards@, i1) && unique_card_id(col.cards@, i2)
                    && is_active_review_card(*old(self), col.cards@[i1]) && is_active_review_card(*old(self), col.cards@[i2])
                    && self.review@[j].id == col.cards@[i1].id && self.review@[k].id == col.cards@[i2].id
                    implies !key_lt(configured_key(*old(self), *col, col.cards@[i2]), configured_key(*old(self), *col, col.cards@[i1])) by {
                assert(col.cards@.len() == col.cards.len());
                let f1 = lemma_position_of_active(*old(self), *col, found@, cards@, i1);
                let f2 = lemma_position_of_active(*old(self), *col, found@, cards@, i2);
                assert(self.review@[j] == sorted_from[ord[j] as int]);
                assert(self.review@[k] == sorted_from[ord[k] as int]);
                assert(ranked_before(ks, ord[j] as int, ord[k] as int));
                assert(ks[ord[j] as int] == position_key(ids, col.cards@[i1].id));
                assert(ks[ord[k] as int] == position_key(ids, col.cards@[i2].id));
                if f1 < f2 {
                    assert(!key_lt(
                        configured_key(*old(self), *col, col.cards@[cards@[f2] as int]),
                        configured_key(*old(self), *col, col.cards@[cards@[f1] as int]),
                    ));
                }
            }
            lemma_state_grows_refl(before_sort);
            lemma_scored_held_stay(before_sort, *self, col.cards@, cards@, eligibility@, cards@.len() as int);
            assert forall|i: int|
                0 <= i < col.cards@.len() && #[trigger] is_active_review_card(*old(self), col.cards@[i])
                    && eligible_by_score(*old(self), *col, col.cards@[i]) implies due_held(
                *self,
                DueCardKind::Review,
                DueCard::spec_from_card(col.cards@[i], DueCardKind::Review),
            ) by {
                assert(col.cards@.len() == col.cards.len());
                assert(selected(*old(self), col.cards@[i], CardQueue::Review, None));
                assert(found@.contains(i as usize));
                let q = choose|q: int| 0 <= q < found@.len() && found@[q] == i as usize;
                assert(cards@.contains(found@[q]));
                let m = choose|m: int| 0 <= m < cards@.len() && cards@[m] == found@[q];
                assert(cards@[m] as int == i);
                assert(eligibility@[m] == score_eligibility(*old(self), *col, scores@, col.cards@[i]));
            }
        }
    }

    /// Sorts the reviews by where their cards stand in `cards`; others go
    /// last, in the order they had.
    fn sort_reviews_by_position(&mut self, col: &Collection, cards: &Vec<usize>)
        requires
            old(self).inv(),
            forall|m: int| 0 <= m < cards@.len() ==> #[trigger] cards@[m] < col.cards@.len(),
        ensures
            forall|x: DueCard| old(self).review@.contains(x) ==> final(self).review@.contains(x),
            within_limits(*old(self), *final(self)),
            final(self).inv(),
            setup_same(*old(self), *final(self)),
            final(self).limits == old(self).limits,
            final(self).new == old(self).new,
            final(self).learning == old(self).learning,
            final(self).day_learning == old(self).day_learning,
            final(self).r_sorted_non_new == old(self).r_sorted_non_new,
            final(self).deferred_rwkv_reviews == old(self).deferred_rwkv_reviews,
            final(self).context == old(self).context,
            final(self).review@.len() == old(self).review@.len(),
            forall|k: int| 0 <= k < final(self).review@.len() ==> old(self).review@.contains(
                #[trigger] final(self).review@[k],
            ),
            exists|order: Seq<usize>|
                is_sorted_order(
                    Seq::new(
                        old(self).review@.len(),
                        |i: int| position_key(ids_at(col.cards@, cards@), old(self).review@[i].id),
                    ),
                    order,
                ) && #[trigger] reordered(old(self).review@, order) == final(self).review@,
    {
        let mut keys: Vec<SortKey> = Vec::new();
        let mut i: usize = 0;
        while i < self.review.len()
            invariant
                i <= self.review@.len(),
                keys@.len() == i,
                forall|m: int| 0 <= m < cards@.len() ==> #[trigger] cards@[m] < col.cards@.len(),
                forall|m: int| 0 <= m < keys@.len() ==> key_bounded(#[trigger] keys@[m]),
                forall|m: int| 0 <= m < keys@.len() ==> #[trigger] keys@[m] == position_key(ids_at(col.cards@, cards@), self.review@[m].id),
            decreases self.review@.len() - i,
        {
            let id = self.review[i].id;
            let mut position: Option<usize> = None;
            let mut j: usize = 0;
            while j < cards.len()
                invariant_except_break
                    position is None,
                invariant
                    j <= cards@.len(),
                    forall|m: int| 0 <= m < cards@.len() ==> #[trigger] cards@[m] < col.cards@.len(),
                    forall|m: int| 0 <= m < j ==> #[trigger] ids_at(col.cards@, cards@)[m] != id,
                ensures
                    position is None ==> forall|m: int| 0 <= m < cards@.len() ==> #[trigger] ids_at(col.cards@, cards@)[m] != id,
                    position matches Some(p) ==> first_index_of(ids_at(col.cards@, cards@), id, p as int),
                decreases cards@.len() - j,
            {
                if col.cards[cards[j]].id == id {
                    assert(ids_at(col.cards@, cards@)[j as int] == id);
                    position = Some(j);
                    break;
                }
                assert(ids_at(col.cards@, cards@)[j as int] != id);
                j = j + 1;
            }
            proof {
                match position {
                    Some(p) => lemma_index_of_id(ids_at(col.cards@, cards@), id, p as int),
                    None => lemma_index_of_id_none(ids_at(col.cards@, cards@), id),
                }
            }
            let key = match position {
                Some(j) => SortKey { a: 0, num: 0, den: 1, b: j as i128, c: 0 },
                None => SortKey { a: 1, num: 0, den: 1, b: 0, c: 0 },
            };
            keys.push(key);
            i = i + 1;
        }
        proof {
            assert(keys@ =~= Seq::new(
                self.review@.len(),
                |i: int| position_key(ids_at(col.cards@, cards@), self.review@[i].id),
            ));
        }
        self.reorder_reviews(&keys);
    }

    /// Reorders the reviews by `keys`, one for each, ties in their order.
    pub fn reorder_reviews(&mut self, keys: &Vec<SortKey>)
        requires
            keys@.len() == old(self).review@.len(),
            forall|m: int| 0 <= m < keys@.len() ==> key_bounded(#[trigger] keys@[m]),
        ensures
            final(self).context == old(self).context,
            final(self).limits == old(self).limits,
            final(self).pinned_card_id == old(self).pinned_card_id,
            final(self).new == old(self).new,
            final(self).learning == old(self).learning,
            final(self).day_learning == old(self).day_learning,
            final(self).r_sorted_non_new == old(self).r_sorted_non_new,
            final(self).deferred_rwkv_reviews == old(self).deferred_rwkv_reviews,
            final(self).review@.len() == old(self).review@.len(),
            forall|k: int| 0 <= k < final(self).review@.len() ==> old(self).review@.contains(
                #[trigger] final(self).review@[k],
            ),
            exists|order: Seq<usize>|
                is_sorted_order(keys@, order) && #[trigger] reordered(old(self).review@, order) == final(self).review@,
            forall|x: DueCard| old(self).review@.contains(x) ==> final(self).review@.contains(x),
    {
        let order = sorted_order(keys);
        let mut sorted: Vec<DueCard> = Vec::new();
        let mut k: usize = 0;
        while k < order.len()
            invariant
                order@.len() == self.review@.len(),
                k <= order@.len(),
                sorted@.len() == k,
                self.review == old(self).review,
                forall|m: int| 0 <= m < order@.len() ==> #[trigger] order@[m] < self.review@.len(),
                forall|m: int| 0 <= m < sorted@.len() ==> self.review@.contains(#[trigger] sorted@[m]),
                forall|m: int| 0 <= m < sorted@.len() ==> #[trigger] sorted@[m] == self.review@[order@[m] as int],
            decreases order@.len() - k,
        {
            let ghost before = sorted@;
            sorted.push(self.review[order[k]]);
            proof {
                assert forall|m: int| 0 <= m < sorted@.len() implies self.review@.contains(#[trigger] sorted@[m]) by {
                    if m < before.len() {
                        assert(before[m] == sorted@[m]);
                    } else {
                        assert(self.review@[order@[k as int] as int] == sorted@[m]);
                    }
                }
            }
            k = k + 1;
        }
        proof {
            assert(reordered(old(self).review@, order@) =~= sorted@);
            lemma_order_covers(order@);
            assert forall|x: DueCard| old(self).review@.contains(x) implies sorted@.contains(x) by {
                let j = choose|j: int| 0 <= j < old(self).review@.len() && old(self).review@[j] == x;
                assert(order@.contains(j as usize));
                let m = choose|m: int| 0 <= m < order@.len() && order@[m] == j as usize;
                assert(sorted@[m] == x);
            }
        }
        self.review = sorted;
    }

}

/// The card's score (its first entry in `scores`) and whether that score
/// makes it eligible, if it has one.
pub open spec fn score_eligibility(
    b: QueueBuilder,
    col: Collection,
    scores: Seq<(i64, RwkvReviewQueueScoreEntry)>,
    card: Card,
) -> Option<(RwkvReviewQueueScoreEntry, RwkvReviewScoreEligibility)> {
    match first_score(scores, card.id) {
        Some(e) => Some((e, spec_scored_eligibility(b, col, card, e, false))),
        None => None,
    }
}

/// A scored card that its score makes eligible.
pub open spec fn scored_eligible(x: Option<(RwkvReviewQueueScoreEntry, RwkvReviewScoreEligibility)>) -> bool {
    match x {
        Some((_, RwkvReviewScoreEligibility::Eligible)) => true,
        _ => false,
    }
}

/// The builder has scores, and the card's score makes it eligible.
pub open spec fn eligible_by_score(b: QueueBuilder, col: Collection, card: Card) -> bool {
    match b.context.rwkv_review_queue_scores {
        Some(scores) => scored_eligible(score_eligibility(b, col, scores@, card)),
        None => false,
    }
}

/// Whether RWKV-Instant may show the card with this score now, under the
/// studied deck's repeat guards and (unless `ignore_retention`) the
/// retention its score or its home preset holds it to.
pub open spec fn spec_scored_eligibility(
    b: QueueBuilder,
    col: Collection,
    card: Card,
    entry: RwkvReviewQueueScoreEntry,
    ignore_retention: bool,
) -> RwkvReviewScoreEligibility {
    let options = b.context.sort_options;
    spec_eligibility(
        entry.retrievability,
        spec_candidate_metadata(card, b.context.timing, spec_preset_retention(col.decks@, col.configs@, card)),
        options.rwkv_review_allow_same_day_review,
        options.rwkv_review_min_intervening_reviews,
        options.rwkv_review_min_elapsed_secs,
        entry.intervening_reviews,
        if ignore_retention {
            None
        } else {
            entry.target_retention
        },
        ignore_retention,
        b.context.timing.now,
    )
}

/// The intraday learning cards at `found` that are due by `now` and not
/// pinned, as the retrievability sort ranks them.
pub open spec fn due_intraday_ranked(pinned: Option<i64>, now: i64, cards: Seq<Card>, found: Seq<usize>) -> Seq<RankedDueCard>
    decreases found.len(),
{
    if found.len() == 0 {
        Seq::empty()
    } else {
        let rest = due_intraday_ranked(pinned, now, cards, found.drop_last());
        let card = DueCard::spec_from_card(cards[found.last() as int], DueCardKind::Learning);
        if pinned != Some(card.id) && card.due <= now {
            rest.push(RankedDueCard { card, counts_towards_review_limit: false, interday_or_review: false })
        } else {
            rest
        }
    }
}

/// The interday cards at `found`, as the retrievability sort ranks them.
pub open spec fn interday_ranked(cards: Seq<Card>, found: Seq<usize>, kind: DueCardKind) -> Seq<RankedDueCard> {
    Seq::new(
        found.len(),
        |k: int|
            RankedDueCard {
                card: DueCard::spec_from_card(cards[found[k] as int], kind),
                counts_towards_review_limit: true,
                interday_or_review: true,
            },
    )
}

/// Every position of `found` stands in `sorted`, which takes them in the
/// order `ranking` gives.
pub proof fn lemma_found_covered(found: Seq<usize>, ranking: Seq<usize>, sorted: Seq<usize>)
    requires
        found.len() <= usize::MAX,
        ranking.len() == found.len(),
        sorted.len() == ranking.len(),
        forall|m: int| 0 <= m < ranking.len() ==> #[trigger] ranking[m] < found.len(),
        forall|j: int, k: int| 0 <= j < k < ranking.len() ==> ranking[j] != ranking[k],
        forall|m: int| 0 <= m < sorted.len() ==> #[trigger] sorted[m] == found[ranking[m] as int],
    ensures
        forall|q: int| 0 <= q < found.len() ==> sorted.contains(#[trigger] found[q]),
{
    lemma_order_covers(ranking);
    assert forall|q: int| 0 <= q < found.len() implies sorted.contains(#[trigger] found[q]) by {
        assert(ranking.contains(q as usize));
        let m = choose|m: int| 0 <= m < ranking.len() && ranking[m] == q as usize;
        assert(ranking[m] as int == q);
        assert(sorted[m] == found[q]);
    }
}

/// A due card of a kind is held: it is in its list, or the root has no
/// reviews left, or its deck's limits have none, or it is the pinned card,
/// or a sibling seen earlier buries it.
pub open spec fn due_held(b: QueueBuilder, kind: DueCardKind, c: DueCard) -> bool {
    ||| (kind == DueCardKind::Review && b.review@.contains(c))
    ||| (kind == DueCardKind::Learning && b.day_learning@.contains(c))
    ||| left(b.limits.nodes@[0], LimitKind::Review) == 0
    ||| deck_reached(b.limits.nodes@, c.current_deck_id, LimitKind::Review)
    ||| b.pinned_card_id == Some(c.id)
    ||| due_buried(b.context.seen_note_ids@, c, true)
}

/// A due intraday learning card's key in the retrievability sort.
pub open spec fn due_time_spec_key(card: DueCard) -> SortKey {
    SortKey { a: -0x10_0000_0000i128, num: 0, den: 1, b: card.due as i128, c: card.id as i128 }
}

/// A candidate's key in FSRS's retrievability sort: a due intraday
/// learning card by due time, the others by the model's key.
pub open spec fn ranked_key(col: Collection, rc: RankedDueCard, descending: bool) -> SortKey {
    if rc.interday_or_review {
        model_key(col.exact_order_keys@, rc.card, descending)
    } else {
        due_time_spec_key(rc.card)
    }
}

/// The candidate is made of one of the cards of the studied decks, and is
/// an interday one exactly where that card is not in intraday learning.
pub open spec fn ranked_entry(b: QueueBuilder, cards: Seq<Card>, rc: RankedDueCard) -> bool {
    let cutoff = (b.context.timing.next_day_at - 1) as i64;
    exists|i: int|
        0 <= i < cards.len() && #[trigger] ranked_from(b, cards, i, rc.card) && (rc.interday_or_review <==> !(selected(
            b,
            cards[i],
            CardQueue::Learn,
            Some(cutoff),
        ) || selected(b, cards[i], CardQueue::PreviewRepeat, Some(cutoff))))
}

/// The decks of the interday learning and review cards among `rc`, in
/// order: those that count against the review limits.
pub open spec fn interday_decks(rc: Seq<RankedDueCard>) -> Seq<i64>
    decreases rc.len(),
{
    if rc.len() == 0 {
        Seq::empty()
    } else {
        let rest = interday_decks(rc.drop_last());
        if rc.last().interday_or_review {
            rest.push(rc.last().card.current_deck_id)
        } else {
            rest
        }
    }
}

/// The cards the retrievability sort appended to the ranked list, as
/// candidates: each made of a card of the studied decks, in the order of
/// their keys.
pub open spec fn ranked_appended(before: QueueBuilder, after: QueueBuilder, col: Collection, rc: Seq<RankedDueCard>) -> bool {
    let descending = before.context.sort_options.review_order == ReviewCardOrder::RetrievabilityDescending;
    let base = before.r_sorted_non_new@.len();
    &&& rc.len() + base == after.r_sorted_non_new@.len()
    &&& forall|t: int| 0 <= t < rc.len() ==> (#[trigger] rc[t]).card == after.r_sorted_non_new@[base + t]
    &&& forall|t: int| 0 <= t < rc.len() ==> ranked_entry(before, col.cards@, #[trigger] rc[t])
    &&& forall|t1: int, t2: int|
        0 <= t1 < t2 < rc.len() ==> !key_lt(ranked_key(col, #[trigger] rc[t2], descending), ranked_key(col, #[trigger] rc[t1], descending))
    &&& after.limits.nodes@ == reviews_reserved(before.limits.nodes@, interday_decks(rc))
}

/// An interday learning or review card the retrievability sort holds: in
/// its ranked list, or the root has no reviews left, or its deck's limits
/// have none, or it is the pinned card, or a sibling seen earlier buries it.
pub open spec fn ranked_held(b: QueueBuilder, c: DueCard) -> bool {
    ||| b.r_sorted_non_new@.contains(c)
    ||| left(b.limits.nodes@[0], LimitKind::Review) == 0
    ||| deck_reached(b.limits.nodes@, c.current_deck_id, LimitKind::Review)
    ||| b.pinned_card_id == Some(c.id)
    ||| due_buried(b.context.seen_note_ids@, c, true)
}

/// What holds a ranked card back stays so as the gathering goes on.
pub proof fn lemma_ranked_held_stays(b1: QueueBuilder, b2: QueueBuilder, c: DueCard)
    requires
        ranked_held(b1, c),
        state_grows(b1, b2),
        root_left_not_up(b1, b2),
        b1.pinned_card_id == b2.pinned_card_id,
        forall|x: DueCard| b1.r_sorted_non_new@.contains(x) ==> b2.r_sorted_non_new@.contains(x),
    ensures
        ranked_held(b2, c),
{
    if deck_reached(b1.limits.nodes@, c.current_deck_id, LimitKind::Review) {
        lemma_deck_reached_stays(b1.limits.nodes@, b2.limits.nodes@, c.current_deck_id, LimitKind::Review);
    }
    if due_buried(b1.context.seen_note_ids@, c, true) {
        assert(spec_seen_mode(b1.context.seen_note_ids@, c.note_id) is Some);
    }
}

/// What holds a due card back stays so as the gathering goes on.
pub proof fn lemma_due_held_stays(b1: QueueBuilder, b2: QueueBuilder, kind: DueCardKind, c: DueCard)
    requires
        due_held(b1, kind, c),
        state_grows(b1, b2),
        root_left_not_up(b1, b2),
        b1.pinned_card_id == b2.pinned_card_id,
        forall|x: DueCard| b1.review@.contains(x) ==> b2.review@.contains(x),
        forall|x: DueCard| b1.day_learning@.contains(x) ==> b2.day_learning@.contains(x),
    ensures
        due_held(b2, kind, c),
{
    if deck_reached(b1.limits.nodes@, c.current_deck_id, LimitKind::Review) {
        lemma_deck_reached_stays(b1.limits.nodes@, b2.limits.nodes@, c.current_deck_id, LimitKind::Review);
    }
    if due_buried(b1.context.seen_note_ids@, c, true) {
        assert(spec_seen_mode(b1.context.seen_note_ids@, c.note_id) is Some);
    }
}

/// A list that only grew holds what it held.
pub proof fn lemma_pushed_contains(before: Seq<DueCard>, after: Seq<DueCard>, c: DueCard)
    requires
        after == before.push(c),
    ensures
        forall|x: DueCard| before.contains(x) ==> after.contains(x),
        after.contains(c),
{
    assert(after[before.len() as int] == c);
    assert forall|x: DueCard| before.contains(x) implies after.contains(x) by {
        let j = choose|j: int| 0 <= j < before.len() && before[j] == x;
        assert(after[j] == x);
    }
}

/// A review `take_review` was asked for is held once it returns, and the
/// reviews held before stay.
pub(crate) proof fn lemma_taken_held(cur: QueueBuilder, next: QueueBuilder, c: DueCard)
    requires
        next.review@ == if review_taken(cur, c) {
            cur.review@.push(c)
        } else {
            cur.review@
        },
        state_grows(cur, next),
        root_left_not_up(cur, next),
        cur.pinned_card_id == next.pinned_card_id,
        cur.day_learning == next.day_learning,
    ensures
        due_held(next, DueCardKind::Review, c),
        forall|x: DueCard| cur.review@.contains(x) ==> next.review@.contains(x),
{
    if review_taken(cur, c) {
        lemma_pushed_contains(cur.review@, next.review@, c);
    } else {
        if due_buried(cur.context.seen_note_ids@, c, true) {
            assert(spec_seen_mode(cur.context.seen_note_ids@, c.note_id) is Some);
        }
        assert(due_held(cur, DueCardKind::Review, c));
        lemma_due_held_stays(cur, next, DueCardKind::Review, c);
    }
}

/// The scored cards at the first `upto` positions that were held stay held.
proof fn lemma_scored_held_stay(
    cur: QueueBuilder,
    next: QueueBuilder,
    cards: Seq<Card>,
    positions: Seq<usize>,
    eligibility: Seq<Option<(RwkvReviewQueueScoreEntry, RwkvReviewScoreEligibility)>>,
    upto: int,
)
    requires
        forall|m: int|
            0 <= m < upto && scored_eligible(#[trigger] eligibility[m]) ==> due_held(
                cur,
                DueCardKind::Review,
                DueCard::spec_from_card(cards[positions[m] as int], DueCardKind::Review),
            ),
        state_grows(cur, next),
        root_left_not_up(cur, next),
        cur.pinned_card_id == next.pinned_card_id,
        forall|x: DueCard| cur.review@.contains(x) ==> next.review@.contains(x),
        cur.day_learning == next.day_learning,
    ensures
        forall|m: int|
            0 <= m < upto && scored_eligible(#[trigger] eligibility[m]) ==> due_held(
                next,
                DueCardKind::Review,
                DueCard::spec_from_card(cards[positions[m] as int], DueCardKind::Review),
            ),
{
    assert forall|m: int| 0 <= m < upto && scored_eligible(#[trigger] eligibility[m]) implies due_held(
        next,
        DueCardKind::Review,
        DueCard::spec_from_card(cards[positions[m] as int], DueCardKind::Review),
    ) by {
        lemma_due_held_stays(cur, next, DueCardKind::Review, DueCard::spec_from_card(cards[positions[m] as int], DueCardKind::Review));
    }
}

/// The cards in the order `order` gives their positions.
pub open spec fn reordered(cards: Seq<DueCard>, order: Seq<usize>) -> Seq<DueCard> {
    Seq::new(order.len(), |k: int| cards[order[k] as int])
}

/// `j` is the first position whose id is `id`.
pub open spec fn first_index_of(ids: Seq<i64>, id: i64, j: int) -> bool {
    0 <= j < ids.len() && ids[j] == id && forall|m: int| 0 <= m < j ==> #[trigger] ids[m] != id
}

/// The first position whose id is `id`, if any.
pub open spec fn index_of_id(ids: Seq<i64>, id: i64) -> Option<int> {
    if exists|j: int| #[trigger] first_index_of(ids, id, j) {
        Some(choose|j: int| #[trigger] first_index_of(ids, id, j))
    } else {
        None
    }
}

pub proof fn lemma_index_of_id(ids: Seq<i64>, id: i64, j: int)
    requires
        first_index_of(ids, id, j),
    ensures
        index_of_id(ids, id) == Some(j),
{
    let c = choose|c: int| #[trigger] first_index_of(ids, id, c);
    assert(first_index_of(ids, id, c));
    if c < j {
        assert(ids[c] != id);
    } else if c > j {
        assert(ids[j] != id);
    }
}

pub proof fn lemma_index_of_id_none(ids: Seq<i64>, id: i64)
    requires
        forall|j: int| 0 <= j < ids.len() ==> ids[j] != id,
    ensures
        index_of_id(ids, id) is None,
{
    assert forall|j: int| !#[trigger] first_index_of(ids, id, j) by {
        if 0 <= j < ids.len() {
            assert(ids[j] != id);
        }
    }
}

/// The ids of the cards at `cards`.
pub open spec fn ids_at(col_cards: Seq<Card>, cards: Seq<usize>) -> Seq<i64> {
    Seq::new(cards.len(), |j: int| col_cards[cards[j] as int].id)
}

/// A review's key for the sort by position: where its card first stands in
/// `cards`; one that stands nowhere goes last.
pub open spec fn position_key(ids: Seq<i64>, id: i64) -> SortKey {
    match index_of_id(ids, id) {
        Some(j) => SortKey { a: 0, num: 0, den: 1, b: j as i128, c: 0 },
        None => SortKey { a: 1, num: 0, den: 1, b: 0, c: 0 },
    }
}

/// The queue a due card of a kind comes from.
pub open spec fn queue_of_kind(kind: DueCardKind) -> CardQueue {
    match kind {
        DueCardKind::Review => CardQueue::Review,
        DueCardKind::Learning => CardQueue::DayLearn,
    }
}

fn queue_for(kind: DueCardKind) -> (queue: CardQueue)
    ensures
        queue == queue_of_kind(kind),
{
    match kind {
        DueCardKind::Review => CardQueue::Review,
        DueCardKind::Learning => CardQueue::DayLearn,
    }
}

/// The key of a card under a model's retrievability order: the order of
/// the single-precision number its bits give (positive infinity where the
/// card has none), negated when descending, then the tie-break hash and the
/// id.
/// A card's key in a model's order: its key in `keys` (infinity where it
/// has none) in the total order of single-precision numbers, reversed for
/// the descending order; ties by the hash of its id and modification time,
/// then its id.
pub open spec fn model_key(keys: Seq<(i64, u32)>, card: DueCard, descending: bool) -> SortKey {
    let bits = match first_value(keys, card.id) {
        Some(b) => b,
        None => INFINITY_BITS,
    };
    let order = spec_total_order_key(bits) as int;
    SortKey {
        a: (if descending { -order } else { order }) as i128,
        num: 0,
        den: 1,
        b: fnv_hash_pair(card.id, card.mtime) as i128,
        c: card.id as i128,
    }
}

fn model_order_key(keys: &Vec<(i64, u32)>, card: &DueCard, descending: bool) -> (key: SortKey)
    ensures
        key_bounded(key),
        key == model_key(keys@, *card, descending),
{
    let bits = match find_key(keys, card.id) {
        Some(b) => b,
        None => INFINITY_BITS,
    };
    let order = total_order_key(bits) as i128;
    let a = if descending {
        -order
    } else {
        order
    };
    SortKey { a, num: 0, den: 1, b: fnvhash_due_card(card) as i128, c: card.id as i128 }
}

/// A due intraday learning card's key: before every ranked card, by due
/// time, then id.
fn due_time_key(card: &DueCard) -> (key: SortKey)
    ensures
        key_bounded(key),
        key == due_time_spec_key(*card),
        key.a < -0x1_0000_0000,
{
    SortKey { a: -0x10_0000_0000, num: 0, den: 1, b: card.due as i128, c: card.id as i128 }
}

impl QueueBuilder {
    /// The intraday learning cards of the studied decks due before the next
    /// day starts; their notes are recorded for burying.
    pub fn gather_intraday_learning_cards(&mut self, col: &Collection)
        requires
            old(self).inv(),
        ensures
            within_limits(*old(self), *final(self)),
            final(self).inv(),
            setup_same(*old(self), *final(self)),
            final(self).limits == old(self).limits,
            final(self).new == old(self).new,
            final(self).review == old(self).review,
            final(self).day_learning == old(self).day_learning,
            final(self).r_sorted_non_new == old(self).r_sorted_non_new,
            final(self).deferred_rwkv_reviews == old(self).deferred_rwkv_reviews,
            final(self).learning@ == old(self).learning@ + learning_added(
                old(self).pinned_card_id,
                col.cards@,
                selected_positions(
                    *old(self),
                    col.cards@,
                    CardQueue::Learn,
                    Some((old(self).context.timing.next_day_at - 1) as i64),
                    col.cards@.len(),
                ),
                false,
                old(self).context.timing.now,
            ) + learning_added(
                old(self).pinned_card_id,
                col.cards@,
                selected_positions(
                    *old(self),
                    col.cards@,
                    CardQueue::PreviewRepeat,
                    Some((old(self).context.timing.next_day_at - 1) as i64),
                    col.cards@.len(),
                ),
                false,
                old(self).context.timing.now,
            ),
            gathered_from(*old(self), *final(self), col.cards@),
    {
        let cutoff = self.context.timing.next_day_at - 1;
        let learn = self.select_cards(col, CardQueue::Learn, Some(cutoff));
        let preview = self.select_cards(col, CardQueue::PreviewRepeat, Some(cutoff));
        self.push_learning(col, &learn, false);
        self.push_learning(col, &preview, false);
        proof {
            lemma_gathered_nothing(*old(self), col.cards@);
            lemma_learning_added_gathered(*old(self), old(self).pinned_card_id, col.cards@, learn@, false, old(self).context.timing.now);
            lemma_learning_added_gathered(*old(self), old(self).pinned_card_id, col.cards@, preview@, false, old(self).context.timing.now);
            let added = learning_added(old(self).pinned_card_id, col.cards@, learn@, false, old(self).context.timing.now)
                + learning_added(old(self).pinned_card_id, col.cards@, preview@, false, old(self).context.timing.now);
            assert forall|k: int| 0 <= k < added.len() implies of_studied_decks(*old(self), col.cards@, (#[trigger] added[k]).id) by {
                let first = learning_added(old(self).pinned_card_id, col.cards@, learn@, false, old(self).context.timing.now);
                if k < first.len() {
                    assert(added[k] == first[k]);
                } else {
                    assert(added[k] == learning_added(
                        old(self).pinned_card_id,
                        col.cards@,
                        preview@,
                        false,
                        old(self).context.timing.now,
                    )[k - first.len()]);
                }
            }
            assert(self.learning@ =~= old(self).learning@ + added);
            lemma_appended_gathered(*old(self), old(self).learning@, added, col.cards@);
        }
    }

    /// Adds the intraday learning cards at `found` that are not pinned: all
    /// of them to the learning queue, recording their notes, or (for the
    /// retrievability sort) only those not yet due.
    fn push_learning(&mut self, col: &Collection, found: &Vec<usize>, only_not_due: bool)
        requires
            old(self).inv(),
            forall|k: int| 0 <= k < found@.len() ==> #[trigger] found@[k] < col.cards@.len(),
        ensures
            within_limits(*old(self), *final(self)),
            final(self).inv(),
            setup_same(*old(self), *final(self)),
            final(self).limits == old(self).limits,
            final(self).new == old(self).new,
            final(self).review == old(self).review,
            final(self).day_learning == old(self).day_learning,
            final(self).r_sorted_non_new == old(self).r_sorted_non_new,
            final(self).deferred_rwkv_reviews == old(self).deferred_rwkv_reviews,
            final(self).pinned_card_id == old(self).pinned_card_id,
            final(self).learning@ == old(self).learning@ + learning_added(
                old(self).pinned_card_id,
                col.cards@,
                found@,
                only_not_due,
                old(self).context.timing.now,
            ),
    {
        let now = self.context.timing.now;
        let mut i: usize = 0;
        while i < found.len()
            invariant
                i <= found@.len(),
                now == self.context.timing.now,
                forall|k: int| 0 <= k < found@.len() ==> #[trigger] found@[k] < col.cards@.len(),
                self.inv(),
                setup_same(*old(self), *self),
                within_limits(*old(self), *self),
                self.limits == old(self).limits,
                self.new == old(self).new,
                self.review == old(self).review,
                self.day_learning == old(self).day_learning,
                self.r_sorted_non_new == old(self).r_sorted_non_new,
                self.deferred_rwkv_reviews == old(self).deferred_rwkv_reviews,
                self.pinned_card_id == old(self).pinned_card_id,
                now == old(self).context.timing.now,
                self.learning@ == old(self).learning@ + learning_added(
                    old(self).pinned_card_id,
                    col.cards@,
                    found@.take(i as int),
                    only_not_due,
                    now,
                ),
            decreases found@.len() - i,
        {
            proof {
                assert(found@.take(i + 1).drop_last() =~= found@.take(i as int));
            }
            let card = DueCard::from_card(&col.cards[found[i]], DueCardKind::Learning);
            if !self.card_is_pinned(card.id) {
                if only_not_due {
                    if card.due as i64 > now {
                        self.learning.push(card);
                    }
                } else {
                    let mode = bury_mode_of_card(col, card.current_deck_id, card.original_deck_id);
                    let _ = self.get_and_update_bury_mode_for_note(card.note_id, mode);
                    self.learning.push(card);
                }
            }
            i = i + 1;
        }
        proof {
            assert(found@.take(i as int) =~= found@);
        }
    }

    /// The interday learning or review cards due today in the studied decks,
    /// in the preset's review order (or by RWKV's keys for an RWKV preset's
    /// retrievability orders), each taken while the limits allow.
    pub fn gather_due_cards(&mut self, col: &Collection, kind: DueCardKind)
        requires
            old(self).inv(),
        ensures
            forall|x: DueCard| old(self).review@.contains(x) ==> final(self).review@.contains(x),
            forall|x: DueCard| old(self).day_learning@.contains(x) ==> final(self).day_learning@.contains(x),
            within_limits(*old(self), *final(self)),
            final(self).inv(),
            setup_same(*old(self), *final(self)),
            final(self).new == old(self).new,
            final(self).learning == old(self).learning,
            final(self).r_sorted_non_new == old(self).r_sorted_non_new,
            final(self).deferred_rwkv_reviews == old(self).deferred_rwkv_reviews,
            kind == DueCardKind::Learning ==> final(self).review == old(self).review,
            kind == DueCardKind::Review ==> final(self).day_learning == old(self).day_learning,
            due_cards_from(*old(self), old(self).review@, final(self).review@, col.cards@, kind),
            due_cards_from(*old(self), old(self).day_learning@, final(self).day_learning@, col.cards@, kind),
            left(old(self).limits.nodes@[0], LimitKind::Review) == 0 ==> *final(self) == *old(self),
            gathered_from(*old(self), *final(self), col.cards@),
            state_grows(*old(self), *final(self)),
            forall|i: int|
                0 <= i < col.cards@.len() && #[trigger] selected(
                    *old(self),
                    col.cards@[i],
                    queue_of_kind(kind),
                    Some(old(self).context.timing.days_elapsed as i64),
                ) ==> due_held(*final(self), kind, DueCard::spec_from_card(col.cards@[i], kind)),
    {
        proof {
            lemma_state_grows_refl(*self);
        }
        proof {
            assert forall|k: int| 0 <= k < self.review@.len() implies self.review@.contains(#[trigger] self.review@[k]) by {}
            assert forall|k: int| 0 <= k < self.day_learning@.len() implies self.day_learning@.contains(
                #[trigger] self.day_learning@[k],
            ) by {}
        }
        proof {
            lemma_gathered_nothing(*self, col.cards@);
        }
        if self.limits.root_limit_reached(LimitKind::Review) {
            return;
        }
        let ghost start = *self;
        let today = self.context.timing.days_elapsed as i64;
        let found = self.select_cards(col, queue_for(kind), Some(today));
        let cards = if self.context.sort_options.review_order_from_rwkv_keys() {
            self.in_model_order(col, &found, kind, &col.rwkv_order_keys, false)
        } else {
            self.in_review_order(col, &found)
        };
        proof {
            assert forall|m: int| 0 <= m < cards@.len() implies #[trigger] selected(
                *old(self),
                col.cards@[cards@[m] as int],
                queue_of_kind(kind),
                Some(today),
            ) by {
                assert(found@.contains(cards@[m]));
                let j = choose|j: int| 0 <= j < found@.len() && found@[j] == cards@[m];
                assert(found@[j] < col.cards@.len());
            }
        }
        let mut k: usize = 0;
        while k < cards.len()
            invariant
                k <= cards@.len(),
                forall|q: int| 0 <= q < cards@.len() ==> #[trigger] cards@[q] < col.cards@.len(),
                self.inv(),
                setup_same(*old(self), *self),
                within_limits(*old(self), *self),
                self.new == old(self).new,
                self.learning == old(self).learning,
                self.r_sorted_non_new == old(self).r_sorted_non_new,
                self.deferred_rwkv_reviews == old(self).deferred_rwkv_reviews,
                kind == DueCardKind::Learning ==> self.review == old(self).review,
                kind == DueCardKind::Review ==> self.day_learning == old(self).day_learning,
                today == old(self).context.timing.days_elapsed as i64,
                forall|m: int| 0 <= m < cards@.len() ==> #[trigger] selected(
                    *old(self),
                    col.cards@[cards@[m] as int],
                    queue_of_kind(kind),
                    Some(today),
                ),
                due_cards_from(*old(self), old(self).review@, self.review@, col.cards@, kind),
                due_cards_from(*old(self), old(self).day_learning@, self.day_learning@, col.cards@, kind),
                state_grows(*old(self), *self),
                self.pinned_card_id == old(self).pinned_card_id,
                forall|x: DueCard| old(self).review@.contains(x) ==> self.review@.contains(x),
                forall|x: DueCard| old(self).day_learning@.contains(x) ==> self.day_learning@.contains(x),
                forall|m: int| 0 <= m < k ==> due_held(*self, kind, DueCard::spec_from_card(col.cards@[#[trigger] cards@[m] as int], kind)),
            ensures
                k == cards@.len() || left(self.limits.nodes@[0], LimitKind::Review) == 0,
            decreases cards@.len() - k,
        {
            if self.limits.root_limit_reached(LimitKind::Review) {
                break;
            }
            let card = DueCard::from_card(&col.cards[cards[k]], kind);
            let ghost cur = *self;
            proof {
                assert(selected(*old(self), col.cards@[cards@[k as int] as int], queue_of_kind(kind), Some(today)));
            }
            let reached = self.deck_limit_reached(card.current_deck_id, LimitKind::Review);
            let added = if reached {
                false
            } else {
                self.add_due_card(col, card)
            };
            let ghost mid = *self;
            proof {
                if reached {
                    assert(due_held(mid, kind, card));
                } else if added {
                    if kind == DueCardKind::Review {
                        lemma_pushed_contains(cur.review@, mid.review@, card);
                    } else {
                        lemma_pushed_contains(cur.day_learning@, mid.day_learning@, card);
                    }
                } else {
                    if due_buried(cur.context.seen_note_ids@, card, true) {
                        assert(spec_seen_mode(cur.context.seen_note_ids@, card.note_id) is Some);
                    }
                }
                assert(due_held(mid, kind, card));
            }
            if added {
                proof {
                    assert(due_candidate(*old(self), col.cards@, kind, card));
                    assert forall|q: int| 0 <= q < self.review@.len() implies old(self).review@.contains(#[trigger] self.review@[q])
                        || due_candidate(*old(self), col.cards@, kind, self.review@[q]) by {
                        if q < cur.review@.len() {
                            assert(self.review@[q] == cur.review@[q]);
                        }
                    }
                    assert forall|q: int| 0 <= q < self.day_learning@.len() implies old(self).day_learning@.contains(
                        #[trigger] self.day_learning@[q],
                    ) || due_candidate(*old(self), col.cards@, kind, self.day_learning@[q]) by {
                        if q < cur.day_learning@.len() {
                            assert(self.day_learning@[q] == cur.day_learning@[q]);
                        }
                    }
                }
                self.reserve(card.current_deck_id, LimitKind::Review);
            }
            proof {
                lemma_state_grows_trans(*old(self), cur, *self);
                assert forall|m: int| 0 <= m < k + 1 implies due_held(
                    *self,
                    kind,
                    DueCard::spec_from_card(col.cards@[#[trigger] cards@[m] as int], kind),
                ) by {
                    let c = DueCard::spec_from_card(col.cards@[cards@[m] as int], kind);
                    if m < k {
                        lemma_due_held_stays(cur, *self, kind, c);
                    } else {
                        lemma_due_held_stays(mid, *self, kind, c);
                    }
                }
            }
            k = k + 1;
        }
        proof {
            assert forall|i: int|
                0 <= i < col.cards@.len() && #[trigger] selected(
                    *old(self),
                    col.cards@[i],
                    queue_of_kind(kind),
                    Some(old(self).context.timing.days_elapsed as i64),
                ) implies due_held(*self, kind, DueCard::spec_from_card(col.cards@[i], kind)) by {
                if k == cards@.len() {
                    assert(col.cards@.len() == col.cards.len());
                    assert(found@.contains(i as usize));
                    let q = choose|q: int| 0 <= q < found@.len() && found@[q] == i as usize;
                    assert(cards@.contains(found@[q]));
                    let m = choose|m: int| 0 <= m < cards@.len() && cards@[m] == found@[q];
                    assert(cards@[m] as int == i);
                }
            }
        }
        proof {
            lemma_gathered_nothing(*old(self), col.cards@);
            lemma_due_cards_gathered(*old(self), old(self).review@, self.review@, col.cards@, kind);
            lemma_due_cards_gathered(*old(self), old(self).day_learning@, self.day_learning@, col.cards@, kind);
        }
    }

    /// The positions of `found` sorted by a model's keys, the tie-break hash
    /// and the id.
    fn in_model_order(&self, col: &Collection, found: &Vec<usize>, kind: DueCardKind, keys: &Vec<(i64, u32)>, descending: bool) -> (sorted: Vec<usize>)
        requires
            forall|k: int| 0 <= k < found@.len() ==> #[trigger] found@[k] < col.cards@.len(),
        ensures
            sorted@.len() == found@.len(),
            forall|k: int| 0 <= k < sorted@.len() ==> #[trigger] sorted@[k] < col.cards@.len(),
            forall|k: int| 0 <= k < sorted@.len() ==> found@.contains(#[trigger] sorted@[k]),
            forall|q: int| 0 <= q < found@.len() ==> sorted@.contains(#[trigger] found@[q]),
    {
        let mut sort_keys: Vec<SortKey> = Vec::new();
        let mut i: usize = 0;
        while i < found.len()
            invariant
                i <= found@.len(),
                sort_keys@.len() == i,
                forall|k: int| 0 <= k < found@.len() ==> #[trigger] found@[k] < col.cards@.len(),
                forall|m: int| 0 <= m < sort_keys@.len() ==> key_bounded(#[trigger] sort_keys@[m]),
            decreases found@.len() - i,
        {
            let card = DueCard::from_card(&col.cards[found[i]], kind);
            sort_keys.push(model_order_key(keys, &card, descending));
            i = i + 1;
        }
        let ranking = sorted_order(&sort_keys);
        let mut sorted: Vec<usize> = Vec::new();
        let mut k: usize = 0;
        while k < ranking.len()
            invariant
                ranking@.len() == found@.len(),
                k <= ranking@.len(),
                sorted@.len() == k,
                forall|m: int| 0 <= m < ranking@.len() ==> #[trigger] ranking@[m] < found@.len(),
                forall|m: int| 0 <= m < found@.len() ==> #[trigger] found@[m] < col.cards@.len(),
                forall|m: int| 0 <= m < sorted@.len() ==> #[trigger] sorted@[m] < col.cards@.len(),
                forall|m: int| 0 <= m < sorted@.len() ==> found@.contains(#[trigger] sorted@[m]),
                forall|m: int| 0 <= m < sorted@.len() ==> #[trigger] sorted@[m] == found@[ranking@[m] as int],
            decreases ranking@.len() - k,
        {
            let p = ranking[k];
            let ghost before = sorted@;
            sorted.push(found[p]);
            proof {
                assert forall|m: int| 0 <= m < sorted@.len() implies found@.contains(#[trigger] sorted@[m]) by {
                    if m < before.len() {
                        assert(before[m] == sorted@[m]);
                    } else {
                        assert(found@[p as int] == sorted@[m]);
                    }
                }
            }
            k = k + 1;
        }
        proof {
            lemma_found_covered(found@, ranking@, sorted@);
        }
        sorted
    }
}

/// A due card ranked with the others by retrievability: whether it counts
/// against the review limit, and whether it is an interday card.
#[derive(Clone, Copy, Debug, PartialEq, Eq, Structural)]
pub struct RankedDueCard {
    pub card: DueCard,
    pub counts_towards_review_limit: bool,
    pub interday_or_review: bool,
}

impl QueueBuilder {
    /// FSRS's retrievability orders: the intraday learning cards due now, by
    /// due time, then the interday learning and review cards due today,
    /// ranked together by the model's key (reversed for the descending
    /// order), the tie-break hash and the id; then taken in that order, the
    /// interday ones while the review limits allow. Intraday cards not yet
    /// due keep their own queue.
    pub fn gather_due_non_new_cards_with_exact_retrievability(&mut self, col: &Collection)
        requires
            old(self).inv(),
        ensures
            within_limits(*old(self), *final(self)),
            final(self).inv(),
            setup_same(*old(self), *final(self)),
            final(self).new == old(self).new,
            final(self).review == old(self).review,
            final(self).day_learning == old(self).day_learning,
            final(self).deferred_rwkv_reviews == old(self).deferred_rwkv_reviews,
            final(self).learning@ == old(self).learning@ + learning_added(
                old(self).pinned_card_id,
                col.cards@,
                selected_positions(
                    *old(self),
                    col.cards@,
                    CardQueue::Learn,
                    Some((old(self).context.timing.next_day_at - 1) as i64),
                    col.cards@.len(),
                ),
                true,
                old(self).context.timing.now,
            ) + learning_added(
                old(self).pinned_card_id,
                col.cards@,
                selected_positions(
                    *old(self),
                    col.cards@,
                    CardQueue::PreviewRepeat,
                    Some((old(self).context.timing.next_day_at - 1) as i64),
                    col.cards@.len(),
                ),
                true,
                old(self).context.timing.now,
            ),
            forall|q: int|
                0 <= q < final(self).r_sorted_non_new@.len() ==> old(self).r_sorted_non_new@.contains(
                    #[trigger] final(self).r_sorted_non_new@[q],
                ) || ranked_candidate(*old(self), col.cards@, final(self).r_sorted_non_new@[q]),
            gathered_from(*old(self), *final(self), col.cards@),
            forall|i: int|
                0 <= i < col.cards@.len() ==> (selected(
                    *old(self),
                    col.cards@[i],
                    CardQueue::DayLearn,
                    Some(old(self).context.timing.days_elapsed as i64),
                ) ==> ranked_held(*final(self), DueCard::spec_from_card(#[trigger] col.cards@[i], DueCardKind::Learning)))
                    && (selected(
                    *old(self),
                    col.cards@[i],
                    CardQueue::Review,
                    Some(old(self).context.timing.days_elapsed as i64),
                ) ==> ranked_held(*final(self), DueCard::spec_from_card(col.cards@[i], DueCardKind::Review))),
            exists|rc: Seq<RankedDueCard>| #[trigger] ranked_appended(*old(self), *final(self), *col, rc),
    {
        let timing = self.context.timing;
        let cutoff = timing.next_day_at - 1;
        let today = timing.days_elapsed as i64;
        let mut candidates: Vec<RankedDueCard> = Vec::new();
        // intraday learning: due now, or kept for later
        let learn = self.select_cards(col, CardQueue::Learn, Some(cutoff));
        let preview = self.select_cards(col, CardQueue::PreviewRepeat, Some(cutoff));
        self.push_learning(col, &learn, true);
        self.push_learning(col, &preview, true);
        push_due_intraday(self, col, &learn, &mut candidates);
        let ghost after_learn = candidates@;
        push_due_intraday(self, col, &preview, &mut candidates);
        // interday learning, then reviews
        proof {
            assert forall|m: int| 0 <= m < candidates@.len() implies ranked_source(
                *old(self),
                col.cards@,
                (#[trigger] candidates@[m]).card,
            ) by {
                let c = candidates@[m].card;
                assert(self.context.timing == old(self).context.timing);
                assert(self.pinned_card_id == old(self).pinned_card_id);
                if m < after_learn.len() {
                    assert(after_learn[m] == candidates@[m]);
                    assert(made_from_found(col.cards@, learn@, DueCardKind::Learning, c));
                    let k = choose|k: int|
                        0 <= k < learn@.len() && c == DueCard::spec_from_card(
                            col.cards@[#[trigger] learn@[k] as int],
                            DueCardKind::Learning,
                        );
                    assert(selected(*old(self), col.cards@[learn@[k] as int], CardQueue::Learn, Some(cutoff)));
                    assert(learn@[k] < col.cards@.len());
                    assert(ranked_from(*old(self), col.cards@, learn@[k] as int, c));
                    assert(ranked_entry(*old(self), col.cards@, candidates@[m]));
                } else {
                    assert(made_from_found(col.cards@, preview@, DueCardKind::Learning, c));
                    let k = choose|k: int|
                        0 <= k < preview@.len() && c == DueCard::spec_from_card(
                            col.cards@[#[trigger] preview@[k] as int],
                            DueCardKind::Learning,
                        );
                    assert(selected(*old(self), col.cards@[preview@[k] as int], CardQueue::PreviewRepeat, Some(cutoff)));
                    assert(preview@[k] < col.cards@.len());
                    assert(ranked_from(*old(self), col.cards@, preview@[k] as int, c));
                    assert(ranked_entry(*old(self), col.cards@, candidates@[m]));
                }
            }
        }
        proof {
            assert forall|m: int| 0 <= m < candidates@.len() implies ranked_entry(
                *old(self),
                col.cards@,
                #[trigger] candidates@[m],
            ) by {
                let c = candidates@[m].card;
                if m < after_learn.len() {
                    assert(after_learn[m] == candidates@[m]);
                    let k = choose|k: int|
                        0 <= k < learn@.len() && c == DueCard::spec_from_card(
                            col.cards@[#[trigger] learn@[k] as int],
                            DueCardKind::Learning,
                        );
                    assert(selected(*old(self), col.cards@[learn@[k] as int], CardQueue::Learn, Some(cutoff)));
                    assert(ranked_from(*old(self), col.cards@, learn@[k] as int, c));
                } else {
                    let k = choose|k: int|
                        0 <= k < preview@.len() && c == DueCard::spec_from_card(
                            col.cards@[#[trigger] preview@[k] as int],
                            DueCardKind::Learning,
                        );
                    assert(selected(*old(self), col.cards@[preview@[k] as int], CardQueue::PreviewRepeat, Some(cutoff)));
                    assert(ranked_from(*old(self), col.cards@, preview@[k] as int, c));
                }
            }
        }
        let day_learn = self.select_cards(col, CardQueue::DayLearn, Some(today));
        let ghost before_day_learn = candidates@;
        push_interday(col, &day_learn, DueCardKind::Learning, &mut candidates);
        let reviews = self.select_cards(col, CardQueue::Review, Some(today));
        let ghost before_reviews = candidates@;
        push_interday(col, &reviews, DueCardKind::Review, &mut candidates);
        proof {
            assert forall|m: int| 0 <= m < candidates@.len() implies ranked_source(
                *old(self),
                col.cards@,
                (#[trigger] candidates@[m]).card,
            ) by {
                let c = candidates@[m].card;
                if m < before_day_learn.len() {
                    assert(candidates@[m] == before_day_learn[m]);
                    assert(before_reviews[m] == before_day_learn[m]);
                    assert(ranked_source(*old(self), col.cards@, before_day_learn[m].card));
                } else if m < before_reviews.len() {
                    assert(before_reviews[m] == candidates@[m]);
                    let k = choose|k: int|
                        0 <= k < day_learn@.len() && c == DueCard::spec_from_card(
                            col.cards@[#[trigger] day_learn@[k] as int],
                            DueCardKind::Learning,
                        );
                    assert(ranked_from(*old(self), col.cards@, day_learn@[k] as int, c));
                } else {
                    let k = choose|k: int|
                        0 <= k < reviews@.len() && c == DueCard::spec_from_card(
                            col.cards@[#[trigger] reviews@[k] as int],
                            DueCardKind::Review,
                        );
                    assert(ranked_from(*old(self), col.cards@, reviews@[k] as int, c));
                }
            }
        }
        proof {
            assert forall|m: int| 0 <= m < candidates@.len() implies ranked_entry(
                *old(self),
                col.cards@,
                #[trigger] candidates@[m],
            ) by {
                let c = candidates@[m].card;
                if m < before_day_learn.len() {
                    assert(candidates@[m] == before_day_learn[m]);
                } else if m < before_reviews.len() {
                    assert(before_reviews[m] == candidates@[m]);
                    let q = m - before_day_learn.len();
                    assert(candidates@[m] == interday_ranked(col.cards@, day_learn@, DueCardKind::Learning)[q]);
                    assert(selected(*old(self), col.cards@[day_learn@[q] as int], CardQueue::DayLearn, Some(today)));
                    assert(ranked_from(*old(self), col.cards@, day_learn@[q] as int, c));
                } else {
                    let q = m - before_reviews.len();
                    assert(candidates@[m] == interday_ranked(col.cards@, reviews@, DueCardKind::Review)[q]);
                    assert(selected(*old(self), col.cards@[reviews@[q] as int], CardQueue::Review, Some(today)));
                    assert(ranked_from(*old(self), col.cards@, reviews@[q] as int, c));
                }
            }
        }
        proof {
            assert forall|m: int| 0 <= m < candidates@.len() implies (#[trigger] candidates@[m]).counts_towards_review_limit
                == candidates@[m].interday_or_review by {
                if m < after_learn.len() {
                    assert(before_day_learn[m] == after_learn[m]);
                    assert(before_reviews[m] == before_day_learn[m]);
                    assert(candidates@[m] == before_reviews[m]);
                } else if m < before_day_learn.len() {
                    assert(before_reviews[m] == before_day_learn[m]);
                    assert(candidates@[m] == before_reviews[m]);
                } else if m < before_reviews.len() {
                    assert(before_reviews[m] == candidates@[m]);
                    let q = m - before_day_learn.len();
                    assert(candidates@[m] == interday_ranked(col.cards@, day_learn@, DueCardKind::Learning)[q]);
                } else {
                    let q = m - before_reviews.len();
                    assert(candidates@[m] == interday_ranked(col.cards@, reviews@, DueCardKind::Review)[q]);
                }
            }
            assert(self.limits == old(self).limits);
        }
        let ghost learning_after = self.learning;
        proof {
            assert forall|q: int| 0 <= q < self.r_sorted_non_new@.len() implies old(self).r_sorted_non_new@.contains(
                #[trigger] self.r_sorted_non_new@[q],
            ) by {}
        }
        let descending = match self.context.sort_options.review_order {
            ReviewCardOrder::RetrievabilityDescending => true,
            _ => false,
        };
        let mut keys: Vec<SortKey> = Vec::new();
        let mut i: usize = 0;
        while i < candidates.len()
            invariant
                i <= candidates@.len(),
                keys@.len() == i,
                forall|m: int| 0 <= m < keys@.len() ==> key_bounded(#[trigger] keys@[m]),
                forall|m: int| 0 <= m < keys@.len() ==> #[trigger] keys@[m] == ranked_key(*col, candidates@[m], descending),
            decreases candidates@.len() - i,
        {
            let key = if candidates[i].interday_or_review {
                model_order_key(&col.exact_order_keys, &candidates[i].card, descending)
            } else {
                due_time_key(&candidates[i].card)
            };
            keys.push(key);
            i = i + 1;
        }
        let ranking = sorted_order(&keys);
        proof {
            lemma_state_grows_refl(*self);
        }
        let ghost before_ranked = *self;
        let ghost base = self.r_sorted_non_new@.len();
        let ghost mut taken: Seq<int> = Seq::empty();
        let ghost mut rcs: Seq<RankedDueCard> = Seq::empty();
        proof {
            assert(descending == (old(self).context.sort_options.review_order == ReviewCardOrder::RetrievabilityDescending));
        }
        let mut k: usize = 0;
        while k < ranking.len()
            invariant
                k <= ranking@.len(),
                base == old(self).r_sorted_non_new@.len(),
                self.r_sorted_non_new@.len() == base + taken.len(),
                rcs.len() == taken.len(),
                forall|t: int| 0 <= t < taken.len() ==> #[trigger] rcs[t] == candidates@[ranking@[taken[t]] as int],
                self.limits.nodes@ == reviews_reserved(old(self).limits.nodes@, interday_decks(rcs)),
                forall|m: int| 0 <= m < candidates@.len() ==> (#[trigger] candidates@[m]).counts_towards_review_limit
                    == candidates@[m].interday_or_review,
                forall|t: int| 0 <= t < taken.len() ==> 0 <= #[trigger] taken[t] < k,
                forall|t1: int, t2: int| 0 <= t1 < t2 < taken.len() ==> #[trigger] taken[t1] < #[trigger] taken[t2],
                forall|t: int|
                    0 <= t < taken.len() ==> self.r_sorted_non_new@[base + t] == candidates@[ranking@[#[trigger] taken[t]] as int].card,
                is_sorted_order(keys@, ranking@),
                keys@.len() == candidates@.len(),
                forall|m: int| 0 <= m < keys@.len() ==> #[trigger] keys@[m] == ranked_key(*col, candidates@[m], descending),
                forall|m: int| 0 <= m < candidates@.len() ==> ranked_entry(*old(self), col.cards@, #[trigger] candidates@[m]),
                ranking@.len() == candidates@.len(),
                forall|j: int, m: int| 0 <= j < m < ranking@.len() ==> ranking@[j] != ranking@[m],
                state_grows(before_ranked, *self),
                forall|x: DueCard| before_ranked.r_sorted_non_new@.contains(x) ==> self.r_sorted_non_new@.contains(x),
                forall|m: int|
                    0 <= m < k && (#[trigger] candidates@[ranking@[m] as int]).interday_or_review ==> ranked_held(
                        *self,
                        candidates@[ranking@[m] as int].card,
                    ),
                forall|m: int| 0 <= m < ranking@.len() ==> #[trigger] ranking@[m] < candidates@.len(),
                self.inv(),
                setup_same(*old(self), *self),
                within_limits(*old(self), *self),
                self.new == old(self).new,
                self.review == old(self).review,
                self.day_learning == old(self).day_learning,
                self.deferred_rwkv_reviews == old(self).deferred_rwkv_reviews,
                self.learning == learning_after,
                forall|m: int| 0 <= m < candidates@.len() ==> ranked_source(
                    *old(self),
                    col.cards@,
                    (#[trigger] candidates@[m]).card,
                ),
                forall|q: int|
                    0 <= q < self.r_sorted_non_new@.len() ==> old(self).r_sorted_non_new@.contains(
                        #[trigger] self.r_sorted_non_new@[q],
                    ) || ranked_candidate(*old(self), col.cards@, self.r_sorted_non_new@[q]),
            decreases ranking@.len() - k,
        {
            let candidate = candidates[ranking[k]];
            let deck_id = candidate.card.current_deck_id;
            let ghost cur = *self;
            let skip = candidate.counts_towards_review_limit && (self.limits.root_limit_reached(
                LimitKind::Review,
            ) || self.deck_limit_reached(deck_id, LimitKind::Review));
            proof {
                if skip && candidate.interday_or_review {
                    assert(ranked_held(cur, candidate.card));
                }
            }
            let added = !skip && self.add_due_card_for_retrievability_sort(col, candidate.card, candidate.interday_or_review);
            proof {
                if !skip && !added && candidate.interday_or_review {
                    if due_buried(cur.context.seen_note_ids@, candidate.card, true) {
                        assert(spec_seen_mode(cur.context.seen_note_ids@, candidate.card.note_id) is Some);
                    }
                    assert(ranked_held(cur, candidate.card));
                }
            }
            if added {
                let ghost before_push = self.r_sorted_non_new@;
                self.r_sorted_non_new.push(candidate.card);
                proof {
                    lemma_pushed_contains(before_push, self.r_sorted_non_new@, candidate.card);
                    let old_taken = taken;
                    taken = taken.push(k as int);
                    let old_rcs = rcs;
                    rcs = rcs.push(candidate);
                    assert forall|t: int| 0 <= t < taken.len() implies #[trigger] rcs[t] == candidates@[ranking@[taken[t]] as int] by {
                        if t < old_taken.len() {
                            assert(rcs[t] == old_rcs[t]);
                            assert(taken[t] == old_taken[t]);
                        }
                    }
                    assert(rcs.drop_last() =~= old_rcs);
                    if candidate.interday_or_review {
                        lemma_reviews_reserved_push(old(self).limits.nodes@, interday_decks(old_rcs), deck_id);
                    }
                    assert forall|t: int|
                        0 <= t < taken.len() implies self.r_sorted_non_new@[base + t] == candidates@[ranking@[#[trigger] taken[t]] as int].card by {
                        if t < old_taken.len() {
                            assert(taken[t] == old_taken[t]);
                            assert(self.r_sorted_non_new@[base + t] == before_push[base + t]);
                        }
                    }
                }
                proof {
                    assert(ranked_source(*old(self), col.cards@, candidates@[ranking@[k as int] as int].card));
                    assert(old(self).pinned_card_id != Some(candidate.card.id));
                    assert forall|q: int| 0 <= q < self.r_sorted_non_new@.len() implies old(self).r_sorted_non_new@.contains(
                        #[trigger] self.r_sorted_non_new@[q],
                    ) || ranked_candidate(*old(self), col.cards@, self.r_sorted_non_new@[q]) by {
                        if q < before_push.len() {
                            assert(self.r_sorted_non_new@[q] == before_push[q]);
                        }
                    }
                }
                if candidate.counts_towards_review_limit {
                    self.reserve(deck_id, LimitKind::Review);
                }
            }
            proof {
                lemma_state_grows_trans(before_ranked, cur, *self);
                assert forall|m: int|
                    0 <= m < k + 1 && (#[trigger] candidates@[ranking@[m] as int]).interday_or_review implies ranked_held(
                    *self,
                    candidates@[ranking@[m] as int].card,
                ) by {
                    if m < k {
                        lemma_ranked_held_stays(cur, *self, candidates@[ranking@[m] as int].card);
                    } else if !added {
                        lemma_ranked_held_stays(cur, *self, candidate.card);
                    }
                }
            }
            k = k + 1;
        }
        proof {
            let rc = Seq::new(taken.len(), |t: int| candidates@[ranking@[taken[t]] as int]);
            assert forall|t1: int, t2: int| 0 <= t1 < t2 < rc.len() implies !key_lt(
                ranked_key(*col, #[trigger] rc[t2], descending),
                ranked_key(*col, #[trigger] rc[t1], descending),
            ) by {
                assert(taken[t1] < taken[t2]);
                assert(ranked_before(keys@, ranking@[taken[t1]] as int, ranking@[taken[t2]] as int));
                assert(keys@[ranking@[taken[t1]] as int] == ranked_key(*col, rc[t1], descending));
                assert(keys@[ranking@[taken[t2]] as int] == ranked_key(*col, rc[t2], descending));
            }
            assert forall|t: int| 0 <= t < rc.len() implies ranked_entry(*old(self), col.cards@, #[trigger] rc[t]) by {
                assert(ranking@[taken[t]] < candidates@.len());
            }
            assert forall|t: int| 0 <= t < rc.len() implies (#[trigger] rc[t]).card == self.r_sorted_non_new@[base + t] by {}
            assert(rc =~= rcs);
            assert(ranked_appended(*old(self), *self, *col, rc));
        }
        proof {
            lemma_order_covers(ranking@);
            assert forall|i: int|
                0 <= i < col.cards@.len() implies (selected(
                *old(self),
                col.cards@[i],
                CardQueue::DayLearn,
                Some(old(self).context.timing.days_elapsed as i64),
            ) ==> ranked_held(*self, DueCard::spec_from_card(#[trigger] col.cards@[i], DueCardKind::Learning)))
                && (selected(
                *old(self),
                col.cards@[i],
                CardQueue::Review,
                Some(old(self).context.timing.days_elapsed as i64),
            ) ==> ranked_held(*self, DueCard::spec_from_card(col.cards@[i], DueCardKind::Review))) by {
                assert(col.cards@.len() == col.cards.len());
                if selected(*old(self), col.cards@[i], CardQueue::DayLearn, Some(today)) {
                    assert(day_learn@.contains(i as usize));
                    let q = choose|q: int| 0 <= q < day_learn@.len() && day_learn@[q] == i as usize;
                    let m = before_day_learn.len() + q;
                    assert(candidates@[m] == interday_ranked(col.cards@, day_learn@, DueCardKind::Learning)[q]);
                    assert(ranking@.contains(m as usize));
                    let r = choose|r: int| 0 <= r < ranking@.len() && ranking@[r] == m as usize;
                    assert(candidates@[ranking@[r] as int].interday_or_review);
                }
                if selected(*old(self), col.cards@[i], CardQueue::Review, Some(today)) {
                    assert(reviews@.contains(i as usize));
                    let q = choose|q: int| 0 <= q < reviews@.len() && reviews@[q] == i as usize;
                    let m = before_reviews.len() + q;
                    assert(candidates@[m] == interday_ranked(col.cards@, reviews@, DueCardKind::Review)[q]);
                    assert(ranking@.contains(m as usize));
                    let r = choose|r: int| 0 <= r < ranking@.len() && ranking@[r] == m as usize;
                    assert(candidates@[ranking@[r] as int].interday_or_review);
                }
            }
        }
        proof {
            lemma_gathered_nothing(*old(self), col.cards@);
            lemma_ranked_gathered(*old(self), old(self).r_sorted_non_new@, self.r_sorted_non_new@, col.cards@);
            lemma_learning_added_gathered(*old(self), old(self).pinned_card_id, col.cards@, learn@, true, old(self).context.timing.now);
            lemma_learning_added_gathered(*old(self), old(self).pinned_card_id, col.cards@, preview@, true, old(self).context.timing.now);
            let first = learning_added(old(self).pinned_card_id, col.cards@, learn@, true, old(self).context.timing.now);
            let second = learning_added(old(self).pinned_card_id, col.cards@, preview@, true, old(self).context.timing.now);
            let added = first + second;
            assert forall|k: int| 0 <= k < added.len() implies of_studied_decks(*old(self), col.cards@, (#[trigger] added[k]).id) by {
                if k < first.len() {
                    assert(added[k] == first[k]);
                } else {
                    assert(added[k] == second[k - first.len()]);
                }
            }
            assert(self.learning@ =~= old(self).learning@ + added);
            lemma_appended_gathered(*old(self), old(self).learning@, added, col.cards@);
        }
    }
}

/// The intraday learning cards at `found` that are due now and not pinned.
fn push_due_intraday(b: &QueueBuilder, col: &Collection, found: &Vec<usize>, out: &mut Vec<RankedDueCard>)
    requires
        forall|k: int| 0 <= k < found@.len() ==> #[trigger] found@[k] < col.cards@.len(),
    ensures
        final(out)@.len() >= old(out)@.len(),
        forall|m: int| 0 <= m < old(out)@.len() ==> #[trigger] final(out)@[m] == old(out)@[m],
        forall|m: int|
            old(out)@.len() <= m < final(out)@.len() ==> {
                let e = #[trigger] final(out)@[m];
                &&& made_from_found(col.cards@, found@, DueCardKind::Learning, e.card)
                &&& e.card.due <= b.context.timing.now
                &&& b.pinned_card_id != Some(e.card.id)
                &&& !e.interday_or_review
                &&& !e.counts_towards_review_limit
            },
        final(out)@ == old(out)@ + due_intraday_ranked(b.pinned_card_id, b.context.timing.now, col.cards@, found@),
{
    let now = b.context.timing.now;
    let mut i: usize = 0;
    while i < found.len()
        invariant
            i <= found@.len(),
            now == b.context.timing.now,
            forall|k: int| 0 <= k < found@.len() ==> #[trigger] found@[k] < col.cards@.len(),
            out@.len() >= old(out)@.len(),
            forall|m: int| 0 <= m < old(out)@.len() ==> #[trigger] out@[m] == old(out)@[m],
            forall|m: int|
                old(out)@.len() <= m < out@.len() ==> {
                    let e = #[trigger] out@[m];
                    &&& made_from_found(col.cards@, found@, DueCardKind::Learning, e.card)
                    &&& e.card.due <= b.context.timing.now
                    &&& b.pinned_card_id != Some(e.card.id)
                    &&& !e.interday_or_review
                    &&& !e.counts_towards_review_limit
                },
            out@ == old(out)@ + due_intraday_ranked(b.pinned_card_id, now, col.cards@, found@.take(i as int)),
        decreases found@.len() - i,
    {
        proof {
            assert(found@.take(i + 1).drop_last() =~= found@.take(i as int));
        }
        let card = DueCard::from_card(&col.cards[found[i]], DueCardKind::Learning);
        if !b.card_is_pinned(card.id) && card.due as i64 <= now {
            proof {
                assert(made_from_found(col.cards@, found@, DueCardKind::Learning, card)) by {
                    assert(card == DueCard::spec_from_card(col.cards@[found@[i as int] as int], DueCardKind::Learning));
                }
            }
            out.push(RankedDueCard { card, counts_towards_review_limit: false, interday_or_review: false });
        }
        i = i + 1;
    }
    proof {
        assert(found@.take(i as int) =~= found@);
    }
}

/// The interday cards at `found`, which count against the review limit.
fn push_interday(col: &Collection, found: &Vec<usize>, kind: DueCardKind, out: &mut Vec<RankedDueCard>)
    requires
        forall|k: int| 0 <= k < found@.len() ==> #[trigger] found@[k] < col.cards@.len(),
    ensures
        final(out)@.len() >= old(out)@.len(),
        forall|m: int| 0 <= m < old(out)@.len() ==> #[trigger] final(out)@[m] == old(out)@[m],
        forall|m: int|
            old(out)@.len() <= m < final(out)@.len() ==> made_from_found(
                col.cards@,
                found@,
                kind,
                (#[trigger] final(out)@[m]).card,
            ),
        final(out)@ == old(out)@ + interday_ranked(col.cards@, found@, kind),
{
    let mut i: usize = 0;
    while i < found.len()
        invariant
            i <= found@.len(),
            forall|k: int| 0 <= k < found@.len() ==> #[trigger] found@[k] < col.cards@.len(),
            out@.len() >= old(out)@.len(),
            forall|m: int| 0 <= m < old(out)@.len() ==> #[trigger] out@[m] == old(out)@[m],
            forall|m: int|
                old(out)@.len() <= m < out@.len() ==> made_from_found(col.cards@, found@, kind, (#[trigger] out@[m]).card),
            out@ == old(out)@ + interday_ranked(col.cards@, found@.take(i as int), kind),
        decreases found@.len() - i,
    {
        let card = DueCard::from_card(&col.cards[found[i]], kind);
        proof {
            assert(made_from_found(col.cards@, found@, kind, card)) by {
                assert(card == DueCard::spec_from_card(col.cards@[found@[i as int] as int], kind));
            }
        }
        out.push(RankedDueCard { card, counts_towards_review_limit: true, interday_or_review: true });
        proof {
            assert(interday_ranked(col.cards@, found@.take(i + 1), kind) =~= interday_ranked(
                col.cards@,
                found@.take(i as int),
                kind,
            ).push(RankedDueCard { card, counts_towards_review_limit: true, interday_or_review: true }));
        }
        i = i + 1;
    }
    proof {
        assert(found@.take(i as int) =~= found@);
    }
}

} // verus!
