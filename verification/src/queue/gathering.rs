use vstd::prelude::*;

use crate::card::Card;
use crate::card::CardQueue;
use crate::queue::builder::bury_mode_of_card;
use crate::queue::builder::lemma_seen_widens_refl;
use crate::queue::builder::lemma_seen_widens_trans;
use crate::queue::builder::seen_widens;
use crate::queue::builder::spec_seen_mode;
use crate::queue::builder::BuryMode;
use crate::queue::builder::find_card;
use crate::queue::builder::fnvhash_due_card;
use crate::queue::builder::is_retrievability_order;
use crate::queue::builder::knuth_salt;
use crate::queue::builder::preset_retention_of_card;
use crate::queue::builder::total_order_key;
use crate::queue::builder::DueCard;
use crate::queue::builder::DueCardKind;
use crate::queue::builder::NewCard;
use crate::queue::builder::QueueBuilder;
use crate::queue::builder::INFINITY_BITS;
use crate::queue::limits::reviews_reserved;
use crate::queue::limits::lemma_reviews_reserved_append;
use crate::queue::limits::lemma_reviews_reserved_push;
use crate::queue::limits::lemma_not_reached_root;
use crate::queue::limits::lemma_reserved_root;
use crate::queue::limits::chain_reached;
use crate::queue::limits::deck_reached;
use crate::queue::limits::first_node_of;
use crate::queue::limits::lemma_nodes_not_up_refl;
use crate::queue::limits::lemma_nodes_not_up_trans;
use crate::queue::limits::nodes_not_up;
use crate::queue::limits::reserved_for_deck;
use crate::queue::limits::deck_wants_minimum;
use crate::queue::limits::minimum_sum;
use crate::queue::limits::lemma_reserve_spends_minimum;
use crate::queue::limits::lemma_minimum_done_stays;
use crate::queue::limits::chain_wants_minimum;
use crate::queue::limits::left;
use crate::queue::limits::LimitKind;
use crate::queue::model::find_key;
use crate::queue::model::find_score;
use crate::queue::model::NewCardGatherPriority;
use crate::queue::model::ReviewCardOrder;
use crate::queue::model::RwkvReviewQueueScoreEntry;
use crate::collection::Collection;
use crate::queue::rwkv::rwkv_review_candidate_metadata;
use crate::queue::rwkv::rwkv_review_score_eligibility;
use crate::queue::rwkv::rwkv_review_score_eligibility_ignoring_retention;
use crate::queue::rwkv::RwkvReviewScoreEligibility;
use crate::queue::collect::first_index_of;
use crate::queue::collect::index_of_id;
use crate::queue::collect::lemma_index_of_id;
use crate::queue::collect::lemma_index_of_id_none;
use crate::queue::collect::reordered;
use crate::queue::collect::due_held;
use crate::queue::collect::eligible_by_score;
use crate::queue::collect::lemma_due_held_stays;
use crate::queue::collect::spec_scored_eligibility;
use crate::queue::model::first_score;
use crate::queue::model::lemma_first_score_at;
use crate::queue::model::lemma_first_score_index;
use crate::queue::rwkv::spec_candidate_metadata;
use crate::queue::builder::spec_preset_retention;
use crate::sort::lemma_order_covers;
use crate::sort::ranked_before;
use crate::sort::lemma_ranked_before_asymmetric;
use crate::sort::key_lt;
use crate::queue::collect::lemma_taken_held;
use crate::sort::is_sorted_order;
use crate::sort::key_bounded;
use crate::sort::sorted_order;
use crate::sort::SortKey;
use crate::queue::new_cards::new_card_of;
use crate::queue::new_cards::spec_new_card_of;

verus! {

/// The scored cards are read in chunks of at least this many.
pub const RWKV_REVIEW_GATHER_MIN_CHUNK_SIZE: usize = 256;

/// The parts of the builder that the gathering does not change.
pub open spec fn setup_same(a: QueueBuilder, b: QueueBuilder) -> bool {
    &&& a.context.timing == b.context.timing
    &&& a.context.active_deck_ids == b.context.active_deck_ids
    &&& a.context.sort_options == b.context.sort_options
    &&& a.context.fsrs == b.context.fsrs
    &&& a.context.rwkv_review_queue_scores == b.context.rwkv_review_queue_scores
    &&& a.context.root_deck == b.context.root_deck
    &&& a.pinned_card_id == b.pinned_card_id
    &&& a.limits.nodes@.len() == b.limits.nodes@.len()
}

/// A due card of a kind, from the card's queue.
pub open spec fn due_kind_of_queue(queue: CardQueue, kind: DueCardKind) -> bool {
    match kind {
        DueCardKind::Review => queue == CardQueue::Review,
        DueCardKind::Learning => queue == CardQueue::DayLearn,
    }
}

fn queue_matches(queue: CardQueue, kind: DueCardKind) -> (r: bool)
    ensures
        r == due_kind_of_queue(queue, kind),
{
    match kind {
        DueCardKind::Review => queue == CardQueue::Review,
        DueCardKind::Learning => queue == CardQueue::DayLearn,
    }
}

fn simple_key(a: i128, b: i128, c: i128) -> (key: SortKey)
    ensures
        key == (SortKey { a, num: 0, den: 1, b, c }),
        key_bounded(key),
{
    SortKey { a, num: 0, den: 1, b, c }
}

/// The sort key of a review card under a preset's review order (the
/// orders that do not rank by a model), ties broken by `hash` and the id;
/// the random order sorts by `salt_hash`.
pub open spec fn spec_review_order_key(card: Card, order: ReviewCardOrder, days_elapsed: u32, hash: i64, salt_hash: i64) -> SortKey {
    let due = card.due as i128;
    let deck = card.deck_id as i128;
    let h = hash as i128;
    let id = card.id as i128;
    let f = spec_sm2_overdue_fraction(card, days_elapsed);
    match order {
        ReviewCardOrder::Day => SortKey { a: due, num: 0, den: 1, b: h, c: id },
        ReviewCardOrder::DayThenDeck => SortKey { a: due, num: 0, den: 1, b: deck, c: h },
        ReviewCardOrder::DeckThenDay => SortKey { a: deck, num: 0, den: 1, b: due, c: h },
        ReviewCardOrder::IntervalsAscending => SortKey { a: card.interval as i128, num: 0, den: 1, b: h, c: id },
        ReviewCardOrder::IntervalsDescending => SortKey { a: (-(card.interval as int)) as i128, num: 0, den: 1, b: h, c: id },
        ReviewCardOrder::EaseAscending => SortKey { a: card.ease_factor as i128, num: 0, den: 1, b: h, c: id },
        ReviewCardOrder::EaseDescending => SortKey { a: (-(card.ease_factor as int)) as i128, num: 0, den: 1, b: h, c: id },
        ReviewCardOrder::Random => SortKey { a: salt_hash as i128, num: 0, den: 1, b: id, c: 0 },
        ReviewCardOrder::Added => SortKey { a: card.note_id as i128, num: 0, den: 1, b: card.template_idx as i128, c: h },
        ReviewCardOrder::ReverseAdded => SortKey {
            a: (-(card.note_id as int)) as i128,
            num: 0,
            den: 1,
            b: card.template_idx as i128,
            c: h,
        },
        ReviewCardOrder::RetrievabilityDescending => SortKey { a: 0, num: f.0 as i128, den: f.1 as i128, b: h, c: id },
        _ => SortKey { a: 0, num: (-f.0) as i128, den: f.1 as i128, b: h, c: id },
    }
}

pub fn review_order_key(card: &Card, order: ReviewCardOrder, days_elapsed: u32, hash: i64, salt_hash: i64) -> (key: SortKey)
    ensures
        key_bounded(key),
        key == spec_review_order_key(*card, order, days_elapsed, hash, salt_hash),
{
    let due = card.due as i128;
    let deck = card.deck_id as i128;
    let h = hash as i128;
    match order {
        ReviewCardOrder::Day => simple_key(due, h, card.id as i128),
        ReviewCardOrder::DayThenDeck => simple_key(due, deck, h),
        ReviewCardOrder::DeckThenDay => simple_key(deck, due, h),
        ReviewCardOrder::IntervalsAscending => simple_key(card.interval as i128, h, card.id as i128),
        ReviewCardOrder::IntervalsDescending => simple_key(-(card.interval as i128), h, card.id as i128),
        ReviewCardOrder::EaseAscending => simple_key(card.ease_factor as i128, h, card.id as i128),
        ReviewCardOrder::EaseDescending => simple_key(-(card.ease_factor as i128), h, card.id as i128),
        ReviewCardOrder::Random => simple_key(salt_hash as i128, card.id as i128, 0),
        ReviewCardOrder::Added => simple_key(card.note_id as i128, card.template_idx as i128, h),
        ReviewCardOrder::ReverseAdded => simple_key(-(card.note_id as i128), card.template_idx as i128, h),
        ReviewCardOrder::RetrievabilityDescending => {
            // the most overdue last: the overdue fraction, negated
            let (num, den) = sm2_overdue_fraction(card, days_elapsed);
            SortKey { a: 0, num, den, b: h, c: card.id as i128 }
        },
        ReviewCardOrder::RetrievabilityAscending | ReviewCardOrder::RelativeOverdueness => {
            let (num, den) = sm2_overdue_fraction(card, days_elapsed);
            SortKey { a: 0, num: -num, den, b: h, c: card.id as i128 }
        },
    }
}

/// The share of a card's interval that has passed since its review
/// (plus a thousandth of a day, so that cards due today sort by interval),
/// as a fraction: (elapsed days * 1000 + 1) / (interval * 1000).
pub open spec fn spec_sm2_overdue_fraction(card: Card, days_elapsed: u32) -> (int, int) {
    let interval = if card.interval > 0 {
        card.interval as int
    } else {
        1
    };
    let elapsed = days_elapsed - (card.due - card.interval);
    (elapsed * 1000 + 1, interval * 1000)
}

fn sm2_overdue_fraction(card: &Card, days_elapsed: u32) -> (frac: (i128, i128))
    ensures
        frac.0 == spec_sm2_overdue_fraction(*card, days_elapsed).0,
        frac.1 == spec_sm2_overdue_fraction(*card, days_elapsed).1,
        0 < frac.1 < 0x8000_0000_0000_0000,
        -0x8000_0000_0000_0000 < frac.0 < 0x8000_0000_0000_0000,
        -0x8000_0000_0000_0000 < -frac.0 < 0x8000_0000_0000_0000,
{
    let interval: i128 = if card.interval > 0 {
        card.interval as i128
    } else {
        1
    };
    let elapsed: i128 = days_elapsed as i128 - (card.due as i128 - card.interval as i128);
    (elapsed * 1000 + 1, interval * 1000)
}

/// A sibling seen earlier buries the due card: a review by its note's
/// "bury reviews", an interday learning card (when it counts as interday)
/// by its "bury interday learning".
pub open spec fn due_buried(seen: Seq<(i64, BuryMode)>, card: DueCard, interday_or_review: bool) -> bool {
    match spec_seen_mode(seen, card.note_id) {
        Some(previous) => match card.kind {
            DueCardKind::Review => previous.bury_reviews,
            DueCardKind::Learning => interday_or_review && previous.bury_interday_learning,
        },
        None => false,
    }
}

/// A sibling seen earlier buries the new card.
pub open spec fn new_buried(seen: Seq<(i64, BuryMode)>, card: NewCard) -> bool {
    spec_seen_mode(seen, card.note_id) matches Some(previous) && previous.bury_new
}

/// No deck got more left, and every note seen stays seen with at least its
/// bury flags.
pub open spec fn state_grows(before: QueueBuilder, after: QueueBuilder) -> bool {
    &&& nodes_not_up(before.limits.nodes@, after.limits.nodes@)
    &&& seen_widens(before.context.seen_note_ids@, after.context.seen_note_ids@)
}

pub proof fn lemma_state_grows_refl(b: QueueBuilder)
    ensures
        state_grows(b, b),
{
    lemma_nodes_not_up_refl(b.limits.nodes@);
    lemma_seen_widens_refl(b.context.seen_note_ids@);
}

pub proof fn lemma_state_grows_trans(a: QueueBuilder, b: QueueBuilder, c: QueueBuilder)
    requires
        state_grows(a, b),
        state_grows(b, c),
    ensures
        state_grows(a, c),
{
    lemma_nodes_not_up_trans(a.limits.nodes@, b.limits.nodes@, c.limits.nodes@);
    lemma_seen_widens_trans(a.context.seen_note_ids@, b.context.seen_note_ids@, c.context.seen_note_ids@);
}

/// A review the builder takes: its deck's limits leave room, it is not the
/// pinned card, and no sibling seen earlier buries it.
pub open spec fn review_taken(b: QueueBuilder, card: DueCard) -> bool {
    &&& !deck_reached(b.limits.nodes@, card.current_deck_id, LimitKind::Review)
    &&& b.pinned_card_id != Some(card.id)
    &&& !due_buried(b.context.seen_note_ids@, card, true)
}

/// The entry at `j` is the first in `s` for its id.
pub open spec fn first_entry_at(s: Seq<(i64, RwkvReviewQueueScoreEntry)>, j: int) -> bool {
    0 <= j < s.len() && forall|q: int| 0 <= q < j ==> #[trigger] s[q].0 != s[j].0
}

/// The retention the relative-overdueness priority divides the card's
/// retrievability by: its score's target, else its preset's.
pub open spec fn ranking_target(b: QueueBuilder, col: Collection, card: Card, entry: RwkvReviewQueueScoreEntry) -> u32 {
    match entry.target_retention {
        Some(t) => t,
        None => spec_candidate_metadata(
            card,
            b.context.timing,
            spec_preset_retention(col.decks@, col.configs@, card),
        ).desired_retention,
    }
}

/// The priority order leaves the card out: relative overdueness with no
/// retention to divide by.
pub open spec fn left_out_of_ranking(b: QueueBuilder, col: Collection, card: Card, entry: RwkvReviewQueueScoreEntry) -> bool {
    b.context.sort_options.review_order == ReviewCardOrder::RelativeOverdueness && ranking_target(b, col, card, entry) == 0
}

/// The priority order ranks the scored id: any order but relative
/// overdueness does; that one needs the id's card and a retention.
pub open spec fn ranked_id(b: QueueBuilder, col: Collection, id: i64, entry: RwkvReviewQueueScoreEntry) -> bool {
    ||| b.context.sort_options.review_order != ReviewCardOrder::RelativeOverdueness
    ||| exists|c: int| #[trigger] first_card_of(col.cards@, id, c) && !left_out_of_ranking(b, col, col.cards@[c], entry)
}

/// A scored card's priority in the order RWKV-Instant ranks by, as a
/// fraction: its retrievability (negated for the descending order, over
/// its ranking target for relative overdueness); none where relative
/// overdueness has no card or no target to divide by.
pub open spec fn priority_fraction(b: QueueBuilder, col: Collection, id: i64, e: RwkvReviewQueueScoreEntry) -> Option<(int, int)> {
    let r = e.retrievability as int;
    if b.context.sort_options.review_order == ReviewCardOrder::RetrievabilityDescending {
        Some((-r, 1))
    } else if b.context.sort_options.review_order == ReviewCardOrder::RelativeOverdueness {
        if exists|c: int| #[trigger] first_card_of(col.cards@, id, c) {
            let c = choose|c: int| #[trigger] first_card_of(col.cards@, id, c);
            let t = ranking_target(b, col, col.cards@[c], e);
            if t == 0 {
                None
            } else {
                Some((r, t as int))
            }
        } else {
            None
        }
    } else {
        Some((r, 1))
    }
}

/// A review's key in the order RWKV-Instant ranks by: the priority of its
/// card's own score, ties by card id; a card without one goes last.
pub open spec fn rwkv_priority_key(b: QueueBuilder, col: Collection, id: i64) -> SortKey {
    match b.context.rwkv_review_queue_scores {
        Some(scores) => match first_score(scores@, id) {
            Some(e) => match priority_fraction(b, col, id, e) {
                Some(f) => SortKey { a: 0, num: f.0 as i128, den: f.1 as i128, b: id as i128, c: 0 },
                None => SortKey { a: 1, num: 0, den: 1, b: 0, c: 0 },
            },
            None => SortKey { a: 1, num: 0, den: 1, b: 0, c: 0 },
        },
        None => SortKey { a: 1, num: 0, den: 1, b: 0, c: 0 },
    }
}

/// Some entry before `i` has this id.
pub open spec fn id_seen_before(scores: Seq<(i64, RwkvReviewQueueScoreEntry)>, id: i64, i: int) -> bool {
    exists|j: int| 0 <= j < i && (#[trigger] scores[j]).0 == id
}

/// The key the sort by priority gives a card is its RWKV priority key:
/// the ranking holds each scored id once, with its own score's priority,
/// and every id the priority order ranks.
proof fn lemma_priority_key_agrees(
    b: QueueBuilder,
    col: Collection,
    scores: Seq<(i64, RwkvReviewQueueScoreEntry)>,
    ids: Seq<i64>,
    entries: Seq<RwkvReviewQueueScoreEntry>,
    keys: Seq<SortKey>,
    id: i64,
)
    requires
        b.context.rwkv_review_queue_scores matches Some(sc) && sc@ == scores,
        ids.len() == keys.len(),
        entries.len() == keys.len(),
        forall|a: int, c: int| 0 <= a < c < ids.len() ==> #[trigger] ids[a] != #[trigger] ids[c],
        forall|m: int| 0 <= m < ids.len() ==> first_score(scores, #[trigger] ids[m]) == Some(entries[m]),
        forall|m: int|
            0 <= m < keys.len() ==> priority_fraction(b, col, ids[m], entries[m]) == Some(
                ((#[trigger] keys[m]).num as int, keys[m].den as int),
            ) && keys[m].a == 0 && keys[m].b == ids[m] && keys[m].c == 0,
        forall|j: int|
            0 <= j < scores.len() && #[trigger] first_entry_at(scores, j) && ranked_id(b, col, scores[j].0, scores[j].1)
                ==> ids.contains(scores[j].0),
        forall|m: int| 0 <= m < keys.len() ==> key_bounded(#[trigger] keys[m]),
    ensures
        priority_key(ids, keys, id) == rwkv_priority_key(b, col, id),
{
    if ids.contains(id) {
        let f = choose|f: int| 0 <= f < ids.len() && ids[f] == id;
        assert forall|q: int| 0 <= q < f implies ids[q] != id by {
            assert(ids[q] != ids[f]);
        }
        assert(first_index_of(ids, id, f));
        lemma_index_of_id(ids, id, f);
        assert(first_score(scores, ids[f]) == Some(entries[f]));
        assert(keys[f].num as int == (keys[f].num as int) as i128);
    } else {
        assert forall|j: int| 0 <= j < ids.len() implies ids[j] != id by {
            assert(!(ids[j] == id));
        }
        lemma_index_of_id_none(ids, id);
        if first_score(scores, id) is Some {
            let j = lemma_first_score_index(scores, id);
            assert(first_entry_at(scores, j));
            let e = first_score(scores, id)->0;
            if priority_fraction(b, col, id, e) is Some {
                if b.context.sort_options.review_order == ReviewCardOrder::RelativeOverdueness {
                    let c = choose|c: int| #[trigger] first_card_of(col.cards@, id, c);
                    assert(!left_out_of_ranking(b, col, col.cards@[c], e));
                }
                assert(ranked_id(b, col, scores[j].0, scores[j].1));
            }
        }
    }
}

/// The card's score leaves it out of the priority order.
pub open spec fn score_left_out(b: QueueBuilder, col: Collection, card: Card) -> bool {
    match b.context.rwkv_review_queue_scores {
        Some(scores) => match first_score(scores@, card.id) {
            Some(e) => left_out_of_ranking(b, col, card, e),
            None => false,
        },
        None => false,
    }
}

/// The first card with this id, when it is an active review card its score
/// `entry` makes eligible (as `b0` judges), is held in `b`.
pub open spec fn scored_id_held(b0: QueueBuilder, b: QueueBuilder, col: Collection, id: i64, entry: RwkvReviewQueueScoreEntry) -> bool {
    forall|i: int|
        #[trigger] first_card_of(col.cards@, id, i) && is_active_review_card(b0, col.cards@[i])
            && spec_scored_eligibility(b0, col, col.cards@[i], entry, false) == RwkvReviewScoreEligibility::Eligible
            ==> due_held(b, DueCardKind::Review, DueCard::spec_from_card(col.cards@[i], DueCardKind::Review))
}

/// A scored card held stays held as the gathering goes on.
pub proof fn lemma_scored_id_held_stays(
    b0: QueueBuilder,
    cur: QueueBuilder,
    next: QueueBuilder,
    col: Collection,
    id: i64,
    entry: RwkvReviewQueueScoreEntry,
)
    requires
        scored_id_held(b0, cur, col, id, entry),
        state_grows(cur, next),
        root_left_not_up(cur, next),
        cur.pinned_card_id == next.pinned_card_id,
        forall|x: DueCard| cur.review@.contains(x) ==> next.review@.contains(x),
        cur.day_learning == next.day_learning,
    ensures
        scored_id_held(b0, next, col, id, entry),
{
    assert forall|i: int|
        #[trigger] first_card_of(col.cards@, id, i) && is_active_review_card(b0, col.cards@[i])
            && spec_scored_eligibility(b0, col, col.cards@[i], entry, false) == RwkvReviewScoreEligibility::Eligible
            implies due_held(next, DueCardKind::Review, DueCard::spec_from_card(col.cards@[i], DueCardKind::Review)) by {
        lemma_due_held_stays(cur, next, DueCardKind::Review, DueCard::spec_from_card(col.cards@[i], DueCardKind::Review));
    }
}

/// The first card with this id, when it is an active review card that
/// only the retention of its score `entry` blocks (as `b0` judges), is held
/// in `b`, or its deck no longer wants RWKV reviews there.
pub open spec fn minimum_id_held(
    b0: QueueBuilder,
    b: QueueBuilder,
    col: Collection,
    id: i64,
    entry: RwkvReviewQueueScoreEntry,
) -> bool {
    forall|i: int|
        #[trigger] first_card_of(col.cards@, id, i) && is_active_review_card(b0, col.cards@[i])
            && spec_scored_eligibility(b0, col, col.cards@[i], entry, false) == RwkvReviewScoreEligibility::Blocked
            && spec_scored_eligibility(b0, col, col.cards@[i], entry, true) == RwkvReviewScoreEligibility::Eligible
            ==> due_held(b, DueCardKind::Review, DueCard::spec_from_card(col.cards@[i], DueCardKind::Review))
            || !deck_wants_minimum(b.limits.nodes@, col.cards@[i].deck_id)
}

/// A card the daily minimum held stays held as the gathering goes on.
pub proof fn lemma_minimum_id_held_stays(
    b0: QueueBuilder,
    cur: QueueBuilder,
    next: QueueBuilder,
    col: Collection,
    id: i64,
    entry: RwkvReviewQueueScoreEntry,
)
    requires
        minimum_id_held(b0, cur, col, id, entry),
        state_grows(cur, next),
        root_left_not_up(cur, next),
        cur.pinned_card_id == next.pinned_card_id,
        forall|x: DueCard| cur.review@.contains(x) ==> next.review@.contains(x),
        cur.day_learning == next.day_learning,
    ensures
        minimum_id_held(b0, next, col, id, entry),
{
    assert forall|i: int|
        #[trigger] first_card_of(col.cards@, id, i) && is_active_review_card(b0, col.cards@[i])
            && spec_scored_eligibility(b0, col, col.cards@[i], entry, false) == RwkvReviewScoreEligibility::Blocked
            && spec_scored_eligibility(b0, col, col.cards@[i], entry, true) == RwkvReviewScoreEligibility::Eligible
            implies due_held(next, DueCardKind::Review, DueCard::spec_from_card(col.cards@[i], DueCardKind::Review))
            || !deck_wants_minimum(next.limits.nodes@, col.cards@[i].deck_id) by {
        let c = DueCard::spec_from_card(col.cards@[i], DueCardKind::Review);
        if due_held(cur, DueCardKind::Review, c) {
            lemma_due_held_stays(cur, next, DueCardKind::Review, c);
        } else {
            lemma_minimum_done_stays(cur.limits.nodes@, next.limits.nodes@, col.cards@[i].deck_id);
        }
    }
}

/// The first card with this id is held by the daily minimum in `b` when
/// it is so, or its deck no longer wants reviews, or its score does not
/// make it a card only the retention blocks.
proof fn lemma_minimum_held_at(
    b0: QueueBuilder,
    b: QueueBuilder,
    col: Collection,
    id: i64,
    entry: RwkvReviewQueueScoreEntry,
    c: int,
)
    requires
        first_card_of(col.cards@, id, c),
        due_held(b, DueCardKind::Review, DueCard::spec_from_card(col.cards@[c], DueCardKind::Review))
            || !deck_wants_minimum(b.limits.nodes@, col.cards@[c].deck_id)
            || spec_scored_eligibility(b0, col, col.cards@[c], entry, false) != RwkvReviewScoreEligibility::Blocked
            || spec_scored_eligibility(b0, col, col.cards@[c], entry, true) != RwkvReviewScoreEligibility::Eligible,
    ensures
        minimum_id_held(b0, b, col, id, entry),
{
    assert forall|i: int|
        #[trigger] first_card_of(col.cards@, id, i) && is_active_review_card(b0, col.cards@[i])
            && spec_scored_eligibility(b0, col, col.cards@[i], entry, false) == RwkvReviewScoreEligibility::Blocked
            && spec_scored_eligibility(b0, col, col.cards@[i], entry, true) == RwkvReviewScoreEligibility::Eligible
            implies due_held(b, DueCardKind::Review, DueCard::spec_from_card(col.cards@[i], DueCardKind::Review))
            || !deck_wants_minimum(b.limits.nodes@, col.cards@[i].deck_id) by {
        if i < c {
            assert(col.cards@[i].id != id);
        } else if i > c {
            assert(col.cards@[c].id != id);
        }
    }
}

/// The first card of the collection with this id.
pub open spec fn first_card_of(cards: Seq<Card>, card_id: i64, i: int) -> bool {
    0 <= i < cards.len() && cards[i].id == card_id && forall|j: int| 0 <= j < i ==> #[trigger] cards[j].id != card_id
}

impl QueueBuilder {
    /// Whether a due card may go in (its note's earlier card does not bury
    /// it); records the card's note either way. A pinned card never does.
    pub fn add_due_card_for_retrievability_sort(&mut self, col: &Collection, card: DueCard, interday_or_review: bool) -> (added: bool)
        requires
            old(self).inv(),
        ensures
            state_grows(*old(self), *final(self)),
            final(self).inv(),
            setup_same(*old(self), *final(self)),
            final(self).limits == old(self).limits,
            final(self).review == old(self).review,
            final(self).day_learning == old(self).day_learning,
            final(self).new == old(self).new,
            final(self).learning == old(self).learning,
            final(self).r_sorted_non_new == old(self).r_sorted_non_new,
            final(self).deferred_rwkv_reviews == old(self).deferred_rwkv_reviews,
            old(self).pinned_card_id == Some(card.id) ==> !added,
            added == (old(self).pinned_card_id != Some(card.id) && !due_buried(
                old(self).context.seen_note_ids@,
                card,
                interday_or_review,
            )),
    {
        if self.card_is_pinned(card.id) {
            return false;
        }
        let mode = bury_mode_of_card(col, card.current_deck_id, card.original_deck_id);
        let bury = match self.get_and_update_bury_mode_for_note(card.note_id, mode) {
            Some(previous) => match card.kind {
                DueCardKind::Review => previous.bury_reviews,
                DueCardKind::Learning => interday_or_review && previous.bury_interday_learning,
            },
            None => false,
        };
        !bury
    }

    /// Adds a due card to its list unless it is buried or pinned; true when
    /// the limit should count it.
    pub fn add_due_card(&mut self, col: &Collection, card: DueCard) -> (added: bool)
        requires
            old(self).inv(),
        ensures
            state_grows(*old(self), *final(self)),
            final(self).inv(),
            setup_same(*old(self), *final(self)),
            final(self).limits == old(self).limits,
            final(self).new == old(self).new,
            final(self).learning == old(self).learning,
            final(self).r_sorted_non_new == old(self).r_sorted_non_new,
            final(self).deferred_rwkv_reviews == old(self).deferred_rwkv_reviews,
            added && card.kind == DueCardKind::Review ==> final(self).review@ == old(self).review@.push(card)
                && final(self).day_learning == old(self).day_learning,
            added && card.kind == DueCardKind::Learning ==> final(self).day_learning@
                == old(self).day_learning@.push(card) && final(self).review == old(self).review,
            !added ==> final(self).review == old(self).review && final(self).day_learning
                == old(self).day_learning,
            old(self).pinned_card_id == Some(card.id) ==> !added,
            added == (old(self).pinned_card_id != Some(card.id) && !due_buried(old(self).context.seen_note_ids@, card, true)),
    {
        if self.card_is_pinned(card.id) {
            return false;
        }
        let added = self.add_due_card_for_retrievability_sort(col, card, true);
        if added {
            match card.kind {
                DueCardKind::Review => self.review.push(card),
                DueCardKind::Learning => self.day_learning.push(card),
            }
        }
        added
    }

    /// Adds a new card unless it is buried or pinned; true when the limit
    /// should count it.
    pub fn add_new_card(&mut self, col: &Collection, card: NewCard) -> (added: bool)
        requires
            old(self).inv(),
        ensures
            state_grows(*old(self), *final(self)),
            final(self).inv(),
            setup_same(*old(self), *final(self)),
            final(self).limits == old(self).limits,
            final(self).review == old(self).review,
            final(self).day_learning == old(self).day_learning,
            final(self).learning == old(self).learning,
            final(self).r_sorted_non_new == old(self).r_sorted_non_new,
            final(self).deferred_rwkv_reviews == old(self).deferred_rwkv_reviews,
            added ==> final(self).new@ == old(self).new@.push(card),
            !added ==> final(self).new == old(self).new,
            old(self).pinned_card_id == Some(card.id) ==> !added,
            added == (old(self).pinned_card_id != Some(card.id) && !new_buried(old(self).context.seen_note_ids@, card)),
    {
        if self.card_is_pinned(card.id) {
            return false;
        }
        let mode = bury_mode_of_card(col, card.current_deck_id, card.original_deck_id);
        let bury = match self.get_and_update_bury_mode_for_note(card.note_id, mode) {
            Some(previous) => previous.bury_new,
            None => false,
        };
        if bury {
            false
        } else {
            self.new.push(card);
            true
        }
    }

    /// Takes a card against the limits of its deck, if the deck is one of
    /// the studied ones.
    pub(crate) fn reserve(&mut self, deck_id: i64, kind: LimitKind)
        requires
            old(self).inv(),
        ensures
            state_grows(*old(self), *final(self)),
            final(self).inv(),
            setup_same(*old(self), *final(self)),
            final(self).review == old(self).review,
            final(self).day_learning == old(self).day_learning,
            final(self).new == old(self).new,
            final(self).learning == old(self).learning,
            final(self).r_sorted_non_new == old(self).r_sorted_non_new,
            final(self).deferred_rwkv_reviews == old(self).deferred_rwkv_reviews,
            root_left_not_up(*old(self), *final(self)),
            kind == LimitKind::New && has_limits(*old(self), deck_id) && left(old(self).limits.nodes@[0], LimitKind::New) > 0
                ==> left(final(self).limits.nodes@[0], LimitKind::New) == left(old(self).limits.nodes@[0], LimitKind::New) - 1
                && left(final(self).limits.nodes@[0], LimitKind::Review) == left(old(self).limits.nodes@[0], LimitKind::Review)
                - 1,
            kind == LimitKind::Review && has_limits(*old(self), deck_id) && left(old(self).limits.nodes@[0], LimitKind::Review)
                > 0 ==> left(final(self).limits.nodes@[0], LimitKind::Review) == left(
                old(self).limits.nodes@[0],
                LimitKind::Review,
            ) - 1,
            final(self).limits.nodes@ == reserved_for_deck(old(self).limits.nodes@, deck_id, kind),
    {
        if let Some(index) = self.limits.index_of(deck_id) {
            proof {
                lemma_reserved_root(self.limits.nodes@, index as int, kind);
                assert(first_node_of(self.limits.nodes@, deck_id, index as int));
                let c = choose|i: int| #[trigger] first_node_of(self.limits.nodes@, deck_id, i);
                if c < index {
                    assert(self.limits.nodes@[c].deck_id != deck_id);
                } else if c > index {
                    assert(self.limits.nodes@[index as int].deck_id != deck_id);
                }
            }
            self.limits.reserve(index, kind);
        } else {
            proof {
                assert forall|i: int| !#[trigger] first_node_of(self.limits.nodes@, deck_id, i) by {
                    if 0 <= i < self.limits.nodes@.len() {
                        assert(self.limits.nodes@[i].deck_id != deck_id);
                    }
                }
            }
        }
    }

    /// The card's deck (or one above it) has nothing left of `kind`. A deck
    /// outside the studied tree counts as reached.
    pub(crate) fn deck_limit_reached(&self, deck_id: i64, kind: LimitKind) -> (reached: bool)
        requires
            self.inv(),
        ensures
            !reached ==> has_limits(*self, deck_id) && left(self.limits.nodes@[0], kind) > 0,
            reached == deck_reached(self.limits.nodes@, deck_id, kind),
    {
        match self.limits.index_of(deck_id) {
            Some(index) => {
                let reached = self.limits.limit_reached(index, kind);
                proof {
                    if !reached {
                        lemma_not_reached_root(self.limits.nodes@, index as int, kind);
                    }
                    assert forall|i: int| #[trigger] first_node_of(self.limits.nodes@, deck_id, i) implies i == index by {
                        if i < index {
                            assert(self.limits.nodes@[i].deck_id != deck_id);
                        } else if i > index {
                            assert(self.limits.nodes@[index as int].deck_id != deck_id);
                        }
                    }
                    assert(first_node_of(self.limits.nodes@, deck_id, index as int));
                }
                reached
            },
            None => {
                proof {
                    assert forall|i: int| #[trigger] first_node_of(self.limits.nodes@, deck_id, i) implies chain_reached(
                        self.limits.nodes@,
                        i,
                        kind,
                    ) by {
                        assert(self.limits.nodes@[i].deck_id == deck_id);
                    }
                }
                true
            },
        }
    }
}


/// The deck has limits of its own in the builder's tree.
pub open spec fn has_limits(b: QueueBuilder, deck_id: i64) -> bool {
    exists|j: int| 0 <= j < b.limits.nodes@.len() && #[trigger] b.limits.nodes@[j].deck_id == deck_id
}

/// What the root has left of new cards and of reviews did not grow.
pub open spec fn root_left_not_up(before: QueueBuilder, after: QueueBuilder) -> bool {
    &&& left(after.limits.nodes@[0], LimitKind::New) <= left(before.limits.nodes@[0], LimitKind::New)
    &&& left(after.limits.nodes@[0], LimitKind::Review) <= left(before.limits.nodes@[0], LimitKind::Review)
}

/// The new cards of the queue and what the root has left of them: taking a
/// new card spends one of what is left.
pub open spec fn new_budget(b: QueueBuilder) -> int {
    b.new@.len() + left(b.limits.nodes@[0], LimitKind::New)
}

/// The new, review and interday learning cards of the queue and what the
/// root has left of reviews: taking any of them spends one of what is left.
pub open spec fn review_budget(b: QueueBuilder) -> int {
    b.new@.len() + b.review@.len() + b.day_learning@.len() + left(b.limits.nodes@[0], LimitKind::Review)
}

/// The gathering kept to the limits: what the root has left did not grow,
/// and each card taken spent one of what it had left.
pub open spec fn within_limits(before: QueueBuilder, after: QueueBuilder) -> bool {
    &&& root_left_not_up(before, after)
    &&& new_budget(after) <= new_budget(before)
    &&& review_budget(after) <= review_budget(before)
}

/// The decks of the cards, in order.
pub open spec fn deck_ids_of(cards: Seq<DueCard>) -> Seq<i64> {
    Seq::new(cards.len(), |t: int| cards[t].current_deck_id)
}

/// The limits went down by one review for each of `taken`, and nothing
/// else: each is among the reviews, which grew by as many.
pub open spec fn limits_spent_on(before: QueueBuilder, after: QueueBuilder, taken: Seq<DueCard>) -> bool {
    &&& after.limits.nodes@ == reviews_reserved(before.limits.nodes@, deck_ids_of(taken))
    &&& after.review@.len() == before.review@.len() + taken.len()
    &&& forall|t: int| 0 <= t < taken.len() ==> after.review@.contains(#[trigger] taken[t])
}

/// Every review the limits count was taken into the reviews.
pub open spec fn limits_spent_on_reviews(before: QueueBuilder, after: QueueBuilder) -> bool {
    exists|taken: Seq<DueCard>| #[trigger] limits_spent_on(before, after, taken)
}

/// Nothing taken, nothing spent.
pub proof fn lemma_spent_nothing(b: QueueBuilder)
    ensures
        limits_spent_on(b, b, Seq::<DueCard>::empty()),
        limits_spent_on_reviews(b, b),
{
    assert(deck_ids_of(Seq::<DueCard>::empty()) =~= Seq::<i64>::empty());
    assert(limits_spent_on(b, b, Seq::<DueCard>::empty()));
}

/// A step that took the review `x`, or took nothing.
pub proof fn lemma_spent_step(b0: QueueBuilder, cur: QueueBuilder, next: QueueBuilder, taken: Seq<DueCard>, x: DueCard) -> (t2: Seq<DueCard>)
    requires
        limits_spent_on(b0, cur, taken),
        (next.review@ == cur.review@ && next.limits.nodes@ == cur.limits.nodes@) || (next.review@ == cur.review@.push(x)
            && next.limits.nodes@ == reserved_for_deck(cur.limits.nodes@, x.current_deck_id, LimitKind::Review)),
    ensures
        limits_spent_on(b0, next, t2),
        limits_spent_on_reviews(b0, next),
{
    if next.review@ == cur.review@ && next.limits.nodes@ == cur.limits.nodes@ {
        assert(limits_spent_on(b0, next, taken));
        taken
    } else {
        let t2 = taken.push(x);
        assert(deck_ids_of(t2) =~= deck_ids_of(taken).push(x.current_deck_id));
        lemma_reviews_reserved_push(b0.limits.nodes@, deck_ids_of(taken), x.current_deck_id);
        assert forall|t: int| 0 <= t < t2.len() implies next.review@.contains(#[trigger] t2[t]) by {
            if t < taken.len() {
                assert(cur.review@.contains(taken[t]));
                let j = choose|j: int| 0 <= j < cur.review@.len() && cur.review@[j] == taken[t];
                assert(next.review@[j] == taken[t]);
            } else {
                assert(next.review@[cur.review@.len() as int] == x);
            }
        }
        assert(limits_spent_on(b0, next, t2));
        t2
    }
}

/// Two gatherings in turn spend on the reviews both took.
pub proof fn lemma_spent_trans(a: QueueBuilder, b: QueueBuilder, c: QueueBuilder)
    requires
        limits_spent_on_reviews(a, b),
        limits_spent_on_reviews(b, c),
        forall|x: DueCard| b.review@.contains(x) ==> c.review@.contains(x),
    ensures
        limits_spent_on_reviews(a, c),
{
    let t1 = choose|t: Seq<DueCard>| #[trigger] limits_spent_on(a, b, t);
    let t2 = choose|t: Seq<DueCard>| #[trigger] limits_spent_on(b, c, t);
    let t = t1 + t2;
    assert(deck_ids_of(t) =~= deck_ids_of(t1) + deck_ids_of(t2));
    lemma_reviews_reserved_append(a.limits.nodes@, deck_ids_of(t1), deck_ids_of(t2));
    assert forall|k: int| 0 <= k < t.len() implies c.review@.contains(#[trigger] t[k]) by {
        if k < t1.len() {
            assert(t[k] == t1[k]);
            assert(b.review@.contains(t1[k]));
        } else {
            assert(t[k] == t2[k - t1.len()]);
        }
    }
    assert(limits_spent_on(a, c, t));
}

/// Reordering the reviews keeps what the limits were spent on.
pub proof fn lemma_spent_reordered(a: QueueBuilder, b: QueueBuilder, c: QueueBuilder)
    requires
        limits_spent_on_reviews(a, b),
        c.limits.nodes@ == b.limits.nodes@,
        c.review@.len() == b.review@.len(),
        forall|x: DueCard| b.review@.contains(x) ==> c.review@.contains(x),
    ensures
        limits_spent_on_reviews(a, c),
{
    let t = choose|t: Seq<DueCard>| #[trigger] limits_spent_on(a, b, t);
    assert forall|k: int| 0 <= k < t.len() implies c.review@.contains(#[trigger] t[k]) by {
        assert(b.review@.contains(t[k]));
    }
    assert(limits_spent_on(a, c, t));
}

/// Why the card being studied could not be kept in the queue.
#[derive(Clone, Copy, Debug, PartialEq, Eq, Structural)]
pub enum PinCardError {
    /// A card is kept already; a queue keeps one.
    AlreadyPinned,
    /// The current new card was buried by a sibling.
    NewCardBuried,
    /// The current review card was buried by a sibling.
    ReviewCardBuried,
    /// The card is suspended or buried.
    NotEligible,
}

/// What the queue holds of a card in the review or day-learning queue.
pub open spec fn pinned_due_card(card: Card) -> DueCard {
    DueCard::spec_from_card(
        card,
        if card.queue == CardQueue::Review {
            DueCardKind::Review
        } else {
            DueCardKind::Learning
        },
    )
}

impl QueueBuilder {
    /// Keeps the card being studied in the queue: it goes in before anything
    /// is gathered (and is then skipped by the gathering), taking its share
    /// of the limits; a learning card goes in whatever its due time.
    pub fn pin_current_card(&mut self, col: &Collection, card: &Card) -> (result: Result<(), PinCardError>)
        requires
            old(self).inv(),
        ensures
            final(self).inv(),
            setup_same(*old(self), (QueueBuilder { pinned_card_id: old(self).pinned_card_id, ..*final(self) })),
            final(self).deferred_rwkv_reviews == old(self).deferred_rwkv_reviews,
            old(self).pinned_card_id is Some ==> result == Err::<(), PinCardError>(PinCardError::AlreadyPinned)
                && *final(self) == *old(self),
            old(self).pinned_card_id is None ==> match card.queue {
                CardQueue::Suspended | CardQueue::SchedBuried | CardQueue::UserBuried => result == Err::<
                    (),
                    PinCardError,
                >(PinCardError::NotEligible) && *final(self) == *old(self),
                CardQueue::Learn | CardQueue::PreviewRepeat => {
                    &&& result is Ok
                    &&& final(self).learning@ == old(self).learning@.push(DueCard::spec_from_card(*card, DueCardKind::Learning))
                    &&& final(self).limits == old(self).limits
                    &&& final(self).new == old(self).new
                    &&& final(self).review == old(self).review
                    &&& final(self).day_learning == old(self).day_learning
                    &&& final(self).r_sorted_non_new == old(self).r_sorted_non_new
                },
                CardQueue::New => {
                    &&& result is Ok <==> !new_buried(old(self).context.seen_note_ids@, spec_new_card_of(*card))
                    &&& result is Ok ==> final(self).limits.nodes@ == reserved_for_deck(
                        old(self).limits.nodes@,
                        card.deck_id,
                        LimitKind::New,
                    )
                    &&& result is Err ==> final(self).limits == old(self).limits
                    &&& result is Ok ==> final(self).new@ == old(self).new@.push(spec_new_card_of(*card))
                    &&& result is Err ==> result == Err::<(), PinCardError>(PinCardError::NewCardBuried)
                    &&& final(self).learning == old(self).learning
                    &&& final(self).review == old(self).review
                    &&& final(self).day_learning == old(self).day_learning
                    &&& final(self).r_sorted_non_new == old(self).r_sorted_non_new
                },
                CardQueue::Review | CardQueue::DayLearn => {
                    &&& result is Ok <==> !due_buried(old(self).context.seen_note_ids@, pinned_due_card(*card), true)
                    &&& result is Ok ==> final(self).limits.nodes@ == reserved_for_deck(
                        old(self).limits.nodes@,
                        card.deck_id,
                        LimitKind::Review,
                    )
                    &&& result is Err ==> final(self).limits == old(self).limits
                    &&& result is Err ==> result == Err::<(), PinCardError>(PinCardError::ReviewCardBuried)
                    &&& result is Ok && old(self).context.spec_non_news_sorted_by_retrievability() ==> final(self).r_sorted_non_new@
                        == old(self).r_sorted_non_new@.push(pinned_due_card(*card)) && final(self).review == old(self).review
                        && final(self).day_learning == old(self).day_learning
                    &&& result is Ok && !old(self).context.spec_non_news_sorted_by_retrievability() ==> final(self).r_sorted_non_new
                        == old(self).r_sorted_non_new && if card.queue == CardQueue::Review {
                        final(self).review@ == old(self).review@.push(pinned_due_card(*card)) && final(self).day_learning
                            == old(self).day_learning
                    } else {
                        final(self).day_learning@ == old(self).day_learning@.push(pinned_due_card(*card)) && final(self).review
                            == old(self).review
                    }
                    &&& final(self).new == old(self).new
                    &&& final(self).learning == old(self).learning
                },
            },
            result is Ok ==> final(self).pinned_card_id == Some(card.id),
            result is Err ==> final(self).pinned_card_id == old(self).pinned_card_id,
    {
        if self.pinned_card_id.is_some() {
            return Err(PinCardError::AlreadyPinned);
        }
        match card.queue {
            CardQueue::New => {
                let new_card = new_card_of(card);
                if !self.add_new_card(col, new_card) {
                    return Err(PinCardError::NewCardBuried);
                }
                self.reserve(card.deck_id, LimitKind::New);
            },
            CardQueue::Learn | CardQueue::PreviewRepeat => {
                let due_card = DueCard::from_card(card, DueCardKind::Learning);
                let mode = bury_mode_of_card(col, due_card.current_deck_id, due_card.original_deck_id);
                self.get_and_update_bury_mode_for_note(due_card.note_id, mode);
                self.learning.push(due_card);
            },
            CardQueue::Review | CardQueue::DayLearn => {
                let kind = if card.queue == CardQueue::Review {
                    DueCardKind::Review
                } else {
                    DueCardKind::Learning
                };
                let due_card = DueCard::from_card(card, kind);
                if self.context.non_news_sorted_by_retrievability() {
                    if !self.add_due_card_for_retrievability_sort(col, due_card, true) {
                        return Err(PinCardError::ReviewCardBuried);
                    }
                    self.r_sorted_non_new.push(due_card);
                } else {
                    if !self.add_due_card(col, due_card) {
                        return Err(PinCardError::ReviewCardBuried);
                    }
                }
                self.reserve(card.deck_id, LimitKind::Review);
            },
            CardQueue::Suspended | CardQueue::SchedBuried | CardQueue::UserBuried => {
                return Err(PinCardError::NotEligible);
            },
        }
        self.pinned_card_id = Some(card.id);
        Ok(())
    }
}

/// The position of the active review card with this id, if any.
pub open spec fn is_active_review_card(b: QueueBuilder, card: Card) -> bool {
    card.queue == CardQueue::Review && b.context.active_deck_ids@.contains(card.deck_id)
}

/// A card a scored gathering may add to the reviews: a review card of one
/// of the studied decks that has a score, other than the pinned card.
pub open spec fn scored_review_candidate(b: QueueBuilder, cards: Seq<Card>, c: DueCard) -> bool {
    &&& exists|i: int|
        0 <= i < cards.len() && #[trigger] is_active_review_card(b, cards[i]) && c == DueCard::spec_from_card(
            cards[i],
            DueCardKind::Review,
        )
    &&& b.pinned_card_id != Some(c.id)
    &&& b.context.rwkv_review_queue_scores matches Some(scores) && has_score(scores@, c.id)
}

/// Every review in `after` was already a review of `before`, or is a card
/// the scored gathering may add.
pub open spec fn reviews_from(before: QueueBuilder, after: Seq<DueCard>, cards: Seq<Card>) -> bool {
    forall|k: int|
        0 <= k < after.len() ==> before.review@.contains(#[trigger] after[k]) || scored_review_candidate(
            before,
            cards,
            after[k],
        )
}

/// Reviews taken from `mid` keep coming from `before`.
pub proof fn lemma_reviews_from_reordered(before: QueueBuilder, mid: Seq<DueCard>, after: Seq<DueCard>, cards: Seq<Card>)
    requires
        reviews_from(before, mid, cards),
        forall|k: int| 0 <= k < after.len() ==> mid.contains(#[trigger] after[k]),
    ensures
        reviews_from(before, after, cards),
{
    assert forall|k: int| 0 <= k < after.len() implies before.review@.contains(#[trigger] after[k])
        || scored_review_candidate(before, cards, after[k]) by {
        assert(mid.contains(after[k]));
        let j = choose|j: int| 0 <= j < mid.len() && mid[j] == after[k];
        assert(mid[j] == after[k]);
    }
}

/// The card with this id is one of the collection's cards, in one of the
/// studied decks.
pub open spec fn of_studied_decks(b: QueueBuilder, cards: Seq<Card>, id: i64) -> bool {
    exists|i: int|
        0 <= i < cards.len() && #[trigger] cards[i].id == id && b.context.active_deck_ids@.contains(cards[i].deck_id)
}

/// Every card of `after` was in `earlier`, or is a card of the studied decks.
pub open spec fn due_list_from(b: QueueBuilder, earlier: Seq<DueCard>, after: Seq<DueCard>, cards: Seq<Card>) -> bool {
    forall|k: int| 0 <= k < after.len() ==> earlier.contains(#[trigger] after[k]) || of_studied_decks(b, cards, after[k].id)
}

/// Every new card of `after` was in `earlier`, or is a card of the studied
/// decks.
pub open spec fn new_list_from(b: QueueBuilder, earlier: Seq<NewCard>, after: Seq<NewCard>, cards: Seq<Card>) -> bool {
    forall|k: int| 0 <= k < after.len() ==> earlier.contains(#[trigger] after[k]) || of_studied_decks(b, cards, after[k].id)
}

/// Whatever the gathering added to the lists of `before` on its way to
/// `after` is a card of the studied decks.
pub open spec fn gathered_from(before: QueueBuilder, after: QueueBuilder, cards: Seq<Card>) -> bool {
    &&& new_list_from(before, before.new@, after.new@, cards)
    &&& due_list_from(before, before.review@, after.review@, cards)
    &&& due_list_from(before, before.learning@, after.learning@, cards)
    &&& due_list_from(before, before.day_learning@, after.day_learning@, cards)
    &&& due_list_from(before, before.r_sorted_non_new@, after.r_sorted_non_new@, cards)
}

/// A list left as it was comes from itself.
pub proof fn lemma_due_list_same(b: QueueBuilder, list: Seq<DueCard>, cards: Seq<Card>)
    ensures
        due_list_from(b, list, list, cards),
{
    assert forall|k: int| 0 <= k < list.len() implies list.contains(#[trigger] list[k]) by {}
}

/// A list of new cards left as it was comes from itself.
pub proof fn lemma_new_list_same(b: QueueBuilder, list: Seq<NewCard>, cards: Seq<Card>)
    ensures
        new_list_from(b, list, list, cards),
{
    assert forall|k: int| 0 <= k < list.len() implies list.contains(#[trigger] list[k]) by {}
}

/// Two gatherings one after the other, with the same setup.
pub proof fn lemma_gathered_trans(a: QueueBuilder, b: QueueBuilder, c: QueueBuilder, cards: Seq<Card>)
    requires
        setup_same(a, b),
        gathered_from(a, b, cards),
        gathered_from(b, c, cards),
    ensures
        gathered_from(a, c, cards),
{
    lemma_due_list_trans(a, b, a.review@, b.review@, c.review@, cards);
    lemma_due_list_trans(a, b, a.learning@, b.learning@, c.learning@, cards);
    lemma_due_list_trans(a, b, a.day_learning@, b.day_learning@, c.day_learning@, cards);
    lemma_due_list_trans(a, b, a.r_sorted_non_new@, b.r_sorted_non_new@, c.r_sorted_non_new@, cards);
    assert forall|k: int| 0 <= k < c.new@.len() implies a.new@.contains(#[trigger] c.new@[k]) || of_studied_decks(
        a,
        cards,
        c.new@[k].id,
    ) by {
        if b.new@.contains(c.new@[k]) {
            let j = choose|j: int| 0 <= j < b.new@.len() && b.new@[j] == c.new@[k];
            assert(b.new@[j] == c.new@[k]);
        }
    }
}

proof fn lemma_due_list_trans(a: QueueBuilder, b: QueueBuilder, x: Seq<DueCard>, y: Seq<DueCard>, z: Seq<DueCard>, cards: Seq<Card>)
    requires
        setup_same(a, b),
        due_list_from(a, x, y, cards),
        due_list_from(b, y, z, cards),
    ensures
        due_list_from(a, x, z, cards),
{
    assert forall|k: int| 0 <= k < z.len() implies x.contains(#[trigger] z[k]) || of_studied_decks(a, cards, z[k].id) by {
        if y.contains(z[k]) {
            let j = choose|j: int| 0 <= j < y.len() && y[j] == z[k];
            assert(y[j] == z[k]);
        }
    }
}

/// A review the scored gathering adds is a card of the studied decks.
pub proof fn lemma_scored_reviews_gathered(before: QueueBuilder, after: Seq<DueCard>, cards: Seq<Card>)
    requires
        reviews_from(before, after, cards),
    ensures
        due_list_from(before, before.review@, after, cards),
{
    assert forall|k: int| 0 <= k < after.len() implies before.review@.contains(#[trigger] after[k]) || of_studied_decks(
        before,
        cards,
        after[k].id,
    ) by {
        if !before.review@.contains(after[k]) {
            let i = choose|i: int|
                0 <= i < cards.len() && #[trigger] is_active_review_card(before, cards[i]) && after[k]
                    == DueCard::spec_from_card(cards[i], DueCardKind::Review);
            assert(cards[i].id == after[k].id);
        }
    }
}

/// Nothing gathered.
pub proof fn lemma_gathered_nothing(b: QueueBuilder, cards: Seq<Card>)
    ensures
        gathered_from(b, b, cards),
{
    lemma_new_list_same(b, b.new@, cards);
    lemma_due_list_same(b, b.review@, cards);
    lemma_due_list_same(b, b.learning@, cards);
    lemma_due_list_same(b, b.day_learning@, cards);
    lemma_due_list_same(b, b.r_sorted_non_new@, cards);
}

/// Only scored reviews gathered.
pub proof fn lemma_gathered_scored_reviews(before: QueueBuilder, after: QueueBuilder, cards: Seq<Card>)
    requires
        reviews_from(before, after.review@, cards),
        after.new == before.new,
        after.learning == before.learning,
        after.day_learning == before.day_learning,
        after.r_sorted_non_new == before.r_sorted_non_new,
    ensures
        gathered_from(before, after, cards),
{
    lemma_gathered_nothing(before, cards);
    lemma_scored_reviews_gathered(before, after.review@, cards);
}

/// Each of `ids` has a score.
pub open spec fn ids_scored(b: QueueBuilder, ids: Seq<i64>) -> bool {
    b.context.rwkv_review_queue_scores matches Some(scores) && forall|m: int|
        0 <= m < ids.len() ==> #[trigger] has_score(scores@, ids[m])
}

/// Some entry of the scores is for this card.
pub open spec fn has_score(scores: Seq<(i64, RwkvReviewQueueScoreEntry)>, card_id: i64) -> bool {
    exists|s: int| 0 <= s < scores.len() && #[trigger] scores[s].0 == card_id
}

/// A builder's reviews all come from itself.
/// The score `e` lets RWKV-Instant take the card: it makes the card
/// eligible, or only the retention blocks it, which the daily minimum may
/// set aside.
pub open spec fn entry_admits(b: QueueBuilder, col: Collection, card: Card, e: RwkvReviewQueueScoreEntry) -> bool {
    ||| spec_scored_eligibility(b, col, card, e, false) == RwkvReviewScoreEligibility::Eligible
    ||| (spec_scored_eligibility(b, col, card, e, false) == RwkvReviewScoreEligibility::Blocked
        && spec_scored_eligibility(b, col, card, e, true) == RwkvReviewScoreEligibility::Eligible)
}

/// The card's own score (its first entry) lets RWKV-Instant take it.
pub open spec fn score_admits(b: QueueBuilder, col: Collection, card: Card) -> bool {
    match b.context.rwkv_review_queue_scores {
        Some(scores) => match first_score(scores@, card.id) {
            Some(e) => entry_admits(b, col, card, e),
            None => false,
        },
        None => false,
    }
}

/// Every review of `after` was a review of `before`, or is a card of the
/// collection whose score lets RWKV-Instant take it.
pub open spec fn reviews_admitted(before: QueueBuilder, after: Seq<DueCard>, col: Collection) -> bool {
    forall|k: int|
        0 <= k < after.len() ==> before.review@.contains(#[trigger] after[k]) || exists|i: int|
            0 <= i < col.cards@.len() && #[trigger] score_admits(before, col, col.cards@[i]) && after[k]
                == DueCard::spec_from_card(col.cards@[i], DueCardKind::Review)
}

/// Every review of `after` was a review of `before`, or is the first card
/// of a ranked id that only the retention of its ranked score blocks.
pub open spec fn reviews_pulled(
    before: QueueBuilder,
    after: Seq<DueCard>,
    col: Collection,
    ids: Seq<i64>,
    entries: Seq<RwkvReviewQueueScoreEntry>,
) -> bool {
    forall|k: int|
        0 <= k < after.len() ==> before.review@.contains(#[trigger] after[k]) || exists|p: int, i: int|
            0 <= p < ids.len() && #[trigger] first_card_of(col.cards@, ids[p], i) && after[k]
                == DueCard::spec_from_card(col.cards@[i], DueCardKind::Review) && spec_scored_eligibility(
                before,
                col,
                col.cards@[i],
                entries[p],
                false,
            ) == RwkvReviewScoreEligibility::Blocked && spec_scored_eligibility(before, col, col.cards@[i], entries[p], true)
                == RwkvReviewScoreEligibility::Eligible
}

/// The keys the daily minimum pulls scored cards in: the given priorities,
/// else the retrievability, ties by card id.
pub open spec fn minimum_pull_keys(
    ids: Seq<i64>,
    entries: Seq<RwkvReviewQueueScoreEntry>,
    priorities: Option<Seq<SortKey>>,
) -> Seq<SortKey> {
    match priorities {
        Some(p) => p,
        None => Seq::new(
            ids.len(),
            |i: int| SortKey { a: 0, num: entries[i].retrievability as i128, den: 1, b: ids[i] as i128, c: 0 },
        ),
    }
}

/// A card only its retention holds back: an active review card that its
/// score blocks, and that the score would let in without the retention.
pub open spec fn minimum_candidate(b0: QueueBuilder, col: Collection, i: int, entry: RwkvReviewQueueScoreEntry) -> bool {
    &&& is_active_review_card(b0, col.cards@[i])
    &&& spec_scored_eligibility(b0, col, col.cards@[i], entry, false) == RwkvReviewScoreEligibility::Blocked
    &&& spec_scored_eligibility(b0, col, col.cards@[i], entry, true) == RwkvReviewScoreEligibility::Eligible
}

/// The review is in the queue, or the card is the one pinned, or a sibling
/// buries it.
pub open spec fn review_kept(b: QueueBuilder, c: DueCard) -> bool {
    ||| b.review@.contains(c)
    ||| b.pinned_card_id == Some(c.id)
    ||| due_buried(b.context.seen_note_ids@, c, true)
}

/// A review kept stays kept as the queue grows.
proof fn lemma_review_kept_stays(b1: QueueBuilder, b2: QueueBuilder, c: DueCard)
    requires
        review_kept(b1, c),
        state_grows(b1, b2),
        b1.pinned_card_id == b2.pinned_card_id,
        forall|x: DueCard| b1.review@.contains(x) ==> b2.review@.contains(x),
    ensures
        review_kept(b2, c),
{
    if due_buried(b1.context.seen_note_ids@, c, true) {
        assert(spec_seen_mode(b1.context.seen_note_ids@, c.note_id) is Some);
    }
}

/// The reviews after those of `b0` were pulled lowest key first: the `t`-th
/// of them is of the card at position `ps[t]`, the positions come in key
/// order, and every card only its retention held back that ranks before a
/// pulled card of its deck is kept.
pub open spec fn pulled_in_key_order(
    b0: QueueBuilder,
    b: QueueBuilder,
    col: Collection,
    ids: Seq<i64>,
    entries: Seq<RwkvReviewQueueScoreEntry>,
    keys: Seq<SortKey>,
) -> bool {
    exists|ps: Seq<int>|
        #![trigger ps.len()]
        ps.len() == b.review@.len() - b0.review@.len() && (forall|t: int|
            0 <= t < ps.len() ==> 0 <= #[trigger] ps[t] < ids.len() && b.review@[b0.review@.len() + t].id == ids[ps[t]])
            && (forall|t1: int, t2: int| 0 <= t1 < t2 < ps.len() ==> ranked_before(keys, #[trigger] ps[t1], #[trigger] ps[t2]))
            && (forall|t: int, q: int, i: int|
            0 <= t < ps.len() && 0 <= q < ids.len() && ranked_before(keys, q, #[trigger] ps[t]) && #[trigger] first_card_of(
                col.cards@,
                ids[q],
                i,
            ) && minimum_candidate(b0, col, i, entries[q]) && col.cards@[i].deck_id == b.review@[b0.review@.len()
                + t].current_deck_id ==> review_kept(b, DueCard::spec_from_card(col.cards@[i], DueCardKind::Review)))
}

/// Pulling one more such card keeps the reviews pulled.
proof fn lemma_pull_keeps_pulled(
    before: QueueBuilder,
    cur: Seq<DueCard>,
    next: Seq<DueCard>,
    col: Collection,
    ids: Seq<i64>,
    entries: Seq<RwkvReviewQueueScoreEntry>,
    p: int,
    c: int,
)
    requires
        reviews_pulled(before, cur, col, ids, entries),
        0 <= p < ids.len(),
        first_card_of(col.cards@, ids[p], c),
        spec_scored_eligibility(before, col, col.cards@[c], entries[p], false) == RwkvReviewScoreEligibility::Blocked,
        spec_scored_eligibility(before, col, col.cards@[c], entries[p], true) == RwkvReviewScoreEligibility::Eligible,
        next == cur || next == cur.push(DueCard::spec_from_card(col.cards@[c], DueCardKind::Review)),
    ensures
        reviews_pulled(before, next, col, ids, entries),
{
    assert forall|k: int| 0 <= k < next.len() implies before.review@.contains(#[trigger] next[k]) || exists|q: int, i: int|
        0 <= q < ids.len() && #[trigger] first_card_of(col.cards@, ids[q], i) && next[k]
            == DueCard::spec_from_card(col.cards@[i], DueCardKind::Review) && spec_scored_eligibility(
            before,
            col,
            col.cards@[i],
            entries[q],
            false,
        ) == RwkvReviewScoreEligibility::Blocked && spec_scored_eligibility(before, col, col.cards@[i], entries[q], true)
            == RwkvReviewScoreEligibility::Eligible by {
        if k < cur.len() {
            assert(next[k] == cur[k]);
        } else {
            assert(first_card_of(col.cards@, ids[p], c));
        }
    }
}

pub proof fn lemma_admitted_self(b: QueueBuilder, col: Collection)
    ensures
        reviews_admitted(b, b.review@, col),
{
    assert forall|k: int| 0 <= k < b.review@.len() implies b.review@.contains(#[trigger] b.review@[k]) by {}
}

/// Taking a card whose score admits it keeps the reviews admitted.
pub proof fn lemma_take_keeps_admitted(before: QueueBuilder, cur: Seq<DueCard>, next: Seq<DueCard>, col: Collection, c: int)
    requires
        reviews_admitted(before, cur, col),
        0 <= c < col.cards@.len(),
        score_admits(before, col, col.cards@[c]),
        next == cur || next == cur.push(DueCard::spec_from_card(col.cards@[c], DueCardKind::Review)),
    ensures
        reviews_admitted(before, next, col),
{
    assert forall|k: int| 0 <= k < next.len() implies before.review@.contains(#[trigger] next[k]) || exists|i: int|
        0 <= i < col.cards@.len() && #[trigger] score_admits(before, col, col.cards@[i]) && next[k]
            == DueCard::spec_from_card(col.cards@[i], DueCardKind::Review) by {
        if k < cur.len() {
            assert(next[k] == cur[k]);
        }
    }
}

/// Reviews taken from `mid` stay admitted.
pub proof fn lemma_admitted_reordered(before: QueueBuilder, mid: Seq<DueCard>, after: Seq<DueCard>, col: Collection)
    requires
        reviews_admitted(before, mid, col),
        forall|k: int| 0 <= k < after.len() ==> mid.contains(#[trigger] after[k]),
    ensures
        reviews_admitted(before, after, col),
{
    assert forall|k: int| 0 <= k < after.len() implies before.review@.contains(#[trigger] after[k]) || exists|i: int|
        0 <= i < col.cards@.len() && #[trigger] score_admits(before, col, col.cards@[i]) && after[k]
            == DueCard::spec_from_card(col.cards@[i], DueCardKind::Review) by {
        assert(mid.contains(after[k]));
        let j = choose|j: int| 0 <= j < mid.len() && mid[j] == after[k];
        assert(mid[j] == after[k]);
    }
}

/// Admitted by a builder with the same setup as `a` is admitted by `a`.
pub proof fn lemma_admitted_trans(a: QueueBuilder, b: QueueBuilder, after: Seq<DueCard>, col: Collection)
    requires
        setup_same(a, b),
        reviews_admitted(a, b.review@, col),
        reviews_admitted(b, after, col),
    ensures
        reviews_admitted(a, after, col),
{
    assert forall|k: int| 0 <= k < after.len() implies a.review@.contains(#[trigger] after[k]) || exists|i: int|
        0 <= i < col.cards@.len() && #[trigger] score_admits(a, col, col.cards@[i]) && after[k]
            == DueCard::spec_from_card(col.cards@[i], DueCardKind::Review) by {
        if b.review@.contains(after[k]) {
            let j = choose|j: int| 0 <= j < b.review@.len() && b.review@[j] == after[k];
            assert(b.review@[j] == after[k]);
        } else {
            let i = choose|i: int|
                0 <= i < col.cards@.len() && #[trigger] score_admits(b, col, col.cards@[i]) && after[k]
                    == DueCard::spec_from_card(col.cards@[i], DueCardKind::Review);
            assert(score_admits(a, col, col.cards@[i]));
        }
    }
}

pub proof fn lemma_reviews_from_self(b: QueueBuilder, cards: Seq<Card>)
    ensures
        reviews_from(b, b.review@, cards),
{
    assert forall|k: int| 0 <= k < b.review@.len() implies b.review@.contains(#[trigger] b.review@[k]) by {}
}

/// Reviews that come from a builder with the same setup as `a` come from
/// `a`.
pub proof fn lemma_reviews_from_trans(a: QueueBuilder, b: QueueBuilder, after: Seq<DueCard>, cards: Seq<Card>)
    requires
        setup_same(a, b),
        reviews_from(a, b.review@, cards),
        reviews_from(b, after, cards),
    ensures
        reviews_from(a, after, cards),
{
    assert forall|k: int| 0 <= k < after.len() implies a.review@.contains(#[trigger] after[k])
        || scored_review_candidate(a, cards, after[k]) by {
        if b.review@.contains(after[k]) {
            let j = choose|j: int| 0 <= j < b.review@.len() && b.review@[j] == after[k];
            assert(b.review@[j] == after[k]);
        } else {
            assert(scored_review_candidate(b, cards, after[k]));
            let i = choose|i: int|
                0 <= i < cards.len() && #[trigger] is_active_review_card(b, cards[i]) && after[k]
                    == DueCard::spec_from_card(cards[i], DueCardKind::Review);
            assert(is_active_review_card(a, cards[i]));
        }
    }
}

/// A scored card taken as a review keeps the reviews coming from `before`.
pub proof fn lemma_take_keeps_reviews_from(
    before: QueueBuilder,
    cur: QueueBuilder,
    next: QueueBuilder,
    cards: Seq<Card>,
    c: int,
)
    requires
        reviews_from(before, cur.review@, cards),
        0 <= c < cards.len(),
        is_active_review_card(before, cards[c]),
        before.context.rwkv_review_queue_scores matches Some(scores) && has_score(scores@, cards[c].id),
        before.pinned_card_id == cur.pinned_card_id,
        next.review == cur.review || next.review@ == cur.review@.push(
            DueCard::spec_from_card(cards[c], DueCardKind::Review),
        ),
        cur.pinned_card_id == Some(cards[c].id) ==> next.review == cur.review,
    ensures
        reviews_from(before, next.review@, cards),
{
    if next.review != cur.review {
        let card = DueCard::spec_from_card(cards[c], DueCardKind::Review);
        assert(scored_review_candidate(before, cards, card));
        assert forall|k: int| 0 <= k < next.review@.len() implies before.review@.contains(#[trigger] next.review@[k])
            || scored_review_candidate(before, cards, next.review@[k]) by {
            if k < cur.review@.len() {
                assert(next.review@[k] == cur.review@[k]);
            }
        }
    }
}

/// A copy of the scores.
pub(crate) fn copy_scores(scores: &Vec<(i64, RwkvReviewQueueScoreEntry)>) -> (copy: Vec<(i64, RwkvReviewQueueScoreEntry)>)
    ensures
        copy@ == scores@,
{
    let mut copy: Vec<(i64, RwkvReviewQueueScoreEntry)> = Vec::new();
    let mut i: usize = 0;
    while i < scores.len()
        invariant
            i <= scores@.len(),
            copy@ == scores@.take(i as int),
        decreases scores@.len() - i,
    {
        copy.push(scores[i]);
        assert(scores@.take(i + 1) =~= scores@.take(i as int).push(scores@[i as int]));
        i = i + 1;
    }
    assert(scores@.take(i as int) =~= scores@);
    copy
}

/// The scored card's position in `entries` is its first.
pub(crate) fn first_entry_of(entries: &Vec<(i64, RwkvReviewQueueScoreEntry)>, i: usize) -> (first: bool)
    requires
        i < entries@.len(),
    ensures
        first == forall|j: int| 0 <= j < i ==> #[trigger] entries@[j].0 != entries@[i as int].0,
{
    let id = entries[i].0;
    let mut j: usize = 0;
    while j < i
        invariant
            i < entries@.len(),
            id == entries@[i as int].0,
            j <= i,
            forall|k: int| 0 <= k < j ==> #[trigger] entries@[k].0 != id,
        decreases i - j,
    {
        if entries[j].0 == id {
            return false;
        }
        j = j + 1;
    }
    true
}

impl QueueBuilder {
    /// The index of the card with this id when it is a review card in one of
    /// the studied decks.
    fn active_review_card(&self, col: &Collection, card_id: i64) -> (index: Option<usize>)
        ensures
            match index {
                Some(i) => first_card_of(col.cards@, card_id, i as int) && is_active_review_card(*self, col.cards@[i as int]),
                None => forall|i: int| #[trigger] first_card_of(col.cards@, card_id, i) ==> !is_active_review_card(
                    *self,
                    col.cards@[i],
                ),
            },
    {
        match find_card(&col.cards, card_id) {
            Some(i) => {
                let card = &col.cards[i];
                if card.queue == CardQueue::Review && self.deck_is_active(card.deck_id) {
                    Some(i)
                } else {
                    None
                }
            },
            None => None,
        }
    }

    /// Adds the card at `index` as a review if its deck's limit allows it,
    /// and counts it.
    pub(crate) fn take_review(&mut self, col: &Collection, index: usize)
        requires
            old(self).inv(),
            index < col.cards@.len(),
        ensures
            state_grows(*old(self), *final(self)),
            within_limits(*old(self), *final(self)),
            final(self).inv(),
            setup_same(*old(self), *final(self)),
            final(self).new == old(self).new,
            final(self).learning == old(self).learning,
            final(self).day_learning == old(self).day_learning,
            final(self).r_sorted_non_new == old(self).r_sorted_non_new,
            final(self).deferred_rwkv_reviews == old(self).deferred_rwkv_reviews,
            final(self).review == old(self).review || final(self).review@ == old(self).review@.push(
                DueCard::spec_from_card(col.cards@[index as int], DueCardKind::Review),
            ),
            old(self).pinned_card_id == Some(col.cards@[index as int].id) ==> final(self).review == old(self).review,
            final(self).review@ == if review_taken(*old(self), DueCard::spec_from_card(col.cards@[index as int], DueCardKind::Review)) {
                old(self).review@.push(DueCard::spec_from_card(col.cards@[index as int], DueCardKind::Review))
            } else {
                old(self).review@
            },
            final(self).limits.nodes@ == if review_taken(
                *old(self),
                DueCard::spec_from_card(col.cards@[index as int], DueCardKind::Review),
            ) {
                reserved_for_deck(old(self).limits.nodes@, col.cards@[index as int].deck_id, LimitKind::Review)
            } else {
                old(self).limits.nodes@
            },
    {
        let card = DueCard::from_card(&col.cards[index], DueCardKind::Review);
        if !self.deck_limit_reached(card.current_deck_id, LimitKind::Review) && self.add_due_card(col, card) {
            self.reserve(card.current_deck_id, LimitKind::Review);
        }
    }

    /// RWKV-Instant with a retrievability or relative-overdueness order:
    /// the scored review cards of the studied decks in the order of their
    /// priority (the retrievability, its negation for the descending order,
    /// or the retrievability over the card's target retention), each taken
    /// while the limits allow when its score makes it eligible. Cards the
    /// repeat guards hold back are recorded as deferred. Then the daily
    /// minimum of RWKV reviews may pull cards that only the retention held
    /// back, and the reviews are sorted by priority.
    pub fn gather_review_cards_by_rwkv_priority(&mut self, col: &Collection)
        requires
            old(self).inv(),
        ensures
            within_limits(*old(self), *final(self)),
            final(self).inv(),
            setup_same(*old(self), *final(self)),
            final(self).new == old(self).new,
            final(self).learning == old(self).learning,
            final(self).r_sorted_non_new == old(self).r_sorted_non_new,
            reviews_from(*old(self), final(self).review@, col.cards@),
            final(self).day_learning == old(self).day_learning,
            gathered_from(*old(self), *final(self), col.cards@),
            left(old(self).limits.nodes@[0], LimitKind::Review) == 0 || old(self).context.rwkv_review_queue_scores is None
                ==> *final(self) == *old(self),
            forall|i: int|
                #[trigger] first_card_of(col.cards@, col.cards@[i].id, i) && is_active_review_card(
                    *old(self),
                    col.cards@[i],
                ) && eligible_by_score(*old(self), *col, col.cards@[i]) && !score_left_out(
                    *old(self),
                    *col,
                    col.cards@[i],
                ) ==> due_held(*final(self), DueCardKind::Review, DueCard::spec_from_card(col.cards@[i], DueCardKind::Review)),
            reviews_admitted(*old(self), final(self).review@, *col),
            limits_spent_on_reviews(*old(self), *final(self)),
            left(old(self).limits.nodes@[0], LimitKind::Review) != 0 && old(self).context.rwkv_review_queue_scores is Some
                ==> forall|j: int, k: int|
                0 <= j < k < final(self).review@.len() ==> !key_lt(
                    rwkv_priority_key(*old(self), *col, (#[trigger] final(self).review@[k]).id),
                    rwkv_priority_key(*old(self), *col, (#[trigger] final(self).review@[j]).id),
                ),
    {
        proof {
            lemma_reviews_from_self(*self, col.cards@);
            lemma_gathered_nothing(*self, col.cards@);
            lemma_admitted_self(*self, *col);
            lemma_spent_nothing(*self);
        }
        if self.limits.root_limit_reached(LimitKind::Review) {
            return;
        }
        let scores = match &self.context.rwkv_review_queue_scores {
            Some(scores) => copy_scores(scores),
            None => {
                return;
            },
        };
        let order = self.context.sort_options.review_order;
        let relative = match order {
            ReviewCardOrder::RelativeOverdueness => true,
            _ => false,
        };
        let timing = self.context.timing;
        let mut ranked_ids: Vec<i64> = Vec::new();
        let mut ranked_entries: Vec<RwkvReviewQueueScoreEntry> = Vec::new();
        let mut keys: Vec<SortKey> = Vec::new();
        let mut i: usize = 0;
        while i < scores.len()
            invariant
                i <= scores@.len(),
                ranked_ids@.len() == keys@.len(),
                ranked_entries@.len() == keys@.len(),
                forall|k: int| 0 <= k < keys@.len() ==> key_bounded(#[trigger] keys@[k]),
                timing_ok_days(timing.days_elapsed),
                forall|m: int| 0 <= m < ranked_ids@.len() ==> #[trigger] has_score(scores@, ranked_ids@[m]),
                *self == *old(self),
                order == old(self).context.sort_options.review_order,
                timing == old(self).context.timing,
                forall|m: int|
                    0 <= m < ranked_ids@.len() ==> first_score(scores@, #[trigger] ranked_ids@[m]) == Some(
                        ranked_entries@[m],
                    ),
                forall|j: int|
                    0 <= j < i && #[trigger] first_entry_at(scores@, j) && ranked_id(
                        *old(self),
                        *col,
                        scores@[j].0,
                        scores@[j].1,
                    ) ==> ranked_ids@.contains(scores@[j].0),
                forall|m: int| 0 <= m < ranked_ids@.len() ==> id_seen_before(scores@, #[trigger] ranked_ids@[m], i as int),
                forall|a: int, b: int| 0 <= a < b < ranked_ids@.len() ==> #[trigger] ranked_ids@[a] != #[trigger] ranked_ids@[b],
                forall|m: int|
                    0 <= m < keys@.len() ==> priority_fraction(*old(self), *col, ranked_ids@[m], ranked_entries@[m]) == Some(
                        ((#[trigger] keys@[m]).num as int, keys@[m].den as int),
                    ) && keys@[m].a == 0 && keys@[m].b == ranked_ids@[m] && keys@[m].c == 0,
            decreases scores@.len() - i,
        {
            let (card_id, entry) = scores[i];
            let ghost ids_before = ranked_ids@;
            let ghost keys_before = keys@;
            let ghost entries_before = ranked_entries@;
            if first_entry_of(&scores, i) {
                proof {
                    lemma_first_score_at(scores@, i as int);
                }
                let r = entry.retrievability as i128;
                let fraction: Option<(i128, i128)> = match order {
                    ReviewCardOrder::RetrievabilityDescending => Some((-r, 1)),
                    ReviewCardOrder::RelativeOverdueness => match find_card(&col.cards, card_id) {
                        Some(c) => {
                            let retention = preset_retention_of_card(col, &col.cards[c]);
                            let meta = rwkv_review_candidate_metadata(&col.cards[c], timing, retention);
                            let target = match entry.target_retention {
                                Some(t) => t,
                                None => meta.desired_retention,
                            };
                            proof {
                                let cc = choose|c2: int| #[trigger] first_card_of(col.cards@, card_id, c2);
                                assert(first_card_of(col.cards@, card_id, c as int));
                                if cc < c {
                                    assert(col.cards@[cc].id != card_id);
                                } else if cc > c {
                                    assert(col.cards@[c as int].id != card_id);
                                }
                                assert(target == ranking_target(*old(self), *col, col.cards@[c as int], entry));
                            }
                            if target == 0 {
                                proof {
                                    assert forall|c2: int| #[trigger] first_card_of(col.cards@, card_id, c2) implies left_out_of_ranking(
                                        *old(self),
                                        *col,
                                        col.cards@[c2],
                                        entry,
                                    ) by {
                                        if c2 < c {
                                            assert(col.cards@[c2].id != card_id);
                                        } else if c2 > c {
                                            assert(col.cards@[c as int].id != card_id);
                                        }
                                    }
                                }
                                None
                            } else {
                                Some((r, target as i128))
                            }
                        },
                        None => {
                            proof {
                                assert forall|c2: int| #[trigger] first_card_of(col.cards@, card_id, c2) implies left_out_of_ranking(
                                    *old(self),
                                    *col,
                                    col.cards@[c2],
                                    entry,
                                ) by {
                                    assert(col.cards@[c2].id != card_id);
                                }
                            }
                            None
                        },
                    },
                    _ => Some((r, 1)),
                };
                if let Some((num, den)) = fraction {
                    assert(scores@[i as int].0 == card_id);
                    proof {
                        assert(priority_fraction(*old(self), *col, card_id, entry) == Some((num as int, den as int)));
                        assert forall|m: int| 0 <= m < ids_before.len() implies ids_before[m] != card_id by {
                            assert(id_seen_before(scores@, ids_before[m], i as int));
                            let j = choose|j: int| 0 <= j < i && (#[trigger] scores@[j]).0 == ids_before[m];
                            assert(scores@[j].0 != scores@[i as int].0);
                        }
                    }
                    ranked_ids.push(card_id);
                    ranked_entries.push(entry);
                    keys.push(SortKey { a: 0, num, den, b: card_id as i128, c: 0 });
                } else {
                    proof {
                        assert(!ranked_id(*old(self), *col, card_id, entry));
                    }
                }
            }
            proof {
                assert forall|m: int| 0 <= m < ranked_ids@.len() implies id_seen_before(scores@, #[trigger] ranked_ids@[m], i + 1) by {
                    if m < ids_before.len() {
                        assert(ranked_ids@[m] == ids_before[m]);
                        assert(id_seen_before(scores@, ids_before[m], i as int));
                        let j = choose|j: int| 0 <= j < i && (#[trigger] scores@[j]).0 == ids_before[m];
                        assert(scores@[j].0 == ranked_ids@[m]);
                    } else {
                        assert(scores@[i as int].0 == ranked_ids@[m]);
                    }
                }
                assert forall|m: int| 0 <= m < keys@.len() implies priority_fraction(*old(self), *col, ranked_ids@[m], ranked_entries@[m]) == Some(
                    ((#[trigger] keys@[m]).num as int, keys@[m].den as int),
                ) && keys@[m].a == 0 && keys@[m].b == ranked_ids@[m] && keys@[m].c == 0 by {
                    if m < keys_before.len() {
                        assert(keys@[m] == keys_before[m]);
                        assert(ranked_ids@[m] == ids_before[m]);
                        assert(ranked_entries@[m] == entries_before[m]);
                    }
                }
                assert forall|j: int|
                    0 <= j < i + 1 && #[trigger] first_entry_at(scores@, j) && ranked_id(
                        *old(self),
                        *col,
                        scores@[j].0,
                        scores@[j].1,
                    ) implies ranked_ids@.contains(scores@[j].0) by {
                    if j < i {
                        assert(ids_before.contains(scores@[j].0));
                        let q = choose|q: int| 0 <= q < ids_before.len() && ids_before[q] == scores@[j].0;
                        assert(ranked_ids@[q] == scores@[j].0);
                    } else {
                        assert(ranked_ids@.len() > ids_before.len());
                        assert(ranked_ids@[ids_before.len() as int] == scores@[j].0);
                    }
                }
            }
            i = i + 1;
        }
        let ranking = sorted_order(&keys);
        let ghost mut taken: Seq<DueCard> = Seq::empty();
        let allow_same_day = self.context.sort_options.rwkv_review_allow_same_day_review;
        let min_intervening = self.context.sort_options.rwkv_review_min_intervening_reviews;
        let min_elapsed = self.context.sort_options.rwkv_review_min_elapsed_secs;
        let mut k: usize = 0;
        while k < ranking.len()
            invariant
                self.inv(),
                timing == self.context.timing,
                setup_same(*old(self), *self),
                within_limits(*old(self), *self),
                self.new == old(self).new,
                self.learning == old(self).learning,
                self.r_sorted_non_new == old(self).r_sorted_non_new,
                ranking@.len() == keys@.len(),
                ranked_ids@.len() == keys@.len(),
                ranked_entries@.len() == keys@.len(),
                forall|m: int| 0 <= m < ranking@.len() ==> #[trigger] ranking@[m] < keys@.len(),
                forall|m: int| 0 <= m < ranked_ids@.len() ==> #[trigger] has_score(scores@, ranked_ids@[m]),
                old(self).context.rwkv_review_queue_scores matches Some(sc) && sc@ == scores@,
                reviews_from(*old(self), self.review@, col.cards@),
                self.day_learning == old(self).day_learning,
                k <= ranking@.len(),
                reviews_admitted(*old(self), self.review@, *col),
                limits_spent_on(*old(self), *self, taken),
                forall|m: int|
                    0 <= m < ranked_ids@.len() ==> first_score(scores@, #[trigger] ranked_ids@[m]) == Some(
                        ranked_entries@[m],
                    ),
                allow_same_day == old(self).context.sort_options.rwkv_review_allow_same_day_review,
                min_intervening == old(self).context.sort_options.rwkv_review_min_intervening_reviews,
                min_elapsed == old(self).context.sort_options.rwkv_review_min_elapsed_secs,
                forall|m: int|
                    0 <= m < k ==> #[trigger] scored_id_held(
                        *old(self),
                        *self,
                        *col,
                        ranked_ids@[ranking@[m] as int],
                        ranked_entries@[ranking@[m] as int],
                    ),
            ensures
                k == ranking@.len() || left(self.limits.nodes@[0], LimitKind::Review) == 0,
            decreases ranking@.len() - k,
        {
            if self.limits.root_limit_reached(LimitKind::Review) {
                break;
            }
            let position = ranking[k];
            let card_id = ranked_ids[position];
            let entry = ranked_entries[position];
            let ghost cur = *self;
            proof {
                lemma_state_grows_refl(cur);
            }
            if let Some(c) = self.active_review_card(col, card_id) {
                let retention = preset_retention_of_card(col, &col.cards[c]);
                let meta = rwkv_review_candidate_metadata(&col.cards[c], timing, retention);
                let eligibility = rwkv_review_score_eligibility(
                    entry.retrievability,
                    &meta,
                    allow_same_day,
                    min_intervening,
                    min_elapsed,
                    entry.intervening_reviews,
                    entry.target_retention,
                    timing.now,
                );
                proof {
                    assert(eligibility == spec_scored_eligibility(*old(self), *col, col.cards@[c as int], entry, false));
                }
                match eligibility {
                    RwkvReviewScoreEligibility::Eligible => {
                        self.take_review(col, c);
                        proof {
                            taken = lemma_spent_step(
                                *old(self),
                                cur,
                                *self,
                                taken,
                                DueCard::spec_from_card(col.cards@[c as int], DueCardKind::Review),
                            );
                            assert(has_score(scores@, ranked_ids@[position as int]));
                            lemma_take_keeps_reviews_from(*old(self), cur, *self, col.cards@, c as int);
                            assert(first_score(scores@, ranked_ids@[position as int]) == Some(ranked_entries@[position as int]));
                            assert(score_admits(*old(self), *col, col.cards@[c as int]));
                            lemma_take_keeps_admitted(*old(self), cur.review@, self.review@, *col, c as int);
                            lemma_taken_held(
                                cur,
                                *self,
                                DueCard::spec_from_card(col.cards@[c as int], DueCardKind::Review),
                            );
                        }
                    },
                    RwkvReviewScoreEligibility::Deferred { reason } => {
                        self.deferred_rwkv_reviews.push((card_id, reason));
                    },
                    RwkvReviewScoreEligibility::Blocked => {},
                }
                proof {
                    assert forall|i2: int|
                        #[trigger] first_card_of(col.cards@, card_id, i2) && is_active_review_card(*old(self), col.cards@[i2])
                            && spec_scored_eligibility(*old(self), *col, col.cards@[i2], entry, false)
                            == RwkvReviewScoreEligibility::Eligible implies due_held(
                        *self,
                        DueCardKind::Review,
                        DueCard::spec_from_card(col.cards@[i2], DueCardKind::Review),
                    ) by {
                        if i2 < c {
                            assert(col.cards@[i2].id != card_id);
                        } else if i2 > c {
                            assert(col.cards@[c as int].id != card_id);
                        }
                    }
                    assert(scored_id_held(*old(self), *self, *col, card_id, entry));
                }
            } else {
                proof {
                    assert forall|i2: int|
                        #[trigger] first_card_of(col.cards@, card_id, i2) && is_active_review_card(*old(self), col.cards@[i2])
                            && spec_scored_eligibility(*old(self), *col, col.cards@[i2], entry, false)
                            == RwkvReviewScoreEligibility::Eligible implies due_held(
                        *self,
                        DueCardKind::Review,
                        DueCard::spec_from_card(col.cards@[i2], DueCardKind::Review),
                    ) by {
                        assert(!is_active_review_card(*self, col.cards@[i2]));
                    }
                    assert(scored_id_held(*old(self), *self, *col, card_id, entry));
                }
            }
            proof {
                assert(forall|x: DueCard| cur.review@.contains(x) ==> self.review@.contains(x));
                assert forall|m: int| 0 <= m < k + 1 implies #[trigger] scored_id_held(
                    *old(self),
                    *self,
                    *col,
                    ranked_ids@[ranking@[m] as int],
                    ranked_entries@[ranking@[m] as int],
                ) by {
                    if m < k {
                        lemma_scored_id_held_stays(
                            *old(self),
                            cur,
                            *self,
                            *col,
                            ranked_ids@[ranking@[m] as int],
                            ranked_entries@[ranking@[m] as int],
                        );
                    }
                }
            }
            k = k + 1;
        }
        proof {
            lemma_order_covers(ranking@);
            assert forall|p: int| 0 <= p < ranked_ids@.len() implies #[trigger] scored_id_held(
                *old(self),
                *self,
                *col,
                ranked_ids@[p],
                ranked_entries@[p],
            ) by {
                if k == ranking@.len() {
                    assert(ranking@.contains(p as usize));
                    let m = choose|m: int| 0 <= m < ranking@.len() && ranking@[m] == p as usize;
                    assert(scored_id_held(
                        *old(self),
                        *self,
                        *col,
                        ranked_ids@[ranking@[m] as int],
                        ranked_entries@[ranking@[m] as int],
                    ));
                }
            }
        }
        if !self.limits.root_limit_reached(LimitKind::Review) && self.limits.any_rwkv_review_minimum_remaining() {
            let priorities = if relative {
                Some(&keys)
            } else {
                None
            };
            let ghost mid = *self;
            self.gather_rwkv_review_minimum_cards(col, &ranked_ids, &ranked_entries, priorities);
            proof {
                lemma_spent_trans(*old(self), mid, *self);
                assert(ids_scored(mid, ranked_ids@));
                lemma_reviews_from_trans(*old(self), mid, self.review@, col.cards@);
                assert forall|k: int| 0 <= k < self.review@.len() implies mid.review@.contains(#[trigger] self.review@[k])
                    || exists|i: int|
                    0 <= i < col.cards@.len() && #[trigger] score_admits(mid, *col, col.cards@[i]) && self.review@[k]
                        == DueCard::spec_from_card(col.cards@[i], DueCardKind::Review) by {
                    if !mid.review@.contains(self.review@[k]) {
                        let (p, i) = choose|p: int, i: int|
                            0 <= p < ranked_ids@.len() && #[trigger] first_card_of(col.cards@, ranked_ids@[p], i)
                                && self.review@[k] == DueCard::spec_from_card(col.cards@[i], DueCardKind::Review)
                                && spec_scored_eligibility(mid, *col, col.cards@[i], ranked_entries@[p], false)
                                == RwkvReviewScoreEligibility::Blocked && spec_scored_eligibility(
                                mid,
                                *col,
                                col.cards@[i],
                                ranked_entries@[p],
                                true,
                            ) == RwkvReviewScoreEligibility::Eligible;
                        assert(first_score(scores@, ranked_ids@[p]) == Some(ranked_entries@[p]));
                        assert(score_admits(mid, *col, col.cards@[i]));
                    }
                }
                lemma_admitted_trans(*old(self), mid, self.review@, *col);
                assert forall|p: int| 0 <= p < ranked_ids@.len() implies #[trigger] scored_id_held(
                    *old(self),
                    *self,
                    *col,
                    ranked_ids@[p],
                    ranked_entries@[p],
                ) by {
                    lemma_scored_id_held_stays(*old(self), mid, *self, *col, ranked_ids@[p], ranked_entries@[p]);
                }
            }
        }
        let ghost sorted_from = self.review@;
        let ghost before_sort = *self;
        self.sort_review_cards_by_rwkv_priority(&ranked_ids, &keys);
        proof {
            assert forall|x: DueCard| before_sort.review@.contains(x) implies self.review@.contains(x) by {}
            lemma_spent_reordered(*old(self), before_sort, *self);
            assert forall|id: i64| #[trigger] priority_key(ranked_ids@, keys@, id) == rwkv_priority_key(*old(self), *col, id) by {
                lemma_priority_key_agrees(*old(self), *col, scores@, ranked_ids@, ranked_entries@, keys@, id);
            }
            let ks = Seq::new(sorted_from.len(), |i: int| priority_key(ranked_ids@, keys@, sorted_from[i].id));
            let ord = choose|ord: Seq<usize>| is_sorted_order(ks, ord) && #[trigger] reordered(sorted_from, ord) == self.review@;
            assert forall|j: int, k: int| 0 <= j < k < self.review@.len() implies !key_lt(
                rwkv_priority_key(*old(self), *col, (#[trigger] self.review@[k]).id),
                rwkv_priority_key(*old(self), *col, (#[trigger] self.review@[j]).id),
            ) by {
                assert(self.review@[j] == sorted_from[ord[j] as int]);
                assert(self.review@[k] == sorted_from[ord[k] as int]);
                assert(ranked_before(ks, ord[j] as int, ord[k] as int));
                assert(ks[ord[j] as int] == priority_key(ranked_ids@, keys@, sorted_from[ord[j] as int].id));
                assert(ks[ord[k] as int] == priority_key(ranked_ids@, keys@, sorted_from[ord[k] as int].id));
            }
        }
        proof {
            lemma_reviews_from_reordered(*old(self), sorted_from, self.review@, col.cards@);
            lemma_admitted_reordered(*old(self), sorted_from, self.review@, *col);
            lemma_gathered_scored_reviews(*old(self), *self, col.cards@);
            lemma_state_grows_refl(before_sort);
            assert forall|i: int|
                #[trigger] first_card_of(col.cards@, col.cards@[i].id, i) && is_active_review_card(
                    *old(self),
                    col.cards@[i],
                ) && eligible_by_score(*old(self), *col, col.cards@[i]) && !score_left_out(
                    *old(self),
                    *col,
                    col.cards@[i],
                ) implies due_held(*self, DueCardKind::Review, DueCard::spec_from_card(col.cards@[i], DueCardKind::Review)) by {
                let id = col.cards@[i].id;
                let e = first_score(scores@, id)->0;
                let j = lemma_first_score_index(scores@, id);
                assert(first_entry_at(scores@, j));
                assert(ranked_id(*old(self), *col, scores@[j].0, scores@[j].1));
                assert(ranked_ids@.contains(id));
                let p = choose|p: int| 0 <= p < ranked_ids@.len() && ranked_ids@[p] == id;
                assert(first_score(scores@, ranked_ids@[p]) == Some(ranked_entries@[p]));
                assert(scored_id_held(*old(self), before_sort, *col, ranked_ids@[p], ranked_entries@[p]));
                assert(spec_scored_eligibility(*old(self), *col, col.cards@[i], e, false) == RwkvReviewScoreEligibility::Eligible);
                lemma_due_held_stays(
                    before_sort,
                    *self,
                    DueCardKind::Review,
                    DueCard::spec_from_card(col.cards@[i], DueCardKind::Review),
                );
            }
        }
    }

    /// The daily minimum of RWKV reviews: in order of priority (the given
    /// relative-overdueness keys, else the retrievability), each scored card
    /// that only its retention holds back is pulled while its deck still
    /// wants reviews and the limits allow, unless a repeat guard holds it.
    pub fn gather_rwkv_review_minimum_cards(
        &mut self,
        col: &Collection,
        ranked_ids: &Vec<i64>,
        ranked_entries: &Vec<RwkvReviewQueueScoreEntry>,
        relative_overdueness_priorities: Option<&Vec<SortKey>>,
    )
        requires
            old(self).inv(),
            ranked_ids@.len() == ranked_entries@.len(),
            relative_overdueness_priorities matches Some(p) ==> p@.len() == ranked_ids@.len()
                && forall|m: int| 0 <= m < p@.len() ==> key_bounded(#[trigger] p@[m]),
        ensures
            within_limits(*old(self), *final(self)),
            final(self).inv(),
            setup_same(*old(self), *final(self)),
            final(self).new == old(self).new,
            final(self).learning == old(self).learning,
            final(self).r_sorted_non_new == old(self).r_sorted_non_new,
            ids_scored(*old(self), ranked_ids@) ==> reviews_from(*old(self), final(self).review@, col.cards@),
            final(self).day_learning == old(self).day_learning,
            state_grows(*old(self), *final(self)),
            forall|x: DueCard| old(self).review@.contains(x) ==> final(self).review@.contains(x),
            forall|p: int|
                0 <= p < ranked_ids@.len() ==> #[trigger] minimum_id_held(
                    *old(self),
                    *final(self),
                    *col,
                    ranked_ids@[p],
                    ranked_entries@[p],
                ),
            reviews_pulled(*old(self), final(self).review@, *col, ranked_ids@, ranked_entries@),
            final(self).review@.len() - old(self).review@.len() <= minimum_sum(old(self).limits.nodes@) - minimum_sum(
                final(self).limits.nodes@,
            ),
            limits_spent_on_reviews(*old(self), *final(self)),
            pulled_in_key_order(
                *old(self),
                *final(self),
                *col,
                ranked_ids@,
                ranked_entries@,
                minimum_pull_keys(
                    ranked_ids@,
                    ranked_entries@,
                    match relative_overdueness_priorities {
                        Some(p) => Some(p@),
                        None => None,
                    },
                ),
            ),
    {
        proof {
            lemma_state_grows_refl(*self);
            assert forall|k: int| 0 <= k < self.review@.len() implies self.review@.contains(#[trigger] self.review@[k]) by {}
        }
        let n = ranked_ids.len();
        let mut pull_keys: Vec<SortKey> = Vec::new();
        let mut i: usize = 0;
        while i < n
            invariant
                n == ranked_ids@.len(),
                n == ranked_entries@.len(),
                i <= n,
                pull_keys@.len() == i,
                relative_overdueness_priorities matches Some(p) ==> p@.len() == n
                    && forall|m: int| 0 <= m < p@.len() ==> key_bounded(#[trigger] p@[m]),
                forall|m: int| 0 <= m < pull_keys@.len() ==> key_bounded(#[trigger] pull_keys@[m]),
                forall|m: int|
                    0 <= m < pull_keys@.len() ==> #[trigger] pull_keys@[m] == minimum_pull_keys(
                        ranked_ids@,
                        ranked_entries@,
                        match relative_overdueness_priorities {
                            Some(p) => Some(p@),
                            None => None,
                        },
                    )[m],
            decreases n - i,
        {
            let key = match relative_overdueness_priorities {
                Some(p) => p[i],
                None => SortKey {
                    a: 0,
                    num: ranked_entries[i].retrievability as i128,
                    den: 1,
                    b: ranked_ids[i] as i128,
                    c: 0,
                },
            };
            pull_keys.push(key);
            i = i + 1;
        }
        let pull = sorted_order(&pull_keys);
        let ghost keys = minimum_pull_keys(
            ranked_ids@,
            ranked_entries@,
            match relative_overdueness_priorities {
                Some(p) => Some(p@),
                None => None,
            },
        );
        proof {
            assert(pull_keys@ =~= keys);
        }
        let ghost mut ms: Seq<int> = Seq::empty();
        let ghost mut taken: Seq<DueCard> = Seq::empty();
        proof {
            lemma_spent_nothing(*self);
        }
        proof {
            lemma_reviews_from_self(*self, col.cards@);
        }
        let timing = self.context.timing;
        let allow_same_day = self.context.sort_options.rwkv_review_allow_same_day_review;
        let min_intervening = self.context.sort_options.rwkv_review_min_intervening_reviews;
        let min_elapsed = self.context.sort_options.rwkv_review_min_elapsed_secs;
        let mut k: usize = 0;
        while k < pull.len()
            invariant
                self.inv(),
                timing == self.context.timing,
                setup_same(*old(self), *self),
                within_limits(*old(self), *self),
                self.new == old(self).new,
                self.learning == old(self).learning,
                self.r_sorted_non_new == old(self).r_sorted_non_new,
                pull@.len() == n,
                n == ranked_ids@.len(),
                n == ranked_entries@.len(),
                forall|m: int| 0 <= m < pull@.len() ==> #[trigger] pull@[m] < n,
                ids_scored(*old(self), ranked_ids@) ==> reviews_from(*old(self), self.review@, col.cards@),
                self.day_learning == old(self).day_learning,
                state_grows(*old(self), *self),
                forall|x: DueCard| old(self).review@.contains(x) ==> self.review@.contains(x),
                k <= pull@.len(),
                allow_same_day == old(self).context.sort_options.rwkv_review_allow_same_day_review,
                min_intervening == old(self).context.sort_options.rwkv_review_min_intervening_reviews,
                min_elapsed == old(self).context.sort_options.rwkv_review_min_elapsed_secs,
                forall|j: int, m: int| 0 <= j < m < pull@.len() ==> pull@[j] != pull@[m],
                reviews_pulled(*old(self), self.review@, *col, ranked_ids@, ranked_entries@),
                self.review@.len() - old(self).review@.len() <= minimum_sum(old(self).limits.nodes@) - minimum_sum(
                    self.limits.nodes@,
                ),
                forall|m: int|
                    0 <= m < k ==> #[trigger] minimum_id_held(
                        *old(self),
                        *self,
                        *col,
                        ranked_ids@[pull@[m] as int],
                        ranked_entries@[pull@[m] as int],
                    ),
                is_sorted_order(keys, pull@),
                limits_spent_on(*old(self), *self, taken),
                self.review@.len() == old(self).review@.len() + ms.len(),
                forall|t: int| 0 <= t < ms.len() ==> 0 <= #[trigger] ms[t] < k,
                forall|t1: int, t2: int| 0 <= t1 < t2 < ms.len() ==> #[trigger] ms[t1] < #[trigger] ms[t2],
                forall|t: int|
                    0 <= t < ms.len() ==> self.review@[old(self).review@.len() + t].id == ranked_ids@[pull@[#[trigger] ms[t]] as int],
                forall|t: int| 0 <= t < old(self).review@.len() ==> self.review@[t] == old(self).review@[t],
                forall|t: int, m: int, i: int|
                    0 <= t < ms.len() && 0 <= m < ms[t] && #[trigger] first_card_of(col.cards@, ranked_ids@[pull@[m] as int], i)
                        && minimum_candidate(*old(self), *col, i, ranked_entries@[pull@[m] as int])
                        && col.cards@[i].deck_id == #[trigger] self.review@[old(self).review@.len() + t].current_deck_id
                        ==> review_kept(*self, DueCard::spec_from_card(col.cards@[i], DueCardKind::Review)),
            ensures
                k == pull@.len() || left(self.limits.nodes@[0], LimitKind::Review) == 0,
            decreases pull@.len() - k,
        {
            if self.limits.root_limit_reached(LimitKind::Review) {
                break;
            }
            let position = pull[k];
            let card_id = ranked_ids[position];
            let entry = ranked_entries[position];
            let ghost cur = *self;
            let ghost ms_before = ms;
            proof {
                lemma_state_grows_refl(cur);
            }
            if let Some(c) = self.active_review_card(col, card_id) {
                let deck_id = col.cards[c].deck_id;
                let index = self.limits.index_of(deck_id);
                let wants = match index {
                    Some(d) => self.limits.rwkv_review_minimum_remaining(d),
                    None => false,
                };
                if wants {
                    let retention = preset_retention_of_card(col, &col.cards[c]);
                    let meta = rwkv_review_candidate_metadata(&col.cards[c], timing, retention);
                    let with_retention = rwkv_review_score_eligibility(
                        entry.retrievability,
                        &meta,
                        allow_same_day,
                        min_intervening,
                        min_elapsed,
                        entry.intervening_reviews,
                        entry.target_retention,
                        timing.now,
                    );
                    proof {
                        assert(with_retention == spec_scored_eligibility(*old(self), *col, col.cards@[c as int], entry, false));
                    }
                    let held_by_retention = match with_retention {
                        RwkvReviewScoreEligibility::Blocked => true,
                        _ => false,
                    };
                    if held_by_retention {
                        let without_retention = rwkv_review_score_eligibility_ignoring_retention(
                            entry.retrievability,
                            &meta,
                            allow_same_day,
                            min_intervening,
                            min_elapsed,
                            entry.intervening_reviews,
                            timing.now,
                        );
                        proof {
                            assert(without_retention == spec_scored_eligibility(
                                *old(self),
                                *col,
                                col.cards@[c as int],
                                entry,
                                true,
                            ));
                        }
                        match without_retention {
                            RwkvReviewScoreEligibility::Eligible => {
                                self.take_review(col, c);
                                proof {
                                    taken = lemma_spent_step(
                                        *old(self),
                                        cur,
                                        *self,
                                        taken,
                                        DueCard::spec_from_card(col.cards@[c as int], DueCardKind::Review),
                                    );
                                }
                                proof {
                                    if self.review@.len() > cur.review@.len() {
                                        ms = ms.push(k as int);
                                        assert(self.review@.last().id == col.cards@[c as int].id);
                                        assert(self.review@.last().current_deck_id == deck_id);
                                    }
                                    if review_taken(cur, DueCard::spec_from_card(col.cards@[c as int], DueCardKind::Review)) {
                                        match index {
                                            Some(d) => {
                                                assert(first_node_of(cur.limits.nodes@, deck_id, d as int));
                                            },
                                            None => {},
                                        }
                                        assert(deck_wants_minimum(cur.limits.nodes@, deck_id));
                                        lemma_reserve_spends_minimum(cur.limits.nodes@, deck_id, LimitKind::Review);
                                    }
                                    if ids_scored(*old(self), ranked_ids@) {
                                        assert(has_score(
                                            old(self).context.rwkv_review_queue_scores->0@,
                                            ranked_ids@[position as int],
                                        ));
                                        lemma_take_keeps_reviews_from(*old(self), cur, *self, col.cards@, c as int);
                                    }
                                    lemma_taken_held(
                                        cur,
                                        *self,
                                        DueCard::spec_from_card(col.cards@[c as int], DueCardKind::Review),
                                    );
                                    lemma_state_grows_trans(*old(self), cur, *self);
                                    lemma_pull_keeps_pulled(
                                        *old(self),
                                        cur.review@,
                                        self.review@,
                                        *col,
                                        ranked_ids@,
                                        ranked_entries@,
                                        position as int,
                                        c as int,
                                    );
                                    lemma_minimum_held_at(*old(self), *self, *col, card_id, entry, c as int);
                                }
                                proof {
                                    if self.review@.len() > cur.review@.len() {
                                        let x = DueCard::spec_from_card(col.cards@[c as int], DueCardKind::Review);
                                        assert(review_taken(cur, x));
                                        assert(deck_wants_minimum(cur.limits.nodes@, deck_id));
                                        assert forall|m: int, i: int|
                                            0 <= m < k && #[trigger] first_card_of(col.cards@, ranked_ids@[pull@[m] as int], i)
                                                && minimum_candidate(*old(self), *col, i, ranked_entries@[pull@[m] as int])
                                                && col.cards@[i].deck_id == deck_id implies review_kept(
                                            *self,
                                            DueCard::spec_from_card(col.cards@[i], DueCardKind::Review),
                                        ) by {
                                            let y = DueCard::spec_from_card(col.cards@[i], DueCardKind::Review);
                                            assert(minimum_id_held(
                                                *old(self),
                                                cur,
                                                *col,
                                                ranked_ids@[pull@[m] as int],
                                                ranked_entries@[pull@[m] as int],
                                            ));
                                            assert(due_held(cur, DueCardKind::Review, y));
                                            assert(review_kept(cur, y));
                                            lemma_review_kept_stays(cur, *self, y);
                                        }
                                    }
                                }
                            },
                            RwkvReviewScoreEligibility::Deferred { reason } => {
                                self.deferred_rwkv_reviews.push((card_id, reason));
                                proof {
                                    lemma_minimum_held_at(*old(self), *self, *col, card_id, entry, c as int);
                                }
                            },
                            RwkvReviewScoreEligibility::Blocked => {
                                proof {
                                    lemma_minimum_held_at(*old(self), *self, *col, card_id, entry, c as int);
                                }
                            },
                        }
                    } else {
                        proof {
                            lemma_minimum_held_at(*old(self), *self, *col, card_id, entry, c as int);
                        }
                    }
                } else {
                    proof {
                        if deck_wants_minimum(self.limits.nodes@, deck_id) {
                            let d0 = choose|d0: int|
                                #[trigger] first_node_of(self.limits.nodes@, deck_id, d0) && chain_wants_minimum(
                                    self.limits.nodes@,
                                    d0,
                                );
                            match index {
                                Some(d) => {
                                    if d < d0 {
                                        assert(self.limits.nodes@[d as int].deck_id != deck_id);
                                    } else if d > d0 {
                                        assert(self.limits.nodes@[d0].deck_id != deck_id);
                                    }
                                },
                                None => {
                                    assert(self.limits.nodes@[d0].deck_id != deck_id);
                                },
                            }
                        }
                        lemma_minimum_held_at(*old(self), *self, *col, card_id, entry, c as int);
                    }
                }
            } else {
                proof {
                    assert forall|i2: int|
                        #[trigger] first_card_of(col.cards@, card_id, i2) implies !is_active_review_card(
                        *old(self),
                        col.cards@[i2],
                    ) by {
                        assert(!is_active_review_card(*self, col.cards@[i2]));
                    }
                }
            }
            proof {
                assert(minimum_id_held(*old(self), *self, *col, card_id, entry));
                assert(forall|x: DueCard| cur.review@.contains(x) ==> self.review@.contains(x));
                assert forall|t: int, m: int, i: int|
                    0 <= t < ms.len() && 0 <= m < ms[t] && #[trigger] first_card_of(col.cards@, ranked_ids@[pull@[m] as int], i)
                        && minimum_candidate(*old(self), *col, i, ranked_entries@[pull@[m] as int])
                        && col.cards@[i].deck_id == #[trigger] self.review@[old(self).review@.len() + t].current_deck_id
                        implies review_kept(*self, DueCard::spec_from_card(col.cards@[i], DueCardKind::Review)) by {
                    if t < ms_before.len() {
                        assert(ms[t] == ms_before[t]);
                        assert(cur.review@[old(self).review@.len() + t] == self.review@[old(self).review@.len() + t]);
                        assert(review_kept(cur, DueCard::spec_from_card(col.cards@[i], DueCardKind::Review)));
                        lemma_review_kept_stays(cur, *self, DueCard::spec_from_card(col.cards@[i], DueCardKind::Review));
                    }
                }
                assert forall|m: int| 0 <= m < k + 1 implies #[trigger] minimum_id_held(
                    *old(self),
                    *self,
                    *col,
                    ranked_ids@[pull@[m] as int],
                    ranked_entries@[pull@[m] as int],
                ) by {
                    if m < k {
                        lemma_minimum_id_held_stays(
                            *old(self),
                            cur,
                            *self,
                            *col,
                            ranked_ids@[pull@[m] as int],
                            ranked_entries@[pull@[m] as int],
                        );
                    }
                }
            }
            k = k + 1;
        }
        proof {
            let ps = Seq::new(ms.len(), |t: int| pull@[ms[t]] as int);
            assert forall|t1: int, t2: int| 0 <= t1 < t2 < ps.len() implies ranked_before(
                keys,
                #[trigger] ps[t1],
                #[trigger] ps[t2],
            ) by {
                assert(ms[t1] < ms[t2]);
            }
            lemma_order_covers(pull@);
            assert forall|t: int, q: int, i: int|
                0 <= t < ps.len() && 0 <= q < ranked_ids@.len() && ranked_before(keys, q, #[trigger] ps[t])
                    && #[trigger] first_card_of(col.cards@, ranked_ids@[q], i) && minimum_candidate(
                    *old(self),
                    *col,
                    i,
                    ranked_entries@[q],
                ) && col.cards@[i].deck_id == self.review@[old(self).review@.len() + t].current_deck_id implies review_kept(
                *self,
                DueCard::spec_from_card(col.cards@[i], DueCardKind::Review),
            ) by {
                assert(pull@.contains(q as usize));
                let m = choose|m: int| 0 <= m < pull@.len() && pull@[m] == q as usize;
                lemma_ranked_before_asymmetric(keys, q, ps[t]);
                if m > ms[t] {
                    assert(ranked_before(keys, pull@[ms[t]] as int, pull@[m] as int));
                }
                assert(m < ms[t]);
                assert(first_card_of(col.cards@, ranked_ids@[pull@[m] as int], i));
            }
            assert(ps.len() == self.review@.len() - old(self).review@.len());
            assert(pulled_in_key_order(*old(self), *self, *col, ranked_ids@, ranked_entries@, keys));
        }
        proof {
            lemma_order_covers(pull@);
            assert forall|p: int| 0 <= p < ranked_ids@.len() implies #[trigger] minimum_id_held(
                *old(self),
                *self,
                *col,
                ranked_ids@[p],
                ranked_entries@[p],
            ) by {
                if k == pull@.len() {
                    assert(pull@.contains(p as usize));
                    let m = choose|m: int| 0 <= m < pull@.len() && pull@[m] == p as usize;
                    assert(minimum_id_held(
                        *old(self),
                        *self,
                        *col,
                        ranked_ids@[pull@[m] as int],
                        ranked_entries@[pull@[m] as int],
                    ));
                }
            }
        }
    }

    /// Sorts the reviews by priority (ties by card id); cards without one
    /// go last, in the order they had.
    pub fn sort_review_cards_by_rwkv_priority(&mut self, ranked_ids: &Vec<i64>, priorities: &Vec<SortKey>)
        requires
            old(self).inv(),
            ranked_ids@.len() == priorities@.len(),
            forall|m: int| 0 <= m < priorities@.len() ==> key_bounded(#[trigger] priorities@[m]),
        ensures
            forall|x: DueCard| old(self).review@.contains(x) ==> final(self).review@.contains(x),
            within_limits(*old(self), *final(self)),
            final(self).inv(),
            setup_same(*old(self), *final(self)),
            final(self).limits == old(self).limits,
            final(self).new == old(self).new,
            final(self).learning == old(self).learning,
            final(self).day_learning == old(self).day_learning,
            final(self).r_sorted_non_new == old(self).r_sorted_non_new,
            final(self).deferred_rwkv_reviews == old(self).deferred_rwkv_reviews,
            final(self).context == old(self).context,
            final(self).review@.len() == old(self).review@.len(),
            forall|k: int| 0 <= k < final(self).review@.len() ==> old(self).review@.contains(
                #[trigger] final(self).review@[k],
            ),
            exists|order: Seq<usize>|
                is_sorted_order(
                    Seq::new(
                        old(self).review@.len(),
                        |i: int| priority_key(ranked_ids@, priorities@, old(self).review@[i].id),
                    ),
                    order,
                ) && #[trigger] reordered(old(self).review@, order) == final(self).review@,
    {
        let mut keys: Vec<SortKey> = Vec::new();
        let mut i: usize = 0;
        while i < self.review.len()
            invariant
                i <= self.review@.len(),
                keys@.len() == i,
                ranked_ids@.len() == priorities@.len(),
                forall|m: int| 0 <= m < priorities@.len() ==> key_bounded(#[trigger] priorities@[m]),
                forall|m: int| 0 <= m < keys@.len() ==> key_bounded(#[trigger] keys@[m]),
                forall|m: int| 0 <= m < keys@.len() ==> #[trigger] keys@[m] == priority_key(ranked_ids@, priorities@, self.review@[m].id),
            decreases self.review@.len() - i,
        {
            let id = self.review[i].id;
            let mut found: Option<usize> = None;
            let mut j: usize = 0;
            while j < ranked_ids.len()
                invariant_except_break
                    found is None,
                invariant
                    j <= ranked_ids@.len(),
                    forall|m: int| 0 <= m < j ==> #[trigger] ranked_ids@[m] != id,
                ensures
                    found is None ==> forall|m: int| 0 <= m < ranked_ids@.len() ==> #[trigger] ranked_ids@[m] != id,
                    found matches Some(f) ==> first_index_of(ranked_ids@, id, f as int),
                decreases ranked_ids@.len() - j,
            {
                if ranked_ids[j] == id {
                    found = Some(j);
                    break;
                }
                j = j + 1;
            }
            proof {
                match found {
                    Some(f) => lemma_index_of_id(ranked_ids@, id, f as int),
                    None => lemma_index_of_id_none(ranked_ids@, id),
                }
            }
            let key = match found {
                Some(f) => {
                    let p = priorities[f];
                    SortKey { a: 0, num: p.num, den: p.den, b: id as i128, c: 0 }
                },
                None => SortKey { a: 1, num: 0, den: 1, b: 0, c: 0 },
            };
            keys.push(key);
            i = i + 1;
        }
        proof {
            assert(keys@ =~= Seq::new(
                self.review@.len(),
                |i: int| priority_key(ranked_ids@, priorities@, self.review@[i].id),
            ));
        }
        self.reorder_reviews(&keys);
    }
}

/// A review's key for the sort by priority: the priority of the first
/// ranked entry of its card, ties by card id; one without goes last.
pub open spec fn priority_key(ranked_ids: Seq<i64>, priorities: Seq<SortKey>, id: i64) -> SortKey {
    match index_of_id(ranked_ids, id) {
        Some(f) => SortKey { a: 0, num: priorities[f].num, den: priorities[f].den, b: id as i128, c: 0 },
        None => SortKey { a: 1, num: 0, den: 1, b: 0, c: 0 },
    }
}

pub open spec fn timing_ok_days(days: u32) -> bool {
    days < 49_710
}

} // verus!
