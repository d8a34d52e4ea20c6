use vstd::prelude::*;

use crate::card::SchedTimingToday;
use crate::queue::builder::learning_entry_from_due;
use crate::queue::builder::main_entry_from_due;
use crate::queue::builder::main_entry_from_new;
use crate::queue::builder::main_entry_of_due;
use crate::queue::builder::main_entry_of_new;
use crate::queue::builder::sort_options;
use crate::queue::builder::timing_ok;
use crate::queue::builder::spec_sort_options;
use crate::queue::builder::Context;
use crate::queue::builder::Counts;
use crate::queue::builder::DueCard;
use crate::queue::builder::DueCardKind;
use crate::queue::builder::LearningQueueEntry;
use crate::queue::builder::MainQueueEntry;
use crate::queue::builder::QueueBuilder;
use crate::queue::builder::QueueSortOptions;
use crate::queue::gathering::gathered_from;
use crate::queue::gathering::copy_scores;
use crate::queue::gathering::lemma_gathered_nothing;
use crate::queue::gathering::lemma_gathered_trans;
use crate::queue::gathering::of_studied_decks;
use crate::queue::gathering::setup_same;
use crate::queue::gathering::within_limits;
use crate::queue::new_cards::lemma_new_cards_held_setup;
use crate::queue::new_cards::new_cards_held;
use crate::queue::collect::due_held;
use crate::queue::collect::ranked_held;
use crate::queue::collect::lemma_ranked_held_stays;
use crate::queue::collect::eligible_by_score;
use crate::queue::gathering::first_card_of;
use crate::queue::gathering::is_active_review_card;
use crate::queue::gathering::score_left_out;
use crate::queue::collect::lemma_due_held_stays;
use crate::queue::collect::queue_of_kind;
use crate::queue::collect::selected;
use crate::queue::gathering::PinCardError;
use crate::card::Card;
use crate::card::CardQueue;
use crate::queue::limits::first_node_of;
use crate::queue::limits::minimum_reserved;
use crate::queue::limits::left;
use crate::queue::limits::tree_wf;
use crate::queue::limits::LimitKind;
use crate::queue::limits::DeckLimit;
use crate::queue::limits::LimitTree;
use crate::queue::merge::lemma_merge_from;
use crate::queue::merge::merge;
use crate::queue::merge::spec_merge;
use crate::queue::model::deck_is_within_scope;
use crate::queue::model::find_config;
use crate::queue::model::find_deck;
use crate::queue::model::first_config;
use crate::queue::model::first_deck;
use crate::queue::model::spec_within_scope;
use crate::queue::model::Deck;
use crate::queue::model::RwkvReviewQueueScoreEntry;
use crate::collection::Collection;
use crate::queue::rwkv::RwkvDeferral;
use crate::sort::key_bounded;
use crate::sort::sorted_order;
use crate::sort::SortKey;

verus! {

/// The study queue of a deck for today.
#[derive(Clone, Debug)]
pub struct CardQueues {
    /// How many new, learning and review cards are due.
    pub counts: Counts,
    /// New, review and interday learning cards, in the order they are shown.
    pub main: Vec<MainQueueEntry>,
    /// Intraday learning cards.
    pub intraday_learning: Vec<LearningQueueEntry>,
    /// How far ahead learning cards may be shown, in seconds.
    pub learn_ahead_secs: u32,
    /// The day the queue was built for.
    pub current_day: u32,
    /// The time the queue was built at, in seconds.
    pub built_at: i64,
    /// The scored cards RWKV-Instant's repeat guards held back.
    pub deferred_rwkv_reviews: Vec<(i64, RwkvDeferral)>,
    /// RWKV-Instant orders the reviews but has no scores yet.
    pub rwkv_scores_pending: bool,
}

impl CardQueues {
    /// The counts as new, learning and review.
    pub fn counts_array(&self) -> (counts: [usize; 3])
        ensures
            counts@ == seq![self.counts.new, self.counts.learning, self.counts.review],
    {
        let counts = [self.counts.new, self.counts.learning, self.counts.review];
        proof {
            assert(counts@ =~= seq![self.counts.new, self.counts.learning, self.counts.review]);
        }
        counts
    }

    /// The ids of the queue's cards in the order they are shown: the
    /// intraday learning cards due now, the main queue, then the learning
    /// cards that may be shown ahead of time.
    pub fn card_ids(&self) -> (ids: Vec<i64>)
        ensures
            ids@ == learning_ids(self.intraday_learning@, None, self.built_at as int) + main_ids(self.main@)
                + learning_ids(
                self.intraday_learning@,
                Some(self.built_at as int),
                self.built_at + self.learn_ahead_secs,
            ),
    {
        let mut ids: Vec<i64> = Vec::new();
        let now = self.built_at;
        let ahead = self.built_at as i128 + self.learn_ahead_secs as i128;
        let learning = &self.intraday_learning;
        let mut i: usize = 0;
        while i < learning.len()
            invariant
                i <= learning@.len(),
                now == self.built_at,
                learning == &self.intraday_learning,
                ids@ == learning_ids(learning@.subrange(0, i as int), None, self.built_at as int),
            decreases learning@.len() - i,
        {
            proof {
                lemma_learning_ids_push(learning@, i as int, None, self.built_at as int);
            }
            if learning[i].due <= now {
                ids.push(learning[i].id);
            }
            i = i + 1;
        }
        proof {
            assert(learning@.subrange(0, learning@.len() as int) =~= learning@);
        }
        let ghost first = ids@;
        let mut k: usize = 0;
        while k < self.main.len()
            invariant
                k <= self.main@.len(),
                ids@ == first + main_ids(self.main@.subrange(0, k as int)),
            decreases self.main@.len() - k,
        {
            proof {
                assert(self.main@.subrange(0, k + 1 as int).drop_last() =~= self.main@.subrange(0, k as int));
            }
            ids.push(self.main[k].id);
            proof {
                assert(first + main_ids(self.main@.subrange(0, k + 1 as int)) =~= ids@);
            }
            k = k + 1;
        }
        proof {
            assert(self.main@.subrange(0, self.main@.len() as int) =~= self.main@);
        }
        let ghost second = ids@;
        let mut j: usize = 0;
        while j < learning.len()
            invariant
                j <= learning@.len(),
                now == self.built_at,
                ahead == self.built_at + self.learn_ahead_secs,
                learning == &self.intraday_learning,
                ids@ == second + learning_ids(learning@.subrange(0, j as int), Some(self.built_at as int), self.built_at + self.learn_ahead_secs),
            decreases learning@.len() - j,
        {
            proof {
                lemma_learning_ids_push(learning@, j as int, Some(self.built_at as int), self.built_at + self.learn_ahead_secs);
            }
            let due = learning[j].due;
            if now < due && due as i128 <= ahead {
                ids.push(learning[j].id);
            }
            j = j + 1;
        }
        proof {
            assert(learning@.subrange(0, learning@.len() as int) =~= learning@);
        }
        ids
    }
}

/// The ids of the learning entries due after `after` (where given) and by
/// `by`, in order.
pub open spec fn learning_ids(entries: Seq<LearningQueueEntry>, after: Option<int>, by: int) -> Seq<i64>
    decreases entries.len(),
{
    if entries.len() == 0 {
        seq![]
    } else {
        let rest = learning_ids(entries.drop_last(), after, by);
        if due_between(entries.last(), after, by) {
            rest.push(entries.last().id)
        } else {
            rest
        }
    }
}

/// The ids of main-queue entries, in order.
pub open spec fn main_ids(entries: Seq<MainQueueEntry>) -> Seq<i64>
    decreases entries.len(),
{
    if entries.len() == 0 {
        seq![]
    } else {
        main_ids(entries.drop_last()).push(entries.last().id)
    }
}

pub open spec fn due_between(e: LearningQueueEntry, after: Option<int>, by: int) -> bool {
    (match after {
        Some(a) => a < e.due,
        None => true,
    }) && e.due <= by
}

proof fn lemma_learning_ids_push(entries: Seq<LearningQueueEntry>, i: int, after: Option<int>, by: int)
    requires
        0 <= i < entries.len(),
    ensures
        learning_ids(entries.subrange(0, i + 1), after, by) == if due_between(entries[i], after, by) {
            learning_ids(entries.subrange(0, i), after, by).push(entries[i].id)
        } else {
            learning_ids(entries.subrange(0, i), after, by)
        },
{
    assert(entries.subrange(0, i + 1).drop_last() =~= entries.subrange(0, i));
}

/// `a` sorts before `b`, byte by byte, a prefix first.
pub open spec fn name_before(a: Seq<u8>, b: Seq<u8>) -> bool
    decreases a.len(),
{
    if b.len() == 0 {
        false
    } else if a.len() == 0 {
        true
    } else if a[0] != b[0] {
        a[0] < b[0]
    } else {
        name_before(a.subrange(1, a.len() as int), b.subrange(1, b.len() as int))
    }
}

/// Whether `a` sorts before `b`, byte by byte, a prefix first.
pub fn name_is_before(a: &Vec<u8>, b: &Vec<u8>) -> (before: bool)
    ensures
        before == name_before(a@, b@),
{
    let mut i: usize = 0;
    proof {
        assert(a@.subrange(0, a@.len() as int) =~= a@);
        assert(b@.subrange(0, b@.len() as int) =~= b@);
    }
    while i < a.len() && i < b.len()
        invariant
            i <= a@.len(),
            i <= b@.len(),
            name_before(a@, b@) == name_before(a@.subrange(i as int, a@.len() as int), b@.subrange(i as int, b@.len() as int)),
        decreases a@.len() - i,
    {
        let ghost x = a@.subrange(i as int, a@.len() as int);
        let ghost y = b@.subrange(i as int, b@.len() as int);
        if a[i] != b[i] {
            proof {
                assert(x[0] == a@[i as int] && y[0] == b@[i as int]);
            }
            return a[i] < b[i];
        }
        proof {
            assert(x.subrange(1, x.len() as int) =~= a@.subrange(i + 1, a@.len() as int));
            assert(y.subrange(1, y.len() as int) =~= b@.subrange(i + 1, b@.len() as int));
        }
        i = i + 1;
    }
    i < b.len()
}

/// The positions of the studied decks: the root first, then the decks
/// under it in the order of their names.
fn studied_decks(decks: &Vec<Deck>, root: usize) -> (order: Vec<usize>)
    requires
        root < decks@.len(),
    ensures
        order@.len() >= 1,
        order@[0] == root,
        forall|k: int| 0 <= k < order@.len() ==> #[trigger] order@[k] < decks@.len(),
        forall|k: int|
            1 <= k < order@.len() ==> spec_within_scope(decks@[#[trigger] order@[k] as int].name@, decks@[root as int].name@)
                && decks@[order@[k] as int].id != decks@[root as int].id,
{
    let mut order: Vec<usize> = Vec::new();
    order.push(root);
    let mut i: usize = 0;
    while i < decks.len()
        invariant
            i <= decks@.len(),
            root < decks@.len(),
            order@.len() >= 1,
            order@[0] == root,
            forall|k: int| 0 <= k < order@.len() ==> #[trigger] order@[k] < decks@.len(),
            forall|k: int|
                1 <= k < order@.len() ==> spec_within_scope(decks@[#[trigger] order@[k] as int].name@, decks@[root as int].name@)
                    && decks@[order@[k] as int].id != decks@[root as int].id,
        decreases decks@.len() - i,
    {
        if decks[i].id != decks[root].id && deck_is_within_scope(&decks[i], &decks[root]) {
            // after every deck whose name does not sort after this one's
            let mut pos: usize = order.len();
            while pos > 1 && name_is_before(&decks[i].name, &decks[order[pos - 1]].name)
                invariant
                    1 <= pos <= order@.len(),
                    i < decks@.len(),
                    forall|k: int| 0 <= k < order@.len() ==> #[trigger] order@[k] < decks@.len(),
                decreases pos,
            {
                pos = pos - 1;
            }
            let ghost before = order@;
            order.insert(pos, i);
            proof {
                assert forall|k: int| 0 <= k < order@.len() implies #[trigger] order@[k] < decks@.len() by {
                    if k < pos {
                        assert(order@[k] == before[k]);
                    } else if k > pos {
                        assert(order@[k] == before[k - 1]);
                    }
                }
                assert forall|k: int| 1 <= k < order@.len() implies spec_within_scope(
                    decks@[#[trigger] order@[k] as int].name@,
                    decks@[root as int].name@,
                ) && decks@[order@[k] as int].id != decks@[root as int].id by {
                    if k < pos {
                        assert(order@[k] == before[k]);
                    } else if k > pos {
                        assert(order@[k] == before[k - 1]);
                    }
                }
                assert(order@[0] == before[0]);
            }
        }
        i = i + 1;
    }
    order
}

/// `a - b`, or 0 where `b` is larger.
pub open spec fn sat_sub(a: u32, b: u32) -> u32 {
    if a > b {
        (a - b) as u32
    } else {
        0
    }
}

/// The new cards and reviews a deck has left today: its preset's limits
/// less what was studied today; a deck without a preset has no limit.
pub open spec fn spec_deck_left(deck: Deck, configs: Seq<crate::queue::model::DeckConfig>) -> (u32, u32) {
    match deck.config_id {
        Some(config_id) => match first_config(configs, config_id) {
            Some(c) => (sat_sub(c.new_per_day, deck.new_studied_today), sat_sub(c.reviews_per_day, deck.review_studied_today)),
            None => (u32::MAX, u32::MAX),
        },
        None => (u32::MAX, u32::MAX),
    }
}

/// The limits a deck starts the day with: its preset's, less what was
/// studied today; a deck without a preset has none.
fn deck_limit(deck: &Deck, configs: &Vec<crate::queue::model::DeckConfig>, parent: Option<usize>) -> (limit: DeckLimit)
    ensures
        limit.deck_id == deck.id,
        limit.parent == parent,
        (limit.new, limit.review) == spec_deck_left(*deck, configs@),
{
    match deck.config_id {
        Some(config_id) => match find_config(configs, config_id) {
            Some(c) => {
                let config = &configs[c];
                DeckLimit {
                    deck_id: deck.id,
                    parent,
                    review: config.reviews_per_day.saturating_sub(deck.review_studied_today),
                    new: config.new_per_day.saturating_sub(deck.new_studied_today),
                    rwkv_minimum: config.rwkv_review_minimum_reviews_per_day.saturating_sub(
                        deck.review_studied_today,
                    ),
                }
            },
            None => DeckLimit { deck_id: deck.id, parent, review: u32::MAX, new: u32::MAX, rwkv_minimum: 0 },
        },
        None => DeckLimit { deck_id: deck.id, parent, review: u32::MAX, new: u32::MAX, rwkv_minimum: 0 },
    }
}

/// The limits of a queue for the deck at `root`, whose studied decks are
/// `order` (the root first): the limit tree of the studied decks, under the
/// decks above the root where all parent limits apply, with the reviews in
/// filtered decks counted against the RWKV minimums.
fn studied_limits(col: &Collection, root: usize, order: &Vec<usize>) -> (limits: LimitTree)
    requires
        root < col.decks@.len(),
        order@.len() >= 1,
        order@[0] == root,
        forall|k: int| 0 <= k < order@.len() ==> #[trigger] order@[k] < col.decks@.len(),
    ensures
        limits.wf(),
        !col.apply_all_parent_limits ==> (limits.nodes@[0].new, limits.nodes@[0].review) == spec_deck_left(
            col.decks@[root as int],
            col.configs@,
        ),
        exists|d: int|
            0 <= d < col.decks@.len() && (limits.nodes@[0].new, limits.nodes@[0].review) == spec_deck_left(
                #[trigger] col.decks@[d],
                col.configs@,
            ) && (col.decks@[d].id == col.decks@[root as int].id || (col.apply_all_parent_limits && spec_within_scope(
                col.decks@[root as int].name@,
                col.decks@[d].name@,
            ))),
{
        let mut limit_order: Vec<usize> = if col.apply_all_parent_limits {
            parent_decks(&col.decks, root)
        } else {
            Vec::new()
        };
        let ghost parents_seq = limit_order@;
        let mut k: usize = 0;
        while k < order.len()
            invariant
                k <= order@.len(),
                limit_order@ == parents_seq + order@.take(k as int),
            decreases order@.len() - k,
        {
            proof {
                assert(order@.take(k + 1) =~= order@.take(k as int).push(order@[k as int]));
                assert(parents_seq + order@.take(k + 1) =~= (parents_seq + order@.take(k as int)).push(order@[k as int]));
            }
            limit_order.push(order[k]);
            k = k + 1;
        }
        proof {
            assert(order@.take(k as int) =~= order@);
            assert forall|q: int| 0 <= q < limit_order@.len() implies #[trigger] limit_order@[q] < col.decks@.len() by {
                if q >= parents_seq.len() {
                    assert(limit_order@[q] == order@[q - parents_seq.len()]);
                }
            }
        }
        let mut limits = limit_tree(&col.decks, &col.configs, &limit_order);
        let ghost tree0 = limits.nodes@;
        // reviews of a deck that sit in filtered decks count towards its RWKV
        // minimum
        if limits.any_rwkv_review_minimum_remaining() {
            reserve_filtered_reviews(&mut limits, &col.cards);
        }
        proof {
            assert(limits.nodes@[0].new == tree0[0].new && limits.nodes@[0].review == tree0[0].review);
            let d = limit_order@[0] as int;
            if parents_seq.len() == 0 {
                assert(limit_order@[0] == order@[0]);
            }
            assert(col.decks@[d].id == col.decks@[root as int].id || (col.apply_all_parent_limits && spec_within_scope(
                col.decks@[root as int].name@,
                col.decks@[d].name@,
            )));
        }
        limits
}

/// Counts each review card that sits in a filtered deck against the RWKV
/// minimums of its home deck's chain; the other limits stay.
fn reserve_filtered_reviews(limits: &mut LimitTree, cards: &Vec<Card>)
    requires
        old(limits).wf(),
    ensures
        final(limits).wf(),
        final(limits).nodes@.len() == old(limits).nodes@.len(),
        forall|j: int|
            0 <= j < old(limits).nodes@.len() ==> (#[trigger] final(limits).nodes@[j]).new == old(limits).nodes@[j].new
                && final(limits).nodes@[j].review == old(limits).nodes@[j].review && final(limits).nodes@[j].deck_id
                == old(limits).nodes@[j].deck_id && final(limits).nodes@[j].parent == old(limits).nodes@[j].parent,
{
    let ghost tree = limits.nodes@;
    let mut c: usize = 0;
    while c < cards.len()
        invariant
            c <= cards@.len(),
            limits.wf(),
            tree == old(limits).nodes@,
            limits.nodes@.len() == tree.len(),
            forall|j: int|
                0 <= j < tree.len() ==> (#[trigger] limits.nodes@[j]).new == tree[j].new && limits.nodes@[j].review
                    == tree[j].review && limits.nodes@[j].deck_id == tree[j].deck_id && limits.nodes@[j].parent
                    == tree[j].parent,
        decreases cards@.len() - c,
    {
        let card = &cards[c];
        if card.original_deck_id != 0 && card.queue == CardQueue::Review {
            let ghost before = limits.nodes@;
            limits.reserve_rwkv_reviews_if_present(card.original_deck_id, 1);
            proof {
                if exists|i: int| #[trigger] first_node_of(before, card.original_deck_id, i) {
                    let i = choose|i: int| #[trigger] first_node_of(before, card.original_deck_id, i);
                    assert(limits.nodes@ == minimum_reserved(before, i, 1));
                }
            }
        }
        c = c + 1;
    }
}

/// The decks above the studied one (the root at `root`), top first.
fn parent_decks(decks: &Vec<Deck>, root: usize) -> (parents: Vec<usize>)
    requires
        root < decks@.len(),
    ensures
        forall|k: int|
            0 <= k < parents@.len() ==> #[trigger] parents@[k] < decks@.len() && decks@[parents@[k] as int].id
                != decks@[root as int].id && spec_within_scope(decks@[root as int].name@, decks@[parents@[k] as int].name@),
        forall|d: int|
            0 <= d < decks@.len() && decks@[d].id != decks@[root as int].id && spec_within_scope(
                decks@[root as int].name@,
                #[trigger] decks@[d].name@,
            ) ==> parents@.contains(d as usize),
{
    let mut parents: Vec<usize> = Vec::new();
    let mut i: usize = 0;
    while i < decks.len()
        invariant
            i <= decks@.len(),
            root < decks@.len(),
            forall|k: int|
                0 <= k < parents@.len() ==> #[trigger] parents@[k] < decks@.len() && decks@[parents@[k] as int].id
                    != decks@[root as int].id && spec_within_scope(decks@[root as int].name@, decks@[parents@[k] as int].name@),
            forall|d: int|
                0 <= d < i && decks@[d].id != decks@[root as int].id && spec_within_scope(
                    decks@[root as int].name@,
                    #[trigger] decks@[d].name@,
                ) ==> parents@.contains(d as usize),
        decreases decks@.len() - i,
    {
        if decks[i].id != decks[root].id && deck_is_within_scope(&decks[root], &decks[i]) {
            // after every deck whose name does not sort after this one's
            let mut pos: usize = parents.len();
            while pos > 0 && name_is_before(&decks[i].name, &decks[parents[pos - 1]].name)
                invariant
                    pos <= parents@.len(),
                    i < decks@.len(),
                    forall|k: int| 0 <= k < parents@.len() ==> #[trigger] parents@[k] < decks@.len(),
                decreases pos,
            {
                pos = pos - 1;
            }
            let ghost before = parents@;
            parents.insert(pos, i);
            proof {
                assert forall|k: int|
                    0 <= k < parents@.len() implies #[trigger] parents@[k] < decks@.len() && decks@[parents@[k] as int].id
                        != decks@[root as int].id && spec_within_scope(decks@[root as int].name@, decks@[parents@[k] as int].name@) by {
                    if k < pos {
                        assert(parents@[k] == before[k]);
                    } else if k > pos {
                        assert(parents@[k] == before[k - 1]);
                    }
                }
                assert forall|d: int|
                    0 <= d < i + 1 && decks@[d].id != decks@[root as int].id && spec_within_scope(
                        decks@[root as int].name@,
                        #[trigger] decks@[d].name@,
                    ) implies parents@.contains(d as usize) by {
                    if d < i {
                        assert(before.contains(d as usize));
                        let q = choose|q: int| 0 <= q < before.len() && before[q] == d as usize;
                        if q < pos {
                            assert(parents@[q] == d as usize);
                        } else {
                            assert(parents@[q + 1] == d as usize);
                        }
                    } else {
                        assert(parents@[pos as int] == i);
                    }
                }
            }
        }
        i = i + 1;
    }
    parents
}

/// The limit tree of the studied decks, in the order of `order`: each
/// deck's parent is the nearest earlier deck above it, else the root.
fn limit_tree(decks: &Vec<Deck>, configs: &Vec<crate::queue::model::DeckConfig>, order: &Vec<usize>) -> (tree: LimitTree)
    requires
        order@.len() >= 1,
        forall|k: int| 0 <= k < order@.len() ==> #[trigger] order@[k] < decks@.len(),
    ensures
        tree.wf(),
        tree.nodes@.len() == order@.len(),
        forall|k: int| 0 <= k < order@.len() ==> #[trigger] tree.nodes@[k].deck_id == decks@[order@[k] as int].id,
        (tree.nodes@[0].new, tree.nodes@[0].review) == spec_deck_left(decks@[order@[0] as int], configs@),
{
    let mut nodes: Vec<DeckLimit> = Vec::new();
    nodes.push(deck_limit(&decks[order[0]], configs, None));
    let mut k: usize = 1;
    while k < order.len()
        invariant
            1 <= k <= order@.len(),
            nodes@.len() == k,
            forall|q: int| 0 <= q < order@.len() ==> #[trigger] order@[q] < decks@.len(),
            tree_wf(nodes@),
            forall|q: int| 0 <= q < k ==> #[trigger] nodes@[q].deck_id == decks@[order@[q] as int].id,
            (nodes@[0].new, nodes@[0].review) == spec_deck_left(decks@[order@[0] as int], configs@),
        decreases order@.len() - k,
    {
        let deck = &decks[order[k]];
        let mut m: usize = k - 1;
        while m > 0 && !(decks[order[m]].id != deck.id && deck_is_within_scope(deck, &decks[order[m]]))
            invariant
                m < k,
                k < order@.len(),
                forall|q: int| 0 <= q < order@.len() ==> #[trigger] order@[q] < decks@.len(),
            decreases m,
        {
            m = m - 1;
        }
        let ghost before = nodes@;
        nodes.push(deck_limit(deck, configs, Some(m)));
        proof {
            assert forall|i: int| 0 <= i < nodes@.len() implies match #[trigger] nodes@[i].parent {
                Some(p) => p < i,
                None => true,
            } by {
                if i < k {
                    assert(nodes@[i] == before[i]);
                }
            }
            assert(nodes@[0] == before[0]);
            assert forall|q: int| 0 <= q < k + 1 implies #[trigger] nodes@[q].deck_id == decks@[order@[q] as int].id by {
                if q < k {
                    assert(nodes@[q] == before[q]);
                }
            }
        }
        k = k + 1;
    }
    LimitTree { nodes }
}

/// The scores RWKV-Instant left for today that the studied deck may use:
/// those of the deck itself or of a deck above it. An empty set of scores
/// counts as none.
pub open spec fn usable_scores(col: Collection, root: Deck, timing: SchedTimingToday) -> bool {
    match col.rwkv_review_queue_scores {
        Some(s) => s.day == timing.days_elapsed && s.entries@.len() > 0 && (s.deck_id == root.id || exists|d: int|
            0 <= d < col.decks@.len() && col.decks@[d].id == s.deck_id && spec_within_scope(
                root.name@,
                #[trigger] col.decks@[d].name@,
            )),
        None => false,
    }
}

fn scores_for(col: &Collection, root: &Deck, timing: SchedTimingToday) -> (scores: Option<Vec<(i64, RwkvReviewQueueScoreEntry)>>)
    ensures
        scores is Some <==> usable_scores(*col, *root, timing),
        scores matches Some(v) ==> col.rwkv_review_queue_scores matches Some(stored) && v@ == stored.entries@,
{
    match &col.rwkv_review_queue_scores {
        Some(s) => {
            if s.day != timing.days_elapsed || s.entries.len() == 0 {
                return None;
            }
            if s.deck_id == root.id {
                return Some(copy_scores(&s.entries));
            }
            let mut d: usize = 0;
            while d < col.decks.len()
                invariant
                    d <= col.decks@.len(),
                    col.rwkv_review_queue_scores == Some(*s),
                    s.deck_id != root.id,
                    s.day == timing.days_elapsed,
                    s.entries@.len() > 0,
                    forall|e: int| 0 <= e < d ==> !(col.decks@[e].id == s.deck_id && spec_within_scope(
                        root.name@,
                        #[trigger] col.decks@[e].name@,
                    )),
                decreases col.decks@.len() - d,
            {
                if col.decks[d].id == s.deck_id && deck_is_within_scope(root, &col.decks[d]) {
                    proof {
                        assert(spec_within_scope(root.name@, col.decks@[d as int].name@));
                    }
                    return Some(copy_scores(&s.entries));
                }
                d = d + 1;
            }
            None
        },
        None => None,
    }
}

/// A copy of a deck.
pub fn copy_deck(deck: &Deck) -> (copy: Deck)
    ensures
        copy.id == deck.id,
        copy.name@ == deck.name@,
        copy.config_id == deck.config_id,
        copy.new_studied_today == deck.new_studied_today,
        copy.review_studied_today == deck.review_studied_today,
{
    let name = deck.name.clone();
    proof {
        assert forall|i: int| 0 <= i < name@.len() implies name@[i] == deck.name@[i] by {
            assert(vstd::pervasive::cloned::<u8>(deck.name@[i], name@[i]));
        }
        assert(name@ =~= deck.name@);
    }
    Deck {
        id: deck.id,
        name,
        config_id: deck.config_id,
        new_studied_today: deck.new_studied_today,
        review_studied_today: deck.review_studied_today,
        desired_retention: deck.desired_retention,
    }
}

/// A deck with this id is the studied deck or one under it: its name lies
/// in the tree of `root_name`.
pub open spec fn studied_deck(decks: Seq<Deck>, root_name: Seq<u8>, id: i64) -> bool {
    exists|d: int| 0 <= d < decks.len() && #[trigger] decks[d].id == id && spec_within_scope(decks[d].name@, root_name)
}

/// A card the study queue may hold: the card being studied, or a card of
/// the collection in the studied deck or one under it.
pub open spec fn queued_card(col: Collection, root_name: Seq<u8>, current_card: Option<&Card>, id: i64) -> bool {
    ||| current_card matches Some(c) && c.id == id
    ||| exists|i: int|
        0 <= i < col.cards@.len() && #[trigger] col.cards@[i].id == id && studied_deck(
            col.decks@,
            root_name,
            col.cards@[i].deck_id,
        )
}

/// Every card in the builder's lists is the card being studied.
pub open spec fn only_current_card(b: QueueBuilder, current_card: Option<&Card>) -> bool {
    &&& forall|k: int| 0 <= k < b.new@.len() ==> (current_card matches Some(c) && c.id == (#[trigger] b.new@[k]).id)
    &&& forall|k: int| 0 <= k < b.review@.len() ==> (current_card matches Some(c) && c.id == (#[trigger] b.review@[k]).id)
    &&& forall|k: int| 0 <= k < b.learning@.len() ==> (current_card matches Some(c) && c.id == (#[trigger] b.learning@[k]).id)
    &&& forall|k: int|
        0 <= k < b.day_learning@.len() ==> (current_card matches Some(c) && c.id == (#[trigger] b.day_learning@[k]).id)
    &&& forall|k: int|
        0 <= k < b.r_sorted_non_new@.len() ==> (current_card matches Some(c) && c.id == (#[trigger] b.r_sorted_non_new@[k]).id)
}

/// A card of the studied decks is one the queue may hold.
proof fn lemma_studied_card_queued(col: Collection, b: QueueBuilder, root_name: Seq<u8>, current_card: Option<&Card>, id: i64)
    requires
        of_studied_decks(b, col.cards@, id),
        forall|k: int| 0 <= k < b.context.active_deck_ids@.len() ==> studied_deck(
            col.decks@,
            root_name,
            #[trigger] b.context.active_deck_ids@[k],
        ),
    ensures
        queued_card(col, root_name, current_card, id),
{
    let i = choose|i: int|
        0 <= i < col.cards@.len() && #[trigger] col.cards@[i].id == id && b.context.active_deck_ids@.contains(
            col.cards@[i].deck_id,
        );
    let k = choose|k: int| 0 <= k < b.context.active_deck_ids@.len() && b.context.active_deck_ids@[k] == col.cards@[i].deck_id;
    assert(studied_deck(col.decks@, root_name, b.context.active_deck_ids@[k]));
}

/// What the built queue holds of a builder that started from the current
/// card alone and then gathered from the studied decks.
proof fn lemma_built_cards_queued(
    col: Collection,
    start: QueueBuilder,
    gathered: QueueBuilder,
    root_name: Seq<u8>,
    current_card: Option<&Card>,
)
    requires
        only_current_card(start, current_card),
        gathered_from(start, gathered, col.cards@),
        forall|k: int| 0 <= k < start.context.active_deck_ids@.len() ==> studied_deck(
            col.decks@,
            root_name,
            #[trigger] start.context.active_deck_ids@[k],
        ),
    ensures
        forall|id: i64| #[trigger] main_card_listed(gathered, id) ==> queued_card(col, root_name, current_card, id),
        forall|id: i64| #[trigger] learning_card_listed(gathered, id) ==> queued_card(col, root_name, current_card, id),
{
    assert forall|id: i64| #[trigger] main_card_listed(gathered, id) implies queued_card(col, root_name, current_card, id) by {
        if exists|k: int| 0 <= k < gathered.new@.len() && (#[trigger] gathered.new@[k]).id == id {
            let k = choose|k: int| 0 <= k < gathered.new@.len() && (#[trigger] gathered.new@[k]).id == id;
            if start.new@.contains(gathered.new@[k]) {
                let j = choose|j: int| 0 <= j < start.new@.len() && start.new@[j] == gathered.new@[k];
                assert(start.new@[j].id == id);
            } else {
                lemma_studied_card_queued(col, start, root_name, current_card, id);
            }
        } else if exists|k: int| 0 <= k < gathered.review@.len() && (#[trigger] gathered.review@[k]).id == id {
            let k = choose|k: int| 0 <= k < gathered.review@.len() && (#[trigger] gathered.review@[k]).id == id;
            if start.review@.contains(gathered.review@[k]) {
                let j = choose|j: int| 0 <= j < start.review@.len() && start.review@[j] == gathered.review@[k];
                assert(start.review@[j].id == id);
            } else {
                lemma_studied_card_queued(col, start, root_name, current_card, id);
            }
        } else if exists|k: int| 0 <= k < gathered.day_learning@.len() && (#[trigger] gathered.day_learning@[k]).id == id {
            let k = choose|k: int| 0 <= k < gathered.day_learning@.len() && (#[trigger] gathered.day_learning@[k]).id == id;
            if start.day_learning@.contains(gathered.day_learning@[k]) {
                let j = choose|j: int| 0 <= j < start.day_learning@.len() && start.day_learning@[j] == gathered.day_learning@[k];
                assert(start.day_learning@[j].id == id);
            } else {
                lemma_studied_card_queued(col, start, root_name, current_card, id);
            }
        } else {
            let k = choose|k: int| 0 <= k < gathered.r_sorted_non_new@.len() && (#[trigger] gathered.r_sorted_non_new@[k]).id == id;
            if start.r_sorted_non_new@.contains(gathered.r_sorted_non_new@[k]) {
                let j = choose|j: int|
                    0 <= j < start.r_sorted_non_new@.len() && start.r_sorted_non_new@[j] == gathered.r_sorted_non_new@[k];
                assert(start.r_sorted_non_new@[j].id == id);
            } else {
                lemma_studied_card_queued(col, start, root_name, current_card, id);
            }
        }
    }
    assert forall|id: i64| #[trigger] learning_card_listed(gathered, id) implies queued_card(col, root_name, current_card, id) by {
        let k = choose|k: int| 0 <= k < gathered.learning@.len() && (#[trigger] gathered.learning@[k]).id == id;
        if start.learning@.contains(gathered.learning@[k]) {
            let j = choose|j: int| 0 <= j < start.learning@.len() && start.learning@[j] == gathered.learning@[k];
            assert(start.learning@[j].id == id);
        } else {
            lemma_studied_card_queued(col, start, root_name, current_card, id);
        }
    }
}

/// The card with this id is one of the builder's new, review, interday
/// learning or ranked cards.
pub open spec fn main_card_listed(b: QueueBuilder, id: i64) -> bool {
    ||| exists|k: int| 0 <= k < b.new@.len() && (#[trigger] b.new@[k]).id == id
    ||| exists|k: int| 0 <= k < b.review@.len() && (#[trigger] b.review@[k]).id == id
    ||| exists|k: int| 0 <= k < b.day_learning@.len() && (#[trigger] b.day_learning@[k]).id == id
    ||| exists|k: int| 0 <= k < b.r_sorted_non_new@.len() && (#[trigger] b.r_sorted_non_new@[k]).id == id
}

/// Some card of the list has this id.
pub open spec fn id_in(cards: Seq<DueCard>, id: i64) -> bool {
    exists|k: int| 0 <= k < cards.len() && (#[trigger] cards[k]).id == id
}

/// The card with this id is one of the builder's intraday learning cards.
pub open spec fn learning_card_listed(b: QueueBuilder, id: i64) -> bool {
    id_in(b.learning@, id)
}

impl QueueBuilder {
    /// A builder for the deck with this id, or none where there is no such
    /// deck: the deck and the decks under it are studied, with their limits,
    /// the deck's preset's options, and RWKV-Instant's scores where it reads
    /// them and has some for today.
    pub fn new(col: &Collection, deck_id: i64, timing: SchedTimingToday) -> (builder: Option<QueueBuilder>)
        requires
            timing_ok(timing),
        ensures
            builder is None <==> forall|d: int| 0 <= d < col.decks@.len() ==> #[trigger] col.decks@[d].id != deck_id,
            builder matches Some(b) ==> {
                &&& b.inv()
                &&& b.context.timing == timing
                &&& b.context.root_deck.id == deck_id
                &&& b.context.fsrs == col.fsrs
                &&& b.new@.len() == 0 && b.review@.len() == 0 && b.learning@.len() == 0
                &&& b.day_learning@.len() == 0 && b.r_sorted_non_new@.len() == 0
                &&& b.pinned_card_id is None
                &&& b.context.sort_options == crate::queue::builder::spec_sort_options(b.context.root_deck, col.configs@)
                &&& (b.context.rwkv_review_queue_scores is Some <==> b.context.sort_options.rwkv_review_instant_order_enabled
                    && usable_scores(*col, b.context.root_deck, timing))
                &&& (b.context.rwkv_review_queue_scores matches Some(scores) ==> col.rwkv_review_queue_scores matches Some(
                    stored,
                ) && scores@ == stored.entries@)
                &&& exists|r: int| 0 <= r < col.decks@.len() && #[trigger] col.decks@[r].id == deck_id
                    && col.decks@[r].name@ == b.context.root_deck.name@
                &&& forall|k: int| 0 <= k < b.context.active_deck_ids@.len() ==> studied_deck(
                    col.decks@,
                    b.context.root_deck.name@,
                    #[trigger] b.context.active_deck_ids@[k],
                )
                &&& !col.apply_all_parent_limits ==> (first_deck(col.decks@, deck_id) matches Some(root) && (
                    b.limits.nodes@[0].new,
                    b.limits.nodes@[0].review,
                ) == spec_deck_left(root, col.configs@))
                &&& exists|d: int|
                    0 <= d < col.decks@.len() && (b.limits.nodes@[0].new, b.limits.nodes@[0].review) == spec_deck_left(
                        #[trigger] col.decks@[d],
                        col.configs@,
                    ) && (col.decks@[d].id == deck_id || (col.apply_all_parent_limits && spec_within_scope(
                        b.context.root_deck.name@,
                        col.decks@[d].name@,
                    )))
            },
    {
        let root_index = match find_deck(&col.decks, deck_id) {
            Some(r) => r,
            None => {
                return None;
            },
        };
        let root = copy_deck(&col.decks[root_index]);
        let order = studied_decks(&col.decks, root_index);
        let limits = studied_limits(col, root_index, &order);
        let mut active_deck_ids: Vec<i64> = Vec::new();
        let mut k: usize = 0;
        while k < order.len()
            invariant
                k <= order@.len(),
                forall|q: int| 0 <= q < order@.len() ==> #[trigger] order@[q] < col.decks@.len(),
                active_deck_ids@.len() == k,
                forall|q: int| 0 <= q < k ==> #[trigger] active_deck_ids@[q] == col.decks@[order@[q] as int].id,
            decreases order@.len() - k,
        {
            active_deck_ids.push(col.decks[order[k]].id);
            k = k + 1;
        }
        proof {
            assert forall|q: int| 0 <= q < active_deck_ids@.len() implies studied_deck(
                col.decks@,
                root.name@,
                #[trigger] active_deck_ids@[q],
            ) by {
                let d = order@[q] as int;
                assert(col.decks@[d].id == active_deck_ids@[q]);
                if q == 0 {
                    assert(col.decks@[d].name@ =~= root.name@);
                } else {
                    assert(spec_within_scope(col.decks@[d].name@, col.decks@[root_index as int].name@));
                }
            }
            assert(col.decks@[root_index as int].id == deck_id);
        }
        let options = sort_options(&root, &col.configs);
        let scores = if options.uses_rwkv_retrievability_scores() {
            scores_for(col, &root, timing)
        } else {
            None
        };
        Some(QueueBuilder {
            new: Vec::new(),
            review: Vec::new(),
            learning: Vec::new(),
            day_learning: Vec::new(),
            r_sorted_non_new: Vec::new(),
            pinned_card_id: None,
            deferred_rwkv_reviews: Vec::new(),
            limits,
            context: Context {
                timing,
                root_deck: root,
                active_deck_ids,
                sort_options: options,
                seen_note_ids: Vec::new(),
                fsrs: col.fsrs,
                rwkv_review_queue_scores: scores,
            },
        })
    }

    /// Gathers the cards: under RWKV-Instant the intraday and interday
    /// learning cards, the reviews from its scores (none while they are
    /// pending), then new cards; under FSRS's retrievability orders the due
    /// learning and review cards ranked together, then new cards; otherwise
    /// intraday learning, interday learning, reviews and new cards.
    pub fn gather_cards(&mut self, col: &Collection)
        requires
            old(self).inv(),
        ensures
            final(self).inv(),
            setup_same(*old(self), *final(self)),
            old(self).context.sort_options.rwkv_review_instant_order_enabled
                && old(self).context.rwkv_review_queue_scores is None ==> final(self).review
                == old(self).review,
            gathered_from(*old(self), *final(self), col.cards@),
            within_limits(*old(self), *final(self)),
            new_cards_held(*old(self), *final(self), col.cards@),
            !old(self).context.sort_options.rwkv_review_instant_order_enabled
                && !old(self).context.spec_non_news_sorted_by_retrievability() ==> forall|i: int|
                0 <= i < col.cards@.len() ==> (selected(
                    *old(self),
                    col.cards@[i],
                    CardQueue::Review,
                    Some(old(self).context.timing.days_elapsed as i64),
                ) ==> due_held(*final(self), DueCardKind::Review, DueCard::spec_from_card(#[trigger] col.cards@[i], DueCardKind::Review)))
                && (selected(
                    *old(self),
                    col.cards@[i],
                    CardQueue::DayLearn,
                    Some(old(self).context.timing.days_elapsed as i64),
                ) ==> due_held(*final(self), DueCardKind::Learning, DueCard::spec_from_card(col.cards@[i], DueCardKind::Learning))),
            old(self).context.spec_non_news_sorted_by_retrievability() ==> forall|i: int|
                0 <= i < col.cards@.len() ==> (selected(
                    *old(self),
                    col.cards@[i],
                    CardQueue::DayLearn,
                    Some(old(self).context.timing.days_elapsed as i64),
                ) ==> ranked_held(*final(self), DueCard::spec_from_card(#[trigger] col.cards@[i], DueCardKind::Learning)))
                    && (selected(
                    *old(self),
                    col.cards@[i],
                    CardQueue::Review,
                    Some(old(self).context.timing.days_elapsed as i64),
                ) ==> ranked_held(*final(self), DueCard::spec_from_card(col.cards@[i], DueCardKind::Review))),
            old(self).context.sort_options.rwkv_review_instant_order_enabled ==> forall|i: int|
                #[trigger] first_card_of(col.cards@, col.cards@[i].id, i) && is_active_review_card(
                    *old(self),
                    col.cards@[i],
                ) && eligible_by_score(*old(self), *col, col.cards@[i]) && !score_left_out(
                    *old(self),
                    *col,
                    col.cards@[i],
                ) ==> due_held(*final(self), DueCardKind::Review, DueCard::spec_from_card(col.cards@[i], DueCardKind::Review)),
    {
        proof {
            lemma_gathered_nothing(*self, col.cards@);
        }
        if self.context.sort_options.uses_rwkv_review_order() {
            let ghost before_step = *self;
            self.gather_intraday_learning_cards(col);
            proof {
                lemma_gathered_trans(*old(self), before_step, *self, col.cards@);
            }
            let ghost before_step = *self;
            self.gather_due_cards(col, DueCardKind::Learning);
            proof {
                lemma_gathered_trans(*old(self), before_step, *self, col.cards@);
            }
            let ghost before_rwkv = *self;
            if self.context.uses_rwkv_review_order() {
                if crate::queue::builder::retrievability_order(self.context.sort_options.review_order) {
                    let ghost before_step = *self;
                    self.gather_review_cards_by_rwkv_priority(col);
                    proof {
                        lemma_gathered_trans(*old(self), before_step, *self, col.cards@);
                    }
                } else {
                    let ghost before_step = *self;
                    self.gather_review_cards_by_configured_order(col);
                    proof {
                        lemma_gathered_trans(*old(self), before_step, *self, col.cards@);
                    }
                }
            }
            let ghost after_rwkv = *self;
            proof {
                assert forall|i: int|
                    #[trigger] first_card_of(col.cards@, col.cards@[i].id, i) && is_active_review_card(
                        *old(self),
                        col.cards@[i],
                    ) && eligible_by_score(*old(self), *col, col.cards@[i]) && !score_left_out(
                        *old(self),
                        *col,
                        col.cards@[i],
                    ) implies due_held(after_rwkv, DueCardKind::Review, DueCard::spec_from_card(col.cards@[i], DueCardKind::Review)) by {
                    assert(is_active_review_card(before_rwkv, col.cards@[i]));
                    assert(eligible_by_score(before_rwkv, *col, col.cards@[i]));
                    assert(!score_left_out(before_rwkv, *col, col.cards@[i]));
                }
            }
            let ghost before_step = *self;
            self.gather_new_cards(col);
            proof {
                lemma_gathered_trans(*old(self), before_step, *self, col.cards@);
                lemma_new_cards_held_setup(*old(self), before_step, *self, col.cards@);
                assert forall|i: int|
                    #[trigger] first_card_of(col.cards@, col.cards@[i].id, i) && is_active_review_card(
                        *old(self),
                        col.cards@[i],
                    ) && eligible_by_score(*old(self), *col, col.cards@[i]) && !score_left_out(
                        *old(self),
                        *col,
                        col.cards@[i],
                    ) implies due_held(*self, DueCardKind::Review, DueCard::spec_from_card(col.cards@[i], DueCardKind::Review)) by {
                    lemma_due_held_stays(
                        after_rwkv,
                        *self,
                        DueCardKind::Review,
                        DueCard::spec_from_card(col.cards@[i], DueCardKind::Review),
                    );
                }
            }
            return;
        }
        if self.context.non_news_sorted_by_retrievability() {
            let ghost before_step = *self;
            self.gather_due_non_new_cards_with_exact_retrievability(col);
            proof {
                lemma_gathered_trans(*old(self), before_step, *self, col.cards@);
            }
            let ghost before_step = *self;
            self.gather_new_cards(col);
            proof {
                lemma_gathered_trans(*old(self), before_step, *self, col.cards@);
                lemma_new_cards_held_setup(*old(self), before_step, *self, col.cards@);
                assert forall|i: int|
                    0 <= i < col.cards@.len() implies (selected(
                    *old(self),
                    col.cards@[i],
                    CardQueue::DayLearn,
                    Some(old(self).context.timing.days_elapsed as i64),
                ) ==> ranked_held(*self, DueCard::spec_from_card(#[trigger] col.cards@[i], DueCardKind::Learning)))
                    && (selected(
                    *old(self),
                    col.cards@[i],
                    CardQueue::Review,
                    Some(old(self).context.timing.days_elapsed as i64),
                ) ==> ranked_held(*self, DueCard::spec_from_card(col.cards@[i], DueCardKind::Review))) by {
                    if selected(*old(self), col.cards@[i], CardQueue::DayLearn, Some(old(self).context.timing.days_elapsed as i64)) {
                        lemma_ranked_held_stays(before_step, *self, DueCard::spec_from_card(col.cards@[i], DueCardKind::Learning));
                    }
                    if selected(*old(self), col.cards@[i], CardQueue::Review, Some(old(self).context.timing.days_elapsed as i64)) {
                        lemma_ranked_held_stays(before_step, *self, DueCard::spec_from_card(col.cards@[i], DueCardKind::Review));
                    }
                }
            }
            return;
        }
        let ghost before_step = *self;
        self.gather_intraday_learning_cards(col);
        proof {
            lemma_gathered_trans(*old(self), before_step, *self, col.cards@);
        }
        let ghost before_step = *self;
        let ghost before_learning = *self;
        self.gather_due_cards(col, DueCardKind::Learning);
        let ghost after_learning = *self;
        proof {
            lemma_gathered_trans(*old(self), before_step, *self, col.cards@);
        }
        let ghost before_step = *self;
        self.gather_due_cards(col, DueCardKind::Review);
        let ghost after_review = *self;
        proof {
            lemma_gathered_trans(*old(self), before_step, *self, col.cards@);
        }
        let ghost before_step = *self;
        self.gather_new_cards(col);
        proof {
            lemma_gathered_trans(*old(self), before_step, *self, col.cards@);
            lemma_new_cards_held_setup(*old(self), before_step, *self, col.cards@);
        }
        proof {
            assert forall|i: int| 0 <= i < col.cards@.len() implies (selected(
                *old(self),
                col.cards@[i],
                CardQueue::Review,
                Some(old(self).context.timing.days_elapsed as i64),
            ) ==> due_held(*self, DueCardKind::Review, DueCard::spec_from_card(#[trigger] col.cards@[i], DueCardKind::Review)))
                && (selected(
                *old(self),
                col.cards@[i],
                CardQueue::DayLearn,
                Some(old(self).context.timing.days_elapsed as i64),
            ) ==> due_held(*self, DueCardKind::Learning, DueCard::spec_from_card(col.cards@[i], DueCardKind::Learning))) by {
                let r = DueCard::spec_from_card(col.cards@[i], DueCardKind::Review);
                let l = DueCard::spec_from_card(col.cards@[i], DueCardKind::Learning);
                if selected(*old(self), col.cards@[i], CardQueue::Review, Some(old(self).context.timing.days_elapsed as i64)) {
                    assert(selected(after_learning, col.cards@[i], queue_of_kind(DueCardKind::Review), Some(after_learning.context.timing.days_elapsed as i64)));
                    assert(due_held(after_review, DueCardKind::Review, r));
                    lemma_due_held_stays(after_review, *self, DueCardKind::Review, r);
                }
                if selected(*old(self), col.cards@[i], CardQueue::DayLearn, Some(old(self).context.timing.days_elapsed as i64)) {
                    assert(selected(before_learning, col.cards@[i], queue_of_kind(DueCardKind::Learning), Some(before_learning.context.timing.days_elapsed as i64)));
                    assert(due_held(after_learning, DueCardKind::Learning, l));
                    lemma_due_held_stays(after_learning, after_review, DueCardKind::Learning, l);
                    lemma_due_held_stays(after_review, *self, DueCardKind::Learning, l);
                }
            }
        }
    }

    /// The queue: intraday learning cards sorted by repetitions then due
    /// time; the interday learning cards mixed with the reviews (or, under
    /// FSRS's retrievability orders, the cards ranked together), then the
    /// new cards mixed in, as the preset says.
    pub fn build(self, learn_ahead_secs: u32) -> (queues: CardQueues)
        requires
            self.inv(),
        ensures
            queues.counts.new == self.new@.len(),
            !self.context.spec_non_news_sorted_by_retrievability() ==> queues.counts.review == self.review@.len(),
            queues.learn_ahead_secs == learn_ahead_secs,
            queues.current_day == self.context.timing.days_elapsed,
            queues.built_at == self.context.timing.now,
            queues.deferred_rwkv_reviews == self.deferred_rwkv_reviews,
            queues.rwkv_scores_pending == (self.context.sort_options.rwkv_review_instant_order_enabled
                && self.context.rwkv_review_queue_scores is None),
            forall|k: int| 0 <= k < queues.main@.len() ==> main_card_listed(self, (#[trigger] queues.main@[k]).id),
            forall|k: int|
                0 <= k < queues.intraday_learning@.len() ==> learning_card_listed(
                    self,
                    (#[trigger] queues.intraday_learning@[k]).id,
                ),
            queues.main@ == spec_merge(interday_main(self), new_card_entries(self.new@), self.context.sort_options.new_review_mix),
            self.context.spec_non_news_sorted_by_retrievability() ==> queues.counts.review == self.r_sorted_non_new@.len()
                - learning_kind_count(self.r_sorted_non_new@),
            queues.counts.learning == if due_by_count(
                queues.intraday_learning@,
                self.context.timing.now + learn_ahead_secs,
            ) + day_learning_counted(self) <= usize::MAX {
                (due_by_count(queues.intraday_learning@, self.context.timing.now + learn_ahead_secs) + day_learning_counted(
                    self,
                )) as usize
            } else {
                usize::MAX
            },
    {
        let shared = self.context.non_news_sorted_by_retrievability();
        let pending = self.context.rwkv_scores_pending();
        let timing = self.context.timing;
        let intraday = sort_learning(&self.learning);
        let cutoff = timing.now as i128 + learn_ahead_secs as i128;
        let mut learn_count: usize = 0;
        let mut i: usize = 0;
        while i < intraday.len()
            invariant
                i <= intraday@.len(),
                learn_count <= i,
                cutoff == timing.now + learn_ahead_secs,
                learn_count == due_by_count(intraday@.take(i as int), cutoff as int),
            decreases intraday@.len() - i,
        {
            proof {
                assert(intraday@.take(i + 1).drop_last() =~= intraday@.take(i as int));
            }
            if intraday[i].due as i128 <= cutoff {
                learn_count = learn_count + 1;
            }
            i = i + 1;
        }
        proof {
            assert(intraday@.take(i as int) =~= intraday@);
        }
        let mut day_learning_count: usize = 0;
        let mut review_count: usize = self.review.len();
        let mut interday: Vec<MainQueueEntry> = Vec::new();
        if shared {
            let mut k: usize = 0;
            while k < self.r_sorted_non_new.len()
                invariant
                    k <= self.r_sorted_non_new@.len(),
                    day_learning_count <= k,
                    interday@.len() == k,
                    forall|q: int| 0 <= q < k ==> #[trigger] interday@[q] == main_entry_of_due(self.r_sorted_non_new@[q]),
                    day_learning_count == learning_kind_count(self.r_sorted_non_new@.take(k as int)),
                decreases self.r_sorted_non_new@.len() - k,
            {
                proof {
                    assert(self.r_sorted_non_new@.take(k + 1).drop_last() =~= self.r_sorted_non_new@.take(k as int));
                }
                let card = self.r_sorted_non_new[k];
                if let DueCardKind::Learning = card.kind {
                    day_learning_count = day_learning_count + 1;
                }
                interday.push(main_entry_from_due(&card));
                k = k + 1;
            }
            proof {
                assert(self.r_sorted_non_new@.take(k as int) =~= self.r_sorted_non_new@);
                assert(interday@ =~= due_entries(self.r_sorted_non_new@));
            }
            review_count = self.r_sorted_non_new.len() - day_learning_count;
        } else {
            day_learning_count = self.day_learning.len();
            let reviews = entries_of_due(&self.review);
            let day_learning = entries_of_due(&self.day_learning);
            let ghost review_entries = reviews@;
            let ghost day_learning_entries = day_learning@;
            proof {
                assert(review_entries =~= due_entries(self.review@));
                assert(day_learning_entries =~= due_entries(self.day_learning@));
            }
            interday = merge(reviews, day_learning, self.context.sort_options.day_learn_mix);
            proof {
                lemma_merge_from(review_entries, day_learning_entries, self.context.sort_options.day_learn_mix);
                assert forall|q: int| 0 <= q < interday@.len() implies main_card_listed(self, (#[trigger] interday@[q]).id) by {
                    if review_entries.contains(interday@[q]) {
                        let j = choose|j: int| 0 <= j < review_entries.len() && review_entries[j] == interday@[q];
                        assert(self.review@[j].id == interday@[q].id);
                    } else {
                        let j = choose|j: int| 0 <= j < day_learning_entries.len() && day_learning_entries[j] == interday@[q];
                        assert(self.day_learning@[j].id == interday@[q].id);
                    }
                }
            }
        }
        proof {
            if shared {
                assert forall|q: int| 0 <= q < interday@.len() implies main_card_listed(self, (#[trigger] interday@[q]).id) by {
                    assert(self.r_sorted_non_new@[q].id == interday@[q].id);
                }
            }
        }
        let new_entries = entries_of_new(&self.new);
        let ghost interday_entries = interday@;
        proof {
            assert(interday_entries == interday_main(self));
            assert(new_entries@ =~= new_card_entries(self.new@));
        }
        let main = merge(interday, new_entries, self.context.sort_options.new_review_mix);
        proof {
            lemma_merge_from(interday_entries, new_entries@, self.context.sort_options.new_review_mix);
            assert forall|q: int| 0 <= q < main@.len() implies main_card_listed(self, (#[trigger] main@[q]).id) by {
                if interday_entries.contains(main@[q]) {
                    let j = choose|j: int| 0 <= j < interday_entries.len() && interday_entries[j] == main@[q];
                    assert(main_card_listed(self, interday_entries[j].id));
                } else {
                    let j = choose|j: int| 0 <= j < new_entries@.len() && new_entries@[j] == main@[q];
                    assert(self.new@[j].id == main@[q].id);
                }
            }
        }
        let learning = if learn_count as u128 + day_learning_count as u128 <= usize::MAX as u128 {
            learn_count + day_learning_count
        } else {
            usize::MAX
        };
        CardQueues {
            counts: Counts { new: self.new.len(), learning, review: review_count },
            main,
            intraday_learning: intraday,
            learn_ahead_secs,
            current_day: timing.days_elapsed,
            built_at: timing.now,
            deferred_rwkv_reviews: self.deferred_rwkv_reviews,
            rwkv_scores_pending: pending,
        }
    }
}

/// The main-queue entries of due cards, in order.
pub open spec fn due_entries(cards: Seq<DueCard>) -> Seq<MainQueueEntry> {
    Seq::new(cards.len(), |i: int| main_entry_of_due(cards[i]))
}

/// The main-queue entries of new cards, in order.
pub open spec fn new_card_entries(cards: Seq<crate::queue::builder::NewCard>) -> Seq<MainQueueEntry> {
    Seq::new(cards.len(), |i: int| main_entry_of_new(cards[i]))
}

/// The interday learning and review part of the main queue: the cards
/// ranked together under FSRS's retrievability orders, else the interday
/// learning cards mixed with the reviews as the preset says.
pub open spec fn interday_main(b: QueueBuilder) -> Seq<MainQueueEntry> {
    if b.context.spec_non_news_sorted_by_retrievability() {
        due_entries(b.r_sorted_non_new@)
    } else {
        spec_merge(due_entries(b.review@), due_entries(b.day_learning@), b.context.sort_options.day_learn_mix)
    }
}

/// How many of the intraday learning entries are due by `cutoff`.
pub open spec fn due_by_count(entries: Seq<LearningQueueEntry>, cutoff: int) -> nat
    decreases entries.len(),
{
    if entries.len() == 0 {
        0
    } else {
        due_by_count(entries.drop_last(), cutoff) + if entries.last().due <= cutoff { 1nat } else { 0nat }
    }
}

/// How many of the cards are interday learning cards.
pub open spec fn learning_kind_count(cards: Seq<DueCard>) -> nat
    decreases cards.len(),
{
    if cards.len() == 0 {
        0
    } else {
        learning_kind_count(cards.drop_last()) + if cards.last().kind == DueCardKind::Learning { 1nat } else { 0nat }
    }
}

proof fn lemma_learning_kind_count_bound(cards: Seq<DueCard>)
    ensures
        learning_kind_count(cards) <= cards.len(),
    decreases cards.len(),
{
    if cards.len() > 0 {
        lemma_learning_kind_count_bound(cards.drop_last());
    }
}

/// The interday learning cards the queue counts.
pub open spec fn day_learning_counted(b: QueueBuilder) -> nat {
    if b.context.spec_non_news_sorted_by_retrievability() {
        learning_kind_count(b.r_sorted_non_new@)
    } else {
        b.day_learning@.len()
    }
}

/// The main-queue entries of due cards.
fn entries_of_due(cards: &Vec<DueCard>) -> (entries: Vec<MainQueueEntry>)
    ensures
        entries@.len() == cards@.len(),
        forall|k: int| 0 <= k < cards@.len() ==> #[trigger] entries@[k] == main_entry_of_due(cards@[k]),
{
    let mut entries: Vec<MainQueueEntry> = Vec::new();
    let mut k: usize = 0;
    while k < cards.len()
        invariant
            k <= cards@.len(),
            entries@.len() == k,
            forall|q: int| 0 <= q < k ==> #[trigger] entries@[q] == main_entry_of_due(cards@[q]),
        decreases cards@.len() - k,
    {
        entries.push(main_entry_from_due(&cards[k]));
        k = k + 1;
    }
    entries
}

/// The main-queue entries of new cards.
fn entries_of_new(cards: &Vec<crate::queue::builder::NewCard>) -> (entries: Vec<MainQueueEntry>)
    ensures
        entries@.len() == cards@.len(),
        forall|k: int| 0 <= k < cards@.len() ==> #[trigger] entries@[k] == main_entry_of_new(cards@[k]),
{
    let mut entries: Vec<MainQueueEntry> = Vec::new();
    let mut k: usize = 0;
    while k < cards.len()
        invariant
            k <= cards@.len(),
            entries@.len() == k,
            forall|q: int| 0 <= q < k ==> #[trigger] entries@[q] == main_entry_of_new(cards@[q]),
        decreases cards@.len() - k,
    {
        entries.push(main_entry_from_new(&cards[k]));
        k = k + 1;
    }
    entries
}

/// The intraday learning entries sorted by repetitions, then due time,
/// ties in their order.
fn sort_learning(learning: &Vec<DueCard>) -> (entries: Vec<LearningQueueEntry>)
    ensures
        entries@.len() == learning@.len(),
        forall|m: int| 0 <= m < entries@.len() ==> id_in(learning@, (#[trigger] entries@[m]).id),
{
    let mut keys: Vec<SortKey> = Vec::new();
    let mut k: usize = 0;
    while k < learning.len()
        invariant
            k <= learning@.len(),
            keys@.len() == k,
            forall|m: int| 0 <= m < keys@.len() ==> key_bounded(#[trigger] keys@[m]),
        decreases learning@.len() - k,
    {
        keys.push(SortKey { a: learning[k].reps as i128, num: 0, den: 1, b: learning[k].due as i128, c: 0 });
        k = k + 1;
    }
    let order = sorted_order(&keys);
    let mut entries: Vec<LearningQueueEntry> = Vec::new();
    let mut q: usize = 0;
    while q < order.len()
        invariant
            q <= order@.len(),
            order@.len() == learning@.len(),
            entries@.len() == q,
            forall|m: int| 0 <= m < order@.len() ==> #[trigger] order@[m] < learning@.len(),
            forall|m: int| 0 <= m < entries@.len() ==> id_in(learning@, (#[trigger] entries@[m]).id),
        decreases order@.len() - q,
    {
        let ghost before = entries@;
        entries.push(learning_entry_from_due(&learning[order[q]]));
        proof {
            assert forall|m: int| 0 <= m < entries@.len() implies id_in(learning@, (#[trigger] entries@[m]).id) by {
                if m < before.len() {
                    assert(entries@[m] == before[m]);
                } else {
                    assert(learning@[order@[q as int] as int].id == entries@[m].id);
                }
            }
        }
        q = q + 1;
    }
    entries
}

/// Why a study queue was not built.
#[derive(Clone, Copy, Debug, PartialEq, Eq, Structural)]
pub enum QueueBuildError {
    /// There is no deck with the id.
    DeckNotFound,
    /// The card being studied could not be kept in the queue.
    CurrentCard(PinCardError),
}

impl Collection {
    /// The study queue of the deck with this id for today. While
    /// RWKV-Instant orders the reviews but has no scores for the deck, the
    /// queue holds no reviews and says the scores are pending.
    pub fn build_queues(&self, deck_id: i64, timing: SchedTimingToday) -> (queues: Result<CardQueues, QueueBuildError>)
        requires
            timing_ok(timing),
        ensures
            queues is Err <==> forall|d: int| 0 <= d < self.decks@.len() ==> #[trigger] self.decks@[d].id != deck_id,
            queues is Err ==> queues == Err::<CardQueues, QueueBuildError>(QueueBuildError::DeckNotFound),
            queues matches Ok(q) ==> {
                &&& q.current_day == timing.days_elapsed
                &&& q.built_at == timing.now
                &&& q.learn_ahead_secs == self.learn_ahead_secs
                &&& q.rwkv_scores_pending ==> q.counts.review == 0
                &&& !self.apply_all_parent_limits ==> (first_deck(self.decks@, deck_id) matches Some(root) && q.counts.new
                    <= spec_deck_left(root, self.configs@).0 && q.counts.new <= spec_deck_left(root, self.configs@).1)
                &&& exists|d: int|
                    0 <= d < self.decks@.len() && q.counts.new <= spec_deck_left(#[trigger] self.decks@[d], self.configs@).0
                        && q.counts.new <= spec_deck_left(self.decks@[d], self.configs@).1
                &&& exists|r: int|
                    0 <= r < self.decks@.len() && #[trigger] self.decks@[r].id == deck_id && (forall|k: int|
                        0 <= k < q.main@.len() ==> queued_card(*self, self.decks@[r].name@, None, (#[trigger] q.main@[k]).id))
                        && (forall|k: int|
                        0 <= k < q.intraday_learning@.len() ==> queued_card(
                            *self,
                            self.decks@[r].name@,
                            None,
                            (#[trigger] q.intraday_learning@[k]).id,
                        ))
            },
    {
        self.build_queues_with_current_card(deck_id, timing, None)
    }

    /// The study queue, keeping the card being studied in it where its deck
    /// is the studied deck or one under it (see
    /// [`QueueBuilder::pin_current_card`]); a card elsewhere is ignored.
    pub fn build_queues_with_current_card(
        &self,
        deck_id: i64,
        timing: SchedTimingToday,
        current_card: Option<&Card>,
    ) -> (queues: Result<CardQueues, QueueBuildError>)
        requires
            timing_ok(timing),
        ensures
            (forall|d: int| 0 <= d < self.decks@.len() ==> #[trigger] self.decks@[d].id != deck_id) ==> queues
                == Err::<CardQueues, QueueBuildError>(QueueBuildError::DeckNotFound),
            (exists|d: int| 0 <= d < self.decks@.len() && #[trigger] self.decks@[d].id == deck_id) && current_card is None
                ==> queues is Ok,
            queues is Err && queues != Err::<CardQueues, QueueBuildError>(QueueBuildError::DeckNotFound) ==> current_card is Some,
            queues matches Ok(q) ==> {
                &&& q.current_day == timing.days_elapsed
                &&& q.built_at == timing.now
                &&& q.learn_ahead_secs == self.learn_ahead_secs
                &&& current_card is None ==> (q.rwkv_scores_pending ==> q.counts.review == 0)
                &&& current_card is None && !self.apply_all_parent_limits ==> (first_deck(self.decks@, deck_id) matches Some(root)
                    && q.counts.new <= spec_deck_left(root, self.configs@).0 && q.counts.new <= spec_deck_left(
                    root,
                    self.configs@,
                ).1)
                &&& current_card is None ==> exists|d: int|
                    0 <= d < self.decks@.len() && q.counts.new <= spec_deck_left(#[trigger] self.decks@[d], self.configs@).0
                        && q.counts.new <= spec_deck_left(self.decks@[d], self.configs@).1
                &&& exists|r: int|
                    0 <= r < self.decks@.len() && #[trigger] self.decks@[r].id == deck_id && (forall|k: int|
                        0 <= k < q.main@.len() ==> queued_card(*self, self.decks@[r].name@, current_card, (#[trigger] q.main@[k]).id))
                        && (forall|k: int|
                        0 <= k < q.intraday_learning@.len() ==> queued_card(
                            *self,
                            self.decks@[r].name@,
                            current_card,
                            (#[trigger] q.intraday_learning@[k]).id,
                        ))
            },
    {
        let mut builder = match QueueBuilder::new(self, deck_id, timing) {
            Some(b) => b,
            None => {
                return Err(QueueBuildError::DeckNotFound);
            },
        };
        let ghost fresh = builder;
        if let Some(card) = current_card {
            let in_scope = match find_deck(&self.decks, card.deck_id) {
                Some(d) => deck_is_within_scope(&self.decks[d], &builder.context.root_deck),
                None => false,
            };
            if in_scope {
                if let Err(e) = builder.pin_current_card(self, card) {
                    return Err(QueueBuildError::CurrentCard(e));
                }
                proof {
                    assert(only_current_card(builder, current_card));
                }
            }
        }
        let ghost start = builder;
        proof {
            assert(only_current_card(start, current_card));
            assert(start.context.active_deck_ids == fresh.context.active_deck_ids);
            assert(start.context.root_deck == fresh.context.root_deck);
        }
        builder.gather_cards(self);
        proof {
            lemma_built_cards_queued(*self, start, builder, fresh.context.root_deck.name@, current_card);
            if current_card is None {
                assert(start == fresh);
                assert(builder.new@.len() <= left(fresh.limits.nodes@[0], LimitKind::New));
            }
        }
        let queues = builder.build(self.learn_ahead_secs);
        proof {
            let r = choose|r: int|
                0 <= r < self.decks@.len() && #[trigger] self.decks@[r].id == deck_id && self.decks@[r].name@
                    == fresh.context.root_deck.name@;
            assert forall|k: int| 0 <= k < queues.main@.len() implies queued_card(
                *self,
                self.decks@[r].name@,
                current_card,
                (#[trigger] queues.main@[k]).id,
            ) by {
                assert(main_card_listed(builder, queues.main@[k].id));
            }
            assert forall|k: int| 0 <= k < queues.intraday_learning@.len() implies queued_card(
                *self,
                self.decks@[r].name@,
                current_card,
                (#[trigger] queues.intraday_learning@[k]).id,
            ) by {
                assert(learning_card_listed(builder, queues.intraday_learning@[k].id));
            }
        }
        Ok(queues)
    }
}

} // verus!
