use vstd::prelude::*;

use crate::rwkv_inputs::lookup::find_value;
use crate::rwkv_inputs::lookup::first_value;

use crate::card::Card;

verus! {

/// How review cards are ordered.
#[derive(Clone, Copy, Debug, PartialEq, Eq, Structural)]
pub enum ReviewCardOrder {
    Day,
    DayThenDeck,
    DeckThenDay,
    IntervalsAscending,
    IntervalsDescending,
    EaseAscending,
    EaseDescending,
    RetrievabilityAscending,
    RetrievabilityDescending,
    RelativeOverdueness,
    Random,
    Added,
    ReverseAdded,
}

/// How new cards are gathered.
#[derive(Clone, Copy, Debug, PartialEq, Eq, Structural)]
pub enum NewCardGatherPriority {
    Deck,
    DeckThenRandomNotes,
    LowestPosition,
    HighestPosition,
    RandomNotes,
    RandomCards,
    AscendingRetrievability,
    DescendingRetrievability,
}

/// Where one kind of card goes relative to another in the study queue.
#[derive(Clone, Copy, Debug, PartialEq, Eq, Structural)]
pub enum ReviewMix {
    MixWithReviews,
    AfterReviews,
    BeforeReviews,
}

/// A preset: the options the study queue reads, and FSRS's parameters and
/// optimization schedule. Retentions are in millionths; the parameters are
/// the bits of single-precision numbers.
#[derive(Clone, Debug, PartialEq, Eq)]
pub struct DeckConfig {
    pub id: i64,
    pub new_per_day: u32,
    pub reviews_per_day: u32,
    pub review_order: ReviewCardOrder,
    pub new_card_gather_priority: NewCardGatherPriority,
    pub new_mix: ReviewMix,
    pub interday_learning_mix: ReviewMix,
    pub bury_new: bool,
    pub bury_reviews: bool,
    pub bury_interday_learning: bool,
    pub desired_retention: u32,
    pub rwkv_review_enabled: bool,
    pub rwkv_review_instant_order_enabled: bool,
    pub rwkv_review_allow_same_day_review: bool,
    pub rwkv_review_min_intervening_reviews: u32,
    pub rwkv_review_min_elapsed_secs: u32,
    pub rwkv_review_minimum_reviews_per_day: u32,
    /// When the preset was last changed, in seconds.
    pub mtime_secs: i64,
    pub fsrs_params: Vec<u32>,
    /// "Optimize every N days"; none where it was never given a value.
    pub fsrs_auto_optimize_days: Option<u32>,
    pub fsrs_last_optimized_day: Option<u32>,
    /// The ease a card gets when it first becomes a review card, in
    /// thousandths.
    pub initial_ease: u16,
}

/// The initial ease of a preset that was not changed, in thousandths.
pub const DEFAULT_INITIAL_EASE: u16 = 2500;

impl DeckConfig {
    /// A preset with the usual options: 20 new cards and 200 reviews a day,
    /// reviews by due day, new cards by deck, both mixed with reviews, no
    /// burying, a desired retention of 0.9, an initial ease of 2.5, and no
    /// RWKV ordering.
    pub fn new(id: i64) -> (config: DeckConfig)
        ensures
            config.id == id,
            config.new_per_day == 20,
            config.reviews_per_day == 200,
            config.review_order == ReviewCardOrder::Day,
            config.new_card_gather_priority == NewCardGatherPriority::Deck,
            config.new_mix == ReviewMix::MixWithReviews,
            config.interday_learning_mix == ReviewMix::MixWithReviews,
            !config.bury_new && !config.bury_reviews && !config.bury_interday_learning,
            config.desired_retention == 900_000,
            !config.rwkv_review_enabled,
            !config.rwkv_review_instant_order_enabled,
            !config.rwkv_review_allow_same_day_review,
            config.rwkv_review_min_intervening_reviews == 0,
            config.rwkv_review_min_elapsed_secs == 0,
            config.rwkv_review_minimum_reviews_per_day == 0,
            config.mtime_secs == 0,
            config.fsrs_params@.len() == 0,
            config.fsrs_auto_optimize_days.is_none(),
            config.fsrs_last_optimized_day.is_none(),
            config.initial_ease == DEFAULT_INITIAL_EASE,
    {
        DeckConfig {
            id,
            new_per_day: 20,
            reviews_per_day: 200,
            review_order: ReviewCardOrder::Day,
            new_card_gather_priority: NewCardGatherPriority::Deck,
            new_mix: ReviewMix::MixWithReviews,
            interday_learning_mix: ReviewMix::MixWithReviews,
            bury_new: false,
            bury_reviews: false,
            bury_interday_learning: false,
            desired_retention: 900_000,
            rwkv_review_enabled: false,
            rwkv_review_instant_order_enabled: false,
            rwkv_review_allow_same_day_review: false,
            rwkv_review_min_intervening_reviews: 0,
            rwkv_review_min_elapsed_secs: 0,
            rwkv_review_minimum_reviews_per_day: 0,
            mtime_secs: 0,
            fsrs_params: Vec::new(),
            fsrs_auto_optimize_days: None,
            fsrs_last_optimized_day: None,
            initial_ease: DEFAULT_INITIAL_EASE,
        }
    }
}

/// A deck. Its name is the native form: the components joined by the unit
/// separator (0x1f). A filtered deck has no preset.
#[derive(Clone, Debug, PartialEq, Eq)]
pub struct Deck {
    pub id: i64,
    pub name: Vec<u8>,
    pub config_id: Option<i64>,
    pub new_studied_today: u32,
    pub review_studied_today: u32,
    /// The deck's own desired retention (millionths), which overrides its
    /// preset's.
    pub desired_retention: Option<u32>,
}

/// The separator of the components of a native deck name.
pub const NAME_SEPARATOR: u8 = 0x1f;

/// RWKV-Instant's value for one card. Retentions are in millionths.
#[derive(Clone, Copy, Debug, PartialEq, Eq, Structural)]
pub struct RwkvReviewQueueScoreEntry {
    pub retrievability: u32,
    pub intervening_reviews: Option<u32>,
    pub target_retention: Option<u32>,
}

impl RwkvReviewQueueScoreEntry {
    /// A score with nothing but the retrievability.
    pub fn new(retrievability: u32) -> (entry: RwkvReviewQueueScoreEntry)
        ensures
            entry.retrievability == retrievability,
            entry.intervening_reviews.is_none(),
            entry.target_retention.is_none(),
    {
        RwkvReviewQueueScoreEntry {
            retrievability,
            intervening_reviews: None,
            target_retention: None,
        }
    }
}

/// The scores RWKV-Instant prepared for one deck on one day.
#[derive(Clone, Debug, PartialEq, Eq)]
pub struct RwkvReviewQueueScores {
    pub deck_id: i64,
    pub day: u32,
    pub entries: Vec<(i64, RwkvReviewQueueScoreEntry)>,
}

/// The first deck with this id, if there is one.
#[verifier::opaque]
pub open spec fn first_deck(decks: Seq<Deck>, id: i64) -> Option<Deck> {
    if exists|d: int| 0 <= d < decks.len() && (#[trigger] decks[d]).id == id {
        Some(decks[choose|d: int| 0 <= d < decks.len() && (#[trigger] decks[d]).id == id && forall|e: int|
            0 <= e < d ==> (#[trigger] decks[e]).id != id])
    } else {
        None
    }
}

/// The first preset with this id, if there is one.
#[verifier::opaque]
pub open spec fn first_config(configs: Seq<DeckConfig>, id: i64) -> Option<DeckConfig> {
    if exists|c: int| 0 <= c < configs.len() && (#[trigger] configs[c]).id == id {
        Some(configs[choose|c: int| 0 <= c < configs.len() && (#[trigger] configs[c]).id == id && forall|e: int|
            0 <= e < c ==> (#[trigger] configs[e]).id != id])
    } else {
        None
    }
}

/// Find a deck by id.
pub fn find_deck(decks: &Vec<Deck>, deck_id: i64) -> (index: Option<usize>)
    ensures
        match index {
            Some(i) => i < decks@.len() && decks@[i as int].id == deck_id && forall|j: int|
                0 <= j < i ==> #[trigger] decks@[j].id != deck_id,
            None => forall|j: int| 0 <= j < decks@.len() ==> #[trigger] decks@[j].id != deck_id,
        },
        first_deck(decks@, deck_id) == match index {
            Some(i) => Some(decks@[i as int]),
            None => None::<Deck>,
        },
{
    proof {
        reveal(first_deck);
    }
    let mut i: usize = 0;
    while i < decks.len()
        invariant
            i <= decks@.len(),
            forall|j: int| 0 <= j < i ==> #[trigger] decks@[j].id != deck_id,
        decreases decks@.len() - i,
    {
        if decks[i].id == deck_id {
            proof {
                reveal(first_deck);
                assert(decks@[i as int].id == deck_id && forall|e: int| 0 <= e < i ==> (#[trigger] decks@[e]).id != deck_id);
                let c = choose|c: int| 0 <= c < decks@.len() && (#[trigger] decks@[c]).id == deck_id && forall|e: int|
                    0 <= e < c ==> (#[trigger] decks@[e]).id != deck_id;
                if c < i {
                    assert(decks@[c].id != deck_id);
                } else if c > i {
                    assert(decks@[i as int].id != deck_id);
                }
            }
            return Some(i);
        }
        i = i + 1;
    }
    None
}

/// Find a preset by id.
pub fn find_config(configs: &Vec<DeckConfig>, config_id: i64) -> (index: Option<usize>)
    ensures
        match index {
            Some(i) => i < configs@.len() && configs@[i as int].id == config_id && forall|j: int|
                0 <= j < i ==> #[trigger] configs@[j].id != config_id,
            None => forall|j: int| 0 <= j < configs@.len() ==> #[trigger] configs@[j].id != config_id,
        },
        first_config(configs@, config_id) == match index {
            Some(i) => Some(configs@[i as int]),
            None => None::<DeckConfig>,
        },
{
    proof {
        reveal(first_config);
    }
    let mut i: usize = 0;
    while i < configs.len()
        invariant
            i <= configs@.len(),
            forall|j: int| 0 <= j < i ==> #[trigger] configs@[j].id != config_id,
        decreases configs@.len() - i,
    {
        if configs[i].id == config_id {
            proof {
                reveal(first_config);
                assert(configs@[i as int].id == config_id && forall|e: int| 0 <= e < i ==> (#[trigger] configs@[e]).id != config_id);
                let c = choose|c: int| 0 <= c < configs@.len() && (#[trigger] configs@[c]).id == config_id && forall|e: int|
                    0 <= e < c ==> (#[trigger] configs@[e]).id != config_id;
                if c < i {
                    assert(configs@[c].id != config_id);
                } else if c > i {
                    assert(configs@[i as int].id != config_id);
                }
            }
            return Some(i);
        }
        i = i + 1;
    }
    None
}

/// The score of a card: that of its first entry.
pub open spec fn first_score(entries: Seq<(i64, RwkvReviewQueueScoreEntry)>, card_id: i64) -> Option<RwkvReviewQueueScoreEntry>
    decreases entries.len(),
{
    if entries.len() == 0 {
        None
    } else if entries[0].0 == card_id {
        Some(entries[0].1)
    } else {
        first_score(entries.drop_first(), card_id)
    }
}

/// The first entry for its id is the score `first_score` gives.
pub proof fn lemma_first_score_at(entries: Seq<(i64, RwkvReviewQueueScoreEntry)>, j: int)
    requires
        0 <= j < entries.len(),
        forall|q: int| 0 <= q < j ==> #[trigger] entries[q].0 != entries[j].0,
    ensures
        first_score(entries, entries[j].0) == Some(entries[j].1),
    decreases j,
{
    if j > 0 {
        let rest = entries.drop_first();
        assert forall|q: int| 0 <= q < j - 1 implies #[trigger] rest[q].0 != rest[j - 1].0 by {
            assert(rest[q] == entries[q + 1]);
            assert(entries[q + 1].0 != entries[j].0);
        }
        lemma_first_score_at(rest, j - 1);
        assert(rest[j - 1] == entries[j]);
        assert(entries[0].0 != entries[j].0);
    }
}

/// A score `first_score` gives comes from the first entry for its id.
pub proof fn lemma_first_score_index(entries: Seq<(i64, RwkvReviewQueueScoreEntry)>, card_id: i64) -> (j: int)
    requires
        first_score(entries, card_id) is Some,
    ensures
        0 <= j < entries.len(),
        entries[j].0 == card_id,
        Some(entries[j].1) == first_score(entries, card_id),
        forall|q: int| 0 <= q < j ==> #[trigger] entries[q].0 != card_id,
    decreases entries.len(),
{
    if entries[0].0 == card_id {
        0
    } else {
        let rest = entries.drop_first();
        let k = lemma_first_score_index(rest, card_id);
        assert forall|q: int| 0 <= q < k + 1 implies #[trigger] entries[q].0 != card_id by {
            if q > 0 {
                assert(entries[q] == rest[q - 1]);
            }
        }
        assert(entries[k + 1] == rest[k]);
        k + 1
    }
}

/// The score of a card, the first entry for its id.
pub fn find_score(entries: &Vec<(i64, RwkvReviewQueueScoreEntry)>, card_id: i64) -> (score: Option<RwkvReviewQueueScoreEntry>)
    ensures
        score == first_score(entries@, card_id),
        match score {
            Some(s) => exists|i: int|
                0 <= i < entries@.len() && entries@[i].0 == card_id && entries@[i].1 == s && forall|j: int|
                    0 <= j < i ==> #[trigger] entries@[j].0 != card_id,
            None => forall|j: int| 0 <= j < entries@.len() ==> #[trigger] entries@[j].0 != card_id,
        },
{
    let mut i: usize = 0;
    assert(entries@.skip(0) =~= entries@);
    while i < entries.len()
        invariant
            i <= entries@.len(),
            forall|j: int| 0 <= j < i ==> #[trigger] entries@[j].0 != card_id,
            first_score(entries@, card_id) == first_score(entries@.skip(i as int), card_id),
        decreases entries@.len() - i,
    {
        assert(entries@.skip(i as int)[0] == entries@[i as int]);
        if entries[i].0 == card_id {
            return Some(entries[i].1);
        }
        assert(entries@.skip(i as int).drop_first() =~= entries@.skip(i + 1));
        i = i + 1;
    }
    assert(entries@.skip(i as int).len() == 0);
    None
}

/// The key a card has in a list of (card id, key) pairs, the first one.
pub fn find_key(keys: &Vec<(i64, u32)>, card_id: i64) -> (key: Option<u32>)
    ensures
        key == first_value(keys@, card_id),
{
    find_value(keys, card_id)
}

/// `scope` is `deck` or one of its ancestors: every component of the scope
/// root's name begins the deck's name.
pub open spec fn spec_within_scope(deck: Seq<u8>, scope: Seq<u8>) -> bool {
    deck == scope || (deck.len() > scope.len() && deck.subrange(0, scope.len() as int) == scope
        && deck[scope.len() as int] == NAME_SEPARATOR)
}

/// Whether `deck` lies in the deck tree under `scope_root` (or is it).
pub fn deck_is_within_scope(deck: &Deck, scope_root: &Deck) -> (within: bool)
    ensures
        within == spec_within_scope(deck.name@, scope_root.name@),
{
    let d = &deck.name;
    let s = &scope_root.name;
    if d.len() < s.len() {
        return false;
    }
    let mut i: usize = 0;
    while i < s.len()
        invariant
            d@ == deck.name@,
            s@ == scope_root.name@,
            s@.len() <= d@.len(),
            i <= s@.len(),
            forall|j: int| 0 <= j < i ==> d@[j] == s@[j],
        decreases s@.len() - i,
    {
        if d[i] != s[i] {
            proof {
                assert(d@.subrange(0, s@.len() as int)[i as int] != s@[i as int]);
                assert(d@[i as int] != s@[i as int]);
                assert(d@ != s@);
                assert(d@.subrange(0, s@.len() as int) != s@);
            }
            return false;
        }
        i = i + 1;
    }
    proof {
        assert(d@.subrange(0, s@.len() as int) =~= s@);
    }
    if d.len() == s.len() {
        proof {
            assert(d@ =~= s@);
        }
        true
    } else {
        d[s.len()] == NAME_SEPARATOR
    }
}

/// The native form of a deck name written with `::` between components.
pub open spec fn spec_native_name(human: Seq<u8>) -> Seq<u8>
    decreases human.len(),
{
    if human.len() == 0 {
        seq![]
    } else if human.len() >= 2 && human[0] == 58u8 && human[1] == 58u8 {
        seq![NAME_SEPARATOR] + spec_native_name(human.subrange(2, human.len() as int))
    } else {
        seq![human[0]] + spec_native_name(human.subrange(1, human.len() as int))
    }
}

/// The native form of a deck name written with `::` between components.
pub fn native_deck_name(human: &[u8]) -> (native: Vec<u8>)
    ensures
        native@ == spec_native_name(human@),
{
    let mut out: Vec<u8> = Vec::new();
    let mut pos: usize = 0;
    proof {
        assert(human@.subrange(0, human@.len() as int) =~= human@);
        assert(out@ + spec_native_name(human@) =~= spec_native_name(human@));
    }
    while pos < human.len()
        invariant
            pos <= human@.len(),
            out@ + spec_native_name(human@.subrange(pos as int, human@.len() as int)) == spec_native_name(human@),
        decreases human@.len() - pos,
    {
        let ghost rest = human@.subrange(pos as int, human@.len() as int);
        if pos + 1 < human.len() && human[pos] == 58u8 && human[pos + 1] == 58u8 {
            proof {
                assert(rest.subrange(2, rest.len() as int) =~= human@.subrange(pos + 2, human@.len() as int));
                assert(out@.push(NAME_SEPARATOR) + spec_native_name(rest.subrange(2, rest.len() as int))
                    =~= out@ + spec_native_name(rest));
            }
            out.push(NAME_SEPARATOR);
            pos = pos + 2;
        } else {
            proof {
                assert(rest.subrange(1, rest.len() as int) =~= human@.subrange(pos + 1, human@.len() as int));
                assert(out@.push(human@[pos as int]) + spec_native_name(rest.subrange(1, rest.len() as int))
                    =~= out@ + spec_native_name(rest));
            }
            out.push(human[pos]);
            pos = pos + 1;
        }
    }
    proof {
        assert(human@.subrange(human@.len() as int, human@.len() as int) =~= seq![]);
        assert(out@ + seq![] =~= out@);
    }
    out
}

} // verus!
