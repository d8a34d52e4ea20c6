use vstd::prelude::*;

use crate::rwkv_inputs::bytes::spec_from_hex;
use crate::rwkv_inputs::bytes::spec_hex;
use crate::rwkv_inputs::history_hash::empty_history_hash;
use crate::rwkv_inputs::history_hash::hash_of_history;
use crate::rwkv_inputs::history_hash::RwkvHistoryHashChain;
use crate::rwkv_inputs::published::days_ok;
use crate::rwkv_inputs::published::id_ok;
use crate::rwkv_inputs::published::PublishedEncoder;
use crate::rwkv_inputs::published::PublishedReviewInput;
use crate::rwkv_inputs::published::RwkvFirstReviewElapsed;
use crate::rwkv_inputs::published::RwkvReplayDays;
use crate::rwkv_inputs::published::spec_encode_review;
use crate::rwkv_inputs::stream::ReplayError;
use crate::rwkv_inputs::stream::RwkvHistoricalPresetRoute;
use crate::rwkv_inputs::stream::RwkvHistoricalReviewRow;
use crate::rwkv_inputs::stream::RwkvReviewStream;
use crate::rwkv_inputs::stream::RwkvStreamPresets;
use crate::rwkv_inputs::stream::StreamPreset;
use crate::rwkv_inputs::stream::spec_own_preset;
use crate::rwkv_inputs::stream::spec_event;
use crate::rwkv_inputs::stream::spec_review_preset;
use crate::rwkv_inputs::stream::first_route;
use crate::rwkv_inputs::lookup::first_value;

verus! {

/// What the replay knows of a card's earlier reviews; a state a read goes
/// on from may hold a card in one of these and not another.
#[derive(Clone, Copy, Debug, PartialEq, Eq, Structural)]
pub struct RwkvReplayCard {
    pub previous_review_id: Option<i64>,
    pub previous_interval_days: Option<i64>,
    pub review_count: Option<i64>,
}

/// A card the read replayed, with its state after the read (or at the
/// checkpoint); 0 for what is unknown.
#[derive(Clone, Copy, Debug, PartialEq, Eq, Structural)]
pub struct RwkvReplayCardState {
    pub card_id: i64,
    pub previous_review_id: i64,
    pub previous_interval_days: i64,
    pub review_count: i64,
}

/// The state a read goes on from: each card's previous review, previous
/// interval and review count, and the hash of the history so far (none:
/// the empty history's), as hexadecimal text.
#[derive(Clone, Debug)]
pub struct RwkvReplaySeed {
    pub previous_review_ids: Vec<(i64, i64)>,
    pub previous_interval_days: Vec<(i64, i64)>,
    pub review_counts: Vec<(i64, i64)>,
    pub history_hash: Option<Vec<u8>>,
    /// The reviews up to the cutoff are counted from `review_counts`
    /// instead of from the rows.
    pub counts_before_cutoff: bool,
}

/// How the replay runs, besides its rows.
#[derive(Clone, Debug)]
pub struct RwkvReplaySettings {
    pub hash_history: bool,
    /// Above 0: also the state before the first review newer than the
    /// newest row less this many milliseconds.
    pub recovery_checkpoint_max_age_millis: i64,
    /// The rows up to it are counted and not replayed.
    pub after_review_id: Option<i64>,
    pub seed: RwkvReplaySeed,
}

/// The rows a replay runs and what their events need.
#[derive(Clone, Debug)]
pub struct RwkvReplayRows {
    pub rows: Vec<RwkvHistoricalReviewRow>,
    /// None: every row can be encoded. Else false where a row is counted
    /// and not replayed.
    pub encodable: Option<Vec<bool>>,
    pub presets: RwkvStreamPresets,
    pub routes: Vec<RwkvHistoricalPresetRoute>,
}

/// The state of the replay before one of its reviews.
#[derive(Clone, Debug)]
pub struct RwkvReplayCheckpoint {
    pub review_count: usize,
    pub last_review_id: i64,
    pub history_hash: Vec<u8>,
    pub cards: Vec<RwkvReplayCardState>,
}

/// A replay's records and what the state cache keeps of it.
#[derive(Clone, Debug)]
pub struct RwkvReplay {
    pub reviews: Vec<PublishedReviewInput>,
    /// Each review's type, interval and ease factor.
    pub review_log: Vec<[i64; 3]>,
    /// Every card this read replayed, in the order it first reached them,
    /// with its state after the read.
    pub cards: Vec<RwkvReplayCardState>,
    /// Each of `cards`' own preset, before any route overrides it.
    pub card_own_preset_ids: Vec<Option<i64>>,
    pub last_review_id: i64,
    pub review_count: u64,
    pub history_hash: Option<Vec<u8>>,
    pub checkpoint: Option<RwkvReplayCheckpoint>,
}

/// The hash the replay's chain starts from.
pub open spec fn start_hash(seed: RwkvReplaySeed) -> Seq<u8> {
    match seed.history_hash {
        None => empty_history_hash(),
        Some(hex) => spec_from_hex(hex@)->0,
    }
}

/// The sum of the review counts.
pub open spec fn count_sum(counts: Seq<(i64, i64)>) -> int
    decreases counts.len(),
{
    if counts.len() == 0 {
        0
    } else {
        count_sum(counts.drop_last()) + counts.last().1
    }
}

/// Whether the row at `i` is replayed: it is after the cutoff and can be
/// encoded.
pub open spec fn row_replayed(row: RwkvHistoricalReviewRow, i: int, encodable: Option<Seq<bool>>, after: Option<i64>) -> bool {
    &&& !(after matches Some(a) && row.review_id <= a)
    &&& !(encodable matches Some(flags) && i < flags.len() && !flags[i])
}

/// The card's own preset is found for the row: a row of a deleted card
/// needs none; any other needs a preset, or a note that the caller
/// resolved none.
pub open spec fn own_preset_found(presets: RwkvStreamPresets, row: RwkvHistoricalReviewRow) -> bool {
    match row.deck_id {
        None => true,
        Some(deck_id) => match spec_own_preset(presets, row.card_id, deck_id) {
            Ok(StreamPreset::Missing) => false,
            Ok(_) => true,
            Err(_) => false,
        },
    }
}

/// Every row the replay replays finds its card's own preset.
pub open spec fn presets_found(
    rows: Seq<RwkvHistoricalReviewRow>,
    encodable: Option<Seq<bool>>,
    after: Option<i64>,
    presets: RwkvStreamPresets,
) -> bool {
    forall|i: int| 0 <= i < rows.len() && #[trigger] row_replayed(rows[i], i, encodable, after) ==> own_preset_found(presets, rows[i])
}

/// The seed's history hash is refused: hashing, with a seed hash that is
/// not 64 hexadecimal digits.
pub open spec fn seed_hash_invalid(settings: RwkvReplaySettings) -> bool {
    settings.hash_history && (settings.seed.history_hash matches Some(h) && (h@.len() != 64 || spec_from_hex(h@) is None))
}

/// A read that goes on from a cutoff, counting the reviews before it, has
/// seed counts summing below zero.
pub open spec fn seed_count_negative(settings: RwkvReplaySettings) -> bool {
    settings.after_review_id is Some && settings.seed.counts_before_cutoff && count_sum(settings.seed.review_counts@) < 0
}

/// A value of a lookup's first entry for `key` is the value of one of its
/// entries.
proof fn lemma_first_value_in<V>(entries: Seq<(i64, V)>, key: i64)
    requires
        first_value(entries, key) is Some,
    ensures
        exists|j: int| 0 <= j < entries.len() && entries[j].1 == first_value(entries, key)->0,
    decreases entries.len(),
{
    if entries[0].0 != key {
        let rest = entries.drop_first();
        lemma_first_value_in(rest, key);
        let j = choose|j: int| 0 <= j < rest.len() && rest[j].1 == first_value(rest, key)->0;
        assert(entries[j + 1] == rest[j]);
    }
}

/// The stream names each card's own preset: by card or by home deck, with
/// no card the caller left unresolved.
pub open spec fn presets_named(presets: RwkvStreamPresets) -> bool {
    !(presets is ByCardOrNone)
}

/// The first value for `key` after one more entry: the same where there
/// was one, else the new entry's where its key is `key`.
proof fn lemma_first_value_push<V>(s: Seq<(i64, V)>, x: (i64, V), key: i64)
    ensures
        first_value(s.push(x), key) == if first_value(s, key) is Some {
            first_value(s, key)
        } else if x.0 == key {
            Some(x.1)
        } else {
            None::<V>
        },
    decreases s.len(),
{
    if s.len() > 0 {
        assert(s.push(x)[0] == s[0]);
        assert(s.push(x).drop_first() =~= s.drop_first().push(x));
        lemma_first_value_push(s.drop_first(), x, key);
    } else {
        assert(s.push(x)[0] == x);
        assert(s.push(x).drop_first() =~= Seq::<(i64, V)>::empty());
        assert(first_value(Seq::<(i64, V)>::empty(), key) is None);
    }
}

/// The newest review id among `start` and the reviews'.
pub open spec fn newest_review_id(start: i64, reviews: Seq<PublishedReviewInput>) -> i64
    decreases reviews.len(),
{
    if reviews.len() == 0 {
        start
    } else {
        let rest = newest_review_id(start, reviews.drop_last());
        if reviews.last().review_id > rest {
            reviews.last().review_id
        } else {
            rest
        }
    }
}

/// The newest review id among `start` and the rows'.
pub open spec fn newest_row_id(start: i64, rows: Seq<RwkvHistoricalReviewRow>) -> i64
    decreases rows.len(),
{
    if rows.len() == 0 {
        start
    } else {
        let rest = newest_row_id(start, rows.drop_last());
        if rows.last().review_id > rest {
            rows.last().review_id
        } else {
            rest
        }
    }
}

/// Records of the rows have the rows' newest review id.
pub proof fn lemma_newest_of_records(start: i64, reviews: Seq<PublishedReviewInput>, rows: Seq<RwkvHistoricalReviewRow>)
    requires
        reviews.len() == rows.len(),
        forall|k: int| 0 <= k < rows.len() ==> (#[trigger] reviews[k]).review_id == rows[k].review_id,
    ensures
        newest_review_id(start, reviews) == newest_row_id(start, rows),
    decreases rows.len(),
{
    if rows.len() > 0 {
        lemma_newest_of_records(start, reviews.drop_last(), rows.drop_last());
        assert(reviews.last().review_id == rows.last().review_id);
    }
}

/// The card is among the replayed cards.
pub open spec fn card_listed(cards: Seq<RwkvReplayCardState>, card_id: i64) -> bool {
    exists|k: int| 0 <= k < cards.len() && (#[trigger] cards[k]).card_id == card_id
}

/// Some review of `reviews` is of the card.
pub open spec fn card_reviewed(reviews: Seq<PublishedReviewInput>, card_id: i64) -> bool {
    exists|j: int| 0 <= j < reviews.len() && (#[trigger] reviews[j]).card_id == card_id
}

/// Some review of `reviews` of a deck is of the card.
pub open spec fn card_reviewed_in_deck(reviews: Seq<PublishedReviewInput>, card_id: i64) -> bool {
    exists|j: int| 0 <= j < reviews.len() && (#[trigger] reviews[j]).card_id == card_id && reviews[j].deck_id is Some
}

/// The replayed cards once one more review is replayed: each card once,
/// each review's card among them, each of them with a review.
proof fn lemma_cards_step(
    before: Seq<PublishedReviewInput>,
    after: Seq<PublishedReviewInput>,
    cards_before: Seq<i64>,
    cards_after: Seq<i64>,
)
    requires
        after.len() == before.len() + 1,
        forall|j: int| 0 <= j < before.len() ==> after[j] == before[j],
        cards_after == if cards_before.contains(after[before.len() as int].card_id) {
            cards_before
        } else {
            cards_before.push(after[before.len() as int].card_id)
        },
        forall|a: int, b: int| 0 <= a < b < cards_before.len() ==> #[trigger] cards_before[a] != #[trigger] cards_before[b],
        forall|j: int| 0 <= j < before.len() ==> cards_before.contains(#[trigger] before[j].card_id),
        forall|k: int| 0 <= k < cards_before.len() ==> card_reviewed(before, #[trigger] cards_before[k]),
    ensures
        forall|a: int, b: int| 0 <= a < b < cards_after.len() ==> #[trigger] cards_after[a] != #[trigger] cards_after[b],
        forall|j: int| 0 <= j < after.len() ==> cards_after.contains(#[trigger] after[j].card_id),
        forall|k: int| 0 <= k < cards_after.len() ==> card_reviewed(after, #[trigger] cards_after[k]),
{
    let last = before.len() as int;
    let id = after[last].card_id;
    if !cards_before.contains(id) {
        assert(cards_after[cards_before.len() as int] == id);
        assert forall|a: int, b: int| 0 <= a < b < cards_after.len() implies #[trigger] cards_after[a] != #[trigger] cards_after[b] by {
            if b == cards_before.len() {
                assert(cards_after[a] == cards_before[a]);
            } else {
                assert(cards_after[a] == cards_before[a]);
                assert(cards_after[b] == cards_before[b]);
            }
        }
    }
    assert(cards_after.contains(id));
    assert forall|j: int| 0 <= j < after.len() implies cards_after.contains(#[trigger] after[j].card_id) by {
        if j < last {
            assert(after[j] == before[j]);
            assert(cards_before.contains(before[j].card_id));
            let q = choose|q: int| 0 <= q < cards_before.len() && cards_before[q] == before[j].card_id;
            assert(cards_after[q] == cards_before[q]);
        }
    }
    assert forall|k: int| 0 <= k < cards_after.len() implies card_reviewed(after, #[trigger] cards_after[k]) by {
        if k < cards_before.len() {
            assert(cards_after[k] == cards_before[k]);
            assert(card_reviewed(before, cards_before[k]));
            let j = choose|j: int| 0 <= j < before.len() && (#[trigger] before[j]).card_id == cards_before[k];
            assert(after[j] == before[j]);
        } else {
            assert(after[last].card_id == cards_after[k]);
        }
    }
}

/// Once one more review is replayed, every replayed review of a deck still
/// has its card's own preset named.
proof fn lemma_named_step(
    before: Seq<PublishedReviewInput>,
    after: Seq<PublishedReviewInput>,
    stream_before: Seq<(i64, StreamPreset)>,
    stream_after: Seq<(i64, StreamPreset)>,
)
    requires
        after.len() == before.len() + 1,
        forall|j: int| 0 <= j < before.len() ==> after[j] == before[j],
        stream_after == stream_before || exists|x: (i64, StreamPreset)| stream_after == stream_before.push(x),
        forall|j: int|
            0 <= j < before.len() && (#[trigger] before[j]).deck_id is Some ==> first_value(stream_before, before[j].card_id) matches Some(
                StreamPreset::Id(_),
            ),
        after[before.len() as int].deck_id is Some ==> first_value(stream_after, after[before.len() as int].card_id) matches Some(
            StreamPreset::Id(_),
        ),
    ensures
        forall|j: int|
            0 <= j < after.len() && (#[trigger] after[j]).deck_id is Some ==> first_value(stream_after, after[j].card_id) matches Some(
                StreamPreset::Id(_),
            ),
{
    assert forall|j: int| 0 <= j < after.len() && (#[trigger] after[j]).deck_id is Some implies first_value(
        stream_after,
        after[j].card_id,
    ) matches Some(StreamPreset::Id(_)) by {
        if j < before.len() {
            assert(after[j] == before[j]);
            if stream_after != stream_before {
                let x = choose|x: (i64, StreamPreset)| stream_after == stream_before.push(x);
                lemma_first_value_push(stream_before, x, after[j].card_id);
            }
        }
    }
}

/// The flags of a replay's rows, as a sequence.
pub open spec fn flags_of(encodable: Option<Vec<bool>>) -> Option<Seq<bool>> {
    match encodable {
        Some(flags) => Some(flags@),
        None => None,
    }
}

/// The rows among the first `n` that the replay replays, in order.
pub open spec fn replayed_rows(rows: Seq<RwkvHistoricalReviewRow>, encodable: Option<Seq<bool>>, after: Option<i64>, n: nat) -> Seq<
    RwkvHistoricalReviewRow,
>
    decreases n,
{
    if n == 0 {
        Seq::empty()
    } else {
        let rest = replayed_rows(rows, encodable, after, (n - 1) as nat);
        if row_replayed(rows[n - 1], n - 1, encodable, after) {
            rest.push(rows[n - 1])
        } else {
            rest
        }
    }
}

/// Whether the row at `i` counts toward the review count a read reports:
/// it is replayed, or it is no newer than the newest review replayed
/// before it.
pub open spec fn row_counted(rows: Seq<RwkvHistoricalReviewRow>, encodable: Option<Seq<bool>>, after: Option<i64>, i: int) -> bool {
    row_replayed(rows[i], i, encodable, after) || rows[i].review_id <= newest_row_id(
        match after {
            Some(a) => a,
            None => 0,
        },
        replayed_rows(rows, encodable, after, i as nat),
    )
}

/// How many of the first `n` rows a read counts: every row up to the last
/// one that counts.
pub open spec fn rows_counted(rows: Seq<RwkvHistoricalReviewRow>, encodable: Option<Seq<bool>>, after: Option<i64>, n: nat) -> nat
    decreases n,
{
    if n == 0 {
        0
    } else if row_counted(rows, encodable, after, n - 1) {
        n
    } else {
        rows_counted(rows, encodable, after, (n - 1) as nat)
    }
}

/// The reviews a read that goes on from a cutoff counts before it: the sum
/// of the seed's counts where it counts them, else none.
pub open spec fn seed_count(settings: RwkvReplaySettings) -> int {
    if settings.after_review_id is Some && settings.seed.counts_before_cutoff {
        count_sum(settings.seed.review_counts@)
    } else {
        0
    }
}

/// A record holds what its row says: everything but its preset and the
/// time since its card's previous review, which depend on the replay so
/// far.
pub open spec fn record_of_row(record: PublishedReviewInput, row: RwkvHistoricalReviewRow, days: crate::rwkv_inputs::published::RwkvReplayDays) -> bool {
    &&& record.review_id == row.review_id
    &&& record.card_id == row.card_id
    &&& record.note_id == row.note_id
    &&& record.deck_id == row.deck_id
    &&& record.ease == row.ease
    &&& record.duration_millis == row.duration_millis
    &&& record.card_type == (if row.is_learning_start { 0 } else { (row.review_kind + 1) as i64 })
    &&& record.review_kind == row.review_kind
    &&& record.interval_days == row.interval_days
    &&& record.ease_factor == row.ease_factor
    &&& record.day_offset == crate::rwkv_inputs::published::spec_day_offset(row.review_id, days) as i64
}

/// With no flags and no cutoff, a replay replays every row.
pub proof fn lemma_all_rows_replayed(rows: Seq<RwkvHistoricalReviewRow>, n: nat)
    requires
        n <= rows.len(),
    ensures
        replayed_rows(rows, None, None, n) == rows.take(n as int),
    decreases n,
{
    if n > 0 {
        lemma_all_rows_replayed(rows, (n - 1) as nat);
        assert(rows.take(n as int) =~= rows.take(n - 1).push(rows[n - 1]));
    } else {
        assert(rows.take(0) =~= Seq::<RwkvHistoricalReviewRow>::empty());
    }
}

/// Where every row is replayed, the first `n` replayed rows are the first
/// `n` rows.
proof fn lemma_every_row_replayed(rows: Seq<RwkvHistoricalReviewRow>, encodable: Option<Seq<bool>>, after: Option<i64>, n: nat)
    requires
        n <= rows.len(),
        forall|i: int| 0 <= i < rows.len() ==> #[trigger] row_replayed(rows[i], i, encodable, after),
    ensures
        replayed_rows(rows, encodable, after, n) == rows.take(n as int),
    decreases n,
{
    if n > 0 {
        lemma_every_row_replayed(rows, encodable, after, (n - 1) as nat);
        assert(row_replayed(rows[n - 1], n - 1, encodable, after));
        assert(rows.take(n as int) =~= rows.take(n - 1).push(rows[n - 1]));
    } else {
        assert(rows.take(0) =~= Seq::<RwkvHistoricalReviewRow>::empty());
    }
}

/// The newest review id is no older than the start or any row.
proof fn lemma_newest_at_least(start: i64, rows: Seq<RwkvHistoricalReviewRow>)
    ensures
        start <= newest_row_id(start, rows),
        forall|i: int| 0 <= i < rows.len() ==> (#[trigger] rows[i]).review_id <= newest_row_id(start, rows),
    decreases rows.len(),
{
    if rows.len() > 0 {
        lemma_newest_at_least(start, rows.drop_last());
        assert forall|i: int| 0 <= i < rows.len() implies (#[trigger] rows[i]).review_id <= newest_row_id(start, rows) by {
            if i < rows.len() - 1 {
                assert(rows.drop_last()[i] == rows[i]);
            }
        }
    }
}

/// The newest review id is no newer than a bound on the start and the rows.
proof fn lemma_newest_at_most(start: i64, rows: Seq<RwkvHistoricalReviewRow>, bound: i64)
    requires
        start <= bound,
        forall|i: int| 0 <= i < rows.len() ==> (#[trigger] rows[i]).review_id <= bound,
    ensures
        newest_row_id(start, rows) <= bound,
    decreases rows.len(),
{
    if rows.len() > 0 {
        assert forall|i: int| 0 <= i < rows.len() - 1 implies (#[trigger] rows.drop_last()[i]).review_id <= bound by {
            assert(rows.drop_last()[i] == rows[i]);
        }
        lemma_newest_at_most(start, rows.drop_last(), bound);
    }
}

/// A read of rows in ascending order of review id, none below zero and all
/// encodable, that goes on from the cutoff at its `c`-th row replays the
/// whole read's rows after the cutoff, reports the same newest review id,
/// and, counting the `c` reviews before the cutoff, the same review count.
pub proof fn lemma_read_after_cutoff_goes_on(rows: Seq<RwkvHistoricalReviewRow>, flags: Seq<bool>, c: int)
    requires
        1 <= c <= rows.len(),
        flags.len() == rows.len(),
        forall|i: int| 0 <= i < flags.len() ==> #[trigger] flags[i],
        forall|i: int, j: int| 0 <= i < j < rows.len() ==> (#[trigger] rows[i]).review_id < (#[trigger] rows[j]).review_id,
        0 <= rows[0].review_id,
    ensures
        ({
            let a = rows[c - 1].review_id;
            let n = rows.len();
            let whole = replayed_rows(rows, Some(flags), None, n);
            let rest = replayed_rows(rows.skip(c), Some(flags.skip(c)), Some(a), (n - c) as nat);
            &&& rest == whole.skip(c)
            &&& newest_row_id(a, rest) == newest_row_id(0, whole)
            &&& c + rows_counted(rows.skip(c), Some(flags.skip(c)), Some(a), (n - c) as nat) == rows_counted(
                rows,
                Some(flags),
                None,
                n,
            )
        }),
{
    let a = rows[c - 1].review_id;
    let n = rows.len();
    let tail = rows.skip(c);
    let tail_flags = flags.skip(c);
    assert forall|i: int| 0 <= i < rows.len() implies #[trigger] row_replayed(rows[i], i, Some(flags), None) by {
        assert(flags[i]);
    }
    assert forall|i: int| 0 <= i < tail.len() implies #[trigger] row_replayed(tail[i], i, Some(tail_flags), Some(a)) by {
        assert(tail[i] == rows[c + i]);
        assert(rows[c - 1].review_id < rows[c + i].review_id);
        assert(tail_flags[i] == flags[c + i]);
    }
    lemma_every_row_replayed(rows, Some(flags), None, n);
    lemma_every_row_replayed(tail, Some(tail_flags), Some(a), (n - c) as nat);
    assert(rows.take(n as int) =~= rows);
    assert(tail.take(n - c) =~= tail);
    assert(tail =~= rows.skip(c));
    let last = rows[n - 1].review_id;
    assert(0 <= last) by {
        if n - 1 > 0 {
            assert(rows[0].review_id < rows[n - 1].review_id);
        }
    }
    assert forall|i: int| 0 <= i < rows.len() implies (#[trigger] rows[i]).review_id <= last by {
        if i < n - 1 {
            assert(rows[i].review_id < rows[n - 1].review_id);
        }
    }
    lemma_newest_at_least(0, rows);
    lemma_newest_at_most(0, rows, last);
    assert forall|i: int| 0 <= i < tail.len() implies (#[trigger] tail[i]).review_id <= last by {
        assert(tail[i] == rows[c + i]);
        if c + i < n - 1 {
            assert(rows[c + i].review_id < rows[n - 1].review_id);
        }
    }
    assert(a <= last) by {
        if c - 1 < n - 1 {
            assert(rows[c - 1].review_id < rows[n - 1].review_id);
        }
    }
    lemma_newest_at_least(a, tail);
    lemma_newest_at_most(a, tail, last);
    if c < n {
        assert(tail[n - c - 1] == rows[n - 1]);
    }
    assert(row_replayed(rows[n - 1], n - 1, Some(flags), None));
    if c < n {
        assert(row_replayed(tail[n - c - 1], n - c - 1, Some(tail_flags), Some(a)));
    }
}

/// The cards of the replayed rows come once each, and are those rows'.
proof fn lemma_card_order(replayed: Seq<RwkvHistoricalReviewRow>)
    ensures
        forall|a: int, b: int|
            0 <= a < b < card_order(replayed).len() ==> #[trigger] card_order(replayed)[a] != #[trigger] card_order(replayed)[b],
        forall|id: i64| #[trigger] card_order(replayed).contains(id) <==> exists|k: int| 0 <= k < replayed.len() && replayed[k].card_id == id,
    decreases replayed.len(),
{
    if replayed.len() > 0 {
        let rest = replayed.drop_last();
        lemma_card_order(rest);
        assert forall|id: i64| #[trigger] card_order(replayed).contains(id) <==> exists|k: int| 0 <= k < replayed.len() && replayed[k].card_id == id by {
            if exists|k: int| 0 <= k < replayed.len() && replayed[k].card_id == id {
                let k = choose|k: int| 0 <= k < replayed.len() && replayed[k].card_id == id;
                if k < rest.len() {
                    assert(rest[k].card_id == id);
                    assert(card_order(rest).contains(id));
                    let q = choose|q: int| 0 <= q < card_order(rest).len() && card_order(rest)[q] == id;
                    assert(card_order(replayed)[q] == id);
                } else {
                    if !card_order(rest).contains(id) {
                        assert(card_order(replayed).last() == id);
                    }
                    else {
                        let q = choose|q: int| 0 <= q < card_order(rest).len() && card_order(rest)[q] == id;
                        assert(card_order(replayed)[q] == id);
                    }
                }
            }
            if card_order(replayed).contains(id) {
                let q = choose|q: int| 0 <= q < card_order(replayed).len() && card_order(replayed)[q] == id;
                if q < card_order(rest).len() {
                    assert(card_order(rest)[q] == id);
                    assert(card_order(rest).contains(id));
                    let k = choose|k: int| 0 <= k < rest.len() && rest[k].card_id == id;
                    assert(replayed[k].card_id == id);
                } else {
                    assert(replayed[replayed.len() - 1].card_id == id);
                }
            }
        }
    }
}

/// A card of the replayed rows is known in full after them.
proof fn lemma_known_in_full(
    p: Seq<(i64, i64)>,
    i: Seq<(i64, i64)>,
    c: Seq<(i64, i64)>,
    replayed: Seq<RwkvHistoricalReviewRow>,
    id: i64,
)
    ensures
        (exists|k: int| 0 <= k < replayed.len() && replayed[k].card_id == id) ==> {
            let s = card_state_of(p, i, c, replayed, id);
            &&& s.previous_review_id is Some
            &&& s.previous_interval_days is Some
            &&& s.review_count is Some
        },
        !(exists|k: int| 0 <= k < replayed.len() && replayed[k].card_id == id) ==> card_state_of(p, i, c, replayed, id)
            == seed_card_of(p, i, c, id),
    decreases replayed.len(),
{
    if replayed.len() > 0 {
        let rest = replayed.drop_last();
        lemma_known_in_full(p, i, c, rest, id);
        if exists|k: int| 0 <= k < rest.len() && rest[k].card_id == id {
            let k = choose|k: int| 0 <= k < rest.len() && rest[k].card_id == id;
            assert(replayed[k].card_id == id);
        }
        if exists|k: int| 0 <= k < replayed.len() && replayed[k].card_id == id {
            let k = choose|k: int| 0 <= k < replayed.len() && replayed[k].card_id == id;
            if replayed.last().card_id != id {
                assert(k < rest.len());
                assert(rest[k].card_id == id);
            }
        }
        if !(exists|k: int| 0 <= k < replayed.len() && replayed[k].card_id == id) {
            assert forall|k: int| 0 <= k < rest.len() implies rest[k].card_id != id by {
                assert(replayed[k] == rest[k]);
            }
            assert(replayed[replayed.len() - 1].card_id != id);
        }
    }
}

/// The last value for a key of pairs whose keys come once each.
proof fn lemma_last_value_unique(pairs: Seq<(i64, i64)>, id: i64)
    requires
        forall|a: int, b: int| 0 <= a < b < pairs.len() ==> #[trigger] pairs[a].0 != #[trigger] pairs[b].0,
    ensures
        forall|j: int| 0 <= j < pairs.len() && (#[trigger] pairs[j]).0 == id ==> last_value(pairs, id) == Some(pairs[j].1),
        (forall|j: int| 0 <= j < pairs.len() ==> (#[trigger] pairs[j]).0 != id) ==> last_value(pairs, id) is None,
    decreases pairs.len(),
{
    if pairs.len() > 0 {
        let rest = pairs.drop_last();
        assert forall|a: int, b: int| 0 <= a < b < rest.len() implies #[trigger] rest[a].0 != #[trigger] rest[b].0 by {
            assert(pairs[a].0 != pairs[b].0);
        }
        lemma_last_value_unique(rest, id);
        assert forall|j: int| 0 <= j < pairs.len() && (#[trigger] pairs[j]).0 == id implies last_value(pairs, id) == Some(pairs[j].1) by {
            if j < pairs.len() - 1 {
                assert(pairs[j].0 != pairs[pairs.len() - 1].0);
                assert(rest[j] == pairs[j]);
            }
        }
        if forall|j: int| 0 <= j < pairs.len() ==> (#[trigger] pairs[j]).0 != id {
            assert forall|j: int| 0 <= j < rest.len() implies (#[trigger] rest[j]).0 != id by {
                assert(pairs[j] == rest[j]);
            }
            assert(pairs[pairs.len() - 1].0 != id);
        }
    }
}

/// The seed a read reports after the replayed rows `head`: each replayed
/// card, in order, with its previous review id, previous interval or
/// review count.
pub open spec fn reported_seed(head: Seq<RwkvHistoricalReviewRow>, field: int) -> Seq<(i64, i64)> {
    Seq::new(
        card_order(head).len(),
        |k: int|
            {
                let s = state_of(card_order(head)[k], card_state_of(Seq::empty(), Seq::empty(), Seq::empty(), head, card_order(head)[k]));
                (
                    card_order(head)[k],
                    if field == 0 {
                        s.previous_review_id
                    } else if field == 1 {
                        s.previous_interval_days
                    } else {
                        s.review_count
                    },
                )
            },
    )
}

/// A read that goes on from the seed another read reported after `head`
/// knows each card as a read of the whole history would.
pub proof fn lemma_seeded_state_continues(head: Seq<RwkvHistoricalReviewRow>, tail: Seq<RwkvHistoricalReviewRow>, id: i64)
    ensures
        card_state_of(reported_seed(head, 0), reported_seed(head, 1), reported_seed(head, 2), tail, id) == card_state_of(
            Seq::empty(),
            Seq::empty(),
            Seq::empty(),
            head + tail,
            id,
        ),
    decreases tail.len(),
{
    let p = reported_seed(head, 0);
    let i = reported_seed(head, 1);
    let c = reported_seed(head, 2);
    if tail.len() == 0 {
        assert(head + tail =~= head);
        lemma_card_order(head);
        let e = Seq::<(i64, i64)>::empty();
        lemma_known_in_full(e, e, e, head, id);
        let order = card_order(head);
        assert forall|a: int, b: int| 0 <= a < b < p.len() implies #[trigger] p[a].0 != #[trigger] p[b].0 by {
            assert(order[a] != order[b]);
        }
        assert forall|a: int, b: int| 0 <= a < b < i.len() implies #[trigger] i[a].0 != #[trigger] i[b].0 by {
            assert(order[a] != order[b]);
        }
        assert forall|a: int, b: int| 0 <= a < b < c.len() implies #[trigger] c[a].0 != #[trigger] c[b].0 by {
            assert(order[a] != order[b]);
        }
        lemma_last_value_unique(p, id);
        lemma_last_value_unique(i, id);
        lemma_last_value_unique(c, id);
        if order.contains(id) {
            let q = choose|q: int| 0 <= q < order.len() && order[q] == id;
            assert(p[q].0 == id);
            assert(i[q].0 == id);
            assert(c[q].0 == id);
        } else {
            assert forall|j: int| 0 <= j < p.len() implies (#[trigger] p[j]).0 != id by {
                assert(order[j] != id);
            }
            assert forall|j: int| 0 <= j < i.len() implies (#[trigger] i[j]).0 != id by {
                assert(order[j] != id);
            }
            assert forall|j: int| 0 <= j < c.len() implies (#[trigger] c[j]).0 != id by {
                assert(order[j] != id);
            }
            assert(last_value(e, id) is None);
        }
    } else {
        lemma_seeded_state_continues(head, tail.drop_last(), id);
        assert((head + tail).drop_last() =~= head + tail.drop_last());
        assert((head + tail).last() == tail.last());
    }
}

/// A read of rows in ascending order of review id, none below zero and all
/// encodable, that goes on from the cutoff at its `c`-th row and from the
/// seed the read of the first `c` rows reports knows every card as the
/// whole read does, and encodes each of its rows as the whole read does,
/// but for the preset the row is counted under.
pub proof fn lemma_read_after_cutoff_encodes_alike(
    rows: Seq<RwkvHistoricalReviewRow>,
    flags: Seq<bool>,
    c: int,
    records: Seq<PublishedReviewInput>,
    records_after: Seq<PublishedReviewInput>,
    source: RwkvFirstReviewElapsed,
    days: RwkvReplayDays,
)
    requires
        1 <= c <= rows.len(),
        flags.len() == rows.len(),
        forall|i: int| 0 <= i < flags.len() ==> #[trigger] flags[i],
        forall|i: int, j: int| 0 <= i < j < rows.len() ==> (#[trigger] rows[i]).review_id < (#[trigger] rows[j]).review_id,
        0 <= rows[0].review_id,
        records_of(
            records,
            replayed_rows(rows, Some(flags), None, rows.len()),
            Seq::empty(),
            Seq::empty(),
            Seq::empty(),
            source,
            days,
        ),
        records_of(
            records_after,
            replayed_rows(rows.skip(c), Some(flags.skip(c)), Some(rows[c - 1].review_id), (rows.len() - c) as nat),
            reported_seed(replayed_rows(rows.take(c), Some(flags.take(c)), None, c as nat), 0),
            reported_seed(replayed_rows(rows.take(c), Some(flags.take(c)), None, c as nat), 1),
            reported_seed(replayed_rows(rows.take(c), Some(flags.take(c)), None, c as nat), 2),
            source,
            days,
        ),
    ensures
        records_after.len() + c == records.len(),
        forall|k: int|
            0 <= k < records_after.len() && (#[trigger] records_after[k]).preset_id == records[c + k].preset_id
                ==> records_after[k] == records[c + k],
        forall|id: i64|
            #[trigger] card_state_of(
                reported_seed(replayed_rows(rows.take(c), Some(flags.take(c)), None, c as nat), 0),
                reported_seed(replayed_rows(rows.take(c), Some(flags.take(c)), None, c as nat), 1),
                reported_seed(replayed_rows(rows.take(c), Some(flags.take(c)), None, c as nat), 2),
                replayed_rows(rows.skip(c), Some(flags.skip(c)), Some(rows[c - 1].review_id), (rows.len() - c) as nat),
                id,
            ) == card_state_of(Seq::empty(), Seq::empty(), Seq::empty(), replayed_rows(rows, Some(flags), None, rows.len()), id),
{
    let n = rows.len();
    lemma_read_after_cutoff_goes_on(rows, flags, c);
    let whole = replayed_rows(rows, Some(flags), None, n);
    let rest = replayed_rows(rows.skip(c), Some(flags.skip(c)), Some(rows[c - 1].review_id), (n - c) as nat);
    let head_rows = rows.take(c);
    let head_flags = flags.take(c);
    assert forall|i: int| 0 <= i < rows.len() implies #[trigger] row_replayed(rows[i], i, Some(flags), None) by {
        assert(flags[i]);
    }
    assert forall|i: int| 0 <= i < head_rows.len() implies #[trigger] row_replayed(head_rows[i], i, Some(head_flags), None) by {
        assert(head_flags[i] == flags[i]);
    }
    lemma_every_row_replayed(rows, Some(flags), None, n);
    lemma_every_row_replayed(head_rows, Some(head_flags), None, c as nat);
    let head = replayed_rows(head_rows, Some(head_flags), None, c as nat);
    assert(rows.take(n as int) =~= rows);
    assert(head_rows.take(c) =~= head_rows);
    assert(whole == rows);
    assert(head == rows.take(c));
    assert(rest == rows.skip(c));
    assert(rows.take(c) + rows.skip(c) =~= rows);
    let e = Seq::<(i64, i64)>::empty();
    assert forall|id: i64| #[trigger] card_state_of(
        reported_seed(head, 0),
        reported_seed(head, 1),
        reported_seed(head, 2),
        rest,
        id,
    ) == card_state_of(e, e, e, whole, id) by {
        lemma_seeded_state_continues(head, rest, id);
    }
    assert forall|k: int|
        0 <= k < records_after.len() && (#[trigger] records_after[k]).preset_id == records[c + k].preset_id
            implies records_after[k] == records[c + k] by {
        lemma_seeded_state_continues(head, rest.take(k), rest[k].card_id);
        assert(head + rest.take(k) =~= whole.take(c + k));
        assert(rest[k] == whole[c + k]);
    }
}

/// The review log's entry of a row: its type, interval and ease factor.
pub open spec fn log_entry(row: RwkvHistoricalReviewRow) -> [i64; 3] {
    [row.review_kind, row.interval_days, row.ease_factor]
}

/// The numbers of the replay stay far from the ends of the integers.
pub open spec fn replay_inputs_ok(rows: Seq<RwkvHistoricalReviewRow>, settings: RwkvReplaySettings, encoder: PublishedEncoder) -> bool {
    &&& days_ok(encoder.days)
    &&& rows.len() <= i64::MAX
    &&& forall|i: int|
        0 <= i < rows.len() ==> id_ok((#[trigger] rows[i]).review_id) && id_ok(rows[i].card_id)
            && rows[i].review_kind < i64::MAX
    &&& forall|i: int| 0 <= i < settings.seed.previous_review_ids@.len() ==> id_ok(
        (#[trigger] settings.seed.previous_review_ids@[i]).1,
    )
    &&& forall|i: int|
        0 <= i < settings.seed.review_counts@.len() ==> -0x8000_0000 < (
        #[trigger] settings.seed.review_counts@[i]).1 < 0x8000_0000
    &&& settings.seed.review_counts@.len() < 0x8000_0000
    &&& settings.recovery_checkpoint_max_age_millis < 0x1000_0000_0000_0000
    &&& settings.after_review_id matches Some(a) ==> id_ok(a)
}

/// The position of a card's entry, added where missing.
fn entry_of(cards: &mut Vec<(i64, RwkvReplayCard)>, card_id: i64) -> (index: usize)
    ensures
        index < final(cards)@.len(),
        final(cards)@[index as int].0 == card_id,
        final(cards)@.len() == old(cards)@.len() || final(cards)@ == old(cards)@.push(
            (card_id, RwkvReplayCard { previous_review_id: None, previous_interval_days: None, review_count: None }),
        ),
        final(cards)@.len() == old(cards)@.len() ==> final(cards)@ == old(cards)@,
        final(cards)@.len() != old(cards)@.len() ==> forall|j: int| 0 <= j < old(cards)@.len() ==> (#[trigger] old(cards)@[j]).0 != card_id,
{
    let mut i: usize = 0;
    while i < cards.len()
        invariant
            i <= cards@.len(),
            cards@ == old(cards)@,
            forall|j: int| 0 <= j < i ==> (#[trigger] old(cards)@[j]).0 != card_id,
        decreases cards@.len() - i,
    {
        if cards[i].0 == card_id {
            return i;
        }
        i = i + 1;
    }
    cards.push((card_id, RwkvReplayCard { previous_review_id: None, previous_interval_days: None, review_count: None }));
    i
}

/// The state of each replayed card, in the order given.
fn card_states(card_ids: &Vec<i64>, cards: &Vec<(i64, RwkvReplayCard)>) -> (states: Vec<RwkvReplayCardState>)
    requires
        keys_unique(cards@),
    ensures
        states@.len() == card_ids@.len(),
        forall|i: int| 0 <= i < card_ids@.len() ==> (#[trigger] states@[i]).card_id == card_ids@[i],
        forall|i: int| 0 <= i < card_ids@.len() ==> #[trigger] states@[i] == state_of(card_ids@[i], card_entry(cards@, card_ids@[i])),
{
    let mut states: Vec<RwkvReplayCardState> = Vec::new();
    let mut i: usize = 0;
    while i < card_ids.len()
        invariant
            i <= card_ids@.len(),
            states@.len() == i,
            forall|k: int| 0 <= k < i ==> (#[trigger] states@[k]).card_id == card_ids@[k],
            forall|k: int| 0 <= k < i ==> #[trigger] states@[k] == state_of(card_ids@[k], card_entry(cards@, card_ids@[k])),
            keys_unique(cards@),
        decreases card_ids@.len() - i,
    {
        let card_id = card_ids[i];
        let mut card = RwkvReplayCard { previous_review_id: None, previous_interval_days: None, review_count: None };
        let mut j: usize = 0;
        while j < cards.len()
            invariant_except_break
                forall|q: int| 0 <= q < j ==> (#[trigger] cards@[q]).0 != card_id,
                card == unknown_card(),
            invariant
                j <= cards@.len(),
                keys_unique(cards@),
            ensures
                card == card_entry(cards@, card_id),
            decreases cards@.len() - j,
        {
            if cards[j].0 == card_id {
                card = cards[j].1;
                proof {
                    lemma_entry_at(cards@, j as int);
                }
                break;
            }
            j = j + 1;
        }
        states.push(
            RwkvReplayCardState {
                card_id,
                previous_review_id: match card.previous_review_id { Some(x) => x, None => 0 },
                previous_interval_days: match card.previous_interval_days { Some(x) => x, None => 0 },
                review_count: match card.review_count { Some(x) => x, None => 0 },
            },
        );
        i = i + 1;
    }
    states
}

/// The value of the last pair for `key`, if any.
pub open spec fn last_value(pairs: Seq<(i64, i64)>, key: i64) -> Option<i64>
    decreases pairs.len(),
{
    if pairs.len() == 0 {
        None
    } else if pairs.last().0 == key {
        Some(pairs.last().1)
    } else {
        last_value(pairs.drop_last(), key)
    }
}

/// What a seed's lists (previous review ids, previous intervals, review
/// counts, each by card) say of a card: the last value given for it.
pub open spec fn seed_card_of(
    previous_review_ids: Seq<(i64, i64)>,
    previous_interval_days: Seq<(i64, i64)>,
    review_counts: Seq<(i64, i64)>,
    card_id: i64,
) -> RwkvReplayCard {
    RwkvReplayCard {
        previous_review_id: last_value(previous_review_ids, card_id),
        previous_interval_days: last_value(previous_interval_days, card_id),
        review_count: last_value(review_counts, card_id),
    }
}

/// A card after one more of its reviews was replayed.
pub open spec fn card_after_review(card: RwkvReplayCard, row: RwkvHistoricalReviewRow) -> RwkvReplayCard {
    RwkvReplayCard {
        previous_review_id: Some(row.review_id),
        previous_interval_days: Some(row.interval_days),
        review_count: Some(
            match card.review_count {
                Some(x) => if x < i64::MAX {
                    (x + 1) as i64
                } else {
                    x
                },
                None => 1,
            },
        ),
    }
}

/// What the replay knows of a card after the replayed rows `replayed`,
/// going on from a seed's lists.
pub open spec fn card_state_of(
    previous_review_ids: Seq<(i64, i64)>,
    previous_interval_days: Seq<(i64, i64)>,
    review_counts: Seq<(i64, i64)>,
    replayed: Seq<RwkvHistoricalReviewRow>,
    card_id: i64,
) -> RwkvReplayCard
    decreases replayed.len(),
{
    if replayed.len() == 0 {
        seed_card_of(previous_review_ids, previous_interval_days, review_counts, card_id)
    } else {
        let before = card_state_of(previous_review_ids, previous_interval_days, review_counts, replayed.drop_last(), card_id);
        if replayed.last().card_id == card_id {
            card_after_review(before, replayed.last())
        } else {
            before
        }
    }
}

/// What the replay knows of a card after the replayed rows, going on from
/// the seed.
pub open spec fn card_state(seed: RwkvReplaySeed, replayed: Seq<RwkvHistoricalReviewRow>, card_id: i64) -> RwkvReplayCard {
    card_state_of(seed.previous_review_ids@, seed.previous_interval_days@, seed.review_counts@, replayed, card_id)
}

/// A card's state as a read reports it: 0 for what is unknown.
pub open spec fn state_of(card_id: i64, card: RwkvReplayCard) -> RwkvReplayCardState {
    RwkvReplayCardState {
        card_id,
        previous_review_id: match card.previous_review_id {
            Some(x) => x,
            None => 0,
        },
        previous_interval_days: match card.previous_interval_days {
            Some(x) => x,
            None => 0,
        },
        review_count: match card.review_count {
            Some(x) => x,
            None => 0,
        },
    }
}

/// The cards of the replayed rows, each once, in the order of their first
/// replayed review.
pub open spec fn card_order(replayed: Seq<RwkvHistoricalReviewRow>) -> Seq<i64>
    decreases replayed.len(),
{
    if replayed.len() == 0 {
        Seq::empty()
    } else {
        let rest = card_order(replayed.drop_last());
        if rest.contains(replayed.last().card_id) {
            rest
        } else {
            rest.push(replayed.last().card_id)
        }
    }
}

/// Records of the replayed rows: each the encoding of its row's event,
/// under the preset it was counted under, with its card's previous review
/// as the replay knew it before the row, going on from a seed's lists.
pub open spec fn records_of(
    records: Seq<PublishedReviewInput>,
    replayed: Seq<RwkvHistoricalReviewRow>,
    previous_review_ids: Seq<(i64, i64)>,
    previous_interval_days: Seq<(i64, i64)>,
    review_counts: Seq<(i64, i64)>,
    source: RwkvFirstReviewElapsed,
    days: RwkvReplayDays,
) -> bool {
    &&& records.len() == replayed.len()
    &&& forall|k: int|
        0 <= k < records.len() ==> #[trigger] records[k] == spec_encode_review(
            spec_event(replayed[k], records[k].preset_id),
            card_state_of(previous_review_ids, previous_interval_days, review_counts, replayed.take(k), replayed[k].card_id).previous_review_id,
            source,
            days,
        )
}

/// The replay's records of the replayed rows, going on from the seed.
pub open spec fn records_of_rows(
    records: Seq<PublishedReviewInput>,
    replayed: Seq<RwkvHistoricalReviewRow>,
    seed: RwkvReplaySeed,
    encoder: PublishedEncoder,
) -> bool {
    records_of(
        records,
        replayed,
        seed.previous_review_ids@,
        seed.previous_interval_days@,
        seed.review_counts@,
        encoder.first_review,
        encoder.days,
    )
}

/// One more replayed row and its record.
proof fn lemma_records_step(
    records: Seq<PublishedReviewInput>,
    replayed: Seq<RwkvHistoricalReviewRow>,
    seed: RwkvReplaySeed,
    encoder: PublishedEncoder,
    row: RwkvHistoricalReviewRow,
    record: PublishedReviewInput,
)
    requires
        records_of_rows(records, replayed, seed, encoder),
        record == spec_encode_review(
            spec_event(row, record.preset_id),
            card_state(seed, replayed, row.card_id).previous_review_id,
            encoder.first_review,
            encoder.days,
        ),
    ensures
        records_of_rows(records.push(record), replayed.push(row), seed, encoder),
{
    let r2 = records.push(record);
    let p2 = replayed.push(row);
    assert forall|k: int| 0 <= k < r2.len() implies #[trigger] r2[k] == spec_encode_review(
        spec_event(p2[k], r2[k].preset_id),
        card_state(seed, p2.take(k), p2[k].card_id).previous_review_id,
        encoder.first_review,
        encoder.days,
    ) by {
        if k < records.len() {
            assert(p2.take(k) =~= replayed.take(k));
            assert(r2[k] == records[k]);
        } else {
            assert(p2.take(k) =~= replayed);
        }
    }
}

/// One more replayed row: its card is known by what it said.
proof fn lemma_card_state_step(seed: RwkvReplaySeed, replayed: Seq<RwkvHistoricalReviewRow>, row: RwkvHistoricalReviewRow, id: i64)
    ensures
        card_state(seed, replayed.push(row), id) == if row.card_id == id {
            card_after_review(card_state(seed, replayed, id), row)
        } else {
            card_state(seed, replayed, id)
        },
        card_order(replayed.push(row)) == if card_order(replayed).contains(row.card_id) {
            card_order(replayed)
        } else {
            card_order(replayed).push(row.card_id)
        },
{
    assert(replayed.push(row).drop_last() =~= replayed);
}

/// What the replay knows after the replayed rows `replayed`: each card's
/// entry is its state, the cards come in the order of their first replayed
/// review, and each record encodes its row.
#[verifier::opaque]
pub open spec fn replay_knows(
    cards: Seq<(i64, RwkvReplayCard)>,
    card_ids: Seq<i64>,
    records: Seq<PublishedReviewInput>,
    replayed: Seq<RwkvHistoricalReviewRow>,
    seed: RwkvReplaySeed,
    encoder: PublishedEncoder,
) -> bool {
    &&& keys_unique(cards)
    &&& forall|id: i64| #[trigger] card_entry(cards, id) == card_state(seed, replayed, id)
    &&& card_ids == card_order(replayed)
    &&& records_of_rows(records, replayed, seed, encoder)
}

/// What the replay knows stays true as it replays one more row.
proof fn lemma_replay_knows_step(
    c0: Seq<(i64, RwkvReplayCard)>,
    c1: Seq<(i64, RwkvReplayCard)>,
    c2: Seq<(i64, RwkvReplayCard)>,
    slot: int,
    ids0: Seq<i64>,
    ids2: Seq<i64>,
    records0: Seq<PublishedReviewInput>,
    record: PublishedReviewInput,
    replayed: Seq<RwkvHistoricalReviewRow>,
    row: RwkvHistoricalReviewRow,
    seed: RwkvReplaySeed,
    encoder: PublishedEncoder,
)
    requires
        replay_knows(c0, ids0, records0, replayed, seed, encoder),
        c1 == c0 || (c1 == c0.push((row.card_id, unknown_card())) && forall|j: int|
            0 <= j < c0.len() ==> (#[trigger] c0[j]).0 != row.card_id),
        0 <= slot < c1.len(),
        c1[slot].0 == row.card_id,
        c2 == c1.update(slot, (row.card_id, card_after_review(c1[slot].1, row))),
        ids2 == if ids0.contains(row.card_id) {
            ids0
        } else {
            ids0.push(row.card_id)
        },
        record == spec_encode_review(
            spec_event(row, record.preset_id),
            c1[slot].1.previous_review_id,
            encoder.first_review,
            encoder.days,
        ),
    ensures
        replay_knows(c2, ids2, records0.push(record), replayed.push(row), seed, encoder),
        keys_unique(c2),
        c1[slot].1 == card_state(seed, replayed, row.card_id),
        records0.len() == replayed.len(),
{
    reveal(replay_knows);
    if c1 != c0 {
        lemma_entry_push(c0, row.card_id);
    }
    lemma_entry_at(c1, slot);
    assert(c1[slot].1 == card_state(seed, replayed, row.card_id));
    lemma_entry_set(c1, slot, card_after_review(c1[slot].1, row));
    assert forall|id: i64| #[trigger] card_entry(c2, id) == card_state(seed, replayed.push(row), id) by {
        lemma_card_state_step(seed, replayed, row, id);
    }
    lemma_card_state_step(seed, replayed, row, row.card_id);
    lemma_records_step(records0, replayed, seed, encoder, row, record);
}

/// The deck of the first replayed row of the card that has one: the deck
/// its own preset is read under.
pub open spec fn first_deck_of(replayed: Seq<RwkvHistoricalReviewRow>, card_id: i64) -> Option<i64>
    decreases replayed.len(),
{
    if replayed.len() == 0 {
        None
    } else {
        let before = first_deck_of(replayed.drop_last(), card_id);
        if before is Some {
            before
        } else if replayed.last().card_id == card_id && replayed.last().deck_id is Some {
            replayed.last().deck_id
        } else {
            None
        }
    }
}

/// The card's own preset after the replayed rows, once a row of it had a
/// deck.
pub open spec fn own_preset_of(presets: RwkvStreamPresets, replayed: Seq<RwkvHistoricalReviewRow>, card_id: i64) -> Option<StreamPreset> {
    match first_deck_of(replayed, card_id) {
        Some(d) => match spec_own_preset(presets, card_id, d) {
            Ok(p) => Some(p),
            Err(_) => None,
        },
        None => None,
    }
}

/// The preset the replay counts a row under: none for a row of a deleted
/// card; else the first route that applies to the card as the replay knew
/// it before the row, else the card's own preset.
pub open spec fn row_preset(
    presets: RwkvStreamPresets,
    routes: Seq<RwkvHistoricalPresetRoute>,
    upto: Seq<RwkvHistoricalReviewRow>,
    before: RwkvReplayCard,
    row: RwkvHistoricalReviewRow,
) -> Option<i64> {
    match row.deck_id {
        None => None,
        Some(_) => match own_preset_of(presets, upto, row.card_id) {
            Some(own) => match spec_review_preset(
                first_route(
                    routes,
                    row.card_id,
                    match before.review_count {
                        Some(x) => x,
                        None => 0,
                    },
                    match before.previous_interval_days {
                        Some(x) => x,
                        None => 0,
                    },
                ),
                own,
            ) {
                Ok(p) => p,
                Err(_) => None,
            },
            None => None,
        },
    }
}

/// Each record is counted under its row's preset.
pub open spec fn presets_of_records(
    records: Seq<PublishedReviewInput>,
    replayed: Seq<RwkvHistoricalReviewRow>,
    seed: RwkvReplaySeed,
    presets: RwkvStreamPresets,
    routes: Seq<RwkvHistoricalPresetRoute>,
) -> bool {
    forall|k: int|
        0 <= k < records.len() && k < replayed.len() ==> (#[trigger] records[k]).preset_id == row_preset(
            presets,
            routes,
            replayed.take(k + 1),
            card_state(seed, replayed.take(k), replayed[k].card_id),
            replayed[k],
        )
}

/// What the stream did with one row: a row of a deleted card leaves its
/// cache and counts under no preset; any other finds the card's own preset
/// (cached, else read now and cached) and counts under the first route that
/// applies, else under it.
pub open spec fn stream_step(
    presets: RwkvStreamPresets,
    routes: Seq<RwkvHistoricalPresetRoute>,
    cache0: Seq<(i64, StreamPreset)>,
    cache1: Seq<(i64, StreamPreset)>,
    row: RwkvHistoricalReviewRow,
    before: RwkvReplayCard,
    preset_id: Option<i64>,
) -> bool {
    match row.deck_id {
        None => cache1 == cache0 && preset_id is None,
        Some(d) => {
            let known = first_value(cache0, row.card_id);
            let own = match known {
                Some(p) => Ok::<StreamPreset, ReplayError>(p),
                None => spec_own_preset(presets, row.card_id, d),
            };
            &&& own is Ok
            &&& spec_review_preset(
                first_route(
                    routes,
                    row.card_id,
                    match before.review_count {
                        Some(x) => x,
                        None => 0,
                    },
                    match before.previous_interval_days {
                        Some(x) => x,
                        None => 0,
                    },
                ),
                own->Ok_0,
            ) == Ok::<Option<i64>, ReplayError>(preset_id)
            &&& cache1 == if known is None {
                cache0.push((row.card_id, own->Ok_0))
            } else {
                cache0
            }
        },
    }
}

/// The stream's cache and the records' presets after the replayed rows.
#[verifier::opaque]
pub open spec fn replay_presets(
    records: Seq<PublishedReviewInput>,
    replayed: Seq<RwkvHistoricalReviewRow>,
    seed: RwkvReplaySeed,
    presets: RwkvStreamPresets,
    routes: Seq<RwkvHistoricalPresetRoute>,
    cache: Seq<(i64, StreamPreset)>,
) -> bool {
    &&& forall|id: i64| #[trigger] first_value(cache, id) == own_preset_of(presets, replayed, id)
    &&& forall|id: i64|
        #[trigger] first_deck_of(replayed, id) is Some ==> spec_own_preset(presets, id, first_deck_of(replayed, id)->0) is Ok
    &&& presets_of_records(records, replayed, seed, presets, routes)
}

/// The stream's cache and the records' presets stay as stated as the
/// replay replays one more row.
proof fn lemma_replay_presets_step(
    records0: Seq<PublishedReviewInput>,
    record: PublishedReviewInput,
    replayed: Seq<RwkvHistoricalReviewRow>,
    row: RwkvHistoricalReviewRow,
    seed: RwkvReplaySeed,
    presets: RwkvStreamPresets,
    routes: Seq<RwkvHistoricalPresetRoute>,
    cache0: Seq<(i64, StreamPreset)>,
    cache1: Seq<(i64, StreamPreset)>,
)
    requires
        replay_presets(records0, replayed, seed, presets, routes, cache0),
        records0.len() == replayed.len(),
        stream_step(presets, routes, cache0, cache1, row, card_state(seed, replayed, row.card_id), record.preset_id),
    ensures
        replay_presets(records0.push(record), replayed.push(row), seed, presets, routes, cache1),
{
    reveal(replay_presets);
    let r2 = replayed.push(row);
    assert(r2.drop_last() =~= replayed);
    let card = row.card_id;
    assert forall|id: i64| id != card || row.deck_id is None implies #[trigger] first_deck_of(r2, id) == first_deck_of(replayed, id) by {}
    if row.deck_id is Some {
        let d = row.deck_id->0;
        if first_value(cache0, card) is None {
            assert(own_preset_of(presets, replayed, card) is None);
            assert(first_deck_of(replayed, card) is None);
            assert(first_deck_of(r2, card) == Some(d));
            assert forall|id: i64| #[trigger] first_value(cache1, id) == own_preset_of(presets, r2, id) by {
                lemma_first_value_push(cache0, (card, spec_own_preset(presets, card, d)->Ok_0), id);
            }
        } else {
            assert(own_preset_of(presets, replayed, card) is Some);
            assert(first_deck_of(replayed, card) is Some);
            assert(first_deck_of(r2, card) == first_deck_of(replayed, card));
            assert forall|id: i64| #[trigger] first_value(cache1, id) == own_preset_of(presets, r2, id) by {
                if id != card {
                    assert(first_deck_of(r2, id) == first_deck_of(replayed, id));
                }
            }
        }
    } else {
        assert forall|id: i64| #[trigger] first_value(cache1, id) == own_preset_of(presets, r2, id) by {
            assert(first_deck_of(r2, id) == first_deck_of(replayed, id));
        }
    }
    assert forall|id: i64| #[trigger] first_deck_of(r2, id) is Some implies spec_own_preset(
        presets,
        id,
        first_deck_of(r2, id)->0,
    ) is Ok by {
        if !(id == card && row.deck_id is Some && first_deck_of(replayed, id) is None) {
            assert(first_deck_of(r2, id) == first_deck_of(replayed, id));
        }
    }
    let rec2 = records0.push(record);
    assert forall|k: int| 0 <= k < rec2.len() && k < r2.len() implies (#[trigger] rec2[k]).preset_id == row_preset(
        presets,
        routes,
        r2.take(k + 1),
        card_state(seed, r2.take(k), r2[k].card_id),
        r2[k],
    ) by {
        if k < records0.len() {
            assert(r2.take(k + 1) =~= replayed.take(k + 1));
            assert(r2.take(k) =~= replayed.take(k));
            assert(rec2[k] == records0[k]);
        } else {
            assert(r2.take(k + 1) =~= r2);
            assert(r2.take(k) =~= replayed);
            assert(r2[k] == row);
            if row.deck_id is Some {
                assert(own_preset_of(presets, r2, card) is Some);
            }
        }
    }
}

/// A card the replay has no entry for.
pub open spec fn unknown_card() -> RwkvReplayCard {
    RwkvReplayCard { previous_review_id: None, previous_interval_days: None, review_count: None }
}

/// The entry the replay keeps for a card.
pub open spec fn card_entry(cards: Seq<(i64, RwkvReplayCard)>, card_id: i64) -> RwkvReplayCard {
    if exists|j: int| 0 <= j < cards.len() && (#[trigger] cards[j]).0 == card_id {
        cards[choose|j: int| 0 <= j < cards.len() && (#[trigger] cards[j]).0 == card_id].1
    } else {
        unknown_card()
    }
}

/// No card has two entries.
pub open spec fn keys_unique(cards: Seq<(i64, RwkvReplayCard)>) -> bool {
    forall|a: int, b: int| 0 <= a < b < cards.len() ==> #[trigger] cards[a].0 != #[trigger] cards[b].0
}

/// The entry at `index` is the card's.
proof fn lemma_entry_at(cards: Seq<(i64, RwkvReplayCard)>, index: int)
    requires
        keys_unique(cards),
        0 <= index < cards.len(),
    ensures
        card_entry(cards, cards[index].0) == cards[index].1,
{
    let key = cards[index].0;
    assert(cards[index].0 == key);
    let j = choose|j: int| 0 <= j < cards.len() && (#[trigger] cards[j]).0 == key;
    if j < index {
        assert(cards[j].0 != cards[index].0);
    } else if j > index {
        assert(cards[index].0 != cards[j].0);
    }
}

/// Setting a card's entry changes what is known of that card only.
proof fn lemma_entry_set(cards: Seq<(i64, RwkvReplayCard)>, index: int, card: RwkvReplayCard)
    requires
        keys_unique(cards),
        0 <= index < cards.len(),
    ensures
        keys_unique(cards.update(index, (cards[index].0, card))),
        forall|id: i64|
            #[trigger] card_entry(cards.update(index, (cards[index].0, card)), id) == if id == cards[index].0 {
                card
            } else {
                card_entry(cards, id)
            },
{
    let key = cards[index].0;
    let c2 = cards.update(index, (key, card));
    assert forall|a: int, b: int| 0 <= a < b < c2.len() implies #[trigger] c2[a].0 != #[trigger] c2[b].0 by {
        assert(cards[a].0 != cards[b].0);
    }
    lemma_entry_at(c2, index);
    assert forall|id: i64| id != key implies #[trigger] card_entry(c2, id) == card_entry(cards, id) by {
        if exists|j: int| 0 <= j < cards.len() && (#[trigger] cards[j]).0 == id {
            let j = choose|j: int| 0 <= j < cards.len() && (#[trigger] cards[j]).0 == id;
            assert(c2[j].0 == id);
            lemma_entry_at(cards, j);
            lemma_entry_at(c2, j);
        } else {
            assert forall|j: int| 0 <= j < c2.len() implies (#[trigger] c2[j]).0 != id by {
                assert(cards[j].0 != id);
            }
        }
    }
}

/// A new entry for a card not yet known changes nothing known.
proof fn lemma_entry_push(cards: Seq<(i64, RwkvReplayCard)>, key: i64)
    requires
        keys_unique(cards),
        forall|j: int| 0 <= j < cards.len() ==> (#[trigger] cards[j]).0 != key,
    ensures
        keys_unique(cards.push((key, unknown_card()))),
        forall|id: i64| #[trigger] card_entry(cards.push((key, unknown_card())), id) == card_entry(cards, id),
{
    let c2 = cards.push((key, unknown_card()));
    assert forall|a: int, b: int| 0 <= a < b < c2.len() implies #[trigger] c2[a].0 != #[trigger] c2[b].0 by {
        if b == cards.len() {
            assert(cards[a].0 != key);
        } else {
            assert(cards[a].0 != cards[b].0);
        }
    }
    assert forall|id: i64| #[trigger] card_entry(c2, id) == card_entry(cards, id) by {
        if id == key {
            lemma_entry_at(c2, cards.len() as int);
        } else if exists|j: int| 0 <= j < cards.len() && (#[trigger] cards[j]).0 == id {
            let j = choose|j: int| 0 <= j < cards.len() && (#[trigger] cards[j]).0 == id;
            assert(c2[j].0 == id);
            lemma_entry_at(cards, j);
            lemma_entry_at(c2, j);
        } else {
            assert forall|j: int| 0 <= j < c2.len() implies (#[trigger] c2[j]).0 != id by {
                if j < cards.len() {
                    assert(cards[j].0 != id);
                }
            }
        }
    }
}

/// Whether the card was already replayed.
fn already_replayed(card_ids: &Vec<i64>, card_id: i64) -> (found: bool)
    ensures
        found == card_ids@.contains(card_id),
{
    let mut i: usize = 0;
    while i < card_ids.len()
        invariant
            i <= card_ids@.len(),
            forall|j: int| 0 <= j < i ==> card_ids@[j] != card_id,
        decreases card_ids@.len() - i,
    {
        if card_ids[i] == card_id {
            proof {
                assert(card_ids@[i as int] == card_id);
            }
            return true;
        }
        i = i + 1;
    }
    false
}

/// Runs the rows in order: every row counts towards the review count; a row
/// after the cutoff that can be encoded is replayed, from what the replay
/// knows of its card, and chained into the history hash. Where hashing, the
/// hash is that of the replayed records, in order, going on from the seed's.
#[verifier::rlimit(100)]
#[verifier::spinoff_prover]
pub fn replay(rows: RwkvReplayRows, settings: &RwkvReplaySettings, encoder: &PublishedEncoder) -> (result: Result<RwkvReplay, ReplayError>)
    requires
        replay_inputs_ok(rows.rows@, *settings, *encoder),
    ensures
        match result {
            Ok(r) => {
                &&& r.reviews@.len() == r.review_log@.len()
                &&& r.reviews@.len() <= rows.rows@.len()
                &&& r.reviews@.len() == replayed_rows(rows.rows@, flags_of(rows.encodable), settings.after_review_id, rows.rows@.len()).len()
                &&& forall|k: int| 0 <= k < r.reviews@.len() ==> record_of_row(
                    #[trigger] r.reviews@[k],
                    replayed_rows(rows.rows@, flags_of(rows.encodable), settings.after_review_id, rows.rows@.len())[k],
                    encoder.days,
                )
                &&& forall|k: int| 0 <= k < r.review_log@.len() ==> #[trigger] r.review_log@[k] == log_entry(
                    replayed_rows(rows.rows@, flags_of(rows.encodable), settings.after_review_id, rows.rows@.len())[k],
                )
                &&& r.cards@.len() == r.card_own_preset_ids@.len()
                &&& forall|a: int, b: int| 0 <= a < b < r.cards@.len() ==> #[trigger] r.cards@[a].card_id != #[trigger] r.cards@[b].card_id
                &&& forall|j: int| 0 <= j < r.reviews@.len() ==> card_listed(r.cards@, (#[trigger] r.reviews@[j]).card_id)
                &&& forall|k: int| 0 <= k < r.cards@.len() ==> card_reviewed(r.reviews@, (#[trigger] r.cards@[k]).card_id)
                &&& presets_found(rows.rows@, flags_of(rows.encodable), settings.after_review_id, rows.presets)
                    && presets_named(rows.presets) ==> forall|k: int|
                    0 <= k < r.cards@.len() && card_reviewed_in_deck(r.reviews@, r.cards@[k].card_id)
                        ==> (#[trigger] r.card_own_preset_ids@[k]) is Some
                &&& settings.hash_history ==> (r.history_hash matches Some(h) && h@ == spec_hex(
                    hash_of_history(start_hash(settings.seed), r.reviews@),
                ))
                &&& !settings.hash_history ==> r.history_hash is None
                &&& settings.hash_history ==> (r.history_hash matches Some(h) && h@.len() == 64)
                &&& r.last_review_id == newest_review_id(
                    match settings.after_review_id {
                        Some(a) => a,
                        None => 0,
                    },
                    r.reviews@,
                )
                &&& forall|i: int| 0 <= i < r.reviews@.len() ==> (#[trigger] r.reviews@[i]).review_id <= r.last_review_id
                &&& records_of_rows(
                    r.reviews@,
                    replayed_rows(rows.rows@, flags_of(rows.encodable), settings.after_review_id, rows.rows@.len()),
                    settings.seed,
                    *encoder,
                )
                &&& presets_of_records(
                    r.reviews@,
                    replayed_rows(rows.rows@, flags_of(rows.encodable), settings.after_review_id, rows.rows@.len()),
                    settings.seed,
                    rows.presets,
                    rows.routes@,
                )
                &&& Seq::new(r.cards@.len(), |k: int| r.cards@[k].card_id) == card_order(
                    replayed_rows(rows.rows@, flags_of(rows.encodable), settings.after_review_id, rows.rows@.len()),
                )
                &&& forall|k: int|
                    0 <= k < r.cards@.len() ==> #[trigger] r.cards@[k] == state_of(
                        r.cards@[k].card_id,
                        card_state(
                            settings.seed,
                            replayed_rows(rows.rows@, flags_of(rows.encodable), settings.after_review_id, rows.rows@.len()),
                            r.cards@[k].card_id,
                        ),
                    )
                &&& r.review_count == seed_count(*settings) + rows_counted(
                    rows.rows@,
                    flags_of(rows.encodable),
                    settings.after_review_id,
                    rows.rows@.len(),
                )
                &&& settings.after_review_id matches Some(a) ==> a <= r.last_review_id && forall|i: int|
                    0 <= i < r.reviews@.len() ==> a < (#[trigger] r.reviews@[i]).review_id
            },
            Err(_) => true,
        },
        settings.hash_history && (settings.seed.history_hash matches Some(h) && (h@.len() != 64 || spec_from_hex(h@) is None))
            ==> result == Err::<RwkvReplay, ReplayError>(ReplayError::InvalidHistoryHash),
        !seed_hash_invalid(*settings) && !seed_count_negative(*settings) && presets_found(
            rows.rows@,
            flags_of(rows.encodable),
            settings.after_review_id,
            rows.presets,
        ) ==> result is Ok,
        result matches Err(e) ==> (seed_hash_invalid(*settings) && e == ReplayError::InvalidHistoryHash) || (
        !seed_hash_invalid(*settings) && seed_count_negative(*settings) && e == ReplayError::NegativeReviewCount) || (
        !seed_hash_invalid(*settings) && !seed_count_negative(*settings) && !presets_found(
            rows.rows@,
            flags_of(rows.encodable),
            settings.after_review_id,
            rows.presets,
        )),
        !(settings.hash_history && (settings.seed.history_hash matches Some(h) && (h@.len() != 64 || spec_from_hex(h@) is None))) && settings.after_review_id is Some
            && settings.seed.counts_before_cutoff && count_sum(settings.seed.review_counts@) < 0 ==> result == Err::<
            RwkvReplay,
            ReplayError,
        >(ReplayError::NegativeReviewCount),
{
    let seed = &settings.seed;
    let mut cards: Vec<(i64, RwkvReplayCard)> = Vec::new();
    let mut s: usize = 0;
    proof {
        assert(settings.seed.previous_review_ids@.take(0) =~= Seq::<(i64, i64)>::empty());
    }
    while s < seed.previous_review_ids.len()
        invariant
            s <= seed.previous_review_ids@.len(),
            forall|k: int| 0 <= k < cards@.len() ==> (match (#[trigger] cards@[k]).1.previous_review_id {
                Some(p) => id_ok(p),
                None => true,
            }),
            forall|i: int| 0 <= i < settings.seed.previous_review_ids@.len() ==> id_ok(
                (#[trigger] settings.seed.previous_review_ids@[i]).1,
            ),
            seed == &settings.seed,
            keys_unique(cards@),
            forall|id: i64|
                #[trigger] card_entry(cards@, id) == (RwkvReplayCard {
                    previous_review_id: last_value(settings.seed.previous_review_ids@.take(s as int), id),
                    previous_interval_days: None,
                    review_count: None,
                }),
        decreases seed.previous_review_ids@.len() - s,
    {
        let (card_id, review_id) = seed.previous_review_ids[s];
        let ghost c0 = cards@;
        let index = entry_of(&mut cards, card_id);
        proof {
            if cards@.len() != c0.len() {
                lemma_entry_push(c0, card_id);
            }
            lemma_entry_at(cards@, index as int);
        }
        let ghost c1 = cards@;
        let mut card = cards[index].1;
        card.previous_review_id = Some(review_id);
        cards.set(index, (card_id, card));
        proof {
            lemma_entry_set(c1, index as int, card);
            let pairs = settings.seed.previous_review_ids@;
            assert(pairs.take(s + 1).drop_last() =~= pairs.take(s as int));
            assert(pairs.take(s + 1).last() == pairs[s as int]);
        }
        s = s + 1;
    }
    proof {
        assert(settings.seed.previous_review_ids@.take(s as int) =~= settings.seed.previous_review_ids@);
    }
    let mut s: usize = 0;
    proof {
        assert(settings.seed.previous_interval_days@.take(0) =~= Seq::<(i64, i64)>::empty());
    }
    while s < seed.previous_interval_days.len()
        invariant
            s <= seed.previous_interval_days@.len(),
            forall|k: int| 0 <= k < cards@.len() ==> (match (#[trigger] cards@[k]).1.previous_review_id {
                Some(p) => id_ok(p),
                None => true,
            }),
            seed == &settings.seed,
            keys_unique(cards@),
            forall|id: i64|
                #[trigger] card_entry(cards@, id) == (RwkvReplayCard {
                    previous_review_id: last_value(settings.seed.previous_review_ids@, id),
                    previous_interval_days: last_value(settings.seed.previous_interval_days@.take(s as int), id),
                    review_count: None,
                }),
        decreases seed.previous_interval_days@.len() - s,
    {
        let (card_id, days) = seed.previous_interval_days[s];
        let ghost c0 = cards@;
        let index = entry_of(&mut cards, card_id);
        proof {
            if cards@.len() != c0.len() {
                lemma_entry_push(c0, card_id);
            }
            lemma_entry_at(cards@, index as int);
        }
        let ghost c1 = cards@;
        let mut card = cards[index].1;
        card.previous_interval_days = Some(days);
        cards.set(index, (card_id, card));
        proof {
            lemma_entry_set(c1, index as int, card);
            let pairs = settings.seed.previous_interval_days@;
            assert(pairs.take(s + 1).drop_last() =~= pairs.take(s as int));
            assert(pairs.take(s + 1).last() == pairs[s as int]);
        }
        s = s + 1;
    }
    proof {
        assert(settings.seed.previous_interval_days@.take(s as int) =~= settings.seed.previous_interval_days@);
    }
    let mut s: usize = 0;
    proof {
        assert(settings.seed.review_counts@.take(0) =~= Seq::<(i64, i64)>::empty());
    }
    while s < seed.review_counts.len()
        invariant
            s <= seed.review_counts@.len(),
            forall|k: int| 0 <= k < cards@.len() ==> (match (#[trigger] cards@[k]).1.previous_review_id {
                Some(p) => id_ok(p),
                None => true,
            }),
            seed == &settings.seed,
            keys_unique(cards@),
            forall|id: i64|
                #[trigger] card_entry(cards@, id) == (RwkvReplayCard {
                    previous_review_id: last_value(settings.seed.previous_review_ids@, id),
                    previous_interval_days: last_value(settings.seed.previous_interval_days@, id),
                    review_count: last_value(settings.seed.review_counts@.take(s as int), id),
                }),
        decreases seed.review_counts@.len() - s,
    {
        let (card_id, count) = seed.review_counts[s];
        let ghost c0 = cards@;
        let index = entry_of(&mut cards, card_id);
        proof {
            if cards@.len() != c0.len() {
                lemma_entry_push(c0, card_id);
            }
            lemma_entry_at(cards@, index as int);
        }
        let ghost c1 = cards@;
        let mut card = cards[index].1;
        card.review_count = Some(count);
        cards.set(index, (card_id, card));
        proof {
            lemma_entry_set(c1, index as int, card);
            let pairs = settings.seed.review_counts@;
            assert(pairs.take(s + 1).drop_last() =~= pairs.take(s as int));
            assert(pairs.take(s + 1).last() == pairs[s as int]);
        }
        s = s + 1;
    }
    proof {
        assert(settings.seed.review_counts@.take(s as int) =~= settings.seed.review_counts@);
        assert forall|id: i64| #[trigger] card_entry(cards@, id) == card_state(settings.seed, Seq::empty(), id) by {}
    }
    let mut chain: Option<RwkvHistoryHashChain> = if settings.hash_history {
        match &seed.history_hash {
            None => Some(RwkvHistoryHashChain::new()),
            Some(hex) => match RwkvHistoryHashChain::from_hex(hex.as_slice()) {
                Ok(c) => Some(c),
                Err(e) => {
                    return Err(e);
                },
            },
        }
    } else {
        None
    };
    let after = settings.after_review_id;
    let ghost flags = flags_of(rows.encodable);
    let rows_list = rows.rows;
    let encodable = rows.encodable;
    // the state before the first review newer than the newest row less the
    // maximum age
    let mut recovery_cutoff: Option<i64> = None;
    if settings.recovery_checkpoint_max_age_millis > 0 {
        let mut k: usize = rows_list.len();
        while k > 0
            invariant
                k <= rows_list@.len(),
                forall|i: int| 0 <= i < rows_list@.len() ==> id_ok((#[trigger] rows_list@[i]).review_id),
                0 < settings.recovery_checkpoint_max_age_millis < 0x1000_0000_0000_0000,
            decreases k,
        {
            let id = rows_list[k - 1].review_id;
            let newer = match after {
                Some(a) => id > a,
                None => true,
            };
            if newer {
                recovery_cutoff = Some(id - settings.recovery_checkpoint_max_age_millis);
                break;
            }
            k = k - 1;
        }
    }
    let mut stream = RwkvReviewStream::new(rows.presets, rows.routes);
    let mut reviews: Vec<PublishedReviewInput> = Vec::new();
    let mut review_log: Vec<[i64; 3]> = Vec::new();
    let mut replayed_cards: Vec<i64> = Vec::new();
    let mut checkpoint: Option<RwkvReplayCheckpoint> = None;
    let mut last_review_id: i64 = match after {
        Some(a) => a,
        None => 0,
    };
    // every row counts; the count a read reports is that as of the last row
    // it replayed, or of a later row no newer than that one
    let mut retained: u64 = 0;
    if after.is_some() && seed.counts_before_cutoff {
        let mut total: i64 = 0;
        let mut c: usize = 0;
        while c < seed.review_counts.len()
            invariant
                c <= seed.review_counts@.len(),
                seed.review_counts@.len() < 0x8000_0000,
                forall|i: int|
                    0 <= i < settings.seed.review_counts@.len() ==> -0x8000_0000 < (
                    #[trigger] settings.seed.review_counts@[i]).1 < 0x8000_0000,
                seed == &settings.seed,
                -0x8000_0000 * c <= total <= 0x8000_0000 * c,
                total == count_sum(seed.review_counts@.subrange(0, c as int)),
            decreases seed.review_counts@.len() - c,
        {
            proof {
                assert(seed.review_counts@.subrange(0, c + 1 as int).drop_last() =~= seed.review_counts@.subrange(0, c as int));
            }
            total = total + seed.review_counts[c].1;
            c = c + 1;
        }
        proof {
            assert(seed.review_counts@.subrange(0, seed.review_counts@.len() as int) =~= seed.review_counts@);
        }
        if total < 0 {
            return Err(ReplayError::NegativeReviewCount);
        }
        retained = total as u64;
    }
    let ghost first_retained = retained;
    proof {
        assert(first_retained == seed_count(*settings));
    }
    let mut review_count: u64 = retained;
    let ghost start = start_hash(settings.seed);
    let mut index: usize = 0;
    proof {
        reveal(replay_knows);
        assert(records_of_rows(reviews@, Seq::<RwkvHistoricalReviewRow>::empty(), settings.seed, *encoder));
        assert(replayed_cards@ =~= card_order(Seq::<RwkvHistoricalReviewRow>::empty()));
        assert(replay_knows(
            cards@,
            replayed_cards@,
            reviews@,
            replayed_rows(rows_list@, flags, after, 0),
            settings.seed,
            *encoder,
        ));
        reveal(replay_presets);
        assert(replay_presets(
            reviews@,
            replayed_rows(rows_list@, flags, after, 0),
            settings.seed,
            rows.presets,
            rows.routes@,
            stream.cards@,
        ));
    }
    while index < rows_list.len()
        invariant
            index <= rows_list@.len(),
            rows_list@.len() <= i64::MAX,
            retained == first_retained + index,
            first_retained == seed_count(*settings),
            review_count == first_retained + rows_counted(rows_list@, flags, after, index as nat),
            first_retained <= i64::MAX,
            reviews@.len() == review_log@.len(),
            reviews@.len() <= index,
            flags_of(encodable) == flags,
            !(settings.hash_history && (settings.seed.history_hash matches Some(h) && (h@.len() != 64 || spec_from_hex(h@) is None))),
            !(!(settings.hash_history && (settings.seed.history_hash matches Some(h) && (h@.len() != 64 || spec_from_hex(h@) is None))) && settings.after_review_id is Some
                && settings.seed.counts_before_cutoff && count_sum(settings.seed.review_counts@) < 0),
            reviews@.len() == replayed_rows(rows_list@, flags, after, index as nat).len(),
            forall|k: int| 0 <= k < reviews@.len() ==> record_of_row(
                #[trigger] reviews@[k],
                replayed_rows(rows_list@, flags, after, index as nat)[k],
                encoder.days,
            ),
            forall|k: int| 0 <= k < review_log@.len() ==> #[trigger] review_log@[k] == log_entry(
                replayed_rows(rows_list@, flags, after, index as nat)[k],
            ),
            replay_inputs_ok(rows_list@, *settings, *encoder),
            after == settings.after_review_id,
            settings.hash_history <==> chain is Some,
            chain matches Some(c) ==> c.hash@ == hash_of_history(start, reviews@),
            forall|i: int| 0 <= i < reviews@.len() ==> (#[trigger] reviews@[i]).review_id <= last_review_id,
            after matches Some(a) ==> a <= last_review_id && forall|i: int|
                0 <= i < reviews@.len() ==> a < (#[trigger] reviews@[i]).review_id,
            id_ok(last_review_id) || last_review_id == 0,
            forall|k: int| 0 <= k < cards@.len() ==> (match (#[trigger] cards@[k]).1.previous_review_id {
                Some(p) => id_ok(p),
                None => true,
            }),
            rows_list@ == rows.rows@,
            flags == flags_of(rows.encodable),
            last_review_id == newest_review_id(
                match settings.after_review_id {
                    Some(a) => a,
                    None => 0,
                },
                reviews@,
            ),
            stream.presets == rows.presets,
            presets_found(rows_list@, flags, after, rows.presets) ==> forall|j: int|
                0 <= j < stream.cards@.len() ==> (#[trigger] stream.cards@[j]).1 != StreamPreset::Missing,
            presets_found(rows_list@, flags, after, rows.presets) && presets_named(rows.presets) ==> forall|j: int|
                0 <= j < stream.cards@.len() ==> (#[trigger] stream.cards@[j]).1 is Id,
            forall|a: int, b: int| 0 <= a < b < replayed_cards@.len() ==> #[trigger] replayed_cards@[a] != #[trigger] replayed_cards@[b],
            forall|j: int| 0 <= j < reviews@.len() ==> replayed_cards@.contains(#[trigger] reviews@[j].card_id),
            forall|k: int| 0 <= k < replayed_cards@.len() ==> card_reviewed(reviews@, #[trigger] replayed_cards@[k]),
            replay_knows(
                cards@,
                replayed_cards@,
                reviews@,
                replayed_rows(rows_list@, flags, after, index as nat),
                settings.seed,
                *encoder,
            ),
            keys_unique(cards@),
            stream.routes@ == rows.routes@,
            replay_presets(
                reviews@,
                replayed_rows(rows_list@, flags, after, index as nat),
                settings.seed,
                rows.presets,
                rows.routes@,
                stream.cards@,
            ),
            presets_found(rows_list@, flags, after, rows.presets) && presets_named(rows.presets) ==> forall|j: int|
                0 <= j < reviews@.len() && (#[trigger] reviews@[j]).deck_id is Some ==> first_value(
                    stream.cards@,
                    reviews@[j].card_id,
                ) matches Some(StreamPreset::Id(_)),
        decreases rows_list@.len() - index,
    {
        let row = rows_list[index];
        proof {
            lemma_newest_of_records(
                match settings.after_review_id {
                    Some(a) => a,
                    None => 0,
                },
                reviews@,
                replayed_rows(rows_list@, flags, after, index as nat),
            );
        }
        retained = retained + 1;
        if row.review_id <= last_review_id {
            review_count = retained;
        }
        let before_cutoff = match after {
            Some(a) => row.review_id <= a,
            None => false,
        };
        let skipped = match &encodable {
            Some(flags) => index < flags.len() && !flags[index],
            None => false,
        };
        if !before_cutoff && !skipped {
            if let Some(cutoff) = recovery_cutoff {
                if reviews.len() > 0 && row.review_id > cutoff && checkpoint.is_none() {
                    let previous = reviews[reviews.len() - 1].review_id;
                    checkpoint = Some(
                        RwkvReplayCheckpoint {
                            review_count: reviews.len(),
                            last_review_id: previous,
                            history_hash: match &chain {
                                Some(c) => c.hex(),
                                None => Vec::new(),
                            },
                            cards: card_states(&replayed_cards, &cards),
                        },
                    );
                }
            }
            let review_id = row.review_id;
            let card_id = row.card_id;
            let interval_days = row.interval_days;
            review_log.push([row.review_kind, row.interval_days, row.ease_factor]);
            let ghost rr = replayed_rows(rows_list@, flags, after, index as nat);
            let ghost c0 = cards@;
            let slot = entry_of(&mut cards, card_id);
            let ghost c1 = cards@;
            let card = cards[slot].1;
            let ghost stream_before = stream;
            let ghost cards_before = replayed_cards@;
            proof {
                assert(row_replayed(rows_list@[index as int], index as int, flags, after));
                if first_value(stream_before.cards@, row.card_id) is Some {
                    lemma_first_value_in(stream_before.cards@, row.card_id);
                }
            }
            let event = match stream.event(
                row,
                match card.review_count { Some(x) => x, None => 0 },
                match card.previous_interval_days { Some(x) => x, None => 0 },
            ) {
                Ok(e) => e,
                Err(e) => {
                    proof {
                        if presets_found(rows_list@, flags, after, rows.presets) {
                            assert(own_preset_found(rows.presets, rows_list@[index as int]));
                            assert(false);
                        }
                    }
                    return Err(e);
                },
            };
            proof {
                assert(stream_step(rows.presets, rows.routes@, stream_before.cards@, stream.cards@, row, card, event.preset_id));
            }
            let ghost named_now = row.deck_id is Some ==> first_value(stream.cards@, row.card_id) matches Some(
                StreamPreset::Id(_),
            );
            proof {
                if presets_found(rows_list@, flags, after, rows.presets) && presets_named(rows.presets) {
                    assert(row_replayed(rows_list@[index as int], index as int, flags, after));
                    assert(own_preset_found(rows.presets, rows_list@[index as int]));
                    if row.deck_id is Some {
                        if first_value(stream_before.cards@, row.card_id) is Some {
                            lemma_first_value_in(stream_before.cards@, row.card_id);
                        } else {
                            lemma_first_value_push(stream_before.cards@, stream.cards@.last(), row.card_id);
                            assert(stream.cards@ =~= stream_before.cards@.push(stream.cards@.last()));
                        }
                    }
                    assert(named_now);
                }
            }
            proof {
                assert(id_ok(rows_list@[index as int].review_id));
                if presets_found(rows_list@, flags, after, rows.presets) {
                    assert(own_preset_found(rows.presets, rows_list@[index as int]));
                    assert forall|j: int| 0 <= j < stream.cards@.len() implies (#[trigger] stream.cards@[j]).1
                        != StreamPreset::Missing && (presets_named(rows.presets) ==> stream.cards@[j].1 is Id) by {
                        if j < stream_before.cards@.len() {
                            assert(stream.cards@[j] == stream_before.cards@[j]);
                        }
                    }
                }
            }
            let record = encoder.encode_review(&event, card.previous_review_id);
            proof {
                assert(event == spec_event(row, event.preset_id));
                assert(record.preset_id == event.preset_id);
            }
            let next_count: i64 = match card.review_count {
                Some(x) => if x < i64::MAX { x + 1 } else { x },
                None => 1,
            };
            cards.set(
                slot,
                (
                    card_id,
                    RwkvReplayCard {
                        previous_review_id: Some(review_id),
                        previous_interval_days: Some(interval_days),
                        review_count: Some(next_count),
                    },
                ),
            );
            if !already_replayed(&replayed_cards, card_id) {
                replayed_cards.push(card_id);
            }
            proof {
                assert(replayed_cards@ == if cards_before.contains(card_id) {
                    cards_before
                } else {
                    cards_before.push(card_id)
                });
            }
            let ghost before = reviews@;
            match &mut chain {
                Some(c) => {
                    c.update(&record);
                },
                None => {},
            }
            reviews.push(record);
            proof {
                assert(cards@ == c1.update(slot as int, (row.card_id, card_after_review(c1[slot as int].1, row))));
                lemma_replay_knows_step(
                    c0,
                    c1,
                    cards@,
                    slot as int,
                    cards_before,
                    replayed_cards@,
                    before,
                    record,
                    rr,
                    row,
                    settings.seed,
                    *encoder,
                );
                lemma_replay_presets_step(
                    before,
                    record,
                    rr,
                    row,
                    settings.seed,
                    rows.presets,
                    rows.routes@,
                    stream_before.cards@,
                    stream.cards@,
                );
                assert(reviews@.drop_last() =~= before);
                assert(record_of_row(record, row, encoder.days));
                let last = reviews@.len() - 1;
                assert(reviews@[last] == record);
                lemma_cards_step(before, reviews@, cards_before, replayed_cards@);
                if presets_found(rows_list@, flags, after, rows.presets) && presets_named(rows.presets) {
                    assert(named_now);
                    if stream.cards != stream_before.cards {
                        let pushed = stream.cards@[stream.cards@.len() - 1];
                        assert(stream.cards@ =~= stream_before.cards@.push(pushed));
                    }
                    lemma_named_step(before, reviews@, stream_before.cards@, stream.cards@);
                }
            }
            if review_id > last_review_id {
                last_review_id = review_id;
            }
            review_count = retained;
        }
        index = index + 1;
    }
    let states = card_states(&replayed_cards, &cards);
    proof {
        reveal(replay_knows);
        reveal(replay_presets);
        assert(Seq::new(states@.len(), |k: int| states@[k].card_id) =~= replayed_cards@);
    }
    let mut own_presets: Vec<Option<i64>> = Vec::new();
    let mut k: usize = 0;
    while k < states.len()
        invariant
            k <= states@.len(),
            own_presets@.len() == k,
            forall|q: int| 0 <= q < k ==> #[trigger] own_presets@[q] == match first_value(stream.cards@, states@[q].card_id) {
                Some(StreamPreset::Id(id)) => Some(id),
                _ => None,
            },
        decreases states@.len() - k,
    {
        own_presets.push(stream.card_preset_id(states[k].card_id));
        k = k + 1;
    }
    proof {
        assert forall|j: int| 0 <= j < reviews@.len() implies card_listed(states@, (#[trigger] reviews@[j]).card_id) by {
            assert(replayed_cards@.contains(reviews@[j].card_id));
            let k = choose|k: int| 0 <= k < replayed_cards@.len() && replayed_cards@[k] == reviews@[j].card_id;
            assert(states@[k].card_id == replayed_cards@[k]);
        }
        assert forall|k: int| 0 <= k < states@.len() implies card_reviewed(reviews@, (#[trigger] states@[k]).card_id) by {
            assert(states@[k].card_id == replayed_cards@[k]);
        }
        if presets_found(rows.rows@, flags_of(rows.encodable), settings.after_review_id, rows.presets)
            && presets_named(rows.presets) {
            assert forall|k: int|
                0 <= k < states@.len() && card_reviewed_in_deck(reviews@, states@[k].card_id) implies (
                #[trigger] own_presets@[k]) is Some by {
                let j = choose|j: int|
                    0 <= j < reviews@.len() && (#[trigger] reviews@[j]).card_id == states@[k].card_id && reviews@[j].deck_id
                        is Some;
                assert(first_value(stream.cards@, reviews@[j].card_id) matches Some(StreamPreset::Id(_)));
            }
        }
    }
    let history_hash = match &chain {
        Some(c) => Some(c.hex()),
        None => None,
    };
    Ok(
        RwkvReplay {
            reviews,
            review_log,
            cards: states,
            card_own_preset_ids: own_presets,
            last_review_id,
            review_count,
            history_hash,
            checkpoint,
        },
    )
}

} // verus!
