use vstd::prelude::*;

use crate::collection::Collection;
use crate::queue::model::DeckConfig;
use crate::queue::model::first_config;

verus! {

/// How many rows one write holds the collection for.
pub const PREDICTION_WRITE_BATCH_ROWS: usize = 2_500;

/// `ids` strictly increasing.
pub open spec fn strictly_sorted(ids: Seq<i64>) -> bool {
    forall|i: int, j: int| 0 <= i < j < ids.len() ==> ids[i] < ids[j]
}

/// The preset of the first deck with this id, if it has one.
#[verifier::opaque]
pub open spec fn deck_preset(decks: Seq<crate::queue::model::Deck>, deck_id: i64) -> Option<i64> {
    if exists|d: int| 0 <= d < decks.len() && (#[trigger] decks[d]).id == deck_id {
        decks[choose|d: int| 0 <= d < decks.len() && (#[trigger] decks[d]).id == deck_id && forall|e: int|
            0 <= e < d ==> (#[trigger] decks[e]).id != deck_id].config_id
    } else {
        None
    }
}

/// This entry (a deck and how many uncovered reviews it holds) makes the
/// preset stale.
pub open spec fn marks_stale(decks: Seq<crate::queue::model::Deck>, entry: (i64, u32), preset: i64) -> bool {
    entry.1 > 0 && deck_preset(decks, entry.0) == Some(preset)
}

/// Some deck that holds uncovered reviews uses this preset.
pub open spec fn preset_is_stale(decks: Seq<crate::queue::model::Deck>, uncovered: Seq<(i64, u32)>, preset: i64) -> bool {
    exists|k: int| 0 <= k < uncovered.len() && #[trigger] marks_stale(decks, uncovered[k], preset)
}

/// What a sequence holds after an insert: what it held and the new item.
proof fn lemma_insert_contains(s: Seq<i64>, pos: int, v: i64)
    requires
        0 <= pos <= s.len(),
    ensures
        forall|x: i64| #[trigger] s.insert(pos, v).contains(x) <==> (s.contains(x) || x == v),
{
    let t = s.insert(pos, v);
    assert forall|x: i64| #[trigger] t.contains(x) <==> (s.contains(x) || x == v) by {
        if t.contains(x) {
            let w = choose|w: int| 0 <= w < t.len() && t[w] == x;
            if w < pos {
                assert(s[w] == x);
            } else if w > pos {
                assert(s[w - 1] == x);
            }
        }
        if s.contains(x) {
            let w = choose|w: int| 0 <= w < s.len() && s[w] == x;
            if w < pos {
                assert(t[w] == x);
            } else {
                assert(t[w + 1] == x);
            }
        }
        if x == v {
            assert(t[pos] == v);
        }
    }
}

/// Inserts `id` into a strictly sorted list unless it is there.
fn insert_sorted(ids: &mut Vec<i64>, id: i64)
    requires
        strictly_sorted(old(ids)@),
    ensures
        strictly_sorted(final(ids)@),
        forall|x: i64| final(ids)@.contains(x) <==> (old(ids)@.contains(x) || x == id),
{
    let mut pos: usize = 0;
    while pos < ids.len() && ids[pos] < id
        invariant
            pos <= ids@.len(),
            forall|k: int| 0 <= k < pos ==> ids@[k] < id,
        decreases ids@.len() - pos,
    {
        pos = pos + 1;
    }
    if pos < ids.len() && ids[pos] == id {
        return;
    }
    let ghost before = ids@;
    ids.insert(pos, id);
    proof {
        assert(ids@ == before.insert(pos as int, id));
        assert forall|a: int, b: int| 0 <= a < b < ids@.len() implies ids@[a] < ids@[b] by {
            if b < pos {
                assert(ids@[a] == before[a] && ids@[b] == before[b]);
            } else if b == pos {
                assert(ids@[a] == before[a]);
            } else if a < pos {
                assert(ids@[a] == before[a] && ids@[b] == before[b - 1]);
                assert(before[pos as int] >= id);
                if b - 1 > pos {
                    assert(before[pos as int] < before[b - 1]);
                }
            } else if a == pos {
                assert(ids@[b] == before[b - 1]);
                assert(before[pos as int] > id);
                if b - 1 > pos {
                    assert(before[pos as int] < before[b - 1]);
                }
            } else {
                assert(ids@[a] == before[a - 1] && ids@[b] == before[b - 1]);
            }
        }
        lemma_insert_contains(before, pos as int, id);
    }
}

impl Collection {
    /// The preset of the first deck with this id, where it has one.
    fn preset_of_deck(&self, deck_id: i64) -> (preset: Option<i64>)
        ensures
            preset == deck_preset(self.decks@, deck_id),
    {
        proof {
            reveal(deck_preset);
        }
        match crate::queue::model::find_deck(&self.decks, deck_id) {
            Some(d) => {
                proof {
                    let c = choose|c: int| 0 <= c < self.decks@.len() && (#[trigger] self.decks@[c]).id == deck_id
                        && forall|e: int| 0 <= e < c ==> (#[trigger] self.decks@[e]).id != deck_id;
                    if c < d {
                        assert(self.decks@[c].id != deck_id);
                    } else if c > d {
                        assert(self.decks@[d as int].id != deck_id);
                    }
                }
                self.decks[d].config_id
            },
            None => None,
        }
    }

    /// The presets of the decks that hold uncovered reviews (given with how
    /// many each holds), each once, smallest id first.
    pub fn presets_of_uncovered_decks(&self, uncovered: &Vec<(i64, u32)>) -> (stale: Vec<i64>)
        ensures
            strictly_sorted(stale@),
            forall|p: i64| stale@.contains(p) <==> preset_is_stale(self.decks@, uncovered@, p),
    {
        let mut stale: Vec<i64> = Vec::new();
        let mut k: usize = 0;
        while k < uncovered.len()
            invariant
                k <= uncovered@.len(),
                strictly_sorted(stale@),
                forall|p: i64| stale@.contains(p) <==> preset_is_stale(self.decks@, uncovered@.subrange(0, k as int), p),
            decreases uncovered@.len() - k,
        {
            let (deck_id, reviews) = uncovered[k];
            let ghost prefix = uncovered@.subrange(0, k as int);
            let ghost next = uncovered@.subrange(0, k + 1 as int);
            let ghost before = stale@;
            if reviews > 0 {
                match self.preset_of_deck(deck_id) {
                    Some(p) => insert_sorted(&mut stale, p),
                    None => {},
                }
            }
            proof {
                assert forall|p: i64| stale@.contains(p) <==> preset_is_stale(self.decks@, next, p) by {
                    if preset_is_stale(self.decks@, next, p) {
                        let w = choose|w: int| 0 <= w < next.len() && #[trigger] marks_stale(self.decks@, next[w], p);
                        if w < k {
                            assert(prefix[w] == next[w]);
                            assert(marks_stale(self.decks@, prefix[w], p));
                        }
                    }
                    if preset_is_stale(self.decks@, prefix, p) {
                        let w = choose|w: int| 0 <= w < prefix.len() && #[trigger] marks_stale(self.decks@, prefix[w], p);
                        assert(next[w] == prefix[w]);
                        assert(marks_stale(self.decks@, next[w], p));
                    }
                    if marks_stale(self.decks@, (deck_id, reviews), p) {
                        assert(next[k as int] == (deck_id, reviews));
                    }
                }
            }
            k = k + 1;
        }
        proof {
            assert(uncovered@.subrange(0, uncovered@.len() as int) =~= uncovered@);
        }
        stale
    }

    /// The decks that use one of these presets, in collection order.
    pub fn decks_of_presets(&self, presets: &Vec<i64>) -> (decks: Vec<i64>)
        ensures
            forall|d: i64| decks@.contains(d) <==> exists|i: int|
                0 <= i < self.decks@.len() && (#[trigger] self.decks@[i]).id == d && (self.decks@[i].config_id matches Some(c)
                    && presets@.contains(c)),
    {
        let mut decks: Vec<i64> = Vec::new();
        let mut i: usize = 0;
        while i < self.decks.len()
            invariant
                i <= self.decks@.len(),
                forall|d: i64| decks@.contains(d) <==> exists|m: int|
                    0 <= m < i && (#[trigger] self.decks@[m]).id == d && (self.decks@[m].config_id matches Some(c)
                        && presets@.contains(c)),
            decreases self.decks@.len() - i,
        {
            let uses = match self.decks[i].config_id {
                Some(c) => contains_i64(presets, c),
                None => false,
            };
            let ghost before = decks@;
            if uses {
                decks.push(self.decks[i].id);
            }
            proof {
                assert forall|d: i64| decks@.contains(d) <==> exists|m: int|
                    0 <= m < i + 1 && (#[trigger] self.decks@[m]).id == d && (self.decks@[m].config_id matches Some(c)
                        && presets@.contains(c)) by {
                    if decks@.contains(d) && !before.contains(d) {
                        assert(self.decks@[i as int].id == d);
                    }
                    if before.contains(d) {
                        let w = choose|w: int| 0 <= w < before.len() && before[w] == d;
                        assert(decks@[w] == d);
                    }
                    if exists|m: int| 0 <= m < i + 1 && (#[trigger] self.decks@[m]).id == d && (self.decks@[m].config_id matches Some(c)
                        && presets@.contains(c)) {
                        let m = choose|m: int| 0 <= m < i + 1 && (#[trigger] self.decks@[m]).id == d && (self.decks@[m].config_id matches Some(c)
                            && presets@.contains(c));
                        if m == i {
                            assert(decks@[decks@.len() - 1] == d);
                        }
                    }
                }
            }
            i = i + 1;
        }
        decks
    }

    /// What a preset's prediction rows depend on besides its reviews: the
    /// open collection, the preset as saved (id, time, parameters) and the
    /// decks that use it, smallest id first.
    pub fn fsrs_review_prediction_job_key(&self, collection: u64, config: &DeckConfig) -> (key: FsrsReviewPredictionJobKey)
        ensures
            key.collection == collection,
            key.preset == config.id,
            key.preset_mtime == config.mtime_secs,
            key.params@ == config.fsrs_params@,
            preset_decks(self.decks@, config.id, key.decks@),
    {
        let mut decks: Vec<i64> = Vec::new();
        let mut i: usize = 0;
        while i < self.decks.len()
            invariant
                i <= self.decks@.len(),
                strictly_sorted(decks@),
                forall|d: i64| decks@.contains(d) <==> exists|m: int|
                    0 <= m < i && #[trigger] uses_preset(self.decks@[m], d, config.id),
            decreases self.decks@.len() - i,
        {
            let ghost before = decks@;
            if self.decks[i].config_id == Some(config.id) {
                insert_sorted(&mut decks, self.decks[i].id);
            }
            proof {
                assert forall|d: i64| decks@.contains(d) <==> exists|m: int|
                    0 <= m < i + 1 && #[trigger] uses_preset(self.decks@[m], d, config.id) by {
                    if exists|m: int| 0 <= m < i + 1 && #[trigger] uses_preset(self.decks@[m], d, config.id) {
                        let m = choose|m: int| 0 <= m < i + 1 && #[trigger] uses_preset(self.decks@[m], d, config.id);
                        if m < i {
                            assert(before.contains(d));
                        }
                    }
                    if decks@.contains(d) && !before.contains(d) {
                        assert(uses_preset(self.decks@[i as int], d, config.id));
                    }
                }
            }
            i = i + 1;
        }
        let key = crate::auto_optimize::FsrsAutoOptimizeJobKey::of(config);
        FsrsReviewPredictionJobKey { collection, preset: key.preset, preset_mtime: key.preset_mtime, params: key.params, decks }
    }

    /// What the write of a job's next batch must do: nothing, in a
    /// collection other than the one the job read; take back what the job
    /// wrote, when its preset is gone or was saved or its decks changed since
    /// the job read it; else store the batch.
    pub fn prediction_batch_action(&self, key: &FsrsReviewPredictionJobKey, open_collection: u64) -> (action: PredictionBatchAction)
        ensures
            action == spec_batch_action(self.decks@, self.configs@, *key, open_collection),
    {
        if key.collection != open_collection {
            return PredictionBatchAction::OtherCollection;
        }
        match crate::queue::model::find_config(&self.configs, key.preset) {
            None => PredictionBatchAction::TakeBack,
            Some(c) => {
                let now = self.fsrs_review_prediction_job_key(open_collection, &self.configs[c]);
                let same = now.preset == key.preset && now.preset_mtime == key.preset_mtime
                    && crate::auto_optimize::same_params(&now.params, &key.params) && same_ids(&now.decks, &key.decks);
                proof {
                    crate::auto_optimize::lemma_same_param_values_symmetric(now.params@, key.params@);
                    if key_is_current(self.decks@, self.configs@[c as int], *key) {
                        lemma_sorted_same_members(now.decks@, key.decks@);
                    }
                }
                if same {
                    PredictionBatchAction::Store
                } else {
                    PredictionBatchAction::TakeBack
                }
            },
        }
    }
}

/// Whether two id lists are the same.
fn same_ids(a: &Vec<i64>, b: &Vec<i64>) -> (same: bool)
    ensures
        same == (a@ == b@),
{
    if a.len() != b.len() {
        return false;
    }
    let mut i: usize = 0;
    while i < a.len()
        invariant
            i <= a@.len(),
            a@.len() == b@.len(),
            forall|j: int| 0 <= j < i ==> a@[j] == b@[j],
        decreases a@.len() - i,
    {
        if a[i] != b[i] {
            return false;
        }
        i = i + 1;
    }
    proof {
        assert(a@ =~= b@);
    }
    true
}

/// Two strictly sorted lists that hold the same ids are the same list.
proof fn lemma_sorted_same_members(a: Seq<i64>, b: Seq<i64>)
    requires
        strictly_sorted(a),
        strictly_sorted(b),
        forall|x: i64| a.contains(x) <==> b.contains(x),
    ensures
        a == b,
    decreases a.len(),
{
    if a.len() == 0 {
        if b.len() > 0 {
            assert(b.contains(b[0]));
        }
        assert(a =~= b);
    } else if b.len() == 0 {
        assert(a.contains(a[0]));
    } else {
        assert(a.contains(a[0]));
        assert(b.contains(b[0]));
        let j = choose|j: int| 0 <= j < b.len() && b[j] == a[0];
        let i = choose|i: int| 0 <= i < a.len() && a[i] == b[0];
        if j > 0 {
            assert(b[0] < b[j]);
            if i > 0 {
                assert(a[0] < a[i]);
            }
        }
        assert(a[0] == b[0]);
        let ta = a.drop_first();
        let tb = b.drop_first();
        assert forall|x: i64| ta.contains(x) <==> tb.contains(x) by {
            if ta.contains(x) {
                let w = choose|w: int| 0 <= w < ta.len() && ta[w] == x;
                assert(a[w + 1] == x);
                assert(a.contains(x));
                let v = choose|v: int| 0 <= v < b.len() && b[v] == x;
                assert(a[0] < a[w + 1]);
                if v == 0 {
                    assert(false);
                }
                assert(tb[v - 1] == x);
            }
            if tb.contains(x) {
                let w = choose|w: int| 0 <= w < tb.len() && tb[w] == x;
                assert(b[w + 1] == x);
                assert(b.contains(x));
                let v = choose|v: int| 0 <= v < a.len() && a[v] == x;
                assert(b[0] < b[w + 1]);
                if v == 0 {
                    assert(false);
                }
                assert(ta[v - 1] == x);
            }
        }
        lemma_sorted_same_members(ta, tb);
        assert forall|k: int| 0 < k < a.len() implies a[k] == b[k] by {
            assert(a[k] == ta[k - 1] && b[k] == tb[k - 1]);
        }
        assert(a =~= b);
    }
}

/// This deck uses the preset and has this id.
pub open spec fn uses_preset(deck: crate::queue::model::Deck, id: i64, preset: i64) -> bool {
    deck.id == id && deck.config_id == Some(preset)
}

/// `ids` are the ids of the decks that use the preset, each once, smallest
/// first.
pub open spec fn preset_decks(decks: Seq<crate::queue::model::Deck>, preset: i64, ids: Seq<i64>) -> bool {
    &&& strictly_sorted(ids)
    &&& forall|d: i64| ids.contains(d) <==> exists|m: int| 0 <= m < decks.len() && #[trigger] uses_preset(decks[m], d, preset)
}

/// The key (leaving aside the collection) is that of the preset as it is now.
pub open spec fn key_is_current(decks: Seq<crate::queue::model::Deck>, config: DeckConfig, key: FsrsReviewPredictionJobKey) -> bool {
    &&& key.preset == config.id
    &&& key.preset_mtime == config.mtime_secs
    &&& crate::auto_optimize::same_param_values(key.params@, config.fsrs_params@)
    &&& preset_decks(decks, config.id, key.decks@)
}

/// What the write of a job's next batch must do.
#[derive(Clone, Copy, Debug, PartialEq, Eq, Structural)]
pub enum PredictionBatchAction {
    /// Store the batch.
    Store,
    /// Delete the rows the job's earlier batches wrote, and write nothing.
    TakeBack,
    /// Touch nothing: the open collection is not the one the job read.
    OtherCollection,
}

pub open spec fn spec_batch_action(decks: Seq<crate::queue::model::Deck>, configs: Seq<DeckConfig>, key: FsrsReviewPredictionJobKey, open_collection: u64) -> PredictionBatchAction {
    if key.collection != open_collection {
        PredictionBatchAction::OtherCollection
    } else {
        match first_config(configs, key.preset) {
            Some(config) => if key_is_current(decks, config, key) {
                PredictionBatchAction::Store
            } else {
                PredictionBatchAction::TakeBack
            },
            None => PredictionBatchAction::TakeBack,
        }
    }
}

pub(crate) fn contains_i64(ids: &Vec<i64>, id: i64) -> (found: bool)
    ensures
        found == ids@.contains(id),
{
    let mut i: usize = 0;
    while i < ids.len()
        invariant
            i <= ids@.len(),
            forall|j: int| 0 <= j < i ==> ids@[j] != id,
        decreases ids@.len() - i,
    {
        if ids[i] == id {
            proof {
                assert(ids@[i as int] == id);
            }
            return true;
        }
        i = i + 1;
    }
    false
}

/// What a preset's prediction rows depend on besides its reviews. The open
/// collection they were read from is checked by the caller.
#[derive(Clone, Debug, PartialEq, Eq)]
pub struct FsrsReviewPredictionJobKey {
    /// The open collection the job read; checked before anything else.
    pub collection: u64,
    pub preset: i64,
    pub preset_mtime: i64,
    pub params: Vec<u32>,
    pub decks: Vec<i64>,
}

/// What one batch write did.
#[derive(Clone, Copy, Debug, PartialEq, Eq, Structural)]
pub enum PredictionBatchOutcome {
    /// The batch is stored; this many rows went in.
    Stored(u32),
    /// The preset was saved or its decks changed since the rows were read.
    Superseded,
    /// The collection open now is not the one the rows were read from.
    OtherCollection,
}

/// A preset's rows written a batch at a time: how far the writing has come.
#[derive(Clone, Copy, Debug, PartialEq, Eq, Structural)]
pub struct PredictionWrite {
    pub rows: usize,
    pub batch_rows: usize,
    pub done: usize,
    pub written: u32,
    /// The result, once the writing stopped.
    pub finished: Option<u32>,
}

impl PredictionWrite {
    /// The writing of `rows` rows, `batch_rows` at a time (at least one).
    pub fn new(rows: usize, batch_rows: usize) -> (w: PredictionWrite)
        ensures
            w.rows == rows,
            w.batch_rows == if batch_rows > 1 { batch_rows } else { 1 },
            w.done == 0,
            w.written == 0,
            w.finished == (if rows == 0 { Some(0u32) } else { None::<u32> }),
    {
        PredictionWrite {
            rows,
            batch_rows: if batch_rows > 1 { batch_rows } else { 1 },
            done: 0,
            written: 0,
            finished: if rows == 0 { Some(0) } else { None },
        }
    }

    /// The rows of the next batch, while the writing goes on: from where it
    /// stands, at most a batch.
    pub fn next_batch(&self) -> (batch: Option<(usize, usize)>)
        ensures
            self.finished is Some ==> batch is None,
            self.finished is None && self.done < self.rows ==> batch == Some((
                self.done,
                if self.rows - self.done > self.batch_rows { (self.done + self.batch_rows) as usize } else { self.rows },
            )),
    {
        if self.finished.is_some() || self.done >= self.rows {
            return None;
        }
        let end = if self.rows - self.done > self.batch_rows {
            self.done + self.batch_rows
        } else {
            self.rows
        };
        Some((self.done, end))
    }

    /// Takes what the write of the batch ending at `end` did: a stored batch
    /// counts its rows and the writing goes on (done after the last batch);
    /// a superseded preset stops it with nothing written (its batches were
    /// taken back); another collection stops it with what was written.
    pub fn record(&mut self, end: usize, outcome: PredictionBatchOutcome)
        requires
            old(self).finished is None,
            old(self).done < end <= old(self).rows,
            outcome matches PredictionBatchOutcome::Stored(n) ==> old(self).written + n <= u32::MAX,
        ensures
            final(self).rows == old(self).rows,
            final(self).batch_rows == old(self).batch_rows,
            match outcome {
                PredictionBatchOutcome::Superseded => final(self).finished == Some(0u32),
                PredictionBatchOutcome::OtherCollection => final(self).finished == Some(old(self).written),
                PredictionBatchOutcome::Stored(n) => {
                    &&& final(self).written == old(self).written + n
                    &&& final(self).done == end
                    &&& final(self).finished == if end == old(self).rows { Some(final(self).written) } else { None }
                },
            },
    {
        match outcome {
            PredictionBatchOutcome::Superseded => {
                self.finished = Some(0);
            },
            PredictionBatchOutcome::OtherCollection => {
                self.finished = Some(self.written);
            },
            PredictionBatchOutcome::Stored(n) => {
                self.written = self.written + n;
                self.done = end;
                if end == self.rows {
                    self.finished = Some(self.written);
                }
            },
        }
    }
}

} // verus!
