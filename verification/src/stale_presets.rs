//! The stale-preset read of the prediction pass done in parts: the review
//! log is read a part at a time, with the collection free in between, and
//! the parts count only where nothing wrote to the collection from the
//! first to the last.
use vstd::prelude::*;

use crate::predictions::deck_preset;
use crate::predictions::marks_stale;
use crate::predictions::preset_is_stale;
use crate::queue::model::Deck;

verus! {

/// How many uncovered reviews the entries give this deck in all.
pub open spec fn count_of(u: Seq<(i64, u32)>, deck: i64) -> int
    decreases u.len(),
{
    if u.len() == 0 {
        0
    } else {
        count_of(u.drop_last(), deck) + if u.last().0 == deck {
            u.last().1 as int
        } else {
            0
        }
    }
}

/// No deck has two entries.
pub open spec fn unique_decks(u: Seq<(i64, u32)>) -> bool {
    forall|i: int, j: int| 0 <= i < j < u.len() ==> (#[trigger] u[i]).0 != (#[trigger] u[j]).0
}

/// Where no deck has two entries, a deck's count is that of its entry.
proof fn lemma_count_of_unique(u: Seq<(i64, u32)>, deck: i64, i: int)
    requires
        unique_decks(u),
        0 <= i < u.len(),
        u[i].0 == deck,
    ensures
        count_of(u, deck) == u[i].1,
    decreases u.len(),
{
    if i < u.len() - 1 {
        assert(u.drop_last()[i] == u[i]);
        lemma_count_of_unique(u.drop_last(), deck, i);
        assert(u[i].0 != u.last().0);
    } else {
        lemma_count_of_absent(u.drop_last(), deck);
    }
}

/// A deck without an entry counts nothing.
proof fn lemma_count_of_absent(u: Seq<(i64, u32)>, deck: i64)
    requires
        forall|k: int| 0 <= k < u.len() ==> (#[trigger] u[k]).0 != deck,
    ensures
        count_of(u, deck) == 0,
    decreases u.len(),
{
    if u.len() > 0 {
        assert(u[u.len() - 1].0 != deck);
        lemma_count_of_absent(u.drop_last(), deck);
    }
}

/// The counts of two lists read one after the other add up.
pub proof fn lemma_count_of_append(a: Seq<(i64, u32)>, b: Seq<(i64, u32)>, deck: i64)
    ensures
        count_of(a + b, deck) == count_of(a, deck) + count_of(b, deck),
    decreases b.len(),
{
    if b.len() == 0 {
        assert(a + b =~= a);
    } else {
        assert((a + b).drop_last() =~= a + b.drop_last());
        lemma_count_of_append(a, b.drop_last(), deck);
    }
}

/// A part of a list counts no more than the whole.
proof fn lemma_count_of_prefix(u: Seq<(i64, u32)>, k: int, deck: i64)
    requires
        0 <= k <= u.len(),
    ensures
        count_of(u.subrange(0, k), deck) <= count_of(u, deck),
    decreases u.len() - k,
{
    if k < u.len() {
        assert(u.subrange(0, k + 1).drop_last() =~= u.subrange(0, k));
        lemma_count_of_prefix(u, k + 1, deck);
    } else {
        assert(u.subrange(0, k) =~= u);
    }
}

/// Counts are never below 0.
proof fn lemma_count_of_nonneg(u: Seq<(i64, u32)>, deck: i64)
    ensures
        count_of(u, deck) >= 0,
    decreases u.len(),
{
    if u.len() > 0 {
        lemma_count_of_nonneg(u.drop_last(), deck);
    }
}

/// A preset is stale exactly when some deck that uses it counts an
/// uncovered review.
proof fn lemma_stale_by_counts(decks: Seq<Deck>, u: Seq<(i64, u32)>, preset: i64)
    ensures
        preset_is_stale(decks, u, preset) <==> exists|d: i64| count_of(u, d) > 0 && #[trigger] deck_preset(decks, d)
            == Some(preset),
    decreases u.len(),
{
    if u.len() > 0 {
        let rest = u.drop_last();
        lemma_stale_by_counts(decks, rest, preset);
        if preset_is_stale(decks, u, preset) {
            let k = choose|k: int| 0 <= k < u.len() && #[trigger] marks_stale(decks, u[k], preset);
            let d = u[k].0;
            if k < u.len() - 1 {
                assert(rest[k] == u[k]);
                assert(marks_stale(decks, rest[k], preset));
                let e = choose|e: i64| count_of(rest, e) > 0 && #[trigger] deck_preset(decks, e) == Some(preset);
                lemma_count_of_nonneg(rest, e);
                assert(count_of(u, e) > 0);
            } else {
                lemma_count_of_nonneg(rest, d);
                assert(count_of(u, d) > 0);
            }
        }
        if exists|d: i64| count_of(u, d) > 0 && #[trigger] deck_preset(decks, d) == Some(preset) {
            let d = choose|d: i64| count_of(u, d) > 0 && #[trigger] deck_preset(decks, d) == Some(preset);
            if u.last().0 == d && u.last().1 > 0 {
                assert(marks_stale(decks, u[u.len() - 1], preset));
            } else {
                assert(count_of(rest, d) > 0);
                let k = choose|k: int| 0 <= k < rest.len() && #[trigger] marks_stale(decks, rest[k], preset);
                assert(u[k] == rest[k]);
                assert(marks_stale(decks, u[k], preset));
            }
        }
    }
}

/// The stale presets of counts merged part by part are those of the parts
/// read as one list: merging adds up each deck's counts, and a preset is
/// stale exactly when one of its decks counts an uncovered review.
pub proof fn lemma_merged_parts_are_one_read(decks: Seq<Deck>, before: Seq<(i64, u32)>, part: Seq<(i64, u32)>, merged: Seq<
    (i64, u32),
>)
    requires
        forall|d: i64| #[trigger] count_of(merged, d) == count_of(before, d) + count_of(part, d),
    ensures
        forall|p: i64| preset_is_stale(decks, merged, p) <==> preset_is_stale(decks, before + part, p),
{
    assert forall|p: i64| preset_is_stale(decks, merged, p) <==> preset_is_stale(decks, before + part, p) by {
        lemma_stale_by_counts(decks, merged, p);
        lemma_stale_by_counts(decks, before + part, p);
        if preset_is_stale(decks, merged, p) {
            let d = choose|d: i64| count_of(merged, d) > 0 && #[trigger] deck_preset(decks, d) == Some(p);
            lemma_count_of_append(before, part, d);
            assert(count_of(before + part, d) > 0);
        }
        if preset_is_stale(decks, before + part, p) {
            let d = choose|d: i64| count_of(before + part, d) > 0 && #[trigger] deck_preset(decks, d) == Some(p);
            lemma_count_of_append(before, part, d);
            assert(count_of(merged, d) > 0);
        }
    }
}

/// The entry of this deck, if any.
fn entry_of(u: &Vec<(i64, u32)>, deck: i64) -> (index: Option<usize>)
    ensures
        match index {
            Some(i) => i < u@.len() && u@[i as int].0 == deck,
            None => forall|k: int| 0 <= k < u@.len() ==> (#[trigger] u@[k]).0 != deck,
        },
{
    let mut i: usize = 0;
    while i < u.len()
        invariant
            i <= u@.len(),
            forall|k: int| 0 <= k < i ==> (#[trigger] u@[k]).0 != deck,
        decreases u@.len() - i,
    {
        if u[i].0 == deck {
            return Some(i);
        }
        i = i + 1;
    }
    None
}

/// Adds a part's counts to those read so far: each deck keeps one entry,
/// holding its counts added up.
pub fn add_uncovered_part(uncovered: &mut Vec<(i64, u32)>, part: &Vec<(i64, u32)>)
    requires
        unique_decks(old(uncovered)@),
        forall|d: i64| #[trigger] count_of(old(uncovered)@, d) + count_of(part@, d) <= u32::MAX,
    ensures
        unique_decks(final(uncovered)@),
        forall|d: i64| #[trigger] count_of(final(uncovered)@, d) == count_of(old(uncovered)@, d) + count_of(part@, d),
{
    let ghost start = uncovered@;
    let mut k: usize = 0;
    while k < part.len()
        invariant
            k <= part@.len(),
            unique_decks(uncovered@),
            forall|d: i64| #[trigger] count_of(start, d) + count_of(part@, d) <= u32::MAX,
            forall|d: i64| #[trigger] count_of(uncovered@, d) == count_of(start, d) + count_of(part@.subrange(0, k as int), d),
        decreases part@.len() - k,
    {
        let (deck, reviews) = part[k];
        let ghost before = uncovered@;
        proof {
            assert(part@.subrange(0, k + 1 as int).drop_last() =~= part@.subrange(0, k as int));
            lemma_count_of_prefix(part@, k + 1, deck);
            lemma_count_of_nonneg(start, deck);
        }
        match entry_of(uncovered, deck) {
            Some(i) => {
                proof {
                    lemma_count_of_unique(before, deck, i as int);
                }
                let total = uncovered[i].1 + reviews;
                uncovered.set(i, (deck, total));
                proof {
                    assert forall|a: int, b: int| 0 <= a < b < uncovered@.len() implies (#[trigger] uncovered@[a]).0
                        != (#[trigger] uncovered@[b]).0 by {
                        assert(before[a].0 == uncovered@[a].0 && before[b].0 == uncovered@[b].0);
                    }
                    assert forall|d: i64| #[trigger] count_of(uncovered@, d) == count_of(start, d) + count_of(
                        part@.subrange(0, k + 1 as int),
                        d,
                    ) by {
                        assert(count_of(part@.subrange(0, k + 1 as int), d) == count_of(part@.subrange(0, k as int), d)
                            + if d == deck { reviews as int } else { 0 });
                        if d == deck {
                            lemma_count_of_unique(uncovered@, deck, i as int);
                        } else {
                            lemma_count_of_update_other(before, i as int, (deck, total), d);
                        }
                    }
                }
            },
            None => {
                uncovered.push((deck, reviews));
                proof {
                    lemma_count_of_absent(before, deck);
                    assert(uncovered@.drop_last() =~= before);
                    assert forall|d: i64| #[trigger] count_of(uncovered@, d) == count_of(start, d) + count_of(
                        part@.subrange(0, k + 1 as int),
                        d,
                    ) by {
                        assert(count_of(part@.subrange(0, k + 1 as int), d) == count_of(part@.subrange(0, k as int), d)
                            + if d == deck { reviews as int } else { 0 });
                        assert(count_of(uncovered@, d) == count_of(before, d) + if d == deck { reviews as int } else { 0 });
                    }
                    assert forall|a: int, b: int| 0 <= a < b < uncovered@.len() implies (#[trigger] uncovered@[a]).0
                        != (#[trigger] uncovered@[b]).0 by {
                        if b == uncovered@.len() - 1 {
                            assert(before[a].0 != deck);
                        } else {
                            assert(before[a] == uncovered@[a] && before[b] == uncovered@[b]);
                        }
                    }
                }
            },
        }
        k = k + 1;
    }
    proof {
        assert(part@.subrange(0, part@.len() as int) =~= part@);
    }
}

/// Changing the count of one deck's entry leaves another deck's count
/// alone.
proof fn lemma_count_of_update_other(u: Seq<(i64, u32)>, i: int, e: (i64, u32), d: i64)
    requires
        0 <= i < u.len(),
        u[i].0 == e.0,
        e.0 != d,
    ensures
        count_of(u.update(i, e), d) == count_of(u, d),
    decreases u.len(),
{
    if i < u.len() - 1 {
        assert(u.update(i, e).drop_last() =~= u.drop_last().update(i, e));
        lemma_count_of_update_other(u.drop_last(), i, e, d);
    } else {
        assert(u.update(i, e).drop_last() =~= u.drop_last());
    }
}

/// How many times the parts are read before the stale presets are read in
/// one piece instead.
pub const STALE_PRESETS_READ_ATTEMPTS: usize = 3;

/// Where a read of the stale presets in parts stands.
#[derive(Clone, Debug)]
pub struct StalePresetsRead {
    /// The reads in parts begun so far, less one.
    pub attempt: usize,
    /// The uncovered reviews counted so far, one entry per deck.
    pub uncovered: Vec<(i64, u32)>,
    /// The collection's change stamp when the first part was read.
    pub stamp: Option<i64>,
    /// The review id the next part starts after; none once the last part is
    /// read.
    pub after: Option<i64>,
}

/// What the read needs next, with the collection held.
#[derive(Clone, Copy, Debug, PartialEq, Eq, Structural)]
pub enum StalePresetsStep {
    /// Read the change stamp, and where it did not move, the part of the
    /// review log after this review id.
    ReadPart(i64),
    /// Read the change stamp, and where it did not move, take the stale
    /// presets of the counts.
    Finish,
    /// Read the stale presets in one piece.
    ReadWhole,
}

impl StalePresetsRead {
    pub open spec fn wf(&self) -> bool {
        unique_decks(self.uncovered@)
    }

    /// A read about to start.
    pub fn new() -> (read: StalePresetsRead)
        ensures
            read.wf(),
            read.attempt == 0,
            read.uncovered@.len() == 0,
            read.stamp is None,
            read.after == Some(i64::MIN),
    {
        StalePresetsRead { attempt: 0, uncovered: Vec::new(), stamp: None, after: Some(i64::MIN) }
    }

    /// What to do next: a part while parts are left, then the check; after
    /// the attempts are used up, the read in one piece.
    pub fn next_step(&self) -> (step: StalePresetsStep)
        ensures
            step == if self.attempt >= STALE_PRESETS_READ_ATTEMPTS {
                StalePresetsStep::ReadWhole
            } else {
                match self.after {
                    Some(from) => StalePresetsStep::ReadPart(from),
                    None => StalePresetsStep::Finish,
                }
            },
    {
        if self.attempt >= STALE_PRESETS_READ_ATTEMPTS {
            return StalePresetsStep::ReadWhole;
        }
        match self.after {
            Some(from) => StalePresetsStep::ReadPart(from),
            None => StalePresetsStep::Finish,
        }
    }

    /// Starts the read over, one attempt later.
    fn restart(&mut self)
        requires
            old(self).attempt < STALE_PRESETS_READ_ATTEMPTS,
        ensures
            final(self).wf(),
            final(self).attempt == old(self).attempt + 1,
            final(self).uncovered@.len() == 0,
            final(self).stamp is None,
            final(self).after == Some(i64::MIN),
    {
        self.attempt = self.attempt + 1;
        self.uncovered = Vec::new();
        self.stamp = None;
        self.after = Some(i64::MIN);
    }

    /// Takes the change stamp read before a part: the first one is kept;
    /// a later one that differs means a write came in between, and the read
    /// starts over. Whether the part may be read.
    pub fn stamp_before_part(&mut self, now: i64) -> (unchanged: bool)
        requires
            old(self).wf(),
            old(self).attempt < STALE_PRESETS_READ_ATTEMPTS,
        ensures
            final(self).wf(),
            unchanged == (old(self).stamp is None || old(self).stamp == Some(now)),
            unchanged ==> *final(self) == (StalePresetsRead { stamp: Some(now), ..*old(self) }),
            !unchanged ==> final(self).attempt == old(self).attempt + 1 && final(self).uncovered@.len() == 0
                && final(self).stamp is None && final(self).after == Some(i64::MIN),
    {
        match self.stamp {
            None => {
                self.stamp = Some(now);
                true
            },
            Some(first) => if first == now {
                true
            } else {
                self.restart();
                false
            },
        }
    }

    /// Counts a part that was read, and where the next one starts.
    pub fn part_read(&mut self, part: &Vec<(i64, u32)>, next: Option<i64>)
        requires
            old(self).wf(),
            forall|d: i64| #[trigger] count_of(old(self).uncovered@, d) + count_of(part@, d) <= u32::MAX,
        ensures
            final(self).wf(),
            final(self).attempt == old(self).attempt,
            final(self).stamp == old(self).stamp,
            final(self).after == next,
            forall|d: i64| #[trigger] count_of(final(self).uncovered@, d) == count_of(old(self).uncovered@, d) + count_of(
                part@,
                d,
            ),
    {
        add_uncovered_part(&mut self.uncovered, part);
        self.after = next;
    }

    /// Takes the change stamp read once the parts are done: where it did
    /// not move, the counts are those of one read and the stale presets can
    /// be taken from them; else the read starts over.
    pub fn finish(&mut self, now: i64) -> (done: bool)
        requires
            old(self).wf(),
            old(self).attempt < STALE_PRESETS_READ_ATTEMPTS,
        ensures
            final(self).wf(),
            done == (old(self).stamp == Some(now)),
            done ==> *final(self) == *old(self),
            !done ==> final(self).attempt == old(self).attempt + 1 && final(self).uncovered@.len() == 0
                && final(self).stamp is None && final(self).after == Some(i64::MIN),
    {
        if self.stamp == Some(now) {
            true
        } else {
            self.restart();
            false
        }
    }
}

} // verus!
