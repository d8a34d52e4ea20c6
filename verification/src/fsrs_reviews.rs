use vstd::prelude::*;

use crate::revlog::RevlogEntry;
use crate::revlog::RevlogReviewKind;

verus! {

impl RevlogEntry {
    /// A review in a filtered deck that does not reschedule.
    pub open spec fn spec_is_cramming(self) -> bool {
        self.review_kind == RevlogReviewKind::Filtered && self.ease_factor == 0
    }

    pub fn is_cramming(&self) -> (cramming: bool)
        ensures
            cramming == self.spec_is_cramming(),
    {
        self.review_kind == RevlogReviewKind::Filtered && self.ease_factor == 0
    }
}

/// What the backward scan of a card's history has found so far: the first
/// entry of its last run of learning steps, its first user grade after the
/// cutoff that is a day or more apart, and whether the history is complete.
#[derive(Clone, Copy, Debug, PartialEq, Eq, Structural)]
pub struct ScanState {
    pub first_learn: Option<usize>,
    pub first_grade: Option<usize>,
    pub complete: bool,
}

pub open spec fn interday(e: RevlogEntry) -> bool {
    e.interval >= 1 || e.interval <= -86400
}

/// The scan from entry `i` down to the first: `None` where the card was
/// reset and never graded since, so that nothing of it is kept.
pub open spec fn scan_back(entries: Seq<RevlogEntry>, i: int, st: ScanState, cutoff: i64) -> Option<ScanState>
    decreases i + 1,
{
    if i < 0 || i >= entries.len() {
        Some(st)
    } else {
        let e = entries[i];
        if e.spec_is_cramming() {
            scan_back(entries, i - 1, st, cutoff)
        } else {
            let graded = e.spec_has_rating();
            let st1 = if graded && e.id > cutoff && interday(e) {
                ScanState { first_grade: Some(i as usize), ..st }
            } else {
                st
            };
            if graded && e.review_kind == RevlogReviewKind::Learning {
                scan_back(entries, i - 1, ScanState { first_learn: Some(i as usize), complete: true, ..st1 }, cutoff)
            } else if e.spec_is_reset() {
                if st1.first_learn is Some {
                    Some(ScanState { complete: true, ..st1 })
                } else if st1.first_grade is Some {
                    Some(ScanState { complete: false, ..st1 })
                } else {
                    None
                }
            } else if st1.first_learn is Some {
                Some(st1)
            } else {
                scan_back(entries, i - 1, st1, cutoff)
            }
        }
    }
}

/// Where the kept history starts, and whether it is complete; `None` where
/// the card is ignored.
pub open spec fn spec_history_start(entries: Seq<RevlogEntry>, training: bool, cutoff: i64) -> Option<(int, bool)> {
    match scan_back(entries, entries.len() - 1, ScanState { first_learn: None, first_grade: None, complete: false }, cutoff) {
        None => None,
        Some(st) => {
            let learn_too_early = match st.first_learn {
                Some(idx) => entries[idx as int].id < cutoff,
                None => false,
            };
            if training && learn_too_early {
                None
            } else {
                let dropped = !training && learn_too_early && st.first_learn->0 < entries.len() - 1;
                let first_learn = if dropped { None } else { st.first_learn };
                let complete = if dropped { false } else { st.complete };
                match first_learn {
                    Some(idx) => Some((idx as int, complete)),
                    None => if training {
                        None
                    } else {
                        match st.first_grade {
                            Some(idx) => Some((idx as int, complete)),
                            None => None,
                        }
                    },
                }
            }
        }
    }
}

/// The entries from `start` on that are rated and affect scheduling.
pub open spec fn kept_entries(entries: Seq<RevlogEntry>, start: int) -> Seq<RevlogEntry> {
    entries.skip(start).filter(|e: RevlogEntry| e.spec_has_rating_and_affects_scheduling())
}

/// The time before each kept review in milliseconds (0 before the first,
/// at least 1 after).
pub open spec fn spec_delta_millis(entries: Seq<RevlogEntry>) -> Seq<i64> {
    Seq::new(entries.len(), |i: int| if i == 0 {
        0
    } else {
        let d = entries[i].id - entries[i - 1].id;
        let sat = if d > i64::MAX { i64::MAX as int } else if d < i64::MIN { i64::MIN as int } else { d };
        (if sat < 1 { 1 } else { sat }) as i64
    })
}

/// The reviews of a card that FSRS learns from or computes its memory state
/// with.
#[derive(Clone, Debug)]
pub struct ReviewsForFsrs {
    /// The entries that remain after filtering.
    pub filtered_revlogs: Vec<RevlogEntry>,
    /// The time before each of them, in milliseconds.
    pub delta_millis: Vec<i64>,
    /// The items: the id of the review each ends with, and how many of the
    /// kept reviews it holds (from the first).
    pub items: Vec<(i64, usize)>,
    /// There is enough history to derive the memory state from it alone.
    pub revlogs_complete: bool,
}

/// Scans a card's history from its latest review: finds where the kept
/// history starts and whether it is complete.
fn history_start(entries: &Vec<RevlogEntry>, training: bool, cutoff: i64) -> (start: Option<(usize, bool)>)
    ensures
        match start {
            Some((s, c)) => spec_history_start(entries@, training, cutoff) == Some((s as int, c)) && s
                < entries@.len(),
            None => spec_history_start(entries@, training, cutoff) is None,
        },
{
    let n = entries.len();
    let init = ScanState { first_learn: None, first_grade: None, complete: false };
    let mut st = init;
    let mut i: usize = n;
    let mut stopped: bool = false;
    // scan_back from i - 1 with st gives the overall result
    while i > 0 && !stopped
        invariant
            i <= n,
            n == entries@.len(),
            init == (ScanState { first_learn: None, first_grade: None, complete: false }),
            !stopped ==> scan_back(entries@, n - 1, init, cutoff) == scan_back(entries@, i - 1, st, cutoff),
            stopped ==> scan_back(entries@, n - 1, init, cutoff) == Some(st),
            st.first_learn matches Some(f) ==> f < n,
            st.first_grade matches Some(f) ==> f < n,
        decreases i,
    {
        let idx = i - 1;
        let e = entries[idx];
        let ghost st0 = st;
        if !e.is_cramming() {
            let graded = e.has_rating();
            if graded && e.id > cutoff && (e.interval >= 1 || e.interval <= -86400) {
                st.first_grade = Some(idx);
            }
            if graded && e.review_kind == RevlogReviewKind::Learning {
                st.first_learn = Some(idx);
                st.complete = true;
            } else if e.is_reset() {
                if st.first_learn.is_some() {
                    st.complete = true;
                    stopped = true;
                } else if st.first_grade.is_some() {
                    st.complete = false;
                    stopped = true;
                } else {
                    proof {
                        assert(scan_back(entries@, idx as int, st0, cutoff) is None);
                    }
                    return None;
                }
            } else if st.first_learn.is_some() {
                stopped = true;
            }
        }
        i = i - 1;
    }
    proof {
        if !stopped {
            assert(scan_back(entries@, i - 1, st, cutoff) == Some(st));
        }
    }
    let mut first_learn = st.first_learn;
    let mut complete = st.complete;
    let learn_too_early = match first_learn {
        Some(idx) => entries[idx].id < cutoff,
        None => false,
    };
    if training && learn_too_early {
        return None;
    }
    if !training && learn_too_early && first_learn.unwrap() < n - 1 {
        complete = false;
        first_learn = None;
    }
    match first_learn {
        Some(idx) => Some((idx, complete)),
        None => if training {
            None
        } else {
            match st.first_grade {
                Some(idx) => Some((idx, complete)),
                None => None,
            }
        },
    }
}

/// The reviews of a card, given in order, that FSRS uses: from the first
/// step of its last run of learning steps (or, outside training, its first
/// grade after the cutoff where it has no such run), the rated ones that
/// affect scheduling, with the time before each; then for training one item
/// for each review after the first, else one item of them all. None where
/// nothing is left, or where training has no learning steps to start from.
pub fn reviews_for_fsrs(entries: Vec<RevlogEntry>, training: bool, ignore_revlogs_before: i64) -> (reviews: Option<ReviewsForFsrs>)
    ensures
        spec_history_start(entries@, training, ignore_revlogs_before) is None ==> reviews is None,
        spec_history_start(entries@, training, ignore_revlogs_before) matches Some((start, complete)) ==> match reviews {
            None => kept_entries(entries@, start).len() == 0 || (training && kept_entries(entries@, start).len() == 1),
            Some(r) => {
                &&& r.items@.len() > 0
                &&& kept_entries(entries@, start).len() > 0
                &&& !(training && kept_entries(entries@, start).len() == 1)
                &&& r.filtered_revlogs@ == kept_entries(entries@, start)
                &&& r.revlogs_complete == complete
                &&& r.delta_millis@ == spec_delta_millis(kept_entries(entries@, start))
            },
        },
        spec_history_start(entries@, training, ignore_revlogs_before) matches Some((start, complete)) ==> match reviews {
            None => true,
            Some(r) => training ==> r.items@ =~= Seq::new(
                (kept_entries(entries@, start).len() - 1) as nat,
                |i: int| (kept_entries(entries@, start)[i + 1].id, (i + 2) as usize),
            ),
        },
        spec_history_start(entries@, training, ignore_revlogs_before) matches Some((start, complete)) ==> match reviews {
            None => true,
            Some(r) => !training ==> r.items@ == seq![
                (kept_entries(entries@, start).last().id, kept_entries(entries@, start).len() as usize),
            ],
        },
{
    let (start, complete) = match history_start(&entries, training, ignore_revlogs_before) {
        Some(s) => s,
        None => {
            return None;
        },
    };
    let mut kept: Vec<RevlogEntry> = Vec::new();
    let mut i: usize = start;
    let ghost tail = entries@.skip(start as int);
    proof {
        assert(entries@.skip(start as int).subrange(0, 0) =~= Seq::<RevlogEntry>::empty());
    }
    while i < entries.len()
        invariant
            start <= i <= entries@.len(),
            tail == entries@.skip(start as int),
            kept@ == tail.subrange(0, i - start).filter(|e: RevlogEntry| e.spec_has_rating_and_affects_scheduling()),
        decreases entries@.len() - i,
    {
        proof {
            let before = tail.subrange(0, i - start);
            let after = tail.subrange(0, i - start + 1);
            assert(after.drop_last() =~= before);
            assert(after.last() == entries@[i as int]);
            before.lemma_filter_push(entries@[i as int], |e: RevlogEntry| e.spec_has_rating_and_affects_scheduling());
            assert(before.push(entries@[i as int]) =~= after);
        }
        if entries[i].has_rating_and_affects_scheduling() {
            kept.push(entries[i]);
        }
        i = i + 1;
    }
    proof {
        assert(tail.subrange(0, entries@.len() - start) =~= tail);
    }
    let n = kept.len();
    let mut delta: Vec<i64> = Vec::new();
    let mut k: usize = 0;
    while k < n
        invariant
            n == kept@.len(),
            k <= n,
            delta@.len() == k,
            forall|j: int| 0 <= j < k ==> #[trigger] delta@[j] == spec_delta_millis(kept@)[j],
        decreases n - k,
    {
        let d: i64 = if k == 0 {
            0
        } else {
            let diff: i128 = kept[k].id as i128 - kept[k - 1].id as i128;
            let sat: i64 = if diff > i64::MAX as i128 {
                i64::MAX
            } else if diff < i64::MIN as i128 {
                i64::MIN
            } else {
                diff as i64
            };
            if sat < 1 {
                1
            } else {
                sat
            }
        };
        delta.push(d);
        k = k + 1;
    }
    proof {
        assert(delta@ =~= spec_delta_millis(kept@));
    }
    let mut items: Vec<(i64, usize)> = Vec::new();
    if training {
        let mut idx: usize = 1;
        while idx < n
            invariant
                n == kept@.len(),
                1 <= idx,
                idx <= n || (n == 0 && idx == 1),
                items@.len() == idx - 1,
                forall|j: int| 0 <= j < items@.len() ==> #[trigger] items@[j] == (kept@[j + 1].id, (j + 2) as usize),
            decreases n - idx,
        {
            items.push((kept[idx].id, idx + 1));
            idx = idx + 1;
        }
        proof {
            if n >= 1 {
                assert(items@ =~= Seq::new((kept@.len() - 1) as nat, |i: int| (kept@[i + 1].id, (i + 2) as usize)));
            }
        }
    } else if n > 0 {
        items.push((kept[n - 1].id, n));
        proof {
            assert(items@ =~= seq![(kept@.last().id, kept@.len() as usize)]);
        }
    }
    proof {
        assert(kept@ == kept_entries(entries@, start as int));
        assert(delta@ == spec_delta_millis(kept_entries(entries@, start as int)));
        assert(spec_history_start(entries@, training, ignore_revlogs_before) == Some((start as int, complete)));
        let ghost spec_kept = kept_entries(entries@, start as int);
        if training && n >= 1 {
            assert(items@ =~= Seq::new((spec_kept.len() - 1) as nat, |i: int| (spec_kept[i + 1].id, (i + 2) as usize)));
        }
        if !training && n > 0 {
            assert(items@ == seq![(kept@.last().id, kept@.len() as usize)]);
        }
    }
    if items.len() == 0 {
        return None;
    }
    proof {
        let ghost sk = kept_entries(entries@, start as int);
        if training {
            assert(n >= 1);
            assert(items@ =~= Seq::new((sk.len() - 1) as nat, |i: int| (sk[i + 1].id, (i + 2) as usize)));
        }
    }
    Some(ReviewsForFsrs { filtered_revlogs: kept, delta_millis: delta, items, revlogs_complete: complete })
}

} // verus!
