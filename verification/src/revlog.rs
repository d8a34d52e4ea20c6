use std::collections::HashMap;

use vstd::prelude::*;

use crate::card::elapsed_days_since;
use crate::card::spec_elapsed_days_since;
use crate::card::Card;
use crate::card::CardQueue;
use crate::card::CardType;
use crate::card::SchedTimingToday;

verus! {

broadcast use vstd::std_specs::hash::group_hash_axioms;

/// What produced a review-log row.
#[derive(Clone, Copy, Debug, PartialEq, Eq, Structural)]
pub enum RevlogReviewKind {
    Learning,
    Review,
    Relearning,
    Filtered,
    Manual,
    Rescheduled,
}

/// One row of the review log. `id` is the time of the answer in
/// milliseconds since the epoch.
#[derive(Clone, Copy, Debug, PartialEq, Eq, Structural)]
pub struct RevlogEntry {
    pub id: i64,
    pub cid: i64,
    pub usn: i32,
    pub button_chosen: u8,
    pub interval: i32,
    pub last_interval: i32,
    pub ease_factor: u32,
    pub taken_millis: u32,
    pub review_kind: RevlogReviewKind,
}

/// Integer division that rounds towards zero, as `/` does on machine
/// integers.
pub open spec fn trunc_div(x: int, d: int) -> int {
    if x >= 0 {
        x / d
    } else {
        -((-x) / d)
    }
}

impl RevlogEntry {
    pub open spec fn spec_has_rating(self) -> bool {
        self.button_chosen > 0
    }

    /// An answer that counts for scheduling: it was rated, and it is not a
    /// cram review in a filtered deck that does not reschedule.
    pub open spec fn spec_has_rating_and_affects_scheduling(self) -> bool {
        self.spec_has_rating() && !(self.review_kind == RevlogReviewKind::Filtered
            && self.ease_factor == 0)
    }

    /// A reset of the card to new.
    pub open spec fn spec_is_reset(self) -> bool {
        self.review_kind == RevlogReviewKind::Manual && self.ease_factor == 0
    }

    pub open spec fn spec_secs(self) -> i64 {
        trunc_div(self.id as int, 1000) as i64
    }

    pub fn has_rating(&self) -> (rated: bool)
        ensures
            rated == self.spec_has_rating(),
    {
        self.button_chosen > 0
    }

    pub fn has_rating_and_affects_scheduling(&self) -> (affects: bool)
        ensures
            affects == self.spec_has_rating_and_affects_scheduling(),
    {
        self.has_rating() && !(self.review_kind == RevlogReviewKind::Filtered
            && self.ease_factor == 0)
    }

    pub fn is_reset(&self) -> (reset: bool)
        ensures
            reset == self.spec_is_reset(),
    {
        self.review_kind == RevlogReviewKind::Manual && self.ease_factor == 0
    }

    /// The time of the answer in whole seconds.
    pub fn as_secs(&self) -> (secs: i64)
        ensures
            secs == self.spec_secs(),
    {
        self.id / 1000
    }
}

/// What the latest review of a card left behind.
#[derive(Clone, Copy, Debug, PartialEq, Eq, Structural)]
pub struct LastRevlogInfo {
    /// When the card was last reviewed (seconds), so that the real time
    /// since then can be measured after the card was moved to another day.
    pub last_reviewed_at: Option<i64>,
    /// The interval before the latest review, which keeps fuzz from moving
    /// the card backwards when it is rescheduled.
    pub previous_interval: Option<u32>,
    /// The interval in days that the latest review scheduled; none when that
    /// review left the card in (re)learning, or after a reset.
    pub scheduled_interval: Option<u32>,
}

pub open spec fn empty_info() -> LastRevlogInfo {
    LastRevlogInfo { last_reviewed_at: None, previous_interval: None, scheduled_interval: None }
}

/// The info after one more review-log row of the same card.
pub open spec fn info_step(info: LastRevlogInfo, e: RevlogEntry) -> LastRevlogInfo {
    if e.spec_has_rating_and_affects_scheduling() {
        LastRevlogInfo {
            last_reviewed_at: Some(e.spec_secs()),
            previous_interval: if e.last_interval >= 0 && e.button_chosen > 1 {
                Some(e.last_interval as u32)
            } else {
                None
            },
            scheduled_interval: if e.interval > 0 {
                Some(e.interval as u32)
            } else {
                None
            },
        }
    } else if e.spec_is_reset() {
        empty_info()
    } else {
        info
    }
}

/// The info of the run of same-card rows that ends with row `n - 1`: rows
/// are grouped where consecutive rows share a card.
pub open spec fn run_info(revlogs: Seq<RevlogEntry>, n: int) -> LastRevlogInfo
    decreases n,
{
    if n <= 0 || n > revlogs.len() {
        empty_info()
    } else {
        let before = if n >= 2 && revlogs[n - 2].cid == revlogs[n - 1].cid {
            run_info(revlogs, n - 1)
        } else {
            empty_info()
        };
        info_step(before, revlogs[n - 1])
    }
}

/// The info of each card of the first `n` rows: that of the card's last run.
pub open spec fn last_info_map(revlogs: Seq<RevlogEntry>, n: int) -> Map<i64, LastRevlogInfo>
    decreases n,
{
    if n <= 0 || n > revlogs.len() {
        Map::empty()
    } else {
        last_info_map(revlogs, n - 1).insert(revlogs[n - 1].cid, run_info(revlogs, n))
    }
}

fn info_after(info: LastRevlogInfo, e: &RevlogEntry) -> (next: LastRevlogInfo)
    ensures
        next == info_step(info, *e),
        e.spec_has_rating_and_affects_scheduling() ==> (next.previous_interval is Some <==> e.button_chosen > 1
            && e.last_interval >= 0),
        e.spec_has_rating_and_affects_scheduling() ==> (next.previous_interval matches Some(p) ==> p == e.last_interval),
{
    if e.has_rating_and_affects_scheduling() {
        LastRevlogInfo {
            last_reviewed_at: Some(e.as_secs()),
            previous_interval: if e.last_interval >= 0 && e.button_chosen > 1 {
                Some(e.last_interval as u32)
            } else {
                None
            },
            scheduled_interval: if e.interval > 0 {
                Some(e.interval as u32)
            } else {
                None
            },
        }
    } else if e.is_reset() {
        LastRevlogInfo { last_reviewed_at: None, previous_interval: None, scheduled_interval: None }
    } else {
        info
    }
}

/// For each card of the review log (given in card order), what its latest
/// review left behind. Rows of one card that stand apart count as separate
/// runs, and the later run wins.
pub fn get_last_revlog_info(revlogs: &[RevlogEntry]) -> (out: HashMap<i64, LastRevlogInfo>)
    ensures
        out@ == last_info_map(revlogs@, revlogs@.len() as int),
{
    let mut out: HashMap<i64, LastRevlogInfo> = HashMap::new();
    let mut current = LastRevlogInfo {
        last_reviewed_at: None,
        previous_interval: None,
        scheduled_interval: None,
    };
    let mut i: usize = 0;
    while i < revlogs.len()
        invariant
            0 <= i <= revlogs@.len(),
            out@ == last_info_map(revlogs@, i as int),
            current == run_info(revlogs@, i as int),
        decreases revlogs@.len() - i,
    {
        let e = &revlogs[i];
        let before = if i > 0 && revlogs[i - 1].cid == e.cid {
            current
        } else {
            LastRevlogInfo { last_reviewed_at: None, previous_interval: None, scheduled_interval: None }
        };
        current = info_after(before, e);
        out.insert(e.cid, current);
        i = i + 1;
    }
    out
}

/// Where the card's due number is kept: `original_due` while it sits in a
/// filtered deck (`original_due` is set), else `due`.
pub open spec fn due_slot_is_original(card: Card) -> bool {
    card.original_due != 0
}

/// The due day that the review at `last_review` (seconds) with `interval`
/// gives, counted in the collection's days.
pub open spec fn restored_due(last_review: i64, interval: u32, timing: SchedTimingToday) -> int {
    (timing.days_elapsed as i32) - (spec_elapsed_days_since(timing.next_day_at, last_review) as i32)
        + (interval as i32)
}

/// A restore can be placed: there is a latest real review that scheduled an
/// interval, and the card is an unsuspended review card.
pub open spec fn restore_applies(card: Card, info: Option<LastRevlogInfo>) -> bool {
    &&& info matches Some(i)
    &&& i.last_reviewed_at is Some
    &&& i.scheduled_interval is Some
    &&& card.ctype == CardType::Review
    &&& card.queue != CardQueue::Suspended
}

/// The card after the restore, and whether it changed.
pub open spec fn spec_restore(card: Card, info: Option<LastRevlogInfo>, timing: SchedTimingToday) -> (
    Card,
    bool,
) {
    if restore_applies(card, info) {
        let i = info->0;
        let interval = i.scheduled_interval->0;
        let new_due = restored_due(i.last_reviewed_at->0, interval, timing) as i32;
        if due_slot_is_original(card) {
            (
                Card { interval, original_due: new_due, ..card },
                card.interval != interval || card.original_due != new_due,
            )
        } else {
            (Card { interval, due: new_due, ..card }, card.interval != interval || card.due != new_due)
        }
    } else {
        (card, false)
    }
}

/// The restored due day fits the card's due number.
pub open spec fn restore_in_range(card: Card, info: Option<LastRevlogInfo>, timing: SchedTimingToday) -> bool {
    restore_applies(card, info) ==> {
        let i = info->0;
        let d = restored_due(i.last_reviewed_at->0, i.scheduled_interval->0, timing);
        &&& i32::MIN <= (timing.days_elapsed as i32) - (spec_elapsed_days_since(
            timing.next_day_at,
            i.last_reviewed_at->0,
        ) as i32) <= i32::MAX
        &&& i32::MIN <= d <= i32::MAX
    }
}

/// Gives a review card back the schedule its latest real review produced:
/// the interval that review scheduled, due on the review's day plus that
/// interval (written to `original_due` while the card sits in a filtered
/// deck). Nothing is recomputed and no fuzz is applied. Returns whether the
/// card changed. Cards outside the review queue, suspended cards, and cards
/// whose latest review left them in (re)learning are left alone.
pub fn restore_review_schedule_after_sync(
    card: &mut Card,
    last_revlog_info: Option<&LastRevlogInfo>,
    timing: SchedTimingToday,
) -> (changed: bool)
    requires
        restore_in_range(*old(card), match last_revlog_info {
            Some(i) => Some(*i),
            None => None,
        }, timing),
    ensures
        (*final(card), changed) == spec_restore(*old(card), match last_revlog_info {
            Some(i) => Some(*i),
            None => None,
        }, timing),
{
    let last_info = match last_revlog_info {
        Some(info) => info,
        None => {
            return false;
        },
    };
    let (last_review, interval) = match (last_info.last_reviewed_at, last_info.scheduled_interval) {
        (Some(last_review), Some(interval)) => (last_review, interval),
        _ => {
            return false;
        },
    };
    if !(card.ctype == CardType::Review && card.queue != CardQueue::Suspended) {
        return false;
    }
    let days_since_review: i32 = elapsed_days_since(timing.next_day_at, last_review) as i32;
    let new_due: i32 = timing.days_elapsed as i32 - days_since_review + interval as i32;
    if card.original_due != 0 {
        let changed = card.interval != interval || card.original_due != new_due;
        card.original_due = new_due;
        card.interval = interval;
        changed
    } else {
        let changed = card.interval != interval || card.due != new_due;
        card.due = new_due;
        card.interval = interval;
        changed
    }
}

/// Restoring a card's schedule a second time changes nothing: the first
/// restore already put the card where its latest review did. (A card in a
/// filtered deck whose restored due day is day 0 is left out: its
/// `original_due` of 0 no longer marks it as filtered.)
pub proof fn lemma_restore_is_idempotent(
    card: Card,
    info: Option<LastRevlogInfo>,
    timing: SchedTimingToday,
)
    requires
        restore_in_range(card, info, timing),
        restore_applies(card, info) && due_slot_is_original(card) ==> restored_due(
            info->0.last_reviewed_at->0,
            info->0.scheduled_interval->0,
            timing,
        ) != 0,
    ensures
        ({
            let (once, _) = spec_restore(card, info, timing);
            spec_restore(once, info, timing) == (once, false)
        }),
{
}

/// After a reset row, a card's info records no review until it is answered
/// again.
pub proof fn lemma_reset_clears_info(info: LastRevlogInfo, e: RevlogEntry)
    requires
        e.spec_is_reset(),
        e.button_chosen == 0,
    ensures
        info_step(info, e) == empty_info(),
{
}

/// The interval before an answer is kept only from a Hard, Good or Easy
/// answer (button above 1) with a known interval before it; after an Again
/// answer there is none.
pub proof fn lemma_previous_interval_of_answer(info: LastRevlogInfo, e: RevlogEntry)
    requires
        e.spec_has_rating_and_affects_scheduling(),
    ensures
        info_step(info, e).previous_interval is Some <==> (e.button_chosen > 1 && e.last_interval >= 0),
        info_step(info, e).previous_interval matches Some(p) ==> p == e.last_interval,
        e.button_chosen == 1 ==> info_step(info, e).previous_interval is None,
{
}

/// A card's info after row `k`, where no later row of the log is of that
/// card, is the info of the run that ends with row `k`.
pub proof fn lemma_last_row_decides(revlogs: Seq<RevlogEntry>, k: int, n: int)
    requires
        0 <= k < n <= revlogs.len(),
        forall|j: int| k < j < n ==> #[trigger] revlogs[j].cid != revlogs[k].cid,
    ensures
        last_info_map(revlogs, n).dom().contains(revlogs[k].cid),
        last_info_map(revlogs, n)[revlogs[k].cid] == run_info(revlogs, k + 1),
    decreases n - k,
{
    if n > k + 1 {
        lemma_last_row_decides(revlogs, k, n - 1);
        assert(revlogs[n - 1].cid != revlogs[k].cid);
    }
}

/// For each card, what `get_last_revlog_info` gives as the interval before
/// its latest review: where the card's last row is an answer that counts for
/// scheduling, the interval before it when the answer was Hard, Good or Easy
/// and that interval is known, and none after an Again answer.
pub proof fn lemma_last_answer_sets_previous_interval(revlogs: Seq<RevlogEntry>, k: int)
    requires
        0 <= k < revlogs.len(),
        forall|j: int| k < j < revlogs.len() ==> #[trigger] revlogs[j].cid != revlogs[k].cid,
        revlogs[k].spec_has_rating_and_affects_scheduling(),
    ensures
        ({
            let info = last_info_map(revlogs, revlogs.len() as int)[revlogs[k].cid];
            &&& last_info_map(revlogs, revlogs.len() as int).dom().contains(revlogs[k].cid)
            &&& info.previous_interval is Some <==> (revlogs[k].button_chosen > 1 && revlogs[k].last_interval >= 0)
            &&& info.previous_interval matches Some(p) ==> p == revlogs[k].last_interval
            &&& revlogs[k].button_chosen == 1 ==> info.previous_interval is None
            &&& info.last_reviewed_at == Some(revlogs[k].spec_secs())
        }),
{
    lemma_last_row_decides(revlogs, k, revlogs.len() as int);
    let before = if k >= 1 && revlogs[k - 1].cid == revlogs[k].cid {
        run_info(revlogs, k)
    } else {
        empty_info()
    };
    assert(run_info(revlogs, k + 1) == info_step(before, revlogs[k]));
    lemma_previous_interval_of_answer(before, revlogs[k]);
}

} // verus!
