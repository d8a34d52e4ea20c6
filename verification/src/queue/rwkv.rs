use vstd::prelude::*;

use crate::card::Card;
use crate::card::SchedTimingToday;

verus! {

/// Seconds since the card's last review: from its last review time where it
/// has one, else worked out from its due number and interval (a due number
/// above 365,000 is a timestamp, else a day number).
pub open spec fn spec_elapsed_seconds_since_last_review(card: Card, timing: SchedTimingToday) -> int {
    match card.last_review_time {
        Some(last) => clamp_u32(timing.now - last),
        None => {
            let due = card.spec_original_or_current_due() as int;
            if due > 365_000 {
                clamp_u32(timing.now - (due - card.interval))
            } else {
                let review_day = due - card.interval;
                let days = if (timing.days_elapsed as int) > (review_day as u32 as int) {
                    timing.days_elapsed - (review_day as u32 as int)
                } else {
                    0
                };
                days * 86_400
            }
        },
    }
}

pub open spec fn clamp_u32(x: int) -> int {
    if x < 0 {
        0
    } else if x > u32::MAX {
        u32::MAX as int
    } else {
        x
    }
}

/// Seconds since the card's last review; see the spec function of the same
/// name.
pub fn elapsed_seconds_since_last_review(card: &Card, timing: SchedTimingToday) -> (secs: u32)
    requires
        timing.days_elapsed < 49_710,
    ensures
        secs == spec_elapsed_seconds_since_last_review(*card, timing),
{
    match card.last_review_time {
        Some(last) => clamped_secs(timing.now as i128 - last as i128),
        None => {
            let due = card.original_or_current_due() as i64;
            if due > 365_000 {
                clamped_secs(timing.now as i128 - (due as i128 - card.interval as i128))
            } else {
                let review_day: i64 = due - card.interval as i64;
                let review_day_u32: u32 = review_day as u32;
                let days: u32 = if timing.days_elapsed > review_day_u32 {
                    timing.days_elapsed - review_day_u32
                } else {
                    0
                };
                days * 86_400
            }
        },
    }
}

fn clamped_secs(x: i128) -> (secs: u32)
    ensures
        secs == clamp_u32(x as int),
{
    if x < 0 {
        0
    } else if x > u32::MAX as i128 {
        u32::MAX
    } else {
        x as u32
    }
}

/// What the queue knows of a scored card: the time since its last review,
/// whether that review was today, and the retention it is held to.
#[derive(Clone, Copy, Debug, PartialEq, Eq, Structural)]
pub struct RwkvReviewCandidateMetadata {
    pub elapsed_secs: u32,
    pub reviewed_today: bool,
    pub desired_retention: u32,
}

pub open spec fn spec_candidate_metadata(card: Card, timing: SchedTimingToday, preset_retention: u32) -> RwkvReviewCandidateMetadata {
    let elapsed = spec_elapsed_seconds_since_last_review(card, timing);
    RwkvReviewCandidateMetadata {
        elapsed_secs: elapsed as u32,
        reviewed_today: timing.now - elapsed >= timing.next_day_at - 86_400,
        desired_retention: match card.desired_retention {
            Some(r) => r,
            None => preset_retention,
        },
    }
}

/// The metadata of a card whose preset holds it to `preset_retention`
/// unless the card has its own desired retention.
pub fn rwkv_review_candidate_metadata(card: &Card, timing: SchedTimingToday, preset_retention: u32) -> (meta: RwkvReviewCandidateMetadata)
    requires
        timing.days_elapsed < 49_710,
    ensures
        meta == spec_candidate_metadata(*card, timing, preset_retention),
{
    let elapsed = elapsed_seconds_since_last_review(card, timing);
    let reviewed_today = timing.now as i128 - elapsed as i128 >= timing.next_day_at as i128 - 86_400;
    RwkvReviewCandidateMetadata {
        elapsed_secs: elapsed,
        reviewed_today,
        desired_retention: match card.desired_retention {
            Some(r) => r,
            None => preset_retention,
        },
    }
}

/// Why a scored card waits.
#[derive(Clone, Copy, Debug, PartialEq, Eq, Structural)]
pub enum RwkvDeferral {
    /// It was reviewed today, and same-day reviews are off.
    SameDay,
    /// Too little time has passed since its review: it is ready at this
    /// time (seconds).
    Elapsed { ready_at: i64 },
    /// Too few other reviews came after it: it needs this many.
    InterveningReviews { needed: u32 },
}

/// Whether RWKV-Instant may show a scored card now.
#[derive(Clone, Copy, Debug, PartialEq, Eq, Structural)]
pub enum RwkvReviewScoreEligibility {
    Eligible,
    Deferred { reason: RwkvDeferral },
    /// Its retrievability is above the retention it is held to.
    Blocked,
}

/// The guards against showing a card again too soon, then (unless
/// `ignore_retention`) the retention: a card whose retrievability is above
/// its target waits until it falls.
pub open spec fn spec_eligibility(
    retrievability: u32,
    meta: RwkvReviewCandidateMetadata,
    allow_same_day_review: bool,
    min_intervening_reviews: u32,
    min_elapsed_secs: u32,
    intervening_reviews: Option<u32>,
    target_retention: Option<u32>,
    ignore_retention: bool,
    now: i64,
) -> RwkvReviewScoreEligibility {
    if !allow_same_day_review && meta.reviewed_today {
        RwkvReviewScoreEligibility::Deferred { reason: RwkvDeferral::SameDay }
    } else if meta.elapsed_secs < min_elapsed_secs {
        RwkvReviewScoreEligibility::Deferred {
            reason: RwkvDeferral::Elapsed {
                ready_at: (now - meta.elapsed_secs + min_elapsed_secs) as i64,
            },
        }
    } else if intervening_reviews matches Some(n) && n < min_intervening_reviews {
        RwkvReviewScoreEligibility::Deferred {
            reason: RwkvDeferral::InterveningReviews { needed: min_intervening_reviews },
        }
    } else if !ignore_retention && retrievability > match target_retention {
        Some(t) => t,
        None => meta.desired_retention,
    } {
        RwkvReviewScoreEligibility::Blocked
    } else {
        RwkvReviewScoreEligibility::Eligible
    }
}

/// Whether RWKV-Instant may show a scored card now; see `spec_eligibility`.
pub fn rwkv_review_score_eligibility(
    retrievability: u32,
    meta: &RwkvReviewCandidateMetadata,
    allow_same_day_review: bool,
    min_intervening_reviews: u32,
    min_elapsed_secs: u32,
    intervening_reviews: Option<u32>,
    target_retention: Option<u32>,
    now: i64,
) -> (eligibility: RwkvReviewScoreEligibility)
    requires
        i64::MIN + u32::MAX < now < i64::MAX - u32::MAX,
    ensures
        eligibility == spec_eligibility(
            retrievability,
            *meta,
            allow_same_day_review,
            min_intervening_reviews,
            min_elapsed_secs,
            intervening_reviews,
            target_retention,
            false,
            now,
        ),
{
    eligibility_with(
        retrievability,
        meta,
        allow_same_day_review,
        min_intervening_reviews,
        min_elapsed_secs,
        intervening_reviews,
        target_retention,
        false,
        now,
    )
}

/// As `rwkv_review_score_eligibility`, without the retention: what a daily
/// minimum of reviews may still pull.
pub fn rwkv_review_score_eligibility_ignoring_retention(
    retrievability: u32,
    meta: &RwkvReviewCandidateMetadata,
    allow_same_day_review: bool,
    min_intervening_reviews: u32,
    min_elapsed_secs: u32,
    intervening_reviews: Option<u32>,
    now: i64,
) -> (eligibility: RwkvReviewScoreEligibility)
    requires
        i64::MIN + u32::MAX < now < i64::MAX - u32::MAX,
    ensures
        eligibility == spec_eligibility(
            retrievability,
            *meta,
            allow_same_day_review,
            min_intervening_reviews,
            min_elapsed_secs,
            intervening_reviews,
            None,
            true,
            now,
        ),
{
    eligibility_with(
        retrievability,
        meta,
        allow_same_day_review,
        min_intervening_reviews,
        min_elapsed_secs,
        intervening_reviews,
        None,
        true,
        now,
    )
}

fn eligibility_with(
    retrievability: u32,
    meta: &RwkvReviewCandidateMetadata,
    allow_same_day_review: bool,
    min_intervening_reviews: u32,
    min_elapsed_secs: u32,
    intervening_reviews: Option<u32>,
    target_retention: Option<u32>,
    ignore_retention: bool,
    now: i64,
) -> (eligibility: RwkvReviewScoreEligibility)
    requires
        i64::MIN + u32::MAX < now < i64::MAX - u32::MAX,
    ensures
        eligibility == spec_eligibility(
            retrievability,
            *meta,
            allow_same_day_review,
            min_intervening_reviews,
            min_elapsed_secs,
            intervening_reviews,
            target_retention,
            ignore_retention,
            now,
        ),
{
    if !allow_same_day_review && meta.reviewed_today {
        return RwkvReviewScoreEligibility::Deferred { reason: RwkvDeferral::SameDay };
    }
    if meta.elapsed_secs < min_elapsed_secs {
        let ready_at = now - meta.elapsed_secs as i64 + min_elapsed_secs as i64;
        return RwkvReviewScoreEligibility::Deferred { reason: RwkvDeferral::Elapsed { ready_at } };
    }
    if let Some(n) = intervening_reviews {
        if n < min_intervening_reviews {
            return RwkvReviewScoreEligibility::Deferred {
                reason: RwkvDeferral::InterveningReviews { needed: min_intervening_reviews },
            };
        }
    }
    if !ignore_retention {
        let target = match target_retention {
            Some(t) => t,
            None => meta.desired_retention,
        };
        if retrievability > target {
            return RwkvReviewScoreEligibility::Blocked;
        }
    }
    RwkvReviewScoreEligibility::Eligible
}

} // verus!
