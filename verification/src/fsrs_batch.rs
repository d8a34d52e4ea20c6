//! Spreading the presets of one "optimize all" over the worker threads: the
//! largest first, each to the lane with the fewest reviews so far.
use vstd::prelude::*;

use crate::sort::is_sorted_order;
use crate::sort::sorted_order;
use crate::sort::SortKey;

verus! {

/// The jobs one worker runs one after another: how many reviews they hold
/// in all, and the jobs, by their position in the input.
#[derive(Clone, Debug)]
pub struct ComputeParamsBatchJobLane {
    pub estimated_reviews: usize,
    pub jobs: Vec<usize>,
}

/// The keys that put the jobs in order: most reviews first, ties in input
/// order.
pub open spec fn review_keys(reviews: Seq<usize>) -> Seq<SortKey> {
    Seq::new(reviews.len(), |i: int| SortKey { a: -(reviews[i] as int) as i128, num: 0, den: 1, b: 0, c: 0 })
}

/// The first lane with the fewest reviews.
pub open spec fn first_min(totals: Seq<int>) -> int
    decreases totals.len(),
{
    if totals.len() <= 1 {
        0
    } else {
        let m = first_min(totals.drop_last());
        if totals.last() < totals[m] {
            totals.len() - 1
        } else {
            m
        }
    }
}

/// The lanes' totals and the lane of each of the first `m` jobs of `order`
/// when each goes, in turn, to the first lane with the fewest reviews.
pub open spec fn assign(reviews: Seq<usize>, order: Seq<usize>, lane_count: nat, m: nat) -> (Seq<int>, Seq<int>)
    decreases m,
{
    if m == 0 {
        (Seq::new(lane_count, |l: int| 0int), Seq::empty())
    } else {
        let (totals, lanes) = assign(reviews, order, lane_count, (m - 1) as nat);
        let k = first_min(totals);
        (totals.update(k, totals[k] + reviews[order[m - 1] as int]), lanes.push(k))
    }
}

/// The jobs of `order` (among its first `m`) that went to lane `l`, in
/// turn.
pub open spec fn lane_jobs(order: Seq<usize>, lanes: Seq<int>, l: int, m: nat) -> Seq<usize>
    decreases m,
{
    if m == 0 {
        Seq::empty()
    } else {
        let rest = lane_jobs(order, lanes, l, (m - 1) as nat);
        if lanes[m - 1] == l {
            rest.push(order[m - 1])
        } else {
            rest
        }
    }
}

/// Each lane holds the reviews and the jobs that the assignment in `order`
/// gave it.
pub open spec fn lanes_follow(lanes: Seq<ComputeParamsBatchJobLane>, reviews: Seq<usize>, order: Seq<usize>, lane_count: nat) -> bool {
    let (totals, lane_of) = assign(reviews, order, lane_count, reviews.len());
    &&& lanes.len() == lane_count
    &&& forall|l: int| 0 <= l < lane_count ==> {
        &&& #[trigger] lanes[l].estimated_reviews == totals[l]
        &&& lanes[l].jobs@ == lane_jobs(order, lane_of, l, reviews.len())
    }
}

/// The sum of the reviews.
pub open spec fn total_reviews(reviews: Seq<usize>) -> int
    decreases reviews.len(),
{
    if reviews.len() == 0 {
        0
    } else {
        total_reviews(reviews.drop_last()) + reviews.last()
    }
}

/// The sum of the reviews of the jobs at these positions.
pub open spec fn sum_at(reviews: Seq<usize>, idx: Seq<usize>) -> int
    decreases idx.len(),
{
    if idx.len() == 0 {
        0
    } else {
        sum_at(reviews, idx.drop_last()) + reviews[idx.last() as int]
    }
}

proof fn lemma_sum_at_remove(reviews: Seq<usize>, idx: Seq<usize>, p: int)
    requires
        0 <= p < idx.len(),
    ensures
        sum_at(reviews, idx) == sum_at(reviews, idx.remove(p)) + reviews[idx[p] as int],
    decreases idx.len(),
{
    if p == idx.len() - 1 {
        assert(idx.remove(p) =~= idx.drop_last());
    } else {
        lemma_sum_at_remove(reviews, idx.drop_last(), p);
        assert(idx.remove(p).drop_last() =~= idx.drop_last().remove(p));
        assert(idx.remove(p).last() == idx.last());
    }
}

proof fn lemma_sum_at_prefix(reviews: Seq<usize>, idx: Seq<usize>)
    requires
        reviews.len() > 0,
        forall|k: int| 0 <= k < idx.len() ==> #[trigger] idx[k] < reviews.len() - 1,
    ensures
        sum_at(reviews.drop_last(), idx) == sum_at(reviews, idx),
    decreases idx.len(),
{
    if idx.len() > 0 {
        lemma_sum_at_prefix(reviews, idx.drop_last());
    }
}

/// Jobs at distinct positions hold no more reviews than all the jobs.
proof fn lemma_sum_at_bounded(reviews: Seq<usize>, idx: Seq<usize>)
    requires
        forall|j: int, k: int| 0 <= j < k < idx.len() ==> idx[j] != idx[k],
        forall|k: int| 0 <= k < idx.len() ==> #[trigger] idx[k] < reviews.len(),
    ensures
        sum_at(reviews, idx) <= total_reviews(reviews),
    decreases reviews.len(),
{
    if reviews.len() == 0 {
        if idx.len() > 0 {
            assert(idx[0] < reviews.len());
        }
    } else {
        let last: int = reviews.len() - 1;
        if exists|p: int| 0 <= p < idx.len() && idx[p] == last {
            let p = choose|p: int| 0 <= p < idx.len() && idx[p] == last;
            let rest = idx.remove(p);
            lemma_sum_at_remove(reviews, idx, p);
            assert forall|k: int| 0 <= k < rest.len() implies #[trigger] rest[k] < reviews.len() - 1 by {
                if k < p {
                    assert(rest[k] == idx[k]);
                } else {
                    assert(rest[k] == idx[k + 1]);
                }
            }
            assert forall|j: int, k: int| 0 <= j < k < rest.len() implies rest[j] != rest[k] by {
                let jj = if j < p { j } else { j + 1 };
                let kk = if k < p { k } else { k + 1 };
                assert(rest[j] == idx[jj] && rest[k] == idx[kk]);
            }
            lemma_sum_at_prefix(reviews, rest);
            lemma_sum_at_bounded(reviews.drop_last(), rest);
            assert(reviews[idx[p] as int] == reviews.last());
        } else {
            assert forall|k: int| 0 <= k < idx.len() implies #[trigger] idx[k] < reviews.len() - 1 by {
                assert(idx[k] != last);
            }
            lemma_sum_at_prefix(reviews, idx);
            lemma_sum_at_bounded(reviews.drop_last(), idx);
        }
    }
}

/// The first lane with the fewest reviews.
fn first_min_lane(totals: &Vec<usize>) -> (k: usize)
    requires
        totals@.len() > 0,
    ensures
        k < totals@.len(),
        k == first_min(totals@.map_values(|t: usize| t as int)),
{
    let ghost view = totals@.map_values(|t: usize| t as int);
    let mut k: usize = 0;
    let mut i: usize = 1;
    while i < totals.len()
        invariant
            1 <= i <= totals@.len(),
            k < i,
            view == totals@.map_values(|t: usize| t as int),
            k == first_min(view.subrange(0, i as int)),
        decreases totals@.len() - i,
    {
        proof {
            assert(view.subrange(0, i + 1 as int).drop_last() =~= view.subrange(0, i as int));
            assert(view.subrange(0, i as int)[k as int] == totals@[k as int]);
        }
        if totals[i] < totals[k] {
            k = i;
        }
        i = i + 1;
    }
    proof {
        assert(view.subrange(0, i as int) =~= view);
    }
    k
}

/// The jobs, by how many reviews each holds, spread over `lane_count`
/// lanes: the jobs go largest first (ties in input order), each to the
/// first lane with the fewest reviews so far.
pub fn compute_params_batch_job_lanes_with_count(reviews: &Vec<usize>, lane_count: usize) -> (lanes: Vec<
    ComputeParamsBatchJobLane,
>)
    requires
        lane_count > 0 || reviews@.len() == 0,
        total_reviews(reviews@) <= usize::MAX,
    ensures
        lanes@.len() == lane_count,
        exists|order: Seq<usize>| #[trigger] is_sorted_order(review_keys(reviews@), order) && lanes_follow(lanes@, reviews@, order, lane_count as nat),
{
    let n = reviews.len();
    let mut keys: Vec<SortKey> = Vec::new();
    let mut i: usize = 0;
    while i < n
        invariant
            n == reviews@.len(),
            i <= n,
            keys@ == review_keys(reviews@).subrange(0, i as int),
        decreases n - i,
    {
        keys.push(SortKey { a: -(reviews[i] as i128), num: 0, den: 1, b: 0, c: 0 });
        proof {
            assert(keys@ =~= review_keys(reviews@).subrange(0, i + 1 as int));
        }
        i = i + 1;
    }
    proof {
        assert(keys@ =~= review_keys(reviews@));
    }
    let order = sorted_order(&keys);
    // each job in turn goes to the first lane with the fewest reviews
    let mut totals: Vec<usize> = Vec::new();
    let mut l: usize = 0;
    while l < lane_count
        invariant
            l <= lane_count,
            totals@.len() == l,
            forall|j: int| 0 <= j < l ==> #[trigger] totals@[j] == 0,
        decreases lane_count - l,
    {
        totals.push(0);
        l = l + 1;
    }
    let mut lane_of: Vec<usize> = Vec::new();
    let mut m: usize = 0;
    while m < n
        invariant
            n == reviews@.len() == order@.len(),
            lane_count > 0 || n == 0,
            m <= n,
            totals@.len() == lane_count,
            forall|k: int| 0 <= k < n ==> #[trigger] order@[k] < n,
            assign(reviews@, order@, lane_count as nat, m as nat).0 == totals@.map_values(|t: usize| t as int),
            assign(reviews@, order@, lane_count as nat, m as nat).1 == lane_of@.map_values(|t: usize| t as int),
            lane_of@.len() == m,
            forall|k: int| 0 <= k < m ==> #[trigger] lane_of@[k] < lane_count,
            forall|j: int, k: int| 0 <= j < k < order@.len() ==> order@[j] != order@[k],
            forall|l: int| 0 <= l < lane_count ==> #[trigger] totals@[l] <= sum_at(reviews@, order@.subrange(0, m as int)),
            total_reviews(reviews@) <= usize::MAX,
        decreases n - m,
    {
        let k = first_min_lane(&totals);
        let job = order[m];
        proof {
            assert(order@.subrange(0, m + 1 as int).drop_last() =~= order@.subrange(0, m as int));
            lemma_sum_at_bounded(reviews@, order@.subrange(0, m + 1 as int));
        }
        let t = totals[k] + reviews[job];
        totals.set(k, t);
        lane_of.push(k);
        proof {
            assert forall|l: int| 0 <= l < lane_count implies #[trigger] totals@[l] <= sum_at(reviews@, order@.subrange(0, m + 1 as int)) by {
            }
            assert(totals@.map_values(|t: usize| t as int) =~= assign(reviews@, order@, lane_count as nat, (m + 1) as nat).0);
            assert(lane_of@.map_values(|t: usize| t as int) =~= assign(reviews@, order@, lane_count as nat, (m + 1) as nat).1);
        }
        m = m + 1;
    }
    let mut lanes: Vec<ComputeParamsBatchJobLane> = Vec::new();
    let mut l: usize = 0;
    while l < lane_count
        invariant
            n == reviews@.len() == order@.len() == lane_of@.len(),
            l <= lane_count,
            totals@.len() == lane_count,
            lanes@.len() == l,
            assign(reviews@, order@, lane_count as nat, n as nat).0 == totals@.map_values(|t: usize| t as int),
            assign(reviews@, order@, lane_count as nat, n as nat).1 == lane_of@.map_values(|t: usize| t as int),
            forall|j: int| 0 <= j < l ==> {
                &&& #[trigger] lanes@[j].estimated_reviews == assign(reviews@, order@, lane_count as nat, n as nat).0[j]
                &&& lanes@[j].jobs@ == lane_jobs(order@, assign(reviews@, order@, lane_count as nat, n as nat).1, j, n as nat)
            },
        decreases lane_count - l,
    {
        let mut jobs: Vec<usize> = Vec::new();
        let mut m: usize = 0;
        while m < n
            invariant
                n == order@.len() == lane_of@.len(),
                m <= n,
                l < lane_count,
                assign(reviews@, order@, lane_count as nat, n as nat).1 == lane_of@.map_values(|t: usize| t as int),
                jobs@ == lane_jobs(order@, assign(reviews@, order@, lane_count as nat, n as nat).1, l as int, m as nat),
            decreases n - m,
        {
            if lane_of[m] == l {
                jobs.push(order[m]);
            }
            m = m + 1;
        }
        lanes.push(ComputeParamsBatchJobLane { estimated_reviews: totals[l], jobs });
        l = l + 1;
    }
    proof {
        assert(is_sorted_order(review_keys(reviews@), order@));
        assert(lanes_follow(lanes@, reviews@, order@, lane_count as nat));
    }
    lanes
}

/// The presets with reviews to train on, and those with none, which keep
/// their parameters untrained: each by its position in the input, in input
/// order.
pub fn compute_params_batch_split(reviews: &Vec<usize>) -> (split: (Vec<usize>, Vec<usize>))
    ensures
        split.0@ == positions_where(reviews@, true, reviews@.len()),
        split.1@ == positions_where(reviews@, false, reviews@.len()),
{
    let mut jobs: Vec<usize> = Vec::new();
    let mut skipped: Vec<usize> = Vec::new();
    let mut i: usize = 0;
    while i < reviews.len()
        invariant
            i <= reviews@.len(),
            jobs@ == positions_where(reviews@, true, i as nat),
            skipped@ == positions_where(reviews@, false, i as nat),
        decreases reviews@.len() - i,
    {
        if reviews[i] > 0 {
            jobs.push(i);
        } else {
            skipped.push(i);
        }
        i = i + 1;
    }
    (jobs, skipped)
}

/// The positions among the first `n` whose job has reviews (or has none).
pub open spec fn positions_where(reviews: Seq<usize>, with_reviews: bool, n: nat) -> Seq<usize>
    decreases n,
{
    if n == 0 {
        Seq::empty()
    } else {
        let rest = positions_where(reviews, with_reviews, (n - 1) as nat);
        if (reviews[n - 1] > 0) == with_reviews {
            rest.push((n - 1) as usize)
        } else {
            rest
        }
    }
}

} // verus!
