use vstd::prelude::*;

use crate::queue::builder::MainQueueEntry;

verus! {

/// The second list spread evenly through the first: with `i` entries of
/// the first and `j` of the second already taken, the next of the second
/// comes when `(j + 1) * (len(first) + 1) < (i + 1) * (len(second) + 1)`,
/// else the next of the first; once one list is used up, the rest of the
/// other follows.
pub open spec fn interleave(one: Seq<MainQueueEntry>, two: Seq<MainQueueEntry>, i: nat, j: nat) -> Seq<MainQueueEntry>
    decreases left_of(one.len(), i) + left_of(two.len(), j),
{
    if i >= one.len() && j >= two.len() {
        seq![]
    } else if j >= two.len() {
        seq![one[i as int]] + interleave(one, two, i + 1, j)
    } else if i >= one.len() {
        seq![two[j as int]] + interleave(one, two, i, j + 1)
    } else if (j + 1) * (one.len() + 1) < (i + 1) * (two.len() + 1) {
        seq![two[j as int]] + interleave(one, two, i, j + 1)
    } else {
        seq![one[i as int]] + interleave(one, two, i + 1, j)
    }
}

/// How many of `len` entries remain after `k` were taken.
pub open spec fn left_of(len: nat, k: nat) -> nat {
    if k < len {
        (len - k) as nat
    } else {
        0
    }
}

/// How two lists of entries are combined.
pub open spec fn spec_merge(first: Seq<MainQueueEntry>, second: Seq<MainQueueEntry>, mix: crate::queue::model::ReviewMix) -> Seq<MainQueueEntry> {
    match mix {
        crate::queue::model::ReviewMix::AfterReviews => first + second,
        crate::queue::model::ReviewMix::BeforeReviews => second + first,
        crate::queue::model::ReviewMix::MixWithReviews => interleave(first, second, 0, 0),
    }
}

/// The second list spread evenly through the first; see `interleave`.
pub fn intersperse(one: &Vec<MainQueueEntry>, two: &Vec<MainQueueEntry>) -> (out: Vec<MainQueueEntry>)
    ensures
        out@ == interleave(one@, two@, 0, 0),
{
    let mut out: Vec<MainQueueEntry> = Vec::new();
    let mut i: usize = 0;
    let mut j: usize = 0;
    let one_len = one.len() as u128;
    let two_len = two.len() as u128;
    proof {
        assert(out@ + interleave(one@, two@, 0, 0) =~= interleave(one@, two@, 0, 0));
    }
    while i < one.len() || j < two.len()
        invariant
            i <= one@.len(),
            j <= two@.len(),
            one_len == one@.len(),
            two_len == two@.len(),
            one@.len() <= usize::MAX,
            two@.len() <= usize::MAX,
            out@ + interleave(one@, two@, i as nat, j as nat) == interleave(one@, two@, 0, 0),
        decreases (one@.len() - i) + (two@.len() - j),
    {
        let take_two = if i >= one.len() {
            true
        } else if j >= two.len() {
            false
        } else {
            proof {
                assert((j + 1) * (one_len + 1) <= 0x1_0000_0000_0000_0000 * 0x1_0000_0000_0000_0000 - 0x1_0000_0000_0000_0000) by (nonlinear_arith)
                    requires
                        j < 0x1_0000_0000_0000_0000 - 1,
                        one_len < 0x1_0000_0000_0000_0000,
                ;
                assert((i + 1) * (two_len + 1) <= 0x1_0000_0000_0000_0000 * 0x1_0000_0000_0000_0000 - 0x1_0000_0000_0000_0000) by (nonlinear_arith)
                    requires
                        i < 0x1_0000_0000_0000_0000 - 1,
                        two_len < 0x1_0000_0000_0000_0000,
                ;
            }
            (j as u128 + 1) * (one_len + 1) < (i as u128 + 1) * (two_len + 1)
        };
        if take_two {
            proof {
                assert(out@.push(two@[j as int]) + interleave(one@, two@, i as nat, (j + 1) as nat)
                    =~= out@ + interleave(one@, two@, i as nat, j as nat));
            }
            out.push(two[j]);
            j = j + 1;
        } else {
            proof {
                assert(out@.push(one@[i as int]) + interleave(one@, two@, (i + 1) as nat, j as nat)
                    =~= out@ + interleave(one@, two@, i as nat, j as nat));
            }
            out.push(one[i]);
            i = i + 1;
        }
    }
    proof {
        assert(out@ + seq![] =~= out@);
    }
    out
}

/// Two lists combined as the mix says: the second after the first, before
/// it, or spread evenly through it.
pub fn merge(first: Vec<MainQueueEntry>, second: Vec<MainQueueEntry>, mix: crate::queue::model::ReviewMix) -> (out: Vec<MainQueueEntry>)
    ensures
        out@ == spec_merge(first@, second@, mix),
        out@.len() == first@.len() + second@.len(),
        mix == crate::queue::model::ReviewMix::AfterReviews ==> out@ == first@ + second@,
        mix == crate::queue::model::ReviewMix::BeforeReviews ==> out@ == second@ + first@,
{
    proof {
        lemma_merge_keeps_order(first@, second@, mix);
    }
    match mix {
        crate::queue::model::ReviewMix::AfterReviews => {
            let mut out = first;
            let mut tail = second;
            out.append(&mut tail);
            out
        },
        crate::queue::model::ReviewMix::BeforeReviews => {
            let mut out = second;
            let mut tail = first;
            out.append(&mut tail);
            out
        },
        crate::queue::model::ReviewMix::MixWithReviews => intersperse(&first, &second),
    }
}

/// `interleave` holds every entry of the two lists left to take.
pub proof fn lemma_interleave_len(one: Seq<MainQueueEntry>, two: Seq<MainQueueEntry>, i: nat, j: nat)
    requires
        i <= one.len(),
        j <= two.len(),
    ensures
        interleave(one, two, i, j).len() == (one.len() - i) + (two.len() - j),
    decreases (one.len() - i) + (two.len() - j),
{
    if i >= one.len() && j >= two.len() {
    } else if j >= two.len() {
        lemma_interleave_len(one, two, i + 1, j);
    } else if i >= one.len() {
        lemma_interleave_len(one, two, i, j + 1);
    } else if (j + 1) * (one.len() + 1) < (i + 1) * (two.len() + 1) {
        lemma_interleave_len(one, two, i, j + 1);
    } else {
        lemma_interleave_len(one, two, i + 1, j);
    }
}

/// Each entry of `interleave` comes from one of the two lists.
pub proof fn lemma_interleave_from(one: Seq<MainQueueEntry>, two: Seq<MainQueueEntry>, i: nat, j: nat)
    ensures
        forall|k: int|
            0 <= k < interleave(one, two, i, j).len() ==> one.contains(#[trigger] interleave(one, two, i, j)[k])
                || two.contains(interleave(one, two, i, j)[k]),
    decreases left_of(one.len(), i) + left_of(two.len(), j),
{
    let all = interleave(one, two, i, j);
    if i >= one.len() && j >= two.len() {
    } else if j >= two.len() || (i < one.len() && !((j + 1) * (one.len() + 1) < (i + 1) * (two.len() + 1))) {
        lemma_interleave_from(one, two, i + 1, j);
        let rest = interleave(one, two, i + 1, j);
        assert forall|k: int| 0 <= k < all.len() implies one.contains(#[trigger] all[k]) || two.contains(all[k]) by {
            if k == 0 {
                assert(all[0] == one[i as int]);
            } else {
                assert(all[k] == rest[k - 1]);
            }
        }
    } else {
        lemma_interleave_from(one, two, i, j + 1);
        let rest = interleave(one, two, i, j + 1);
        assert forall|k: int| 0 <= k < all.len() implies one.contains(#[trigger] all[k]) || two.contains(all[k]) by {
            if k == 0 {
                assert(all[0] == two[j as int]);
            } else {
                assert(all[k] == rest[k - 1]);
            }
        }
    }
}

/// Each entry of a merge comes from one of the two lists.
pub proof fn lemma_merge_from(first: Seq<MainQueueEntry>, second: Seq<MainQueueEntry>, mix: crate::queue::model::ReviewMix)
    ensures
        forall|k: int|
            0 <= k < spec_merge(first, second, mix).len() ==> first.contains(#[trigger] spec_merge(first, second, mix)[k])
                || second.contains(spec_merge(first, second, mix)[k]),
{
    let merged = spec_merge(first, second, mix);
    match mix {
        crate::queue::model::ReviewMix::MixWithReviews => {
            lemma_interleave_from(first, second, 0, 0);
        },
        crate::queue::model::ReviewMix::AfterReviews => {
            assert forall|k: int| 0 <= k < merged.len() implies first.contains(#[trigger] merged[k]) || second.contains(merged[k]) by {
                if k < first.len() {
                    assert(merged[k] == first[k]);
                } else {
                    assert(merged[k] == second[k - first.len()]);
                }
            }
        },
        crate::queue::model::ReviewMix::BeforeReviews => {
            assert forall|k: int| 0 <= k < merged.len() implies first.contains(#[trigger] merged[k]) || second.contains(merged[k]) by {
                if k < second.len() {
                    assert(merged[k] == second[k]);
                } else {
                    assert(merged[k] == first[k - second.len()]);
                }
            }
        },
    }
}

/// What a merge gives: every entry of both lists, once each. With the new
/// cards after the reviews, the first list whole and then the second whole,
/// so that every entry of the first stands before every entry of the
/// second; with them before, the second whole and then the first.
pub proof fn lemma_merge_keeps_order(first: Seq<MainQueueEntry>, second: Seq<MainQueueEntry>, mix: crate::queue::model::ReviewMix)
    ensures
        spec_merge(first, second, mix).len() == first.len() + second.len(),
        mix == crate::queue::model::ReviewMix::AfterReviews ==> {
            &&& forall|k: int| 0 <= k < first.len() ==> #[trigger] spec_merge(first, second, mix)[k] == first[k]
            &&& forall|k: int| 0 <= k < second.len() ==> #[trigger] spec_merge(first, second, mix)[first.len() + k] == second[k]
        },
        mix == crate::queue::model::ReviewMix::BeforeReviews ==> {
            &&& forall|k: int| 0 <= k < second.len() ==> #[trigger] spec_merge(first, second, mix)[k] == second[k]
            &&& forall|k: int| 0 <= k < first.len() ==> #[trigger] spec_merge(first, second, mix)[second.len() + k] == first[k]
        },
{
    if mix == crate::queue::model::ReviewMix::MixWithReviews {
        lemma_interleave_len(first, second, 0, 0);
    }
}

} // verus!
