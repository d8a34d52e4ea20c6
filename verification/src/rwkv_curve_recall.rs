//! RWKV-Curve's stored curves, as the model hands them over: for each card
//! id, a little-endian 32-bit weight count and that many four-byte weights.
//! This module finds each card's weights in the bytes and decides which
//! queries have a curve to evaluate; evaluating a curve is floating-point
//! work done by the caller.
use vstd::prelude::*;

verus! {

/// The 32-bit little-endian number at `at`.
pub open spec fn read_le_u32(b: Seq<u8>, at: int) -> int {
    b[at] + 256 * b[at + 1] + 65536 * b[at + 2] + 16777216 * b[at + 3]
}

/// The byte ranges of the weights of the first `n` curves, each as
/// (start, end), or none where the bytes end inside one of them.
pub open spec fn frames(packed: Seq<u8>, n: nat) -> Option<Seq<(int, int)>>
    decreases n,
{
    if n == 0 {
        Some(Seq::empty())
    } else {
        match frames(packed, (n - 1) as nat) {
            None => None,
            Some(fs) => {
                let at = frames_end(fs);
                if at + 4 > packed.len() {
                    None
                } else {
                    let end = at + 4 + 4 * read_le_u32(packed, at);
                    if end > packed.len() {
                        None
                    } else {
                        Some(fs.push((at + 4, end)))
                    }
                }
            },
        }
    }
}

/// Where the next curve starts after these.
pub open spec fn frames_end(fs: Seq<(int, int)>) -> int {
    if fs.len() == 0 {
        0
    } else {
        fs.last().1
    }
}

/// The bytes hold exactly one curve per id.
pub open spec fn packed_ok(ids: Seq<i64>, packed: Seq<u8>) -> bool {
    frames(packed, ids.len()) matches Some(fs) && frames_end(fs) == packed.len()
}

/// Each id with the byte range of its curve's weights, in packing order.
pub open spec fn spec_curves(ids: Seq<i64>, packed: Seq<u8>) -> Seq<(i64, usize, usize)> {
    let fs = frames(packed, ids.len())->Some_0;
    Seq::new(ids.len(), |k: int| (ids[k], fs[k].0 as usize, fs[k].1 as usize))
}

/// Where each card's curve lies in `packed`, in packing order: the id and
/// the range of its weights' bytes. None when the bytes do not hold exactly
/// one curve per id.
pub fn unpack(ids: &[i64], packed: &[u8]) -> (curves: Option<Vec<(i64, usize, usize)>>)
    ensures
        curves is None <==> !packed_ok(ids@, packed@),
        curves matches Some(c) ==> c@ == spec_curves(ids@, packed@),
{
    let mut curves: Vec<(i64, usize, usize)> = Vec::new();
    let mut at: usize = 0;
    let mut k: usize = 0;
    while k < ids.len()
        invariant
            k <= ids@.len(),
            frames(packed@, k as nat) matches Some(fs) && fs.len() == k && frames_end(fs) == at && curves@.len() == k && forall|j: int|
                0 <= j < k ==> #[trigger] curves@[j] == (ids@[j], fs[j].0 as usize, fs[j].1 as usize),
            at <= packed@.len(),
        decreases ids@.len() - k,
    {
        let ghost fs = frames(packed@, k as nat)->Some_0;
        if packed.len() - at < 4 {
            proof {
                lemma_frames_stay_none(packed@, (k + 1) as nat, ids@.len() as nat);
            }
            return None;
        }
        let count: u32 = packed[at] as u32 + packed[at + 1] as u32 * 256 + packed[at + 2] as u32 * 65536
            + packed[at + 3] as u32 * 16777216;
        let bytes: usize = match (count as usize).checked_mul(4) {
            Some(b) => b,
            None => {
                proof {
                    lemma_frames_stay_none(packed@, (k + 1) as nat, ids@.len() as nat);
                }
                return None;
            },
        };
        if packed.len() - at - 4 < bytes {
            proof {
                lemma_frames_stay_none(packed@, (k + 1) as nat, ids@.len() as nat);
            }
            return None;
        }
        curves.push((ids[k], at + 4, at + 4 + bytes));
        proof {
            let nfs = fs.push((at + 4, at + 4 + bytes));
            assert(frames(packed@, (k + 1) as nat) == Some(nfs));
            assert forall|j: int| 0 <= j < k + 1 implies #[trigger] curves@[j] == (ids@[j], nfs[j].0 as usize, nfs[j].1 as usize) by {
                if j < k {
                    assert(nfs[j] == fs[j]);
                }
            }
        }
        at = at + 4 + bytes;
        k = k + 1;
    }
    if at != packed.len() {
        return None;
    }
    proof {
        let fs = frames(packed@, ids@.len() as nat)->Some_0;
        assert(curves@ =~= spec_curves(ids@, packed@));
    }
    Some(curves)
}

/// Once the bytes end inside a curve, they end inside one for any more ids.
proof fn lemma_frames_stay_none(packed: Seq<u8>, k: nat, n: nat)
    requires
        k <= n,
        frames(packed, k) is None,
    ensures
        frames(packed, n) is None,
    decreases n - k,
{
    if k < n {
        lemma_frames_stay_none(packed, k + 1, n);
    }
}

/// The last curve of this card among `curves`: an id packed twice keeps its
/// later curve.
pub open spec fn last_curve(curves: Seq<(i64, usize, usize)>, card_id: i64) -> Option<(usize, usize)>
    decreases curves.len(),
{
    if curves.len() == 0 {
        None
    } else if curves.last().0 == card_id {
        Some((curves.last().1, curves.last().2))
    } else {
        last_curve(curves.drop_last(), card_id)
    }
}

/// The byte range of the card's curve, its later one where it was packed
/// twice.
pub fn curve_of(curves: &Vec<(i64, usize, usize)>, card_id: i64) -> (range: Option<(usize, usize)>)
    ensures
        range == last_curve(curves@, card_id),
{
    let mut k: usize = curves.len();
    proof {
        assert(curves@.subrange(0, k as int) =~= curves@);
    }
    while k > 0
        invariant
            k <= curves@.len(),
            last_curve(curves@, card_id) == last_curve(curves@.subrange(0, k as int), card_id),
        decreases k,
    {
        let (id, start, end) = curves[k - 1];
        proof {
            assert(curves@.subrange(0, k as int).drop_last() =~= curves@.subrange(0, k - 1));
        }
        if id == card_id {
            return Some((start, end));
        }
        k = k - 1;
    }
    None
}

/// What a query evaluates: the card's weights and the elapsed seconds, when
/// the card has a curve, the time is known, and the curve has at least one
/// weight and no more than there are decay rates. Other queries get no
/// value.
pub open spec fn spec_query_curve(
    curves: Seq<(i64, usize, usize)>,
    card_id: i64,
    elapsed: Option<i64>,
    decay_rates: nat,
) -> Option<(usize, usize, i64)> {
    match (last_curve(curves, card_id), elapsed) {
        (Some((start, end)), Some(secs)) => if end > start && (end - start) / 4 <= decay_rates {
            Some((start, end, secs))
        } else {
            None
        },
        _ => None,
    }
}

/// For each `(card id, elapsed seconds)` query, the curve to evaluate and
/// the time to evaluate it at, or none where the card gets no value.
pub fn curve_queries(curves: &Vec<(i64, usize, usize)>, queries: &Vec<(i64, Option<i64>)>, decay_rates: usize) -> (picked: Vec<
    Option<(usize, usize, i64)>,
>)
    ensures
        picked@.len() == queries@.len(),
        forall|q: int| 0 <= q < queries@.len() ==> #[trigger] picked@[q] == spec_query_curve(
            curves@,
            queries@[q].0,
            queries@[q].1,
            decay_rates as nat,
        ),
        forall|q: int|
            #![trigger picked@[q]]
            0 <= q < queries@.len() ==> (last_curve(curves@, queries@[q].0) matches Some((start, end)) ==> (
            queries@[q].1 is Some && start < end && end - start <= 4 * decay_rates ==> picked@[q] == Some(
                (start, end, queries@[q].1->0),
            ))),
{
    let mut picked: Vec<Option<(usize, usize, i64)>> = Vec::new();
    let mut q: usize = 0;
    while q < queries.len()
        invariant
            q <= queries@.len(),
            picked@.len() == q,
            forall|j: int| 0 <= j < q ==> #[trigger] picked@[j] == spec_query_curve(
                curves@,
                queries@[j].0,
                queries@[j].1,
                decay_rates as nat,
            ),
        decreases queries@.len() - q,
    {
        let (card_id, elapsed) = queries[q];
        let one = match (curve_of(curves, card_id), elapsed) {
            (Some((start, end)), Some(secs)) => if end > start && (end - start) / 4 <= decay_rates {
                Some((start, end, secs))
            } else {
                None
            },
            _ => None,
        };
        picked.push(one);
        q = q + 1;
    }
    picked
}

/// A query is evaluated exactly when its card has a curve and a known
/// elapsed time, and the curve holds at least one weight (four bytes each)
/// and no more weights than there are decay rates: a curve of `k` weights
/// with `1 <= k <= decay_rates` is evaluated at the query's time, one with
/// as many weights as decay rates among them; a curve without weights, or
/// with more weights than decay rates, is not.
pub proof fn lemma_query_picks_curves_that_fit(
    curves: Seq<(i64, usize, usize)>,
    card_id: i64,
    secs: i64,
    decay_rates: nat,
    start: usize,
    k: nat,
)
    requires
        last_curve(curves, card_id) matches Some((s, e)) && s == start && e == start + 4 * k,
    ensures
        1 <= k <= decay_rates ==> spec_query_curve(curves, card_id, Some(secs), decay_rates) == Some(
            (start, (start + 4 * k) as usize, secs),
        ),
        k == 0 ==> spec_query_curve(curves, card_id, Some(secs), decay_rates) is None,
        k > decay_rates ==> spec_query_curve(curves, card_id, Some(secs), decay_rates) is None,
        spec_query_curve(curves, card_id, None, decay_rates) is None,
{
    assert((4 * k) / 4 == k) by (nonlinear_arith);
}

} // verus!
