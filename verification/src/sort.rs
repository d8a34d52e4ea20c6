use vstd::prelude::*;

verus! {

/// A sort key, compared part by part: an integer `a`, then the fraction
/// `num / den` (whose denominator is positive), then the integers `b` and
/// `c`.
#[derive(Clone, Copy, Debug, PartialEq, Eq, Structural)]
pub struct SortKey {
    pub a: i128,
    pub num: i128,
    pub den: i128,
    pub b: i128,
    pub c: i128,
}

/// The bound on a key's fraction that keeps its comparisons in range.
pub open spec fn key_bounded(k: SortKey) -> bool {
    &&& 0 < k.den < 0x8000_0000_0000_0000
    &&& -0x8000_0000_0000_0000 < k.num < 0x8000_0000_0000_0000
}

pub open spec fn frac_lt(x: SortKey, y: SortKey) -> bool {
    x.num * y.den < y.num * x.den
}

pub open spec fn frac_eq(x: SortKey, y: SortKey) -> bool {
    x.num * y.den == y.num * x.den
}

pub open spec fn key_lt(x: SortKey, y: SortKey) -> bool {
    x.a < y.a || (x.a == y.a && (frac_lt(x, y) || (frac_eq(x, y) && (x.b < y.b || (x.b == y.b
        && x.c < y.c)))))
}

pub open spec fn key_eq(x: SortKey, y: SortKey) -> bool {
    x.a == y.a && frac_eq(x, y) && x.b == y.b && x.c == y.c
}

/// Position `i` with key `keys[i]` comes before position `j`: its key is
/// smaller, or the keys are equal and it stood first.
pub open spec fn ranked_before(keys: Seq<SortKey>, i: int, j: int) -> bool {
    key_lt(keys[i], keys[j]) || (key_eq(keys[i], keys[j]) && i < j)
}

proof fn lemma_frac_order(x: SortKey, y: SortKey, z: SortKey)
    requires
        x.den > 0,
        y.den > 0,
        z.den > 0,
    ensures
        frac_lt(x, y) && frac_lt(y, z) ==> frac_lt(x, z),
        frac_lt(x, y) && frac_eq(y, z) ==> frac_lt(x, z),
        frac_eq(x, y) && frac_lt(y, z) ==> frac_lt(x, z),
        frac_eq(x, y) && frac_eq(y, z) ==> frac_eq(x, z),
        frac_lt(x, y) || frac_eq(x, y) || frac_lt(y, x),
        !(frac_lt(x, y) && frac_lt(y, x)),
        !(frac_lt(x, y) && frac_eq(x, y)),
        frac_eq(x, x),
{
    let (a, b, c, d, e, f) = (x.num as int, x.den as int, y.num as int, y.den as int, z.num as int, z.den as int);
    assert(a * d < c * b && c * f < e * d ==> a * f < e * b) by (nonlinear_arith)
        requires
            b > 0,
            d > 0,
            f > 0,
    {
        if a * d < c * b && c * f < e * d {
            assert(a * d * f < c * b * f);
            assert(c * f * b < e * d * b);
            assert(a * f * d < e * b * d);
        }
    }
    assert(a * d < c * b && c * f == e * d ==> a * f < e * b) by (nonlinear_arith)
        requires
            b > 0,
            d > 0,
            f > 0,
    {
        if a * d < c * b && c * f == e * d {
            assert(a * d * f < c * b * f);
            assert(c * f * b == e * d * b);
            assert(a * f * d < e * b * d);
        }
    }
    assert(a * d == c * b && c * f < e * d ==> a * f < e * b) by (nonlinear_arith)
        requires
            b > 0,
            d > 0,
            f > 0,
    {
        if a * d == c * b && c * f < e * d {
            assert(a * d * f == c * b * f);
            assert(c * f * b < e * d * b);
            assert(a * f * d < e * b * d);
        }
    }
    assert(a * d == c * b && c * f == e * d ==> a * f == e * b) by (nonlinear_arith)
        requires
            b > 0,
            d > 0,
            f > 0,
    {
        if a * d == c * b && c * f == e * d {
            assert(a * d * f == c * b * f);
            assert(c * f * b == e * d * b);
            assert(a * f * d == e * b * d);
        }
    }
    assert(a * b == a * b);
}

/// `order` lists positions `0..n` once each, sorted by key with ties kept in
/// their original order.
pub open spec fn is_sorted_order(keys: Seq<SortKey>, order: Seq<usize>) -> bool {
    &&& order.len() == keys.len()
    &&& forall|k: int| 0 <= k < order.len() ==> #[trigger] order[k] < keys.len()
    &&& forall|j: int, k: int|
        0 <= j < k < order.len() ==> ranked_before(keys, #[trigger] order[j] as int, #[trigger] order[k] as int)
}

pub fn key_less(x: &SortKey, y: &SortKey) -> (lt: bool)
    requires
        key_bounded(*x),
        key_bounded(*y),
    ensures
        lt == key_lt(*x, *y),
{
    proof {
        assert(-0x4000_0000_0000_0000_0000_0000_0000_0000 < x.num * y.den < 0x4000_0000_0000_0000_0000_0000_0000_0000) by (nonlinear_arith)
            requires
                key_bounded(*x),
                key_bounded(*y),
        ;
        assert(-0x4000_0000_0000_0000_0000_0000_0000_0000 < y.num * x.den < 0x4000_0000_0000_0000_0000_0000_0000_0000) by (nonlinear_arith)
            requires
                key_bounded(*x),
                key_bounded(*y),
        ;
    }
    let left = x.num * y.den;
    let right = y.num * x.den;
    x.a < y.a || (x.a == y.a && (left < right || (left == right && (x.b < y.b || (x.b == y.b
        && x.c < y.c)))))
}

/// No position is ranked before itself, and of two positions at most one is
/// ranked before the other.
pub proof fn lemma_ranked_before_asymmetric(keys: Seq<SortKey>, i: int, j: int)
    ensures
        !ranked_before(keys, i, i),
        !(ranked_before(keys, i, j) && ranked_before(keys, j, i)),
{
}

proof fn lemma_ranked_before_transitive(keys: Seq<SortKey>, i: int, j: int, k: int)
    requires
        keys[i].den > 0,
        keys[j].den > 0,
        keys[k].den > 0,
        ranked_before(keys, i, j),
        ranked_before(keys, j, k),
    ensures
        ranked_before(keys, i, k),
{
    lemma_frac_order(keys[i], keys[j], keys[k]);
}

/// A stable sort: the positions of `keys` in key order, ties in their
/// original order. Each position appears exactly once.
pub fn sorted_order(keys: &Vec<SortKey>) -> (order: Vec<usize>)
    requires
        forall|i: int| 0 <= i < keys@.len() ==> key_bounded(#[trigger] keys@[i]),
    ensures
        is_sorted_order(keys@, order@),
        forall|j: int, k: int| 0 <= j < k < order@.len() ==> order@[j] != order@[k],
{
    let n = keys.len();
    let mut order: Vec<usize> = Vec::new();
    let mut i: usize = 0;
    while i < n
        invariant
            n == keys@.len(),
            forall|i: int| 0 <= i < keys@.len() ==> key_bounded(#[trigger] keys@[i]),
            i <= n,
            order@.len() == i,
            forall|k: int| 0 <= k < order@.len() ==> #[trigger] order@[k] < i,
            forall|j: int, k: int|
                0 <= j < k < order@.len() ==> ranked_before(keys@, #[trigger] order@[j] as int, #[trigger] order@[k] as int),
        decreases n - i,
    {
        // find the insertion point: after every position ranked before `i`
        let mut pos: usize = order.len();
        let mut found = false;
        while pos > 0 && !found
            invariant
                found ==> pos > 0 && !key_lt(keys@[i as int], keys@[order@[pos - 1] as int]),
                pos <= order@.len(),
                forall|i: int| 0 <= i < keys@.len() ==> key_bounded(#[trigger] keys@[i]),
                order@.len() == i,
                i < n,
                n == keys@.len(),
                forall|k: int| 0 <= k < order@.len() ==> #[trigger] order@[k] < i,
                forall|k: int| pos <= k < order@.len() ==> key_lt(keys@[i as int], #[trigger] keys@[order@[k] as int]),
            decreases pos + (if found { 0int } else { 1int }),
        {
            let prev = order[pos - 1];
            if key_less(&keys[i], &keys[prev]) {
                pos = pos - 1;
            } else {
                found = true;
            }
        }
        proof {
            // everything before `pos` ranks before `i`
            if pos > 0 {
                let p = order@[pos - 1] as int;
                assert(!key_lt(keys@[i as int], keys@[p]));
                assert(ranked_before(keys@, p, i as int));
                assert forall|k: int| 0 <= k < pos implies ranked_before(keys@, #[trigger] order@[k] as int, i as int) by {
                    if k < pos - 1 {
                        lemma_ranked_before_transitive(keys@, order@[k] as int, p, i as int);
                    }
                }
            }
        }
        let ghost before = order@;
        order.insert(pos, i);
        proof {
            assert(order@ == before.insert(pos as int, i));
            assert forall|j: int, k: int| 0 <= j < k < order@.len() implies ranked_before(
                keys@,
                #[trigger] order@[j] as int,
                #[trigger] order@[k] as int,
            ) by {
                if j < pos && k < pos {
                    assert(order@[j] == before[j] && order@[k] == before[k]);
                } else if j < pos && k == pos {
                } else if j < pos && k > pos {
                    assert(order@[j] == before[j] && order@[k] == before[k - 1]);
                } else if j == pos {
                    assert(order@[k] == before[k - 1]);
                    assert(key_lt(keys@[i as int], keys@[before[k - 1] as int]));
                } else {
                    assert(order@[j] == before[j - 1] && order@[k] == before[k - 1]);
                }
            }
        }
        i = i + 1;
    }
    proof {
        assert forall|j: int, k: int| 0 <= j < k < order@.len() implies order@[j] != order@[k] by {
            assert(ranked_before(keys@, order@[j] as int, order@[k] as int));
        }
    }
    order
}

/// An order of `n` distinct positions below `n` holds every one of them.
pub proof fn lemma_order_covers(order: Seq<usize>)
    requires
        forall|k: int| 0 <= k < order.len() ==> #[trigger] order[k] < order.len(),
        forall|j: int, k: int| 0 <= j < k < order.len() ==> order[j] != order[k],
    ensures
        forall|i: usize| i < order.len() ==> #[trigger] order.contains(i),
{
    broadcast use vstd::seq_lib::seq_to_set_is_finite;
    let n = order.len() as int;
    let o = Seq::new(order.len(), |k: int| order[k] as int);
    assert(o.no_duplicates()) by {
        assert forall|j: int, k: int| 0 <= j < o.len() && 0 <= k < o.len() && j != k implies o[j] != o[k] by {
            if j < k {
                assert(order[j] != order[k]);
            } else {
                assert(order[k] != order[j]);
            }
        }
    }
    o.unique_seq_to_set();
    vstd::set_lib::lemma_int_range(0, n);
    assert(o.to_set().subset_of(vstd::set_lib::set_int_range(0, n))) by {
        assert forall|x: int| o.to_set().contains(x) implies vstd::set_lib::set_int_range(0, n).contains(x) by {
            assert(o.contains(x));
            let k = choose|k: int| 0 <= k < o.len() && o[k] == x;
            assert(order[k] < order.len());
        }
    }
    vstd::set_lib::lemma_subset_equality(o.to_set(), vstd::set_lib::set_int_range(0, n));
    assert forall|i: usize| i < order.len() implies #[trigger] order.contains(i) by {
        assert(vstd::set_lib::set_int_range(0, n).contains(i as int));
        assert(o.to_set().contains(i as int));
        assert(o.contains(i as int));
        let k = choose|k: int| 0 <= k < o.len() && o[k] == i as int;
        assert(order[k] == i);
    }
}

} // verus!
