use vstd::prelude::*;

use crate::rwkv_inputs::bytes::le_i64;
use crate::rwkv_inputs::bytes::write_i64;

verus! {

/// The little-endian bytes of each value, one after another.
pub open spec fn column_bytes(values: Seq<i64>) -> Seq<u8>
    decreases values.len(),
{
    if values.len() == 0 {
        seq![]
    } else {
        column_bytes(values.drop_last()) + le_i64(values.last())
    }
}

/// The number whose little-endian bytes are the eight at `at`.
pub open spec fn value_at(column: Seq<u8>, at: int) -> i64 {
    ((column[at] as u64) | ((column[at + 1] as u64) << 8u64) | ((column[at + 2] as u64) << 16u64) | ((
    column[at + 3] as u64) << 24u64) | ((column[at + 4] as u64) << 32u64) | ((column[at + 5] as u64)
        << 40u64) | ((column[at + 6] as u64) << 48u64) | ((column[at + 7] as u64) << 56u64)) as i64
}

/// The values of a column of little-endian 64-bit numbers; a partial value
/// at the end is dropped.
pub open spec fn column_values(column: Seq<u8>) -> Seq<i64> {
    Seq::new(column.len() / 8, |k: int| value_at(column, 8 * k))
}

/// One little-endian 64-bit number per value.
pub fn i64_column(values: &Vec<i64>) -> (column: Vec<u8>)
    ensures
        column@ == column_bytes(values@),
{
    let mut column: Vec<u8> = Vec::new();
    let mut i: usize = 0;
    proof {
        assert(values@.subrange(0, 0) =~= Seq::<i64>::empty());
    }
    while i < values.len()
        invariant
            i <= values@.len(),
            column@ == column_bytes(values@.subrange(0, i as int)),
        decreases values@.len() - i,
    {
        write_i64(&mut column, values[i]);
        proof {
            assert(values@.subrange(0, i + 1 as int).drop_last() =~= values@.subrange(0, i as int));
        }
        i = i + 1;
    }
    proof {
        assert(values@.subrange(0, values@.len() as int) =~= values@);
    }
    column
}

/// The values of a column of little-endian 64-bit numbers; a partial value
/// at the end is dropped.
pub fn i64_values(column: &[u8]) -> (values: Vec<i64>)
    ensures
        values@ == column_values(column@),
{
    let mut values: Vec<i64> = Vec::new();
    let n = column.len() / 8;
    let mut k: usize = 0;
    let mut at: usize = 0;
    while k < n
        invariant
            n == column@.len() / 8,
            at == 8 * k,
            k <= n,
            values@.len() == k,
            forall|j: int| 0 <= j < k ==> #[trigger] values@[j] == value_at(column@, 8 * j),
        decreases n - k,
    {
        proof {
            assert(8 * k + 8 <= column@.len());
        }
        let v = ((column[at] as u64) | ((column[at + 1] as u64) << 8u64) | ((column[at + 2] as u64) << 16u64)
            | ((column[at + 3] as u64) << 24u64) | ((column[at + 4] as u64) << 32u64) | ((column[at + 5] as u64)
            << 40u64) | ((column[at + 6] as u64) << 48u64) | ((column[at + 7] as u64) << 56u64)) as i64;
        values.push(v);
        k = k + 1;
        at = at + 8;
    }
    proof {
        assert(values@ =~= column_values(column@));
    }
    values
}

proof fn lemma_le_round_trip(v: i64)
    ensures
        value_at(le_i64(v), 0) == v,
{
    let b = le_i64(v);
    let u = v as u64;
    assert(b[0] == (u >> 0u64) as u8);
    assert(b[1] == (u >> 8u64) as u8);
    assert(b[2] == (u >> 16u64) as u8);
    assert(b[3] == (u >> 24u64) as u8);
    assert(b[4] == (u >> 32u64) as u8);
    assert(b[5] == (u >> 40u64) as u8);
    assert(b[6] == (u >> 48u64) as u8);
    assert(b[7] == (u >> 56u64) as u8);
    assert((((u >> 0u64) as u8) as u64 | (((u >> 8u64) as u8) as u64) << 8u64 | (((u >> 16u64) as u8) as u64)
        << 16u64 | (((u >> 24u64) as u8) as u64) << 24u64 | (((u >> 32u64) as u8) as u64) << 32u64 | (((u
        >> 40u64) as u8) as u64) << 40u64 | (((u >> 48u64) as u8) as u64) << 48u64 | (((u >> 56u64) as u8)
        as u64) << 56u64) == u) by (bit_vector);
    assert((u as i64) == v) by (bit_vector)
        requires
            u == v as u64,
    ;
}

proof fn lemma_column_bytes_len(values: Seq<i64>)
    ensures
        column_bytes(values).len() == 8 * values.len(),
    decreases values.len(),
{
    if values.len() > 0 {
        lemma_column_bytes_len(values.drop_last());
    }
}

proof fn lemma_column_bytes_at(values: Seq<i64>, k: int)
    requires
        0 <= k < values.len(),
    ensures
        column_bytes(values).subrange(8 * k, 8 * k + 8) == le_i64(values[k]),
    decreases values.len(),
{
    lemma_column_bytes_len(values.drop_last());
    let prefix = column_bytes(values.drop_last());
    if k == values.len() - 1 {
        assert(column_bytes(values).subrange(8 * k, 8 * k + 8) =~= le_i64(values[k]));
    } else {
        lemma_column_bytes_at(values.drop_last(), k);
        assert(column_bytes(values).subrange(8 * k, 8 * k + 8) =~= prefix.subrange(8 * k, 8 * k + 8));
    }
}

/// Reading back a column gives the values it was written from.
pub proof fn lemma_column_round_trip(values: Seq<i64>)
    ensures
        column_values(column_bytes(values)) == values,
{
    lemma_column_bytes_len(values);
    let column = column_bytes(values);
    assert forall|k: int| 0 <= k < values.len() implies #[trigger] column_values(column)[k] == values[k] by {
        lemma_column_bytes_at(values, k);
        lemma_le_round_trip(values[k]);
        let part = column.subrange(8 * k, 8 * k + 8);
        assert(part =~= le_i64(values[k]));
        assert(value_at(column, 8 * k) == value_at(part, 0)) by {
            assert(column[8 * k] == part[0]);
            assert(column[8 * k + 1] == part[1]);
            assert(column[8 * k + 2] == part[2]);
            assert(column[8 * k + 3] == part[3]);
            assert(column[8 * k + 4] == part[4]);
            assert(column[8 * k + 5] == part[5]);
            assert(column[8 * k + 6] == part[6]);
            assert(column[8 * k + 7] == part[7]);
        }
    }
    assert(column_values(column) =~= values);
}

} // verus!
