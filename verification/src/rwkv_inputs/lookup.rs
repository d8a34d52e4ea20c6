use vstd::prelude::*;

verus! {

/// The value of the first entry with `key`, if any.
pub open spec fn first_value<V>(entries: Seq<(i64, V)>, key: i64) -> Option<V>
    decreases entries.len(),
{
    if entries.len() == 0 {
        None
    } else if entries[0].0 == key {
        Some(entries[0].1)
    } else {
        first_value(entries.drop_first(), key)
    }
}

/// The value of the first entry with `key`, if any.
pub fn find_value<V: Copy>(entries: &Vec<(i64, V)>, key: i64) -> (value: Option<V>)
    ensures
        value == first_value(entries@, key),
{
    let mut i: usize = 0;
    proof {
        assert(entries@.skip(0) =~= entries@);
    }
    while i < entries.len()
        invariant
            i <= entries@.len(),
            first_value(entries@, key) == first_value(entries@.skip(i as int), key),
        decreases entries@.len() - i,
    {
        let ghost rest = entries@.skip(i as int);
        proof {
            assert(rest[0] == entries@[i as int]);
            assert(rest.drop_first() =~= entries@.skip(i + 1));
        }
        if entries[i].0 == key {
            return Some(entries[i].1);
        }
        i = i + 1;
    }
    proof {
        assert(entries@.skip(i as int).len() == 0);
    }
    None
}

} // verus!
