use vstd::prelude::*;

verus! {

/// The eight little-endian bytes of a 64-bit number.
pub open spec fn le_i64(v: i64) -> Seq<u8> {
    Seq::new(8, |k: int| ((v as u64) >> ((8 * k) as u64)) as u8)
}

/// The four little-endian bytes of a 32-bit number.
pub open spec fn le_u32(v: u32) -> Seq<u8> {
    Seq::new(4, |k: int| (v >> ((8 * k) as u32)) as u8)
}

/// An optional number: a 1 byte then the number, or a 0 byte.
pub open spec fn opt_i64_bytes(v: Option<i64>) -> Seq<u8> {
    match v {
        Some(x) => seq![1u8] + le_i64(x),
        None => seq![0u8],
    }
}

/// An optional text: a 1 byte, its length as four bytes, then its bytes;
/// or a 0 byte.
pub open spec fn opt_text_bytes(v: Option<Seq<u8>>) -> Seq<u8> {
    match v {
        Some(t) => seq![1u8] + le_u32(t.len() as u32) + t,
        None => seq![0u8],
    }
}

/// Appends the little-endian bytes of a 64-bit number.
pub fn write_i64(out: &mut Vec<u8>, value: i64)
    ensures
        final(out)@ == old(out)@ + le_i64(value),
{
    let ghost start = out@;
    let bits = value as u64;
    let mut k: u64 = 0;
    while k < 8
        invariant
            k <= 8,
            bits == value as u64,
            out@.len() == start.len() + k,
            forall|i: int| 0 <= i < start.len() ==> out@[i] == start[i],
            forall|i: int| 0 <= i < k ==> #[trigger] out@[start.len() + i] == le_i64(value)[i],
        decreases 8 - k,
    {
        out.push((bits >> (8 * k)) as u8);
        k = k + 1;
    }
    proof {
        assert forall|j: int| start.len() <= j < out@.len() implies out@[j] == (start + le_i64(value))[j] by {
            let i = j - start.len();
            assert(out@[start.len() + i] == le_i64(value)[i]);
        }
        assert(out@ =~= start + le_i64(value));
    }
}

/// Appends the little-endian bytes of a 32-bit number.
pub fn write_u32(out: &mut Vec<u8>, value: u32)
    ensures
        final(out)@ == old(out)@ + le_u32(value),
{
    let ghost start = out@;
    let mut k: u32 = 0;
    while k < 4
        invariant
            k <= 4,
            out@.len() == start.len() + k,
            forall|i: int| 0 <= i < start.len() ==> out@[i] == start[i],
            forall|i: int| 0 <= i < k ==> #[trigger] out@[start.len() + i] == le_u32(value)[i],
        decreases 4 - k,
    {
        out.push((value >> (8 * k)) as u8);
        k = k + 1;
    }
    proof {
        assert forall|j: int| start.len() <= j < out@.len() implies out@[j] == (start + le_u32(value))[j] by {
            let i = j - start.len();
            assert(out@[start.len() + i] == le_u32(value)[i]);
        }
        assert(out@ =~= start + le_u32(value));
    }
}

/// Appends an optional number: a 1 byte then the number, or a 0 byte.
pub fn write_optional_i64(out: &mut Vec<u8>, value: Option<i64>)
    ensures
        final(out)@ == old(out)@ + opt_i64_bytes(value),
{
    let ghost start = out@;
    match value {
        Some(v) => {
            out.push(1);
            write_i64(out, v);
            proof {
                assert(out@ =~= start + opt_i64_bytes(value));
            }
        },
        None => {
            out.push(0);
            proof {
                assert(out@ =~= start + opt_i64_bytes(value));
            }
        },
    }
}

/// Appends bytes.
pub fn write_bytes(out: &mut Vec<u8>, bytes: &Vec<u8>)
    ensures
        final(out)@ == old(out)@ + bytes@,
{
    let ghost start = out@;
    let mut i: usize = 0;
    while i < bytes.len()
        invariant
            i <= bytes@.len(),
            out@ == start + bytes@.subrange(0, i as int),
        decreases bytes@.len() - i,
    {
        out.push(bytes[i]);
        proof {
            assert(start + bytes@.subrange(0, i + 1 as int) =~= out@);
        }
        i = i + 1;
    }
    proof {
        assert(bytes@.subrange(0, bytes@.len() as int) =~= bytes@);
    }
}

/// Appends an optional text: a 1 byte, its length as four bytes, then its
/// bytes; or a 0 byte.
pub fn write_optional_text(out: &mut Vec<u8>, value: &Option<Vec<u8>>)
    requires
        value matches Some(t) ==> t@.len() <= u32::MAX,
    ensures
        final(out)@ == old(out)@ + opt_text_bytes(match value {
            Some(t) => Some(t@),
            None => None,
        }),
{
    let ghost start = out@;
    match value {
        Some(text) => {
            out.push(1);
            write_u32(out, text.len() as u32);
            write_bytes(out, text);
            proof {
                assert(out@ =~= start + opt_text_bytes(Some(text@)));
            }
        },
        None => {
            out.push(0);
            proof {
                assert(out@ =~= start + seq![0u8]);
            }
        },
    }
}

/// The two lowercase hexadecimal digits of a byte.
pub open spec fn hex_digit(n: u8) -> u8 {
    if n < 10 {
        (48 + n) as u8
    } else {
        (87 + n) as u8
    }
}

/// The value of a lowercase hexadecimal digit, if it is one.
pub open spec fn hex_value(c: u8) -> Option<u8> {
    if 48 <= c <= 57 {
        Some((c - 48) as u8)
    } else if 97 <= c <= 102 {
        Some((c - 87) as u8)
    } else {
        None
    }
}

/// Bytes written as lowercase hexadecimal, two digits each.
pub open spec fn spec_hex(bytes: Seq<u8>) -> Seq<u8> {
    Seq::new(2 * bytes.len(), |i: int| if i % 2 == 0 {
        hex_digit(bytes[i / 2] / 16)
    } else {
        hex_digit(bytes[i / 2] % 16)
    })
}

/// The bytes that lowercase hexadecimal text writes, if it is such text of
/// an even length.
pub open spec fn spec_from_hex(text: Seq<u8>) -> Option<Seq<u8>> {
    if text.len() % 2 == 0 && forall|i: int| 0 <= i < text.len() ==> (#[trigger] hex_value(text[i])) is Some {
        Some(Seq::new((text.len() / 2) as nat, |k: int| (hex_value(text[2 * k])->0 * 16 + hex_value(text[2 * k + 1])->0) as u8))
    } else {
        None
    }
}

/// Bytes as lowercase hexadecimal text.
pub fn to_hex(bytes: &[u8]) -> (text: Vec<u8>)
    requires
        bytes@.len() <= usize::MAX / 2,
    ensures
        text@ == spec_hex(bytes@),
{
    let mut text: Vec<u8> = Vec::new();
    let mut i: usize = 0;
    while i < bytes.len()
        invariant
            i <= bytes@.len(),
            bytes@.len() <= usize::MAX / 2,
            text@.len() == 2 * i,
            forall|j: int| 0 <= j < 2 * i ==> #[trigger] text@[j] == spec_hex(bytes@)[j],
        decreases bytes@.len() - i,
    {
        let b = bytes[i];
        let high = b / 16;
        let low = b % 16;
        text.push(if high < 10 { 48 + high } else { 87 + high });
        text.push(if low < 10 { 48 + low } else { 87 + low });
        proof {
            assert(forall|j: int| 0 <= j < 2 * i + 2 ==> #[trigger] text@[j] == spec_hex(bytes@)[j]) by {
                assert forall|j: int| 0 <= j < 2 * i + 2 implies #[trigger] text@[j] == spec_hex(bytes@)[j] by {
                    if j == 2 * i {
                        assert(j / 2 == i && j % 2 == 0);
                    } else if j == 2 * i + 1 {
                        assert(j / 2 == i && j % 2 == 1);
                    }
                }
            }
        }
        i = i + 1;
    }
    proof {
        assert(text@ =~= spec_hex(bytes@));
    }
    text
}

fn hex_value_of(c: u8) -> (v: Option<u8>)
    ensures
        v == hex_value(c),
{
    if 48 <= c && c <= 57 {
        Some(c - 48)
    } else if 97 <= c && c <= 102 {
        Some(c - 87)
    } else {
        None
    }
}

/// The bytes lowercase hexadecimal text writes, or none where it is not
/// such text of an even length.
pub fn from_hex(text: &[u8]) -> (bytes: Option<Vec<u8>>)
    ensures
        match bytes {
            Some(b) => spec_from_hex(text@) == Some(b@),
            None => spec_from_hex(text@) is None,
        },
{
    if text.len() % 2 != 0 {
        return None;
    }
    let mut bytes: Vec<u8> = Vec::new();
    let mut k: usize = 0;
    while k < text.len() / 2
        invariant
            text@.len() % 2 == 0,
            k <= text@.len() / 2,
            bytes@.len() == k,
            forall|i: int| 0 <= i < 2 * k ==> (#[trigger] hex_value(text@[i])) is Some,
            forall|j: int|
                0 <= j < k ==> #[trigger] bytes@[j] == (hex_value(text@[2 * j])->0 * 16 + hex_value(
                    text@[2 * j + 1],
                )->0) as u8,
        decreases text@.len() / 2 - k,
    {
        let high = hex_value_of(text[2 * k]);
        let low = hex_value_of(text[2 * k + 1]);
        match (high, low) {
            (Some(h), Some(l)) => {
                bytes.push(h * 16 + l);
            },
            _ => {
                proof {
                    if high is None {
                        assert(hex_value(text@[2 * k as int]) is None);
                    } else {
                        assert(hex_value(text@[2 * k + 1 as int]) is None);
                    }
                }
                return None;
            },
        }
        k = k + 1;
    }
    proof {
        assert forall|i: int| 0 <= i < text@.len() implies (#[trigger] hex_value(text@[i])) is Some by {
            assert(i < 2 * k);
        }
        assert(bytes@ =~= spec_from_hex(text@)->0);
    }
    Some(bytes)
}

/// Reading back the hexadecimal text of some bytes gives those bytes.
pub proof fn lemma_hex_round_trip(bytes: Seq<u8>)
    ensures
        spec_from_hex(spec_hex(bytes)) == Some(bytes),
{
    let text = spec_hex(bytes);
    assert forall|i: int| 0 <= i < text.len() implies (#[trigger] hex_value(text[i])) is Some by {
        let b = bytes[i / 2];
        assert(b / 16 < 16 && b % 16 < 16);
    }
    assert forall|k: int| 0 <= k < bytes.len() implies (hex_value(text[2 * k])->0 * 16 + hex_value(
        text[2 * k + 1],
    )->0) as u8 == bytes[k] by {
        assert((2 * k) / 2 == k && (2 * k) % 2 == 0);
        assert((2 * k + 1) / 2 == k && (2 * k + 1) % 2 == 1);
        let b = bytes[k];
        assert(b == (b / 16) * 16 + b % 16);
    }
    assert(spec_from_hex(text)->0 =~= bytes);
}

} // verus!
