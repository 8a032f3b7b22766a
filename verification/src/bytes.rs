//! Byte slices: comparing, searching, copying and reading little-endian numbers.

use vstd::bytes::*;
use vstd::prelude::*;
use vstd::slice::{slice_subrange, slice_to_vec};

verus! {

/// The index of the first `b` in `s`, or its length where there is none.
pub open spec fn index_of(s: Seq<u8>, b: u8) -> nat
    decreases s.len(),
{
    if s.len() == 0 || s[0] == b {
        0
    } else {
        1 + index_of(s.drop_first(), b)
    }
}

/// What stands in `s` before the first `b`; all of it where there is none.
pub open spec fn before(s: Seq<u8>, b: u8) -> Seq<u8> {
    s.take(index_of(s, b) as int)
}

pub proof fn lemma_index_of(s: Seq<u8>, b: u8)
    ensures
        index_of(s, b) <= s.len(),
        forall|i: int| 0 <= i < index_of(s, b) ==> s[i] != b,
        index_of(s, b) < s.len() ==> s[index_of(s, b) as int] == b,
    decreases s.len(),
{
    if s.len() > 0 && s[0] != b {
        let t = s.drop_first();
        lemma_index_of(t, b);
        assert forall|i: int| 0 <= i < index_of(s, b) implies s[i] != b by {
            if i > 0 {
                assert(s[i] == t[i - 1]);
            }
        }
    }
}

/// An index with no `b` before it, and a `b` or the end at it, is `index_of`.
pub proof fn lemma_index_of_is(s: Seq<u8>, b: u8, k: nat)
    requires
        k <= s.len(),
        forall|i: int| 0 <= i < k ==> s[i] != b,
        k < s.len() ==> s[k as int] == b,
    ensures
        index_of(s, b) == k,
{
    lemma_index_of(s, b);
    if index_of(s, b) < k {
        assert(s[index_of(s, b) as int] != b);
    }
}

/// The index of the first `b` in `s`, or its length where there is none.
pub fn find_byte(s: &[u8], b: u8) -> (k: usize)
    ensures
        k == index_of(s@, b),
        k <= s@.len(),
{
    let mut k: usize = 0;
    while k < s.len() && s[k] != b
        invariant
            k <= s@.len(),
            forall|i: int| 0 <= i < k ==> s@[i] != b,
        decreases s@.len() - k,
    {
        k += 1;
    }
    proof {
        lemma_index_of_is(s@, b, k as nat);
    }
    k
}

/// What stands in `s` before the first `b`; all of it where there is none.
pub fn bytes_before(s: &[u8], b: u8) -> (r: Vec<u8>)
    ensures
        r@ == before(s@, b),
{
    let k: usize = find_byte(s, b);
    slice_to_vec(slice_subrange(s, 0, k))
}

/// Whether two byte slices hold the same bytes.
pub fn same_bytes(a: &[u8], b: &[u8]) -> (r: bool)
    ensures
        r == (a@ == b@),
{
    if a.len() != b.len() {
        return false;
    }
    let mut i: usize = 0;
    while i < a.len()
        invariant
            a@.len() == b@.len(),
            i <= a@.len(),
            forall|j: int| 0 <= j < i ==> a@[j] == b@[j],
        decreases a@.len() - i,
    {
        if a[i] != b[i] {
            assert(a@[i as int] != b@[i as int]);
            return false;
        }
        i += 1;
    }
    assert(a@ =~= b@);
    true
}

/// Append `s` to `v`.
pub fn append_bytes(v: &mut Vec<u8>, s: &[u8])
    ensures
        final(v)@ == old(v)@ + s@,
{
    v.extend_from_slice(s);
    assert(v@ =~= old(v)@ + s@);
}

/// The little-endian u64 at `off`.
pub open spec fn le_u64(s: Seq<u8>, off: int) -> u64 {
    spec_u64_from_le_bytes(s.subrange(off, off + 8))
}

/// The little-endian u32 at `off`.
pub open spec fn le_u32(s: Seq<u8>, off: int) -> u32 {
    spec_u32_from_le_bytes(s.subrange(off, off + 4))
}

/// The little-endian u64 at `off`.
pub fn read_le_u64(b: &[u8], off: usize) -> (r: u64)
    requires
        off + 8 <= b@.len(),
    ensures
        r == le_u64(b@, off as int),
{
    assert(off + 8 <= b.len());
    u64_from_le_bytes(slice_subrange(b, off, off + 8))
}

/// The little-endian u32 at `off`.
pub fn read_le_u32(b: &[u8], off: usize) -> (r: u32)
    requires
        off + 4 <= b@.len(),
    ensures
        r == le_u32(b@, off as int),
{
    assert(off + 4 <= b.len());
    u32_from_le_bytes(slice_subrange(b, off, off + 4))
}

/// The bits of a number below 2^32 as an i32.
pub open spec fn bits_to_i32(v: int) -> i32 {
    if v < 0x8000_0000 {
        v as i32
    } else {
        (v - 0x1_0000_0000) as i32
    }
}

/// The i32 with the bits of `v`.
pub fn u32_as_i32(v: u32) -> (r: i32)
    ensures
        r == bits_to_i32(v as int),
{
    if v < 0x8000_0000 {
        v as i32
    } else {
        ((v as i64) - 0x1_0000_0000) as i32
    }
}

/// The u32 with the bits of `v`.
pub fn i32_as_u32(v: i32) -> (r: u32)
    ensures
        r as int == if v >= 0 { v as int } else { v + 0x1_0000_0000 },
        bits_to_i32(r as int) == v,
{
    if v >= 0 {
        v as u32
    } else {
        ((v as i64) + 0x1_0000_0000) as u32
    }
}

/// The bits of a number below 2^64 as an i64.
pub open spec fn bits_to_i64(v: int) -> i64 {
    if v < 0x8000_0000_0000_0000 {
        v as i64
    } else {
        (v - 0x1_0000_0000_0000_0000) as i64
    }
}

/// The i64 with the bits of `v`.
pub fn u64_as_i64(v: u64) -> (r: i64)
    ensures
        r == bits_to_i64(v as int),
{
    if v < 0x8000_0000_0000_0000 {
        v as i64
    } else {
        ((v as i128) - 0x1_0000_0000_0000_0000) as i64
    }
}

/// The low 32 bits of `v`.
pub fn low_u32(v: u64) -> (r: u32)
    ensures
        r == v % 0x1_0000_0000,
{
    (v % 0x1_0000_0000) as u32
}

/// What stands in `a` stands there still where `b` follows it, and `b` stands behind it.
pub proof fn lemma_append(a: Seq<u8>, b: Seq<u8>)
    ensures
        (a + b).subrange(a.len() as int, (a.len() + b.len()) as int) == b,
        forall|i: int, j: int|
            0 <= i <= j <= a.len() ==> #[trigger] (a + b).subrange(i, j) == a.subrange(i, j),
{
    assert((a + b).subrange(a.len() as int, (a.len() + b.len()) as int) =~= b);
    assert forall|i: int, j: int| 0 <= i <= j <= a.len() implies #[trigger] (a + b).subrange(i, j)
        == a.subrange(i, j) by {
        assert((a + b).subrange(i, j) =~= a.subrange(i, j));
    }
}

/// Numbers of eight bytes, one behind the other.
pub open spec fn words64(s: Seq<u64>) -> Seq<u8>
    decreases s.len(),
{
    if s.len() == 0 {
        Seq::empty()
    } else {
        words64(s.drop_last()) + spec_u64_to_le_bytes(s.last())
    }
}

/// Numbers of four bytes, one behind the other.
pub open spec fn words32(s: Seq<u32>) -> Seq<u8>
    decreases s.len(),
{
    if s.len() == 0 {
        Seq::empty()
    } else {
        words32(s.drop_last()) + spec_u32_to_le_bytes(s.last())
    }
}

/// A number written in eight bytes or in four is read back.
pub proof fn lemma_number_read_back()
    ensures
        forall|n: u64|
            (#[trigger] spec_u64_to_le_bytes(n)).len() == 8 && spec_u64_from_le_bytes(
                spec_u64_to_le_bytes(n),
            ) == n,
        forall|n: u32|
            (#[trigger] spec_u32_to_le_bytes(n)).len() == 4 && spec_u32_from_le_bytes(
                spec_u32_to_le_bytes(n),
            ) == n,
{
    lemma_auto_spec_u64_to_from_le_bytes();
    lemma_auto_spec_u32_to_from_le_bytes();
    assert forall|n: u32|
        (#[trigger] spec_u32_to_le_bytes(n)).len() == 4 && spec_u32_from_le_bytes(
            spec_u32_to_le_bytes(n),
        ) == n by {
        assert(spec_u32_to_le_bytes(n).len() == 4);
    }
}

/// Numbers of eight bytes are read back, each at its place.
pub proof fn lemma_words64_read_back(s: Seq<u64>)
    ensures
        words64(s).len() == 8 * s.len(),
        forall|i: int| 0 <= i < s.len() ==> #[trigger] le_u64(words64(s), 8 * i) == s[i],
    decreases s.len(),
{
    lemma_number_read_back();
    if s.len() > 0 {
        let t = s.drop_last();
        let w = spec_u64_to_le_bytes(s.last());
        lemma_words64_read_back(t);
        lemma_append(words64(t), w);
        assert forall|i: int| 0 <= i < s.len() implies #[trigger] le_u64(words64(s), 8 * i)
            == s[i] by {
            if i < t.len() {
                assert(le_u64(words64(t), 8 * i) == t[i]);
                assert((words64(t) + w).subrange(8 * i, 8 * i + 8) == words64(t).subrange(
                    8 * i,
                    8 * i + 8,
                ));
            }
        }
    }
}

/// Numbers of four bytes are read back, each at its place.
pub proof fn lemma_words32_read_back(s: Seq<u32>)
    ensures
        words32(s).len() == 4 * s.len(),
        forall|i: int| 0 <= i < s.len() ==> #[trigger] le_u32(words32(s), 4 * i) == s[i],
    decreases s.len(),
{
    lemma_number_read_back();
    if s.len() > 0 {
        let t = s.drop_last();
        let w = spec_u32_to_le_bytes(s.last());
        lemma_words32_read_back(t);
        lemma_append(words32(t), w);
        assert forall|i: int| 0 <= i < s.len() implies #[trigger] le_u32(words32(s), 4 * i)
            == s[i] by {
            if i < t.len() {
                assert(le_u32(words32(t), 4 * i) == t[i]);
                assert((words32(t) + w).subrange(4 * i, 4 * i + 4) == words32(t).subrange(
                    4 * i,
                    4 * i + 4,
                ));
            }
        }
    }
}

/// The numbers that stand at `off` in `b` are those of `part`, where `part` stands there.
pub proof fn lemma_numbers_in_part(b: Seq<u8>, off: int, part: Seq<u8>)
    requires
        0 <= off,
        off + part.len() <= b.len(),
        b.subrange(off, off + part.len()) == part,
    ensures
        forall|i: int|
            0 <= i && 8 * i + 8 <= part.len() ==> #[trigger] le_u64(b, off + 8 * i)
                == le_u64(part, 8 * i),
        forall|i: int|
            0 <= i && 4 * i + 4 <= part.len() ==> #[trigger] le_u32(b, off + 4 * i)
                == le_u32(part, 4 * i),
{
    assert forall|i: int| 0 <= i && 8 * i + 8 <= part.len() implies #[trigger] le_u64(
        b,
        off + 8 * i,
    ) == le_u64(part, 8 * i) by {
        assert(b.subrange(off + 8 * i, off + 8 * i + 8) =~= part.subrange(8 * i, 8 * i + 8));
    }
    assert forall|i: int| 0 <= i && 4 * i + 4 <= part.len() implies #[trigger] le_u32(
        b,
        off + 4 * i,
    ) == le_u32(part, 4 * i) by {
        assert(b.subrange(off + 4 * i, off + 4 * i + 4) =~= part.subrange(4 * i, 4 * i + 4));
    }
}

} // verus!
