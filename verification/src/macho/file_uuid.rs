//! Whether a file still is the binary that a trace has sampled, by its identity.

use crate::bytes::same_bytes;
use object::read::macho::FatArch;
use object::Object;
use vstd::prelude::*;
use vstd::slice::slice_subrange;

verus! {

pub const FAT_MAGIC: u32 = 0xcafe_babe;

pub const FAT_MAGIC_64: u32 = 0xcafe_babf;

/// The big-endian number in `n` bytes at `off`.
pub open spec fn be(b: Seq<u8>, off: int, n: nat) -> nat
    decreases n,
{
    if n == 0 {
        0
    } else {
        be(b, off, (n - 1) as nat) * 256 + b[off + n - 1] as nat
    }
}

/// Where the binaries of a container are, and how long: a header with a magic number
/// and a count, and that many entries of `entry` bytes, in each of which the place
/// and the size, of `word` bytes each, follow eight bytes of other things. None
/// where the header or an entry is cut off, or the magic number is another.
pub open spec fn fat_ranges(b: Seq<u8>, magic: u32, entry: nat, word: nat) -> Option<
    Seq<(u64, u64)>,
> {
    if b.len() >= 8 && be(b, 0, 4) == magic && b.len() >= 8 + be(b, 4, 4) * entry {
        Some(
            Seq::new(
                be(b, 4, 4),
                |i: int|
                    (
                        be(b, 16 + i * entry, word) as u64,
                        be(b, 16 + i * entry + word, word) as u64,
                    ),
            ),
        )
    } else {
        None
    }
}

/// What `object::File::parse` and `object::Object::mach_uuid` make of a file's
/// bytes: None where they are no object file of a known format; else its identity,
/// None where it has none or it could not be read.
pub uninterp spec fn mach_uuid_of(b: Seq<u8>) -> Option<Option<Seq<u8>>>;

/// An identity as bytes.
pub open spec fn uuid_bytes(u: Option<Option<[u8; 16]>>) -> Option<Option<Seq<u8>>> {
    match u {
        Some(Some(v)) => Some(Some(v@)),
        Some(None) => Some(None),
        None => None,
    }
}

/// Calls `object::File::parse`, and on what it gives `object::Object::mach_uuid`.
/// Both read the bytes alone, so the result has a name over them.
#[verifier::external_body]
fn parsed_uuid(data: &[u8]) -> (r: Option<Option<[u8; 16]>>)
    ensures
        uuid_bytes(r) == mach_uuid_of(data@),
{
    let file = object::File::parse(data).ok()?;
    Some(file.mach_uuid().ok().flatten())
}

/// Calls `object::read::macho::MachOFatFile32::parse`, which reads a header of eight
/// bytes and the entries of twenty bytes behind it, and `FatArch::file_range` on each
/// entry.
#[verifier::external_body]
fn ranges_32(data: &[u8]) -> (r: Option<Vec<(u64, u64)>>)
    ensures
        match r {
            Some(v) => fat_ranges(data@, FAT_MAGIC, 20, 4) == Some(v@),
            None => fat_ranges(data@, FAT_MAGIC, 20, 4) is None,
        },
{
    let fat = object::read::macho::MachOFatFile32::parse(data).ok()?;
    Some(fat.arches().iter().map(|a| a.file_range()).collect())
}

/// Calls `object::read::macho::MachOFatFile64::parse`, which reads a header of eight
/// bytes and the entries of thirty-two bytes behind it, and `FatArch::file_range` on
/// each entry.
#[verifier::external_body]
fn ranges_64(data: &[u8]) -> (r: Option<Vec<(u64, u64)>>)
    ensures
        match r {
            Some(v) => fat_ranges(data@, FAT_MAGIC_64, 32, 8) == Some(v@),
            None => fat_ranges(data@, FAT_MAGIC_64, 32, 8) is None,
        },
{
    let fat = object::read::macho::MachOFatFile64::parse(data).ok()?;
    Some(fat.arches().iter().map(|a| a.file_range()).collect())
}

/// Whether a file of a known format has the identity; None where it is of none.
pub fn identity_is(parsed: Option<Option<[u8; 16]>>, want: [u8; 16]) -> (r: Option<bool>)
    ensures
        r == (match uuid_bytes(parsed) {
            Some(u) => Some(u == Some(want@)),
            None => None,
        }),
{
    match parsed {
        Some(Some(u)) => Some(same_bytes(u.as_slice(), want.as_slice())),
        Some(None) => Some(false),
        None => None,
    }
}

spec fn least(a: int, b: int) -> int {
    if a <= b {
        a
    } else {
        b
    }
}

/// The bytes of a binary in a container, as far as the container reaches.
pub closed spec fn part(b: Seq<u8>, range: (u64, u64)) -> Seq<u8> {
    b.subrange(
        least(range.0 as int, b.len() as int),
        least(range.0 + range.1, b.len() as int),
    )
}

/// The bytes of a binary are those that stand in its range.
pub proof fn lemma_part(b: Seq<u8>, range: (u64, u64), i: int)
    ensures
        (0 <= i < part(b, range).len()) <==> (0 <= i < range.1 && range.0 + i < b.len()),
        0 <= i < part(b, range).len() ==> part(b, range)[i] == b[range.0 + i],
{
}

fn part_of(data: &[u8], off: u64, size: u64) -> (r: &[u8])
    ensures
        r@ == part(data@, (off, size)),
{
    let len: usize = data.len();
    if off >= len as u64 {
        let r = slice_subrange(data, len, len);
        assert(r@ =~= part(data@, (off, size)));
        return r;
    }
    let from: usize = off as usize;
    let to: usize = if size >= (len - from) as u64 {
        len
    } else {
        from + size as usize
    };
    slice_subrange(data, from, to)
}

/// Whether one of the binaries in a container has the identity.
pub open spec fn any_part(b: Seq<u8>, ranges: Seq<(u64, u64)>, want: Seq<u8>) -> bool {
    exists|i: int|
        0 <= i < ranges.len() && mach_uuid_of(part(b, #[trigger] ranges[i])) == Some(Some(want))
}

fn any_part_is(data: &[u8], ranges: &Vec<(u64, u64)>, want: [u8; 16]) -> (r: bool)
    ensures
        r == any_part(data@, ranges@, want@),
{
    let mut i: usize = 0;
    while i < ranges.len()
        invariant
            i <= ranges@.len(),
            forall|j: int|
                0 <= j < i ==> mach_uuid_of(part(data@, #[trigger] ranges@[j])) != Some(
                    Some(want@),
                ),
        decreases ranges@.len() - i,
    {
        let (off, size) = ranges[i];
        if let Some(true) = identity_is(parsed_uuid(part_of(data, off, size)), want) {
            assert(mach_uuid_of(part(data@, ranges@[i as int])) == Some(Some(want@)));
            return true;
        }
        i += 1;
    }
    false
}

/// Whether a file has the identity: its own, or in a container that of one of its
/// binaries.
pub open spec fn carries(b: Seq<u8>, want: Seq<u8>) -> bool {
    match mach_uuid_of(b) {
        Some(u) => u == Some(want),
        None => match fat_ranges(b, FAT_MAGIC, 20, 4) {
            Some(ranges) => any_part(b, ranges, want),
            None => match fat_ranges(b, FAT_MAGIC_64, 32, 8) {
                Some(ranges) => any_part(b, ranges, want),
                None => false,
            },
        },
    }
}

/// Whether a file carries the identity `want`; `data` is what it holds, None where
/// it could not be read.
pub fn file_carries_uuid(data: Option<&[u8]>, want: [u8; 16]) -> (r: bool)
    ensures
        r == (match data {
            Some(b) => carries(b@, want@),
            None => false,
        }),
{
    match data {
        None => false,
        Some(b) => {
            if let Some(answer) = identity_is(parsed_uuid(b), want) {
                return answer;
            }
            if let Some(ranges) = ranges_32(b) {
                return any_part_is(b, &ranges, want);
            }
            if let Some(ranges) = ranges_64(b) {
                return any_part_is(b, &ranges, want);
            }
            false
        },
    }
}

/// The number in four bytes, the first of them the highest.
pub proof fn lemma_be_of_four(b: Seq<u8>, off: int)
    ensures
        be(b, off, 4) == b[off] * 0x100_0000 + b[off + 1] * 0x1_0000 + b[off + 2] * 0x100 + b[off
            + 3],
{
    reveal_with_fuel(be, 5);
}

/// The entries of a container follow its header of eight bytes, one behind the other: in
/// each the place and the size follow eight bytes of other things.
pub proof fn lemma_entries_follow(b: Seq<u8>, magic: u32, entry: nat, word: nat, i: int)
    requires
        fat_ranges(b, magic, entry, word) is Some,
        0 <= i < be(b, 4, 4),
        entry >= 8 + 2 * word,
    ensures
        ({
            let e = b.subrange(8 + i * entry, 8 + i * entry + entry);
            let r = fat_ranges(b, magic, entry, word)->0;
            &&& r.len() == be(b, 4, 4)
            &&& r[i] == (be(e, 8, word) as u64, be(e, (8 + word) as int, word) as u64)
        }),
{
    let at = 8 + i * entry;
    assert(at + entry <= b.len()) by (nonlinear_arith)
        requires
            at == 8 + i * entry,
            i + 1 <= be(b, 4, 4),
            b.len() >= 8 + be(b, 4, 4) * entry,
            0 <= i,
    ;
    assert(at >= 8) by (nonlinear_arith)
        requires
            at == 8 + i * entry,
            0 <= i,
            entry >= 0,
    ;
    lemma_be_in_part(b, at, (at + entry) as int, 8, word);
    lemma_be_in_part(b, at, (at + entry) as int, (8 + word) as int, word);
}

proof fn lemma_be_in_part(b: Seq<u8>, from: int, to: int, off: int, n: nat)
    requires
        0 <= from <= to <= b.len(),
        0 <= off,
        off + n <= to - from,
    ensures
        be(b.subrange(from, to), off, n) == be(b, from + off, n),
    decreases n,
{
    if n > 0 {
        lemma_be_in_part(b, from, to, off, (n - 1) as nat);
    }
}

/// A file that is no object file itself has an identity where one of the binaries has it
/// that its table leads to: a table of entries of 20 bytes behind the one magic number, of
/// 32 bytes behind the other.
#[verifier::spinoff_prover]
#[verifier::rlimit(40)]
pub proof fn lemma_container_carries(b: Seq<u8>, want: Seq<u8>, i: int)
    requires
        mach_uuid_of(b) is None,
        b.len() >= 8,
        0 <= i < be(b, 4, 4),
    ensures
        be(b, 0, 4) == 0xcafe_babe && b.len() >= 8 + be(b, 4, 4) * 20 && mach_uuid_of(
            part(b, (be(b, 16 + i * 20, 4) as u64, be(b, 20 + i * 20, 4) as u64)),
        ) == Some(Some(want)) ==> carries(b, want),
        be(b, 0, 4) == 0xcafe_babf && b.len() >= 8 + be(b, 4, 4) * 32 && mach_uuid_of(
            part(b, (be(b, 16 + i * 32, 8) as u64, be(b, 24 + i * 32, 8) as u64)),
        ) == Some(Some(want)) ==> carries(b, want),
        be(b, 0, 4) != 0xcafe_babe && be(b, 0, 4) != 0xcafe_babf ==> !carries(b, want),
{
    if be(b, 0, 4) == 0xcafe_babe && b.len() >= 8 + be(b, 4, 4) * 20 {
        let r = fat_ranges(b, FAT_MAGIC, 20, 4)->0;
        assert(r[i] == (be(b, 16 + i * 20, 4) as u64, be(b, 20 + i * 20, 4) as u64));
    }
    if be(b, 0, 4) == 0xcafe_babf && b.len() >= 8 + be(b, 4, 4) * 32 {
        let r = fat_ranges(b, FAT_MAGIC_64, 32, 8)->0;
        assert(r[i] == (be(b, 16 + i * 32, 8) as u64, be(b, 24 + i * 32, 8) as u64));
    }
}

} // verus!
