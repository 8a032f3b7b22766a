//! The userspace side of the in-kernel unwinder: what is written into the BPF maps
//! for each module of the target.
//!
//! - one flat array of 8-byte rows, the rows of all modules one after another;
//! - a page index, from a module and a 64 KiB page to a range of rows;
//! - the mappings, as entries of a longest-prefix-match trie over process and
//!   address.

use crate::cpu::lpm;
use crate::cpu::lpm::summarize_address_range;
use crate::intern;
use crate::intern::find_u64;
use crate::proto::config_abi::read_varint;
use crate::proto::wire;
use crate::text;
use crate::text::{first_word_of, has_suffix, lines_of, split_at_first, unsigned_of};
use object::{Object, ObjectSection};
use vstd::arithmetic::div_mod::*;
use vstd::prelude::*;
use vstd::string::*;

verus! {

/// How many rows the array has room for.
pub const SISMO_UNWIND_MAX_ROWS: usize = 2097152;

pub const MAPPING_TYPE_FILE: u32 = 0;

pub const MAPPING_TYPE_VDSO: u32 = 2;

/// The operation of an unwind expression that adds a constant to an address.
pub const DW_OP_PLUS_UCONST: u8 = 0x23;

/// The machine number of arm64 in an ELF header.
pub const EM_AARCH64: u8 = 0xb7;

/// How the unwinder finds the frame address: past the end of a function.
pub const CFA_END_FDE: u8 = 7;

/// How the unwinder finds the frame address: at an offset from the stack pointer.
pub const CFA_STACK_POINTER: u8 = 2;

/// How the unwinder finds the frame address: the offset did not fit.
pub const CFA_OFFSET_DID_NOT_FIT: u8 = 9;

/// The frame pointer is unchanged.
pub const RBP_UNCHANGED: u8 = 0;

/// An unwind row: what holds from `pc` on.
#[derive(Clone, Copy, PartialEq, Eq, Structural, Debug)]
pub struct UnwindRow {
    pub pc: u64,
    pub cfa_type: u8,
    pub rbp_type: u8,
    pub cfa_offset: u16,
    pub rbp_offset: i16,
}

/// A row as the array holds it: the address within its page.
#[derive(Clone, Copy, PartialEq, Eq, Structural, Debug)]
pub struct StackUnwindRow {
    pub pc_low: u16,
    pub cfa_type: u8,
    pub rbp_type: u8,
    pub cfa_offset: u16,
    pub rbp_offset: i16,
}

/// A page of a module and its rows, from `low_index` up to `high_index`.
#[derive(Clone, Copy, PartialEq, Eq, Structural, Debug)]
pub struct PageRange {
    pub address: u64,
    pub low_index: u32,
    pub high_index: u32,
}

/// An entry of the page index.
#[derive(Clone, Copy, PartialEq, Eq, Structural, Debug)]
pub struct PageEntry {
    pub executable_id: u64,
    pub file_offset: u64,
    pub low_index: u32,
    pub high_index: u32,
}

/// A mapping of the target.
#[derive(Clone, Copy, PartialEq, Eq, Structural, Debug)]
pub struct BpfMapping {
    pub executable_id: u64,
    pub load_address: u64,
    pub begin: u64,
    pub end: u64,
    pub kind: u32,
}

/// An entry of the trie. The key is the process and the address, big-endian, so
/// that its prefix bits are those of the address; the prefix counts both.
pub struct MappingEntry {
    pub prefix_len: u32,
    pub key: Vec<u8>,
    pub mapping: BpfMapping,
}

/// An entry of the trie, as plain values.
pub struct MappingEntryView {
    pub prefix_len: u32,
    pub key: Seq<u8>,
    pub mapping: BpfMapping,
}

impl View for MappingEntry {
    type V = MappingEntryView;

    open spec fn view(&self) -> MappingEntryView {
        MappingEntryView { prefix_len: self.prefix_len, key: self.key@, mapping: self.mapping }
    }
}

pub open spec fn entry_views(s: Seq<MappingEntry>) -> Seq<MappingEntryView> {
    Seq::new(s.len(), |i: int| s[i]@)
}

/// What a module adds to the maps, in the order it is written: the rows, from
/// `start` on; then the pages, which refer to them; then the mappings, which make
/// the module visible to the unwinder.
pub struct InstallPlan {
    pub start: usize,
    pub rows: Vec<StackUnwindRow>,
    pub pages: Vec<PageEntry>,
    pub mappings: Vec<MappingEntry>,
}

/// What `lightswitch_unwind_info::pages::to_pages` gives for rows with these
/// addresses.
pub uninterp spec fn pages_of(pcs: Seq<u64>) -> Seq<PageRange>;

/// `lightswitch_unwind_info::pages::to_pages` on rows with these addresses: pages of
/// 64 KiB, each with a range of rows that is not empty and within the rows; the
/// page of every row's address has a range that holds the row.
#[verifier::external_body]
fn to_pages(pcs: &[u64]) -> (r: Vec<PageRange>)
    requires
        pcs@.len() <= u32::MAX,
        forall|i: int| 0 <= i < pcs@.len() ==> (#[trigger] pcs@[i]) < 0xffff_ffff_ffff_0000,
    ensures
        r@ == pages_of(pcs@),
        forall|i: int|
            0 <= i < r@.len() ==> (#[trigger] r@[i]).low_index < r@[i].high_index
                && r@[i].high_index <= pcs@.len() && r@[i].address % 0x1_0000 == 0,
        forall|k: int|
            0 <= k < pcs@.len() ==> exists|i: int|
                0 <= i < r@.len() && (#[trigger] r@[i]).address == (#[trigger] pcs@[k]) / 0x1_0000
                    * 0x1_0000 && r@[i].low_index <= k < r@[i].high_index,
{
    let row = |pc: &u64| lightswitch_unwind_info::types::CompactUnwindRow {
        pc: *pc,
        ..Default::default()
    };
    let rows: Vec<lightswitch_unwind_info::types::CompactUnwindRow> = pcs.iter().map(row).collect();
    lightswitch_unwind_info::pages::to_pages(&rows)
        .into_iter()
        .map(|p| PageRange { address: p.address, low_index: p.low_index, high_index: p.high_index })
        .collect()
}

/// Whether two additions of constants stand at `i`, one behind the other, whose sum
/// does not fit in 64 bits.
pub open spec fn sum_overflows_at(b: Seq<u8>, i: int) -> bool {
    if 0 <= i < b.len() && b[i] == DW_OP_PLUS_UCONST {
        match wire::read_varint(b.skip(i + 1)) {
            Some((x, n)) => if i + 1 + n < b.len() && b[i + 1 + n] == DW_OP_PLUS_UCONST {
                match wire::read_varint(b.skip(i + 2 + n)) {
                    Some((y, _)) => x + y > u64::MAX,
                    None => false,
                }
            } else {
                false
            },
            None => false,
        }
    } else {
        false
    }
}

/// Whether every sum of two constants fits in 64 bits.
pub open spec fn sums_fit(b: Seq<u8>) -> bool {
    forall|i: int| !#[trigger] sum_overflows_at(b, i)
}

fn sum_overflows(b: &[u8], i: usize) -> (r: bool)
    requires
        i < b@.len(),
    ensures
        r == sum_overflows_at(b@, i as int),
{
    let len: usize = b.len();
    if b[i] != DW_OP_PLUS_UCONST {
        return false;
    }
    let rest = vstd::slice::slice_subrange(b, i + 1, len);
    assert(rest@ =~= b@.skip(i + 1));
    match read_varint(rest) {
        None => false,
        Some((x, n)) => {
            if n >= len - i - 1 || b[i + 1 + n] != DW_OP_PLUS_UCONST {
                return false;
            }
            let last = vstd::slice::slice_subrange(b, i + 2 + n, len);
            assert(last@ =~= b@.skip(i + 2 + n));
            match read_varint(last) {
                None => false,
                Some((y, _)) => x > u64::MAX - y,
            }
        },
    }
}

/// Whether every sum of two constants in an unwind expression fits in 64 bits.
pub fn constants_fit(b: &[u8]) -> (r: bool)
    ensures
        r == sums_fit(b@),
{
    let mut i: usize = 0;
    while i < b.len()
        invariant
            i <= b@.len(),
            forall|j: int| j < i ==> !#[trigger] sum_overflows_at(b@, j),
        decreases b@.len() - i,
    {
        if sum_overflows(b, i) {
            assert(sum_overflows_at(b@, i as int));
            return false;
        }
        i += 1;
    }
    true
}

/// The bytes of the LEB128 number at `i`: up to the first without a continuation bit,
/// or up to the end.
pub open spec fn leb_len(b: Seq<u8>, i: int) -> nat
    decreases b.len() - i,
{
    if 0 <= i < b.len() {
        if b[i] < 0x80 {
            1
        } else {
            1 + leb_len(b, i + 1)
        }
    } else {
        0
    }
}

/// The first zero byte from `i` on; the end where there is none.
pub open spec fn zero_from(b: Seq<u8>, i: int) -> int
    decreases b.len() - i,
{
    if 0 <= i < b.len() && b[i] != 0 {
        zero_from(b, i + 1)
    } else {
        i
    }
}

/// Where the factor of the offsets stands in a common information entry whose id is
/// at `p`: behind the id, which is four zero bytes, a version, a text that ends with
/// a zero byte, and a LEB128 number.
pub open spec fn factor_at(b: Seq<u8>, p: int) -> Option<int> {
    if 0 <= p && p + 5 <= b.len() && b[p] == 0 && b[p + 1] == 0 && b[p + 2] == 0 && b[p + 3] == 0
        && (b[p + 4] == 1 || b[p + 4] == 3 || b[p + 4] == 4) {
        let end = zero_from(b, p + 5);
        if end < b.len() {
            Some(end + 1 + leb_len(b, end + 1))
        } else {
            None
        }
    } else {
        None
    }
}

/// The unsigned LEB128 number at `i`.
pub open spec fn unsigned_at(b: Seq<u8>, i: int) -> int
    decreases b.len() - i,
{
    if 0 <= i < b.len() {
        if b[i] < 0x80 {
            b[i] as int
        } else {
            b[i] - 0x80 + 0x80 * unsigned_at(b, i + 1)
        }
    } else {
        0
    }
}

/// The signed LEB128 number at `i`.
pub open spec fn signed_at(b: Seq<u8>, i: int) -> int
    decreases b.len() - i,
{
    if 0 <= i < b.len() {
        if b[i] < 0x40 {
            b[i] as int
        } else if b[i] < 0x80 {
            b[i] - 0x80
        } else {
            b[i] - 0x80 + 0x80 * signed_at(b, i + 1)
        }
    } else {
        0
    }
}

/// The last 64 bits of a number.
pub open spec fn low_bits(x: int) -> u64 {
    (x % 0x1_0000_0000_0000_0000) as u64
}

/// Whether the offset that a number and its factor make, in 64 bits, is so close to
/// either end that a number of 16 bits may not be taken from it.
pub open spec fn near_end(x: int, factor: int) -> bool {
    at_an_end(low_bits(x * factor))
}

/// Whether 64 bits, as a signed number, are that close to either end.
pub open spec fn at_an_end(bits: u64) -> bool {
    0x7fff_ffff_ffff_8000 <= bits < 0x8000_0000_0000_8000
}

/// Whether 64 bits are those of a factor of offsets.
spec fn is_factor(b: Seq<u8>, bits: u64) -> bool {
    exists|p: int|
        (#[trigger] factor_at(b, p)) is Some && bits == low_bits(
            signed_at(b, factor_at(b, p)->0),
        )
}

/// Whether no offset, from whatever number and factor it is made, is near an end.
pub open spec fn offsets_fit(b: Seq<u8>) -> bool {
    forall|p: int, i: int|
        (#[trigger] factor_at(b, p)) is Some ==> !near_end(
            #[trigger] unsigned_at(b, i),
            signed_at(b, factor_at(b, p)->0),
        ) && !near_end(signed_at(b, i), signed_at(b, factor_at(b, p)->0))
}

/// A number with seven more bits below it.
proof fn lemma_low_bits_group(c: int, x: int)
    ensures
        low_bits(c + 0x80 * low_bits(x)) == low_bits(c + 0x80 * x),
{
    let m: int = 0x1_0000_0000_0000_0000;
    lemma_mul_mod_noop_right(0x80, x, m);
    lemma_add_mod_noop_right(c, 0x80 * (x % m), m);
    lemma_add_mod_noop_right(c, 0x80 * x, m);
}

proof fn lemma_low_bits_product(x: int, y: int)
    ensures
        low_bits(low_bits(x) * low_bits(y)) == low_bits(x * y),
{
    lemma_mul_mod_noop(x, y, 0x1_0000_0000_0000_0000);
}

/// A number of which `byte` is the first: `last` where it is the only one, else
/// the byte's seven bits below `more`.
fn group(byte: u8, last: u64, more: u64) -> (r: u64)
    ensures
        byte < 0x80 ==> r == last,
        byte >= 0x80 ==> forall|x: int| more == #[trigger] low_bits(x) ==> r == low_bits(
            byte - 0x80 + 0x80 * x,
        ),
{
    if byte < 0x80 {
        return last;
    }
    let r: u64 = ((byte - 0x80) as u64).wrapping_add(more.wrapping_mul(0x80));
    proof {
        let c = byte - 0x80;
        assert forall|x: int| more == #[trigger] low_bits(x) implies r == low_bits(c + 0x80 * x) by {
            lemma_low_bits_group(c, x);
            lemma_add_mod_noop_right(c, 0x80 * more, 0x1_0000_0000_0000_0000);
        }
    }
    r
}

fn signed_byte(byte: u8) -> (r: u64)
    requires
        byte < 0x80,
    ensures
        r == low_bits(
            if byte < 0x40 {
                byte as int
            } else {
                byte - 0x80
            },
        ),
{
    if byte < 0x40 {
        byte as u64
    } else {
        0xffff_ffff_ffff_ff80u64 + byte as u64
    }
}

fn leb_len_of(b: &[u8], i: usize) -> (n: usize)
    requires
        i <= b@.len(),
    ensures
        n == leb_len(b@, i as int),
        n <= b@.len() - i,
{
    let len: usize = b.len();
    let mut n: usize = 0;
    while n < len - i && b[i + n] >= 0x80
        invariant
            i <= len,
            len == b@.len(),
            n <= len - i,
            leb_len(b@, i as int) == n + leb_len(b@, i + n),
        decreases len - i - n,
    {
        n += 1;
    }
    if n < len - i {
        n + 1
    } else {
        n
    }
}

fn factor_of(b: &[u8], p: usize) -> (r: Option<usize>)
    requires
        p < b@.len(),
    ensures
        match r {
            Some(i) => factor_at(b@, p as int) == Some(i as int) && i <= b@.len(),
            None => factor_at(b@, p as int) is None,
        },
{
    let len: usize = b.len();
    if len - p < 5 || b[p] != 0 || b[p + 1] != 0 || b[p + 2] != 0 || b[p + 3] != 0 {
        return None;
    }
    let version: u8 = b[p + 4];
    if version != 1 && version != 3 && version != 4 {
        return None;
    }
    let mut end: usize = p + 5;
    while end < len && b[end] != 0
        invariant
            p + 5 <= end <= len,
            len == b@.len(),
            zero_from(b@, p + 5) == zero_from(b@, end as int),
        decreases len - end,
    {
        end += 1;
    }
    if end == len {
        return None;
    }
    let n: usize = leb_len_of(b, end + 1);
    Some(end + 1 + n)
}

/// The signed LEB128 number at `i`.
fn signed_of(b: &[u8], i: usize) -> (r: u64)
    requires
        i <= b@.len(),
    ensures
        r == low_bits(signed_at(b@, i as int)),
{
    let len: usize = b.len();
    let mut k: usize = i;
    while k < len && b[k] >= 0x80
        invariant
            i <= k <= len,
            len == b@.len(),
            forall|j: int| i <= j < k ==> (#[trigger] b@[j]) >= 0x80,
        decreases len - k,
    {
        k += 1;
    }
    let mut r: u64 = if k < len {
        signed_byte(b[k])
    } else {
        0
    };
    while k > i
        invariant
            i <= k <= len,
            len == b@.len(),
            forall|j: int| i <= j < k ==> (#[trigger] b@[j]) >= 0x80,
            r == low_bits(signed_at(b@, k as int)),
        decreases k,
    {
        k -= 1;
        r = group(b[k], 0, r);
    }
    r
}

/// The factors of offsets, each once.
fn factors_of(b: &[u8]) -> (r: Vec<u64>)
    ensures
        forall|p: int|
            (#[trigger] factor_at(b@, p)) is Some ==> r@.contains(
                low_bits(signed_at(b@, factor_at(b@, p)->0)),
            ),
        forall|k: int|
            0 <= k < r@.len() ==> is_factor(b@, #[trigger] r@[k]),
{
    let mut r: Vec<u64> = Vec::new();
    let mut p: usize = 0;
    while p < b.len()
        invariant
            p <= b@.len(),
            forall|q: int|
                q < p && (#[trigger] factor_at(b@, q)) is Some ==> r@.contains(
                    low_bits(signed_at(b@, factor_at(b@, q)->0)),
                ),
            forall|k: int|
                0 <= k < r@.len() ==> is_factor(b@, #[trigger] r@[k]),
        decreases b@.len() - p,
    {
        if let Some(i) = factor_of(b, p) {
            let factor: u64 = signed_of(b, i);
            if find_u64(&r, factor).is_none() {
                let ghost before = r@;
                r.push(factor);
                proof {
                    assert(r@.last() == factor);
                    assert forall|q: int|
                        q < p && (#[trigger] factor_at(b@, q)) is Some implies r@.contains(
                        low_bits(signed_at(b@, factor_at(b@, q)->0)),
                    ) by {
                        let x = low_bits(signed_at(b@, factor_at(b@, q)->0));
                        let k = choose|k: int| 0 <= k < before.len() && before[k] == x;
                        assert(r@[k] == x);
                    }
                    assert forall|k: int| 0 <= k < r@.len() implies is_factor(b@, #[trigger] r@[k]) by {
                        if k == before.len() {
                            assert(factor_at(b@, p as int) is Some);
                        } else {
                            assert(r@[k] == before[k]);
                        }
                    }
                }
            }
        }
        p += 1;
    }
    r
}

/// Whether an offset, given by the last bits of its number, is near an end with none of
/// the factors.
spec fn clear(number: u64, factors: Seq<u64>) -> bool {
    forall|k: int| 0 <= k < factors.len() ==> !at_an_end(low_bits(number * #[trigger] factors[k]))
}

/// Whether an offset, given by the last bits of its number, is near an end with one
/// of the factors.
fn any_near_end(number: u64, factors: &Vec<u64>) -> (r: bool)
    ensures
        r <==> exists|k: int|
            0 <= k < factors@.len() && at_an_end(low_bits(number * #[trigger] factors@[k])),
        r == !clear(number, factors@),
{
    let mut k: usize = 0;
    while k < factors.len()
        invariant
            k <= factors@.len(),
            forall|j: int|
                0 <= j < k ==> !at_an_end(low_bits(number * #[trigger] factors@[j])),
        decreases factors@.len() - k,
    {
        let offset: u64 = number.wrapping_mul(factors[k]);
        if 0x7fff_ffff_ffff_8000 <= offset && offset < 0x8000_0000_0000_8000 {
            return true;
        }
        k += 1;
    }
    false
}

/// Whether no offset of the unwind information is near an end of 64 bits.
pub fn offsets_in_range(b: &[u8]) -> (r: bool)
    ensures
        r == offsets_fit(b@),
{
    let factors = factors_of(b);
    let mut i: usize = b.len();
    let mut unsigned: u64 = 0;
    let mut signed: u64 = 0;
    while i > 0
        invariant
            i <= b@.len(),
            unsigned == low_bits(unsigned_at(b@, i as int)),
            signed == low_bits(signed_at(b@, i as int)),
            forall|k: int|
                0 <= k < factors@.len() ==> is_factor(b@, #[trigger] factors@[k]),
            forall|p: int|
                (#[trigger] factor_at(b@, p)) is Some ==> factors@.contains(
                    low_bits(signed_at(b@, factor_at(b@, p)->0)),
                ),
            forall|j: int|
                i <= j < b@.len() ==> clear(
                    low_bits(#[trigger] unsigned_at(b@, j)),
                    factors@,
                ) && clear(low_bits(signed_at(b@, j)), factors@),
        decreases i,
    {
        i -= 1;
        let byte: u8 = b[i];
        let last: u64 = if byte < 0x80 {
            signed_byte(byte)
        } else {
            0
        };
        signed = group(byte, last, signed);
        unsigned = group(byte, byte as u64, unsigned);
        let far: bool = any_near_end(unsigned, &factors);
        if far || any_near_end(signed, &factors) {
            proof {
                let x = if far {
                    unsigned
                } else {
                    signed
                };
                let k = choose|k: int|
                    0 <= k < factors@.len() && at_an_end(low_bits(x * #[trigger] factors@[k]));
                assert(is_factor(b@, factors@[k]));
                let p = choose|p: int|
                    (#[trigger] factor_at(b@, p)) is Some && factors@[k] == low_bits(
                        signed_at(b@, factor_at(b@, p)->0),
                    );
                let f = signed_at(b@, factor_at(b@, p)->0);
                lemma_low_bits_product(unsigned_at(b@, i as int), f);
                lemma_low_bits_product(signed_at(b@, i as int), f);
                assert(near_end(unsigned_at(b@, i as int), f) || near_end(
                    signed_at(b@, i as int),
                    f,
                ));
            }
            return false;
        }
    }
    proof {
        assert forall|p: int, j: int| (#[trigger] factor_at(b@, p)) is Some implies !near_end(
            #[trigger] unsigned_at(b@, j),
            signed_at(b@, factor_at(b@, p)->0),
        ) && !near_end(signed_at(b@, j), signed_at(b@, factor_at(b@, p)->0)) by {
            let f = signed_at(b@, factor_at(b@, p)->0);
            let k = choose|k: int| 0 <= k < factors@.len() && factors@[k] == low_bits(f);
            assert(factors@.contains(low_bits(f)));
            lemma_low_bits_product(unsigned_at(b@, j), f);
            lemma_low_bits_product(signed_at(b@, j), f);
            if !(0 <= j < b@.len()) {
                assert(0 * f == 0) by (nonlinear_arith);
            }
        }
    }
    true
}

/// Whether bytes are those of an ELF file.
pub open spec fn is_elf(image: Seq<u8>) -> bool {
    image.len() >= 4 && image.take(4) == seq![0x7fu8, 0x45, 0x4c, 0x46]
}

/// Whether an ELF file is for arm64, in either byte order.
pub open spec fn is_arm64(image: Seq<u8>) -> bool {
    image.len() >= 20 && ((image[18] == EM_AARCH64 && image[19] == 0) || (image[18] == 0
        && image[19] == EM_AARCH64))
}

/// Whether the numbers fit that come up when the unwind information of an ELF file is
/// converted, which is its `.eh_frame` or, without one, a part of the file: the sums
/// of constants, and for arm64 the differences of offsets.
pub open spec fn convertible(image: Seq<u8>, eh_frame: Option<Seq<u8>>) -> bool {
    let b = match eh_frame {
        Some(b) => b,
        None => image,
    };
    &&& is_elf(image)
    &&& sums_fit(b)
    &&& is_arm64(image) ==> offsets_fit(b)
}

/// Whether the unwind information of an executable, whose `.eh_frame` is given, can
/// be converted.
pub fn can_convert(image: &[u8], eh_frame: Option<&[u8]>) -> (r: bool)
    ensures
        r == convertible(
            image@,
            match eh_frame {
                Some(b) => Some(b@),
                None => None,
            },
        ),
{
    if !has_elf_magic(image) {
        return false;
    }
    let b: &[u8] = match eh_frame {
        Some(b) => b,
        None => image,
    };
    let arm64: bool = image.len() >= 20 && ((image[18] == EM_AARCH64 && image[19] == 0) || (
    image[18] == 0 && image[19] == EM_AARCH64));
    constants_fit(b) && (!arm64 || offsets_in_range(b))
}

fn has_elf_magic(image: &[u8]) -> (r: bool)
    ensures
        r == is_elf(image@),
{
    if image.len() < 4 {
        return false;
    }
    let elf: bool = image[0] == 0x7f && image[1] == 0x45 && image[2] == 0x4c && image[3] == 0x46;
    proof {
        let m = seq![0x7fu8, 0x45, 0x4c, 0x46];
        let h = image@.take(4);
        assert(h[0] == image@[0] && h[1] == image@[1] && h[2] == image@[2] && h[3] == image@[3]);
        assert(m[0] == 0x7f && m[1] == 0x45 && m[2] == 0x4c && m[3] == 0x46);
        if elf {
            assert(h =~= m);
        }
    }
    elf
}

/// What `object::File::parse`, `object::Object::section_by_name` and
/// `object::ObjectSection::uncompressed_data` give for the `.eh_frame` of an
/// executable's bytes; None where one of them gives nothing.
pub uninterp spec fn eh_frame_of(image: Seq<u8>) -> Option<Seq<u8>>;

/// Calls `object::File::parse` on the bytes of an executable, then
/// `object::Object::section_by_name` for `.eh_frame`, then
/// `object::ObjectSection::uncompressed_data`: the bytes of that section. None where
/// the executable cannot be read, has no such section, or its bytes cannot be had.
#[verifier::external_body]
fn eh_frame(image: &[u8]) -> (r: Option<Vec<u8>>)
    ensures
        match r {
            Some(b) => eh_frame_of(image@) == Some(b@),
            None => eh_frame_of(image@) is None,
        },
{
    let file = object::File::parse(image).ok()?;
    let section = file.section_by_name(".eh_frame")?;
    Some(section.uncompressed_data().ok()?.into_owned())
}

/// What `lightswitch_unwind_info::compact_unwind_info` gives for an executable's
/// bytes; None where it fails.
pub uninterp spec fn eh_frame_rows(image: Seq<u8>) -> Option<Seq<UnwindRow>>;

/// `lightswitch_unwind_info::compact_unwind_info` on the bytes of an executable,
/// without a first frame to override: the rows of its `.eh_frame`, or None where
/// there is none that can be read. It adds up two constants of an expression, and for
/// arm64 takes the difference of an offset and one of 16 bits, without looking whether
/// the result fits: an executable on which one might not is left out. An offset is a
/// LEB128 number times the factor of its common information entry. Which of the others
/// it refuses is not said here.
#[verifier::external_body]
fn compact_unwind_info(image: &[u8]) -> (r: Option<Vec<UnwindRow>>)
    requires
        convertible(image@, eh_frame_of(image@)),
    ensures
        match r {
            Some(v) => eh_frame_rows(image@) == Some(v@),
            None => eh_frame_rows(image@) is None,
        },
{
    let rows = lightswitch_unwind_info::compact_unwind_info(image, None).ok()?;
    let convert = |r: lightswitch_unwind_info::types::CompactUnwindRow| UnwindRow {
        pc: r.pc,
        cfa_type: r.cfa_type as u8,
        rbp_type: r.rbp_type as u8,
        cfa_offset: r.cfa_offset,
        rbp_offset: r.rbp_offset,
    };
    Some(rows.into_iter().map(convert).collect())
}

/// A row of a Go function: the frame size from `pc` on, None where the table ends.
pub open spec fn go_row(pc: u64, frame_size: Option<i32>) -> UnwindRow {
    match frame_size {
        None => UnwindRow {
            pc,
            cfa_type: CFA_END_FDE,
            rbp_type: RBP_UNCHANGED,
            cfa_offset: 0,
            rbp_offset: 0,
        },
        Some(fs) => if fs < 0 || fs + 8 > u16::MAX {
            UnwindRow {
                pc,
                cfa_type: CFA_OFFSET_DID_NOT_FIT,
                rbp_type: RBP_UNCHANGED,
                cfa_offset: 0,
                rbp_offset: 0,
            }
        } else {
            UnwindRow {
                pc,
                cfa_type: CFA_STACK_POINTER,
                rbp_type: RBP_UNCHANGED,
                cfa_offset: (fs + 8) as u16,
                rbp_offset: 0,
            }
        },
    }
}

pub open spec fn go_rows(segs: Seq<(u64, Option<i32>)>) -> Seq<UnwindRow> {
    Seq::new(segs.len(), |i: int| go_row(segs[i].0, segs[i].1))
}

/// The rows of a Go binary from its frame sizes: the frame address is the stack
/// pointer, the frame size and the pushed return address. None where there are no
/// frame sizes.
pub fn go_unwind_rows(segs: &Vec<(u64, Option<i32>)>) -> (r: Option<Vec<UnwindRow>>)
    ensures
        match r {
            Some(v) => segs@.len() > 0 && v@ == go_rows(segs@),
            None => segs@.len() == 0,
        },
{
    if segs.len() == 0 {
        return None;
    }
    let mut rows: Vec<UnwindRow> = Vec::new();
    let mut i: usize = 0;
    while i < segs.len()
        invariant
            i <= segs@.len(),
            rows@ == go_rows(segs@).take(i as int),
        decreases segs@.len() - i,
    {
        let (pc, fs) = segs[i];
        let row: UnwindRow = match fs {
            None => UnwindRow {
                pc,
                cfa_type: CFA_END_FDE,
                rbp_type: RBP_UNCHANGED,
                cfa_offset: 0,
                rbp_offset: 0,
            },
            Some(fs) => if fs < 0 || fs as i64 + 8 > 65535 {
                UnwindRow {
                    pc,
                    cfa_type: CFA_OFFSET_DID_NOT_FIT,
                    rbp_type: RBP_UNCHANGED,
                    cfa_offset: 0,
                    rbp_offset: 0,
                }
            } else {
                UnwindRow {
                    pc,
                    cfa_type: CFA_STACK_POINTER,
                    rbp_type: RBP_UNCHANGED,
                    cfa_offset: (fs as i64 + 8) as u16,
                    rbp_offset: 0,
                }
            },
        };
        rows.push(row);
        i += 1;
        assert(rows@ =~= go_rows(segs@).take(i as int));
    }
    assert(go_rows(segs@).take(i as int) =~= go_rows(segs@));
    Some(rows)
}

/// The address range that starts a maps line.
pub open spec fn line_range(line: Seq<char>) -> Option<(u64, u64)> {
    match text::split_once(text::first_word(line), '-') {
        None => None,
        Some((a, b)) => match (
            text::parse_unsigned(a, 16, u64::MAX as nat),
            text::parse_unsigned(b, 16, u64::MAX as nat),
        ) {
            (Some(s), Some(e)) => Some((s as u64, e as u64)),
            _ => None,
        },
    }
}

/// The range of the first line, from `i` on, that ends with `[vdso]`.
pub open spec fn vdso_from(lines: Seq<Seq<char>>, i: nat) -> Option<(u64, u64)>
    decreases lines.len() - i,
{
    if i >= lines.len() {
        None
    } else if text::ends_with(lines[i as int], "[vdso]"@) {
        line_range(lines[i as int])
    } else {
        vdso_from(lines, i + 1)
    }
}

/// The range of the `[vdso]` mapping in the text of `/proc/<pid>/maps`.
pub fn vdso_range(maps: &str) -> (r: Option<(u64, u64)>)
    ensures
        r == vdso_from(text::lines(maps@), 0),
{
    let lines = lines_of(maps);
    let suffix = text::chars_of("[vdso]");
    let ghost ls = text::lines(maps@);
    let mut i: usize = 0;
    while i < lines.len()
        invariant
            i <= lines@.len(),
            intern::rows(lines@) == ls,
            ls == text::lines(maps@),
            suffix@ == "[vdso]"@,
            vdso_from(ls, i as nat) == vdso_from(ls, 0),
        decreases lines@.len() - i,
    {
        assert(lines@[i as int]@ == ls[i as int]);
        if has_suffix(lines[i].as_slice(), suffix.as_slice()) {
            return match split_at_first(first_word_of(lines[i].as_slice()), '-') {
                None => None,
                Some((a, b)) => match (unsigned_of(a, true, u64::MAX), unsigned_of(
                    b,
                    true,
                    u64::MAX,
                )) {
                    (Some(s), Some(e)) => Some((s, e)),
                    _ => None,
                },
            };
        }
        i += 1;
    }
    None
}

/// The load bias of an ELF file: 0 for an executable that is linked at its
/// address (type 2), the image base for a shared object (type 3).
pub open spec fn load_bias(header: Seq<u8>, base_avma: u64) -> Option<u64> {
    if header.len() < 18 || !is_elf(header) {
        None
    } else if header[16] == 2 && header[17] == 0 {
        Some(0)
    } else if header[16] == 3 && header[17] == 0 {
        Some(base_avma)
    } else {
        None
    }
}

/// The load bias of an ELF file that starts with `header`.
pub fn elf_load_bias(header: &[u8], base_avma: u64) -> (r: Option<u64>)
    ensures
        r == load_bias(header@, base_avma),
{
    if header.len() < 18 || !has_elf_magic(header) {
        return None;
    }
    if header[16] == 2 && header[17] == 0 {
        Some(0)
    } else if header[16] == 3 && header[17] == 0 {
        Some(base_avma)
    } else {
        None
    }
}

/// The rows of a module and the address they are relative to: Go's own tables
/// where there are some, which are relative to the image base; else the rows of
/// the file's `.eh_frame`.
pub open spec fn rows_of_module(base_avma: u64, go: Option<Seq<UnwindRow>>, image: Seq<u8>) -> Option<
    (Seq<UnwindRow>, u64),
> {
    match go {
        Some(rows) => Some((rows, base_avma)),
        None => match (load_bias(image, base_avma), eh_frame_rows(image)) {
            (Some(bias), Some(rows)) => Some((rows, bias)),
            _ => None,
        },
    }
}

/// Rows, and where they are relative to, as plain values.
pub open spec fn rows_view(r: Option<(Vec<UnwindRow>, u64)>) -> Option<(Seq<UnwindRow>, u64)> {
    match r {
        Some((rows, load)) => Some((rows@, load)),
        None => None,
    }
}

pub open spec fn go_view(go: Option<Vec<UnwindRow>>) -> Option<Seq<UnwindRow>> {
    match go {
        Some(rows) => Some(rows@),
        None => None,
    }
}

/// Whether the rows of a module come from unwind information that has to be
/// converted, and cannot be.
pub open spec fn left_out(base_avma: u64, go: Option<Seq<UnwindRow>>, image: Seq<u8>) -> bool {
    go is None && load_bias(image, base_avma) is Some && !convertible(image, eh_frame_of(image))
}

/// The rows of a module and the address they are relative to.
pub fn module_rows(base_avma: u64, go: Option<Vec<UnwindRow>>, image: &[u8]) -> (r: Option<
    (Vec<UnwindRow>, u64),
>)
    requires
        !left_out(base_avma, go_view(go), image@),
    ensures
        rows_view(r) == rows_of_module(base_avma, go_view(go), image@),
{
    if let Some(rows) = go {
        return Some((rows, base_avma));
    }
    match elf_load_bias(image, base_avma) {
        None => None,
        Some(bias) => match compact_unwind_info(image) {
            Some(rows) => Some((rows, bias)),
            None => None,
        },
    }
}

/// The rows of any module, as [`module_rows`] gives them; None where its unwind
/// information has to be converted and cannot be.
pub fn checked_module_rows(base_avma: u64, go: Option<Vec<UnwindRow>>, image: &[u8]) -> (r: Option<
    Option<(Vec<UnwindRow>, u64)>,
>)
    ensures
        match r {
            Some(rows) => !left_out(base_avma, go_view(go), image@) && rows_view(rows)
                == rows_of_module(base_avma, go_view(go), image@),
            None => left_out(base_avma, go_view(go), image@),
        },
{
    if go.is_none() && elf_load_bias(image, base_avma).is_some() {
        let fits: bool = match eh_frame(image) {
            Some(b) => can_convert(image, Some(b.as_slice())),
            None => can_convert(image, None),
        };
        if !fits {
            return None;
        }
    }
    Some(module_rows(base_avma, go, image))
}

/// How much of our own vDSO stands for the target's: the image is the same in
/// every process. None where our own is not where the auxiliary vector says, or is
/// empty.
pub fn vdso_span(target: (u64, u64), own_base: u64, own: Option<(u64, u64)>) -> (r: Option<u64>)
    requires
        target.0 <= target.1,
    ensures
        r == (match own {
            Some((s, e)) => if own_base == s && s < e {
                Some(
                    if target.1 - target.0 < e - s {
                        (target.1 - target.0) as u64
                    } else {
                        (e - s) as u64
                    },
                )
            } else {
                None
            },
            None => None,
        }),
{
    match own {
        Some((s, e)) => {
            if own_base != s || e <= s {
                return None;
            }
            let wanted: u64 = target.1 - target.0;
            let have: u64 = e - s;
            if wanted < have {
                Some(wanted)
            } else {
                Some(have)
            }
        },
        None => None,
    }
}

/// The big-endian bytes of a u32.
pub open spec fn be32(v: u32) -> Seq<u8> {
    seq![
        (v / 0x100_0000) as u8,
        (v / 0x1_0000 % 0x100) as u8,
        (v / 0x100 % 0x100) as u8,
        (v % 0x100) as u8,
    ]
}

/// The key of an address of a process.
pub open spec fn trie_key(pid: u32, addr: u64) -> Seq<u8> {
    be32(pid) + be32((addr / 0x1_0000_0000) as u32) + be32((addr % 0x1_0000_0000) as u32)
}

fn push_be32(out: &mut Vec<u8>, v: u32)
    ensures
        final(out)@ == old(out)@ + be32(v),
{
    out.push((v / 0x100_0000) as u8);
    out.push((v / 0x1_0000 % 0x100) as u8);
    out.push((v / 0x100 % 0x100) as u8);
    out.push((v % 0x100) as u8);
    assert(out@ =~= old(out)@ + be32(v));
}

/// The key of an address of a process.
pub fn exec_mappings_key(pid: u32, addr: u64) -> (r: Vec<u8>)
    ensures
        r@ == trie_key(pid, addr),
{
    let mut r: Vec<u8> = Vec::new();
    push_be32(&mut r, pid);
    push_be32(&mut r, (addr / 0x1_0000_0000) as u32);
    push_be32(&mut r, (addr % 0x1_0000_0000) as u32);
    assert(r@ =~= trie_key(pid, addr));
    r
}

/// A row as the array holds it.
pub open spec fn wire_row(row: UnwindRow) -> StackUnwindRow {
    StackUnwindRow {
        pc_low: (row.pc % 0x1_0000) as u16,
        cfa_type: row.cfa_type,
        rbp_type: row.rbp_type,
        cfa_offset: row.cfa_offset,
        rbp_offset: row.rbp_offset,
    }
}

pub open spec fn wire_rows(rows: Seq<UnwindRow>) -> Seq<StackUnwindRow> {
    Seq::new(rows.len(), |i: int| wire_row(rows[i]))
}

pub open spec fn row_pcs(rows: Seq<UnwindRow>) -> Seq<u64> {
    Seq::new(rows.len(), |i: int| rows[i].pc)
}

/// A page of a module whose rows start at `start`.
pub open spec fn page_entry(executable_id: u64, start: nat, p: PageRange) -> PageEntry {
    PageEntry {
        executable_id,
        file_offset: p.address,
        low_index: (start + p.low_index) as u32,
        high_index: (start + p.high_index) as u32,
    }
}

pub open spec fn page_entries(executable_id: u64, start: nat, pages: Seq<PageRange>) -> Seq<
    PageEntry,
> {
    Seq::new(pages.len(), |i: int| page_entry(executable_id, start, pages[i]))
}

/// Whether the row at `index` of the array, of address `pc`, is in the range of the
/// page of its address.
pub open spec fn indexed(plan: InstallPlan, pc: u64, index: int) -> bool {
    exists|i: int|
        0 <= i < plan.pages@.len() && (#[trigger] plan.pages@[i]).file_offset == pc / 0x1_0000
            * 0x1_0000 && plan.pages@[i].low_index <= index < plan.pages@[i].high_index
}

/// The trie entries of the first `n` blocks of a mapping.
pub open spec fn block_entries(pid: u32, m: BpfMapping, blocks: Seq<(u64, u32)>, n: nat) -> Seq<
    MappingEntryView,
>
    decreases n,
{
    if n == 0 {
        Seq::empty()
    } else {
        block_entries(pid, m, blocks, (n - 1) as nat).push(
            MappingEntryView {
                prefix_len: (32 + blocks[n - 1].1) as u32,
                key: trie_key(pid, blocks[n - 1].0),
                mapping: m,
            },
        )
    }
}

pub open spec fn mapping_of(executable_id: u64, load_address: u64, range: (u64, u64), kind: u32) -> BpfMapping {
    BpfMapping { executable_id, load_address, begin: range.0, end: range.1, kind }
}

/// The trie entries of one address range, which ends before `range.1`.
pub open spec fn range_entries(
    pid: u32,
    executable_id: u64,
    load_address: u64,
    range: (u64, u64),
    kind: u32,
) -> Seq<MappingEntryView> {
    let b = lpm::blocks(range.0 as nat, (range.1 - 1) as nat);
    block_entries(pid, mapping_of(executable_id, load_address, range, kind), b, b.len())
}

/// The trie entries of the first `n` address ranges.
pub open spec fn mapping_entries(
    pid: u32,
    executable_id: u64,
    load_address: u64,
    ranges: Seq<(u64, u64)>,
    kind: u32,
    n: nat,
) -> Seq<MappingEntryView>
    decreases n,
{
    if n == 0 {
        Seq::empty()
    } else {
        mapping_entries(pid, executable_id, load_address, ranges, kind, (n - 1) as nat)
            + range_entries(pid, executable_id, load_address, ranges[n - 1], kind)
    }
}

/// An executable segment of a module.
pub struct Segment {
    pub base_avma: u64,
    pub start: u64,
    pub end: u64,
    pub path: String,
}

/// A module whose tables are to be loaded: its image base, the path of its first
/// segment, and the address ranges of its segments.
pub struct ModuleLoad {
    pub base_avma: u64,
    pub path: String,
    pub ranges: Vec<(u64, u64)>,
}

/// The address ranges of the segments, among the first `n`, of the module at
/// `base`.
pub open spec fn segment_ranges(segs: Seq<Segment>, base: u64, n: nat) -> Seq<(u64, u64)>
    decreases n,
{
    if n == 0 {
        Seq::empty()
    } else if segs[n - 1].base_avma == base {
        segment_ranges(segs, base, (n - 1) as nat).push((segs[n - 1].start, segs[n - 1].end))
    } else {
        segment_ranges(segs, base, (n - 1) as nat)
    }
}

/// The image bases of the first `n` segments that are not in `loaded`, each once,
/// in the order they are first seen.
pub open spec fn new_bases(segs: Seq<Segment>, loaded: Seq<u64>, n: nat) -> Seq<u64>
    decreases n,
{
    if n == 0 {
        Seq::empty()
    } else {
        let before = new_bases(segs, loaded, (n - 1) as nat);
        let b = segs[n - 1].base_avma;
        if loaded.contains(b) || before.contains(b) {
            before
        } else {
            before.push(b)
        }
    }
}

/// Whether a module has a file to read tables from.
pub fn has_file(path: &str) -> (r: bool)
    ensures
        r == (path@.len() > 0 && path@[0] != '['),
{
    let c = text::chars_of(path);
    c.len() > 0 && c[0] != '['
}

/// The tables of one target: how many rows are taken, which modules were loaded,
/// and what was counted.
pub struct UnwindTables {
    pub next_row: usize,
    pub target_pid: u32,
    /// The image bases of the modules that were loaded, or that had nothing to
    /// load.
    pub loaded: Vec<u64>,
    pub modules_loaded: u64,
    pub rows_loaded: u64,
}

impl UnwindTables {
    pub open spec fn wf(self) -> bool {
        &&& self.next_row <= SISMO_UNWIND_MAX_ROWS
        &&& self.loaded@.no_duplicates()
    }

    pub fn new(target_pid: u32) -> (r: UnwindTables)
        ensures
            r.wf(),
            r.next_row == 0,
            r.target_pid == target_pid,
            r.loaded@.len() == 0,
            r.modules_loaded == 0,
            r.rows_loaded == 0,
    {
        UnwindTables {
            next_row: 0,
            target_pid,
            loaded: Vec::new(),
            modules_loaded: 0,
            rows_loaded: 0,
        }
    }

    /// Mark the module at `base` as loaded; whether it was not yet.
    pub fn mark_loaded(&mut self, base: u64) -> (fresh: bool)
        requires
            old(self).wf(),
        ensures
            final(self).wf(),
            fresh == !old(self).loaded@.contains(base),
            final(self).loaded@ == intern::with_key(old(self).loaded@, base),
            final(self).next_row == old(self).next_row,
            final(self).target_pid == old(self).target_pid,
            final(self).modules_loaded == old(self).modules_loaded,
            final(self).rows_loaded == old(self).rows_loaded,
    {
        if find_u64(&self.loaded, base).is_some() {
            return false;
        }
        let ghost before = self.loaded@;
        self.loaded.push(base);
        assert(self.loaded@.no_duplicates()) by {
            let t = self.loaded@;
            assert forall|i: int, j: int| 0 <= i < t.len() && 0 <= j < t.len() && i != j implies t[i]
                != t[j] by {
                if i == before.len() {
                    assert(before.contains(before[j]));
                } else if j == before.len() {
                    assert(before.contains(before[i]));
                }
            }
        }
        true
    }

    /// The modules among `segs` that were not loaded yet, and mark them as loaded.
    pub fn load_all(&mut self, segs: &Vec<Segment>) -> (r: Vec<ModuleLoad>)
        requires
            old(self).wf(),
        ensures
            final(self).wf(),
            ({
                let bases = new_bases(segs@, old(self).loaded@, segs@.len());
                &&& final(self).loaded@ == old(self).loaded@ + bases
                &&& r@.len() == bases.len()
                &&& forall|i: int|
                    0 <= i < r@.len() ==> (#[trigger] r@[i]).base_avma == bases[i]
                        && r@[i].ranges@ == segment_ranges(segs@, bases[i], segs@.len())
            }),
            forall|i: int|
                0 <= i < r@.len() ==> exists|k: int|
                    0 <= k < segs@.len() && (#[trigger] segs@[k]).base_avma == (#[trigger]
                    r@[i]).base_avma && segs@[k].path@ == r@[i].path@ && forall|j: int|
                        0 <= j < k ==> (#[trigger] segs@[j]).base_avma != r@[i].base_avma,
            final(self).next_row == old(self).next_row,
            final(self).target_pid == old(self).target_pid,
            final(self).modules_loaded == old(self).modules_loaded,
            final(self).rows_loaded == old(self).rows_loaded,
    {
        let ghost loaded0 = self.loaded@;
        let mut r: Vec<ModuleLoad> = Vec::new();
        let mut k: usize = 0;
        assert(self.loaded@ =~= loaded0 + new_bases(segs@, loaded0, 0));
        while k < segs.len()
            invariant
                k <= segs@.len(),
                self.wf(),
                self.loaded@ == loaded0 + new_bases(segs@, loaded0, k as nat),
                r@.len() == new_bases(segs@, loaded0, k as nat).len(),
                forall|i: int|
                    0 <= i < r@.len() ==> (#[trigger] r@[i]).base_avma == new_bases(
                        segs@,
                        loaded0,
                        k as nat,
                    )[i] && r@[i].ranges@ == segment_ranges(
                        segs@,
                        r@[i].base_avma,
                        segs@.len(),
                    ),
                forall|i: int|
                    0 <= i < r@.len() ==> exists|m: int|
                        0 <= m < segs@.len() && (#[trigger] segs@[m]).base_avma == (#[trigger]
                        r@[i]).base_avma && segs@[m].path@ == r@[i].path@ && forall|j: int|
                            0 <= j < m ==> (#[trigger] segs@[j]).base_avma != r@[i].base_avma,
                forall|j: int|
                    0 <= j < k ==> self.loaded@.contains((#[trigger] segs@[j]).base_avma),
                self.next_row == old(self).next_row,
                self.target_pid == old(self).target_pid,
                self.modules_loaded == old(self).modules_loaded,
                self.rows_loaded == old(self).rows_loaded,
            decreases segs@.len() - k,
        {
            let base: u64 = segs[k].base_avma;
            let ghost before = new_bases(segs@, loaded0, k as nat);
            let ghost loaded1 = self.loaded@;
            let ghost r0 = r@;
            proof {
                lemma_contains_either(loaded0, before, base);
            }
            let fresh = self.mark_loaded(base);
            if fresh {
                let ranges = ranges_of(segs, base);
                let path = segs[k].path.clone();
                r.push(ModuleLoad { base_avma: base, path, ranges });
                proof {
                    let last = r@[r@.len() - 1];
                    assert(self.loaded@ =~= loaded0 + before.push(base));
                    assert forall|j: int| 0 <= j < k implies (#[trigger] segs@[j]).base_avma
                        != base by {
                        assert(loaded1.contains(segs@[j].base_avma));
                    }
                    assert(segs@[k as int].base_avma == last.base_avma && segs@[k as int].path@
                        == last.path@);
                    assert forall|i: int| 0 <= i < r@.len() implies exists|m: int|
                        0 <= m < segs@.len() && (#[trigger] segs@[m]).base_avma == (#[trigger]
                        r@[i]).base_avma && segs@[m].path@ == r@[i].path@ && forall|j: int|
                            0 <= j < m ==> (#[trigger] segs@[j]).base_avma != r@[i].base_avma by {
                        if i < r0.len() {
                            assert(r@[i] == r0[i]);
                        } else {
                            assert(segs@[k as int].base_avma == r@[i].base_avma);
                        }
                    }
                }
            }
            k += 1;
            proof {
                assert forall|j: int| 0 <= j < k implies self.loaded@.contains(
                    (#[trigger] segs@[j]).base_avma,
                ) by {
                    if j < k - 1 {
                        let b = segs@[j].base_avma;
                        assert(loaded1.contains(b));
                        let i = choose|i: int| 0 <= i < loaded1.len() && loaded1[i] == b;
                        assert(self.loaded@[i] == b);
                    } else if fresh {
                        assert(self.loaded@[loaded1.len() as int] == base);
                    }
                }
            }
        }
        r
    }

    /// What a module adds to the maps; None where it has no rows, or the array has
    /// no room for them. The rows that it takes are taken for good, whether or not
    /// the maps then accept the rest.
    pub fn install_rows(
        &mut self,
        executable_id: u64,
        load_address: u64,
        rows: &Vec<UnwindRow>,
        ranges: &Vec<(u64, u64)>,
        kind: u32,
    ) -> (plan: Option<InstallPlan>)
        requires
            old(self).wf(),
            forall|i: int| 0 <= i < rows@.len() ==> (#[trigger] rows@[i]).pc < 0xffff_ffff_ffff_0000,
            forall|i: int| 0 <= i < ranges@.len() ==> (#[trigger] ranges@[i]).1 > 0,
        ensures
            final(self).wf(),
            ({
                let fits = rows@.len() > 0 && old(self).next_row + rows@.len()
                    <= SISMO_UNWIND_MAX_ROWS;
                &&& plan is Some <==> fits
                &&& final(self).next_row == (if fits {
                    old(self).next_row + rows@.len()
                } else {
                    old(self).next_row as int
                })
            }),
            plan matches Some(p) ==> {
                &&& p.start == old(self).next_row
                &&& p.rows@ == wire_rows(rows@)
                &&& p.pages@ == page_entries(executable_id, p.start as nat, pages_of(row_pcs(rows@)))
                &&& entry_views(p.mappings@) == mapping_entries(
                    old(self).target_pid,
                    executable_id,
                    load_address,
                    ranges@,
                    kind,
                    ranges@.len(),
                )
            },
            plan matches Some(p) ==> forall|k: int|
                0 <= k < rows@.len() ==> indexed(p, (#[trigger] rows@[k]).pc, p.start + k),
            final(self).target_pid == old(self).target_pid,
            final(self).loaded@ == old(self).loaded@,
            final(self).modules_loaded == old(self).modules_loaded,
            final(self).rows_loaded == old(self).rows_loaded,
    {
        if rows.len() == 0 || rows.len() > SISMO_UNWIND_MAX_ROWS - self.next_row {
            return None;
        }
        let start: usize = self.next_row;
        let mut wire: Vec<StackUnwindRow> = Vec::new();
        let mut pcs: Vec<u64> = Vec::new();
        let mut i: usize = 0;
        while i < rows.len()
            invariant
                i <= rows@.len(),
                wire@ == wire_rows(rows@).take(i as int),
                pcs@ == row_pcs(rows@).take(i as int),
            decreases rows@.len() - i,
        {
            let row = rows[i];
            wire.push(
                StackUnwindRow {
                    pc_low: (row.pc % 0x1_0000) as u16,
                    cfa_type: row.cfa_type,
                    rbp_type: row.rbp_type,
                    cfa_offset: row.cfa_offset,
                    rbp_offset: row.rbp_offset,
                },
            );
            pcs.push(row.pc);
            i += 1;
            assert(wire@ =~= wire_rows(rows@).take(i as int));
            assert(pcs@ =~= row_pcs(rows@).take(i as int));
        }
        assert(wire_rows(rows@).take(i as int) =~= wire_rows(rows@));
        assert(pcs@ =~= row_pcs(rows@));
        self.next_row = start + rows.len();
        let found = to_pages(pcs.as_slice());
        let mut pages: Vec<PageEntry> = Vec::new();
        let mut j: usize = 0;
        while j < found.len()
            invariant
                j <= found@.len(),
                start + rows@.len() <= SISMO_UNWIND_MAX_ROWS,
                pcs@.len() == rows@.len(),
                forall|m: int|
                    0 <= m < found@.len() ==> (#[trigger] found@[m]).low_index
                        < found@[m].high_index && found@[m].high_index <= pcs@.len(),
                pages@ == page_entries(executable_id, start as nat, found@).take(j as int),
            decreases found@.len() - j,
        {
            let p = found[j];
            pages.push(
                PageEntry {
                    executable_id,
                    file_offset: p.address,
                    low_index: start as u32 + p.low_index,
                    high_index: start as u32 + p.high_index,
                },
            );
            j += 1;
            assert(pages@ =~= page_entries(executable_id, start as nat, found@).take(j as int));
        }
        assert(page_entries(executable_id, start as nat, found@).take(j as int)
            =~= page_entries(executable_id, start as nat, found@));
        let mut mappings: Vec<MappingEntry> = Vec::new();
        let mut k: usize = 0;
        assert(entry_views(mappings@) =~= Seq::empty());
        while k < ranges.len()
            invariant
                k <= ranges@.len(),
                forall|m: int| 0 <= m < ranges@.len() ==> (#[trigger] ranges@[m]).1 > 0,
                entry_views(mappings@) == mapping_entries(
                    self.target_pid,
                    executable_id,
                    load_address,
                    ranges@,
                    kind,
                    k as nat,
                ),
            decreases ranges@.len() - k,
        {
            let range = ranges[k];
            let m = BpfMapping {
                executable_id,
                load_address,
                begin: range.0,
                end: range.1,
                kind,
            };
            push_range(&mut mappings, self.target_pid, m);
            k += 1;
        }
        let plan = InstallPlan { start, rows: wire, pages, mappings };
        proof {
            assert forall|k: int| 0 <= k < rows@.len() implies indexed(
                plan,
                (#[trigger] rows@[k]).pc,
                plan.start + k,
            ) by {
                let pc = pcs@[k];
                let m = choose|m: int|
                    0 <= m < found@.len() && (#[trigger] found@[m]).address == pc / 0x1_0000
                        * 0x1_0000 && found@[m].low_index <= k < found@[m].high_index;
                assert(plan.pages@[m] == page_entry(executable_id, start as nat, found@[m]));
                assert(plan.pages@[m].file_offset == pc / 0x1_0000 * 0x1_0000);
            }
        }
        Some(plan)
    }

    /// All of a plan of `rows` rows was accepted.
    pub fn installed(&mut self, rows: usize)
        requires
            old(self).modules_loaded < u64::MAX,
            old(self).rows_loaded + rows <= u64::MAX,
        ensures
            final(self).modules_loaded == old(self).modules_loaded + 1,
            final(self).rows_loaded == old(self).rows_loaded + rows,
            final(self).next_row == old(self).next_row,
            final(self).target_pid == old(self).target_pid,
            final(self).loaded@ == old(self).loaded@,
    {
        self.modules_loaded = self.modules_loaded + 1;
        self.rows_loaded = self.rows_loaded + rows as u64;
    }
}

proof fn lemma_contains_either(a: Seq<u64>, b: Seq<u64>, x: u64)
    ensures
        (a + b).contains(x) <==> a.contains(x) || b.contains(x),
{
    if a.contains(x) {
        let i = choose|i: int| 0 <= i < a.len() && a[i] == x;
        assert((a + b)[i] == x);
    }
    if b.contains(x) {
        let i = choose|i: int| 0 <= i < b.len() && b[i] == x;
        assert((a + b)[a.len() + i] == x);
    }
    if (a + b).contains(x) {
        let i = choose|i: int| 0 <= i < (a + b).len() && (a + b)[i] == x;
        if i < a.len() {
            assert(a[i] == x);
        } else {
            assert(b[i - a.len()] == x);
        }
    }
}

/// The address ranges of the segments of the module at `base`.
fn ranges_of(segs: &Vec<Segment>, base: u64) -> (r: Vec<(u64, u64)>)
    ensures
        r@ == segment_ranges(segs@, base, segs@.len()),
{
    let mut r: Vec<(u64, u64)> = Vec::new();
    let mut i: usize = 0;
    while i < segs.len()
        invariant
            i <= segs@.len(),
            r@ == segment_ranges(segs@, base, i as nat),
        decreases segs@.len() - i,
    {
        if segs[i].base_avma == base {
            r.push((segs[i].start, segs[i].end));
        }
        i += 1;
    }
    r
}

/// Add the trie entries of a mapping.
fn push_range(out: &mut Vec<MappingEntry>, pid: u32, m: BpfMapping)
    requires
        m.end > 0,
    ensures
        entry_views(final(out)@) == entry_views(old(out)@) + range_entries(
            pid,
            m.executable_id,
            m.load_address,
            (m.begin, m.end),
            m.kind,
        ),
{
    let ghost head = entry_views(out@);
    let blocks = summarize_address_range(m.begin, m.end - 1);
    let mut i: usize = 0;
    assert(head + block_entries(pid, m, blocks@, 0) =~= head);
    proof {
        lpm::lemma_prefixes(m.begin as nat, (m.end - 1) as nat);
    }
    while i < blocks.len()
        invariant
            i <= blocks@.len(),
            forall|j: int| 0 <= j < blocks@.len() ==> (#[trigger] blocks@[j]).1 <= 64,
            entry_views(out@) == head + block_entries(pid, m, blocks@, i as nat),
        decreases blocks@.len() - i,
    {
        let (addr, prefix) = blocks[i];
        let ghost before = entry_views(out@);
        let e = MappingEntry {
            prefix_len: 32 + prefix,
            key: exec_mappings_key(pid, addr),
            mapping: m,
        };
        let ghost ev = e@;
        out.push(e);
        i += 1;
        assert(entry_views(out@) =~= before.push(ev));
        assert(entry_views(out@) =~= head + block_entries(pid, m, blocks@, i as nat));
    }
}

/// What the unwinder counted.
#[derive(Clone, Copy, PartialEq, Eq, Structural, Debug)]
pub struct UnwindStats {
    pub total: u64,
    pub success: u64,
    pub partial: u64,
    pub err_mapping: u64,
    pub err_anon: u64,
    pub err_page: u64,
    pub err_search: u64,
    pub err_cfa: u64,
    pub err_read: u64,
    pub truncated: u64,
}

impl Default for UnwindStats {
    fn default() -> (r: Self)
        ensures
            r == zero_stats(),
    {
        UnwindStats {
            total: 0,
            success: 0,
            partial: 0,
            err_mapping: 0,
            err_anon: 0,
            err_page: 0,
            err_search: 0,
            err_cfa: 0,
            err_read: 0,
            truncated: 0,
        }
    }
}

pub open spec fn zero_stats() -> UnwindStats {
    UnwindStats {
        total: 0,
        success: 0,
        partial: 0,
        err_mapping: 0,
        err_anon: 0,
        err_page: 0,
        err_search: 0,
        err_cfa: 0,
        err_read: 0,
        truncated: 0,
    }
}

/// The counts, by number.
pub open spec fn field(s: UnwindStats, k: int) -> u64 {
    if k == 0 {
        s.total
    } else if k == 1 {
        s.success
    } else if k == 2 {
        s.partial
    } else if k == 3 {
        s.err_mapping
    } else if k == 4 {
        s.err_anon
    } else if k == 5 {
        s.err_page
    } else if k == 6 {
        s.err_search
    } else if k == 7 {
        s.err_cfa
    } else if k == 8 {
        s.err_read
    } else {
        s.truncated
    }
}

/// The sum of a count over the first `n` CPUs.
pub open spec fn summed(s: Seq<UnwindStats>, k: int, n: nat) -> nat
    decreases n,
{
    if n == 0 {
        0
    } else {
        summed(s, k, (n - 1) as nat) + field(s[n - 1], k) as nat
    }
}

proof fn lemma_summed_grows(s: Seq<UnwindStats>, k: int, a: nat, b: nat)
    requires
        a <= b,
    ensures
        summed(s, k, a) <= summed(s, k, b),
    decreases b,
{
    if a < b {
        lemma_summed_grows(s, k, a, (b - 1) as nat);
    }
}

/// The counts of all CPUs together.
pub fn sum_stats(s: &Vec<UnwindStats>) -> (r: UnwindStats)
    requires
        forall|k: int| 0 <= k < 10 ==> #[trigger] summed(s@, k, s@.len()) <= u64::MAX,
    ensures
        forall|k: int| 0 <= k < 10 ==> #[trigger] field(r, k) == summed(s@, k, s@.len()),
{
    let mut r = UnwindStats::default();
    let mut i: usize = 0;
    while i < s.len()
        invariant
            i <= s@.len(),
            forall|k: int| 0 <= k < 10 ==> #[trigger] summed(s@, k, s@.len()) <= u64::MAX,
            forall|k: int| 0 <= k < 10 ==> #[trigger] field(r, k) == summed(s@, k, i as nat),
        decreases s@.len() - i,
    {
        let x = s[i];
        proof {
            assert forall|k: int| 0 <= k < 10 implies #[trigger] field(r, k) + field(x, k)
                <= u64::MAX by {
                lemma_summed_grows(s@, k, (i + 1) as nat, s@.len());
                assert(summed(s@, k, s@.len()) <= u64::MAX);
                assert(summed(s@, k, (i + 1) as nat) == summed(s@, k, i as nat) + field(x, k));
            }
            assert(field(r, 0) + field(x, 0) <= u64::MAX);
            assert(field(r, 1) + field(x, 1) <= u64::MAX);
            assert(field(r, 2) + field(x, 2) <= u64::MAX);
            assert(field(r, 3) + field(x, 3) <= u64::MAX);
            assert(field(r, 4) + field(x, 4) <= u64::MAX);
            assert(field(r, 5) + field(x, 5) <= u64::MAX);
            assert(field(r, 6) + field(x, 6) <= u64::MAX);
            assert(field(r, 7) + field(x, 7) <= u64::MAX);
            assert(field(r, 8) + field(x, 8) <= u64::MAX);
            assert(field(r, 9) + field(x, 9) <= u64::MAX);
        }
        let next = UnwindStats {
            total: r.total + x.total,
            success: r.success + x.success,
            partial: r.partial + x.partial,
            err_mapping: r.err_mapping + x.err_mapping,
            err_anon: r.err_anon + x.err_anon,
            err_page: r.err_page + x.err_page,
            err_search: r.err_search + x.err_search,
            err_cfa: r.err_cfa + x.err_cfa,
            err_read: r.err_read + x.err_read,
            truncated: r.truncated + x.truncated,
        };
        proof {
            assert forall|k: int| 0 <= k < 10 implies #[trigger] field(next, k) == summed(
                s@,
                k,
                (i + 1) as nat,
            ) by {
                assert(field(r, k) == summed(s@, k, i as nat));
                assert(field(next, k) == field(r, k) + field(x, k));
            }
        }
        r = next;
        i += 1;
    }
    r
}

// ---- what a lookup finds -----------------------------------------------------

/// The number that four bytes are, the first of them counting most.
pub open spec fn number_of(b: Seq<u8>, i: int) -> int {
    b[i] * 0x100_0000 + b[i + 1] * 0x1_0000 + b[i + 2] * 0x100 + b[i + 3]
}

/// The process of a key.
pub open spec fn key_pid(key: Seq<u8>) -> int {
    number_of(key, 0)
}

/// The address of a key.
pub open spec fn key_addr(key: Seq<u8>) -> int {
    number_of(key, 4) * 0x1_0000_0000 + number_of(key, 8)
}

/// A key has the process and the address in it, big-endian, in twelve bytes.
pub proof fn lemma_key_read_back(pid: u32, addr: u64)
    ensures
        trie_key(pid, addr).len() == 12,
        key_pid(trie_key(pid, addr)) == pid,
        key_addr(trie_key(pid, addr)) == addr,
{
    let hi = (addr / 0x1_0000_0000) as u32;
    let lo = (addr % 0x1_0000_0000) as u32;
    lemma_be32(pid);
    lemma_be32(hi);
    lemma_be32(lo);
    let k = trie_key(pid, addr);
    assert forall|i: int| 0 <= i < 4 implies k[i] == be32(pid)[i] && k[i + 4] == be32(hi)[i] && k[i
        + 8] == be32(lo)[i] by {}
    assert(k[0] == be32(pid)[0] && k[4] == be32(hi)[0] && k[8] == be32(lo)[0]);
    assert(k[1] == be32(pid)[1] && k[5] == be32(hi)[1] && k[9] == be32(lo)[1]);
    assert(k[2] == be32(pid)[2] && k[6] == be32(hi)[2] && k[10] == be32(lo)[2]);
    assert(k[3] == be32(pid)[3] && k[7] == be32(hi)[3] && k[11] == be32(lo)[3]);
}

proof fn lemma_be32(v: u32)
    ensures
        be32(v).len() == 4,
        number_of(be32(v), 0) == v,
{
    assert(v / 0x100_0000 * 0x100_0000 + v / 0x1_0000 % 0x100 * 0x1_0000 + v / 0x100 % 0x100 * 0x100
        + v % 0x100 == v) by (bit_vector);
}

/// Whether a lookup of an address of a process meets an entry: the process is its own, and
/// as many bits of the address as its prefix has beyond the 32 of the process.
pub open spec fn meets(e: MappingEntryView, pid: u32, addr: u64) -> bool {
    &&& 32 <= e.prefix_len <= 96
    &&& key_pid(e.key) == pid
    &&& lpm::in_block((key_addr(e.key) as u64, (e.prefix_len - 32) as u32), addr)
}

proof fn lemma_block_entries(pid: u32, m: BpfMapping, blocks: Seq<(u64, u32)>, n: nat)
    requires
        n <= blocks.len(),
        forall|i: int| 0 <= i < blocks.len() ==> (#[trigger] blocks[i]).1 <= 64,
    ensures
        ({
            let es = block_entries(pid, m, blocks, n);
            &&& es.len() == n
            &&& forall|i: int|
                0 <= i < n ==> (#[trigger] es[i]).mapping == m && es[i].prefix_len == 32
                    + blocks[i].1 && key_pid(es[i].key) == pid && key_addr(es[i].key)
                    == blocks[i].0
        }),
    decreases n,
{
    if n > 0 {
        lemma_block_entries(pid, m, blocks, (n - 1) as nat);
        lemma_key_read_back(pid, blocks[n - 1].0);
    }
}

proof fn lemma_range_entries(
    pid: u32,
    executable_id: u64,
    load_address: u64,
    range: (u64, u64),
    kind: u32,
    addr: u64,
)
    requires
        range.1 > 0,
    ensures
        ({
            let es = range_entries(pid, executable_id, load_address, range, kind);
            &&& forall|i: int|
                0 <= i < es.len() ==> (#[trigger] es[i]).mapping.begin == range.0
                    && es[i].mapping.end == range.1 && es[i].mapping.executable_id == executable_id
                    && es[i].mapping.load_address == load_address && es[i].mapping.kind == kind
            &&& forall|i: int|
                0 <= i < es.len() && meets(#[trigger] es[i], pid, addr) ==> range.0 <= addr
                    < range.1
            &&& range.0 <= addr < range.1 ==> exists|i: int|
                0 <= i < es.len() && meets(#[trigger] es[i], pid, addr)
        }),
{
    let high = (range.1 - 1) as u64;
    let b = lpm::blocks(range.0 as nat, high as nat);
    let m = mapping_of(executable_id, load_address, range, kind);
    let es = range_entries(pid, executable_id, load_address, range, kind);
    lpm::lemma_prefixes(range.0 as nat, high as nat);
    lpm::lemma_blocks_partition(range.0, high, addr);
    lemma_block_entries(pid, m, b, b.len());
    assert forall|i: int| 0 <= i < es.len() implies meets(#[trigger] es[i], pid, addr)
        == lpm::in_block(b[i], addr) by {
        assert(1 <= b[i].1 <= 64);
        assert((key_addr(es[i].key) as u64, (es[i].prefix_len - 32) as u32) == b[i]);
    }
    if range.0 <= addr < range.1 {
        let i = choose|i: int| 0 <= i < b.len() && lpm::in_block(#[trigger] b[i], addr);
        assert(meets(es[i], pid, addr));
    }
}

/// The law of the trie: a lookup of an address of the target meets an entry of the module
/// exactly where one of its address ranges holds the address, and what it finds there is
/// a range that does, with the module's own identity and load address.
pub proof fn lemma_lookup_finds_range(
    pid: u32,
    executable_id: u64,
    load_address: u64,
    ranges: Seq<(u64, u64)>,
    kind: u32,
    n: nat,
    addr: u64,
)
    requires
        n <= ranges.len(),
        forall|i: int| 0 <= i < ranges.len() ==> (#[trigger] ranges[i]).1 > 0,
    ensures
        ({
            let es = mapping_entries(pid, executable_id, load_address, ranges, kind, n);
            &&& forall|i: int|
                0 <= i < es.len() && meets(#[trigger] es[i], pid, addr) ==> {
                    let m = es[i].mapping;
                    &&& m.begin <= addr < m.end
                    &&& m.executable_id == executable_id
                    &&& m.load_address == load_address
                    &&& m.kind == kind
                }
            &&& forall|k: int|
                0 <= k < n && (#[trigger] ranges[k]).0 <= addr < ranges[k].1 ==> exists|i: int|
                    0 <= i < es.len() && meets(#[trigger] es[i], pid, addr)
                        && es[i].mapping.begin == ranges[k].0 && es[i].mapping.end == ranges[k].1
        }),
    decreases n,
{
    if n > 0 {
        let m = (n - 1) as nat;
        let front = mapping_entries(pid, executable_id, load_address, ranges, kind, m);
        let last = range_entries(pid, executable_id, load_address, ranges[n - 1], kind);
        let es = mapping_entries(pid, executable_id, load_address, ranges, kind, n);
        lemma_lookup_finds_range(pid, executable_id, load_address, ranges, kind, m, addr);
        assert(ranges[n - 1].1 > 0);
        lemma_range_entries(pid, executable_id, load_address, ranges[n - 1], kind, addr);
        assert(es == front + last);
        assert forall|i: int| 0 <= i < es.len() && meets(#[trigger] es[i], pid, addr) implies ({
            let m = es[i].mapping;
            &&& m.begin <= addr < m.end
            &&& m.executable_id == executable_id
            &&& m.load_address == load_address
            &&& m.kind == kind
        }) by {
            if i < front.len() {
                assert(meets(front[i], pid, addr));
            } else {
                assert(meets(last[i - front.len()], pid, addr));
            }
        }
        assert forall|k: int|
            0 <= k < n && (#[trigger] ranges[k]).0 <= addr < ranges[k].1 implies exists|i: int|
            0 <= i < es.len() && meets(#[trigger] es[i], pid, addr) && es[i].mapping.begin
                == ranges[k].0 && es[i].mapping.end == ranges[k].1 by {
            if k < m {
                let i = choose|i: int|
                    0 <= i < front.len() && meets(#[trigger] front[i], pid, addr)
                        && front[i].mapping.begin == ranges[k].0 && front[i].mapping.end
                        == ranges[k].1;
                assert(es[i] == front[i]);
            } else {
                let i = choose|i: int| 0 <= i < last.len() && meets(#[trigger] last[i], pid, addr);
                assert(es[front.len() + i] == last[i]);
            }
        }
    }
}

/// A row of the array and the page that it is in make up the row: the page's address and
/// the low 16 bits are its address, and how to unwind from there is kept.
pub proof fn lemma_row_is_kept(row: UnwindRow)
    ensures
        row.pc & 0xffff_ffff_ffff_0000 == row.pc / 0x1_0000 * 0x1_0000,
        (row.pc & 0xffff_ffff_ffff_0000) + wire_row(row).pc_low == row.pc,
        wire_row(row).cfa_type == row.cfa_type,
        wire_row(row).rbp_type == row.rbp_type,
        wire_row(row).cfa_offset == row.cfa_offset,
        wire_row(row).rbp_offset == row.rbp_offset,
{
    let pc = row.pc;
    assert(pc & 0xffff_ffff_ffff_0000 == pc / 0x1_0000 * 0x1_0000) by (bit_vector);
}

/// The rows of a module stand in the array from its start on, in their order, and the
/// pages refer to them there: a page entry has the rows of its page, each as far behind
/// the start as it is behind the first row.
pub proof fn lemma_pages_point_into_the_array(
    executable_id: u64,
    start: nat,
    pages: Seq<PageRange>,
    i: int,
)
    requires
        0 <= i < pages.len(),
        start + pages[i].high_index <= u32::MAX,
        pages[i].low_index <= pages[i].high_index,
    ensures
        ({
            let e = page_entries(executable_id, start, pages)[i];
            &&& e.executable_id == executable_id
            &&& e.file_offset == pages[i].address
            &&& e.low_index - start == pages[i].low_index
            &&& e.high_index - start == pages[i].high_index
        }),
{
}

/// A Go function's frame address is the stack pointer, the frame size and the eight bytes
/// of the return address, where that fits in 16 bits; a function without a frame size ends
/// the table.
pub proof fn lemma_go_frame(pc: u64, frame_size: Option<i32>)
    ensures
        ({
            let r = go_row(pc, frame_size);
            &&& r.pc == pc
            &&& r.rbp_type == 0
            &&& frame_size is None <==> r.cfa_type == 7
            &&& frame_size matches Some(fs) ==> (r.cfa_type == 2 <==> 0 <= fs <= 65527)
            &&& r.cfa_type == 2 ==> r.cfa_offset - 8 == frame_size->0
            &&& r.cfa_type == 2 || r.cfa_type == 7 || r.cfa_type == 9
        }),
{
}

/// Whether one of the first `n` segments is of the module at `base` and has this range.
pub open spec fn is_segment_range(segs: Seq<Segment>, base: u64, n: nat, r: (u64, u64)) -> bool {
    exists|i: int|
        0 <= i < n && (#[trigger] segs[i]).base_avma == base && segs[i].start == r.0 && segs[i].end
            == r.1
}

/// The ranges of a module are those of its segments and of no other module's.
#[verifier::spinoff_prover]
#[verifier::rlimit(40)]
pub proof fn lemma_segment_ranges(segs: Seq<Segment>, base: u64, n: nat)
    requires
        n <= segs.len(),
    ensures
        forall|i: int|
            0 <= i < n && (#[trigger] segs[i]).base_avma == base ==> segment_ranges(
                segs,
                base,
                n,
            ).contains((segs[i].start, segs[i].end)),
        forall|j: int|
            0 <= j < segment_ranges(segs, base, n).len() ==> is_segment_range(
                segs,
                base,
                n,
                #[trigger] segment_ranges(segs, base, n)[j],
            ),
    decreases n,
{
    if n > 0 {
        let m = (n - 1) as nat;
        lemma_segment_ranges(segs, base, m);
        let before = segment_ranges(segs, base, m);
        let all = segment_ranges(segs, base, n);
        assert forall|i: int| 0 <= i < n && (#[trigger] segs[i]).base_avma == base implies all.contains(
            (segs[i].start, segs[i].end),
        ) by {
            if i < m {
                let r = (segs[i].start, segs[i].end);
                assert(before.contains(r));
                let j = choose|j: int| 0 <= j < before.len() && before[j] == r;
                assert(all[j] == r);
            } else {
                assert(all[before.len() as int] == (segs[i].start, segs[i].end));
            }
        }
        assert forall|j: int| 0 <= j < all.len() implies is_segment_range(
            segs,
            base,
            n,
            #[trigger] all[j],
        ) by {
            if j < before.len() {
                assert(all[j] == before[j]);
                assert(is_segment_range(segs, base, m, before[j]));
            } else {
                assert(segs[n - 1].base_avma == base);
            }
        }
    }
}

/// The modules to load are those that have segments and are not loaded yet, each once.
#[verifier::spinoff_prover]
#[verifier::rlimit(40)]
pub proof fn lemma_new_bases(segs: Seq<Segment>, loaded: Seq<u64>, n: nat)
    requires
        n <= segs.len(),
    ensures
        new_bases(segs, loaded, n).no_duplicates(),
        forall|i: int|
            0 <= i < n ==> loaded.contains((#[trigger] segs[i]).base_avma) || new_bases(
                segs,
                loaded,
                n,
            ).contains(segs[i].base_avma),
        forall|j: int|
            0 <= j < new_bases(segs, loaded, n).len() ==> !loaded.contains(
                #[trigger] new_bases(segs, loaded, n)[j],
            ),
        forall|j: int|
            0 <= j < new_bases(segs, loaded, n).len() ==> exists|i: int|
                0 <= i < n && (#[trigger] segs[i]).base_avma == #[trigger] new_bases(
                    segs,
                    loaded,
                    n,
                )[j],
    decreases n,
{
    if n > 0 {
        let m = (n - 1) as nat;
        lemma_new_bases(segs, loaded, m);
        let before = new_bases(segs, loaded, m);
        let all = new_bases(segs, loaded, n);
        assert forall|i: int| 0 <= i < n implies loaded.contains((#[trigger] segs[i]).base_avma)
            || all.contains(segs[i].base_avma) by {
            let b = segs[i].base_avma;
            if before.contains(b) {
                let j = choose|j: int| 0 <= j < before.len() && before[j] == b;
                assert(all[j] == b);
            } else if i == m && !loaded.contains(b) {
                assert(all[before.len() as int] == b);
            }
        }
        assert forall|j: int| 0 <= j < all.len() implies exists|i: int|
            0 <= i < n && (#[trigger] segs[i]).base_avma == #[trigger] all[j] by {
            if j < before.len() {
                assert(all[j] == before[j]);
                let i = choose|i: int| 0 <= i < m && (#[trigger] segs[i]).base_avma == before[j];
                assert(segs[i].base_avma == all[j]);
            } else {
                assert(segs[n - 1].base_avma == all[j]);
            }
        }
    }
}

/// The vdso is where the first line says that ends with its name.
pub proof fn lemma_vdso_is_first(lines: Seq<Seq<char>>, from: nat, k: int)
    requires
        from <= k < lines.len(),
        text::ends_with(lines[k], "[vdso]"@),
        forall|i: int| from <= i < k ==> !text::ends_with(#[trigger] lines[i], "[vdso]"@),
    ensures
        vdso_from(lines, from) == line_range(lines[k]),
    decreases k - from,
{
    if from < k {
        lemma_vdso_is_first(lines, from + 1, k);
    }
}

/// Go's own tables are taken before those of the file, and are relative to the image base;
/// those of an executable that is linked at its address are relative to nothing, those of
/// a shared object to its image base, and a file of another type has none.
pub proof fn lemma_rows_of_module(base_avma: u64, go: Option<Seq<UnwindRow>>, image: Seq<u8>)
    ensures
        go is Some ==> rows_of_module(base_avma, go, image) == Some((go->0, base_avma)),
        go is None && image.len() >= 18 && is_elf(image) && image[16] == 2 && image[17] == 0
            ==> match rows_of_module(base_avma, go, image) {
            Some((rows, load)) => load == 0 && eh_frame_rows(image) == Some(rows),
            None => eh_frame_rows(image) is None,
        },
        go is None && image.len() >= 18 && is_elf(image) && image[16] == 3 && image[17] == 0
            ==> match rows_of_module(base_avma, go, image) {
            Some((rows, load)) => load == base_avma && eh_frame_rows(image) == Some(rows),
            None => eh_frame_rows(image) is None,
        },
        go is None && (image.len() < 18 || !is_elf(image) || image[17] != 0 || (image[16] != 2
            && image[16] != 3)) ==> rows_of_module(base_avma, go, image) is None,
{
}

/// The counts of the CPUs add up, however they are split.
pub proof fn lemma_counts_add_up(a: Seq<UnwindStats>, b: Seq<UnwindStats>, k: int, n: nat)
    requires
        n <= b.len(),
    ensures
        summed(a + b, k, a.len() + n) == summed(a, k, a.len()) + summed(b, k, n),
    decreases n,
{
    if n == 0 {
        lemma_summed_of_prefix(a, b, k, a.len());
    } else {
        lemma_counts_add_up(a, b, k, (n - 1) as nat);
        assert((a + b)[a.len() + n - 1] == b[n - 1]);
    }
}

proof fn lemma_summed_of_prefix(a: Seq<UnwindStats>, b: Seq<UnwindStats>, k: int, n: nat)
    requires
        n <= a.len(),
    ensures
        summed(a + b, k, n) == summed(a, k, n),
    decreases n,
{
    if n > 0 {
        lemma_summed_of_prefix(a, b, k, (n - 1) as nat);
        assert((a + b)[n - 1] == a[n - 1]);
    }
}

} // verus!
