//! Control of the kernel's trace ring: the filter that says which events it keeps,
//! and the steps in which it is opened.

use vstd::prelude::*;

verus! {

/// One bit for each class and subclass.
pub const TYPEFILTER_BITMAP_SIZE: usize = 8_192;

pub const KD_THREADMAP_ENTRY_SIZE: usize = 32;

/// Why the ring could not be opened.
#[derive(Clone, Copy, PartialEq, Eq, Structural, Debug)]
pub enum StartError {
    /// The buffer could not be sized or set up.
    Setup,
    /// The filter could not be installed.
    SetReg,
    /// The capture could not be enabled.
    Enable,
}

/// Whether the bit of `csc` is set.
pub open spec fn bit_set(bitmap: Seq<u8>, csc: u16) -> bool {
    bitmap[csc as int / 8] & (1u8 << (csc % 8)) != 0
}

/// Whether one of the ranges, both ends in, holds `csc`.
pub open spec fn kept(ranges: Seq<(u16, u16)>, csc: u16) -> bool {
    exists|i: int| 0 <= i < ranges.len() && (#[trigger] ranges[i]).0 <= csc <= ranges[i].1
}

/// Set the bit of `csc`.
fn set_bit(bitmap: &mut Vec<u8>, csc: u16)
    requires
        old(bitmap)@.len() == TYPEFILTER_BITMAP_SIZE,
    ensures
        final(bitmap)@.len() == TYPEFILTER_BITMAP_SIZE,
        forall|c: u16| #[trigger]
            bit_set(final(bitmap)@, c) == (c == csc || bit_set(old(bitmap)@, c)),
{
    let i: usize = (csc / 8) as usize;
    let k: u16 = csc % 8;
    let b: u8 = bitmap[i];
    let n: u8 = b | (1u8 << k);
    bitmap.set(i, n);
    proof {
        assert forall|c: u16| #[trigger]
            bit_set(bitmap@, c) == (c == csc || bit_set(old(bitmap)@, c)) by {
            let j = c % 8;
            if c / 8 == csc / 8 {
                assert((n & (1u8 << j) != 0) == (j == k || b & (1u8 << j) != 0)) by (bit_vector)
                    requires
                        n == b | (1u8 << k),
                        j < 8,
                        k < 8,
                ;
                assert(c == csc <==> j == k);
            }
        }
    }
}

proof fn lemma_no_bits(bitmap: Seq<u8>, c: u16)
    requires
        bitmap.len() == TYPEFILTER_BITMAP_SIZE,
        forall|i: int| 0 <= i < bitmap.len() ==> bitmap[i] == 0,
    ensures
        !bit_set(bitmap, c),
{
    let j = c % 8;
    assert(0u8 & (1u8 << j) == 0) by (bit_vector);
}

/// The filter that keeps exactly what the ranges hold.
pub fn typefilter_bitmap(ranges: &[(u16, u16)]) -> (bitmap: Vec<u8>)
    ensures
        bitmap@.len() == TYPEFILTER_BITMAP_SIZE,
        forall|c: u16| #[trigger] bit_set(bitmap@, c) == kept(ranges@, c),
{
    let mut bitmap: Vec<u8> = Vec::new();
    let mut n: usize = 0;
    while n < TYPEFILTER_BITMAP_SIZE
        invariant
            n <= TYPEFILTER_BITMAP_SIZE,
            bitmap@.len() == n,
            forall|i: int| 0 <= i < n ==> bitmap@[i] == 0,
        decreases TYPEFILTER_BITMAP_SIZE - n,
    {
        bitmap.push(0);
        n += 1;
    }
    proof {
        assert forall|c: u16| #[trigger] bit_set(bitmap@, c) == kept(ranges@.take(0), c) by {
            lemma_no_bits(bitmap@, c);
        }
    }
    let mut r: usize = 0;
    while r < ranges.len()
        invariant
            r <= ranges@.len(),
            bitmap@.len() == TYPEFILTER_BITMAP_SIZE,
            forall|c: u16| #[trigger] bit_set(bitmap@, c) == kept(ranges@.take(r as int), c),
        decreases ranges@.len() - r,
    {
        let (lo, hi) = ranges[r];
        let ghost done = ranges@.take(r as int);
        let mut csc: u32 = lo as u32;
        while csc <= hi as u32
            invariant
                lo <= csc <= 0x1_0000,
                csc <= hi + 1 || csc == lo,
                bitmap@.len() == TYPEFILTER_BITMAP_SIZE,
                forall|c: u16| #[trigger]
                    bit_set(bitmap@, c) == (kept(done, c) || (lo <= c < csc)),
            decreases 0x1_0000 - csc,
        {
            set_bit(&mut bitmap, csc as u16);
            csc += 1;
        }
        let ghost now = ranges@.take(r + 1);
        proof {
            assert forall|c: u16| #[trigger] bit_set(bitmap@, c) == kept(now, c) by {
                if kept(done, c) {
                    let i = choose|i: int|
                        0 <= i < done.len() && (#[trigger] done[i]).0 <= c <= done[i].1;
                    assert(now[i] == done[i]);
                }
                if lo <= c <= hi {
                    assert(now[r as int].0 <= c <= now[r as int].1);
                }
                if kept(now, c) {
                    let i = choose|i: int|
                        0 <= i < now.len() && (#[trigger] now[i]).0 <= c <= now[i].1;
                    if i < r {
                        assert(done[i] == now[i]);
                    }
                }
            }
        }
        r += 1;
    }
    assert(ranges@.take(r as int) =~= ranges@);
    bitmap
}

/// The steps in which the ring is opened, and how that ends.
#[derive(Clone, Copy, PartialEq, Eq, Structural, Debug)]
pub enum OpenStep {
    /// Remove an earlier session; it need not succeed.
    Remove,
    SetBuffer,
    SetUp,
    InstallFilter,
    Enable,
    /// Remove what was set up, then fail.
    Undo(StartError),
    Failed(StartError),
    Opened,
}

/// What follows a step that went well or not.
pub open spec fn step_after(s: OpenStep, ok: bool) -> OpenStep {
    match s {
        OpenStep::Remove => OpenStep::SetBuffer,
        OpenStep::SetBuffer => if ok {
            OpenStep::SetUp
        } else {
            OpenStep::Failed(StartError::Setup)
        },
        OpenStep::SetUp => if ok {
            OpenStep::InstallFilter
        } else {
            OpenStep::Failed(StartError::Setup)
        },
        OpenStep::InstallFilter => if ok {
            OpenStep::Enable
        } else {
            OpenStep::Undo(StartError::SetReg)
        },
        OpenStep::Enable => if ok {
            OpenStep::Opened
        } else {
            OpenStep::Undo(StartError::Enable)
        },
        OpenStep::Undo(e) => OpenStep::Failed(e),
        OpenStep::Failed(e) => OpenStep::Failed(e),
        OpenStep::Opened => OpenStep::Opened,
    }
}

/// The ring's session, from its first step on.
#[derive(Clone, Copy, PartialEq, Eq, Structural, Debug)]
pub struct KdebugRing {
    pub step: OpenStep,
}

impl KdebugRing {
    pub fn open() -> (r: Self)
        ensures
            r.step == OpenStep::Remove,
    {
        KdebugRing { step: OpenStep::Remove }
    }

    /// Go on after the current step.
    pub fn advance(&mut self, ok: bool)
        ensures
            final(self).step == step_after(old(self).step, ok),
    {
        self.step = match self.step {
            OpenStep::Remove => OpenStep::SetBuffer,
            OpenStep::SetBuffer => if ok {
                OpenStep::SetUp
            } else {
                OpenStep::Failed(StartError::Setup)
            },
            OpenStep::SetUp => if ok {
                OpenStep::InstallFilter
            } else {
                OpenStep::Failed(StartError::Setup)
            },
            OpenStep::InstallFilter => if ok {
                OpenStep::Enable
            } else {
                OpenStep::Undo(StartError::SetReg)
            },
            OpenStep::Enable => if ok {
                OpenStep::Opened
            } else {
                OpenStep::Undo(StartError::Enable)
            },
            OpenStep::Undo(e) => OpenStep::Failed(e),
            OpenStep::Failed(e) => OpenStep::Failed(e),
            OpenStep::Opened => OpenStep::Opened,
        };
    }
}

/// How many entries of the thread map were read into `len` bytes.
pub fn thread_map_entries(len: usize) -> (n: usize)
    ensures
        n == len / KD_THREADMAP_ENTRY_SIZE,
{
    len / KD_THREADMAP_ENTRY_SIZE
}

/// The ring is opened exactly where every step after the first goes well.
pub proof fn lemma_opened_iff_all_went_well(a: bool, b: bool, c: bool, d: bool, e: bool)
    ensures
        ({
            let s1 = step_after(OpenStep::Remove, a);
            let s2 = step_after(s1, b);
            let s3 = step_after(s2, c);
            let s4 = step_after(s3, d);
            let s5 = step_after(s4, e);
            s5 == OpenStep::Opened <==> (b && c && d && e)
        }),
{
}

} // verus!
