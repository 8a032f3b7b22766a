//! What the kernel's buffers on a process and its threads hold.

use crate::bytes;
use crate::bytes::{bytes_before, read_le_u32};
use vstd::prelude::*;
use vstd::slice::slice_subrange;

verus! {

/// The sizes of the two buffers; the kernel fills exactly so many bytes.
pub const PROC_PIDTBSDINFO_SIZE: i32 = 136;

pub const PROC_PIDTHREADID64INFO_SIZE: i32 = 112;

pub const PBI_PPID_OFFSET: usize = 16;

pub const PTH_NAME_OFFSET: usize = 48;

pub const PTH_NAME_LEN: usize = 64;

/// The parent of a process, where the kernel filled the whole buffer.
pub fn parent_pid(rc: i32, buf: &[u8]) -> (r: Option<u32>)
    requires
        buf@.len() == PROC_PIDTBSDINFO_SIZE,
    ensures
        r == (if rc == PROC_PIDTBSDINFO_SIZE {
            Some(bytes::le_u32(buf@, PBI_PPID_OFFSET as int))
        } else {
            None
        }),
{
    if rc != PROC_PIDTBSDINFO_SIZE {
        return None;
    }
    Some(read_le_u32(buf, PBI_PPID_OFFSET))
}

/// The name in a thread's buffer.
pub open spec fn name_in(buf: Seq<u8>) -> Seq<u8> {
    bytes::before(buf.subrange(PTH_NAME_OFFSET as int, PTH_NAME_OFFSET + PTH_NAME_LEN), 0)
}

/// The name of a thread, where the kernel filled the whole buffer and the thread
/// has a name.
pub fn thread_name(rc: i32, buf: &[u8]) -> (r: Option<Vec<u8>>)
    requires
        buf@.len() == PROC_PIDTHREADID64INFO_SIZE,
    ensures
        match r {
            Some(v) => rc == PROC_PIDTHREADID64INFO_SIZE && v@ == name_in(buf@) && v@.len() > 0,
            None => rc != PROC_PIDTHREADID64INFO_SIZE || name_in(buf@).len() == 0,
        },
{
    if rc != PROC_PIDTHREADID64INFO_SIZE {
        return None;
    }
    let name = bytes_before(
        slice_subrange(buf, PTH_NAME_OFFSET, PTH_NAME_OFFSET + PTH_NAME_LEN),
        0,
    );
    if name.len() == 0 {
        return None;
    }
    Some(name)
}

/// The first `rc` bytes of a buffer, as far as there are so many.
pub open spec fn filled(rc: i32, buf: Seq<u8>) -> Seq<u8> {
    buf.take(
        if rc < buf.len() {
            rc as int
        } else {
            buf.len() as int
        },
    )
}

/// The path of a process: what the kernel wrote, up to a NUL; None where it wrote
/// nothing.
pub fn pid_path(rc: i32, buf: &[u8]) -> (r: Option<Vec<u8>>)
    ensures
        match r {
            Some(v) => rc > 0 && v@ == bytes::before(filled(rc, buf@), 0),
            None => rc <= 0,
        },
{
    if rc <= 0 {
        return None;
    }
    let n: usize = if (rc as u64) < buf.len() as u64 {
        rc as usize
    } else {
        buf.len()
    };
    let s = slice_subrange(buf, 0, n);
    assert(s@ =~= filled(rc, buf@));
    Some(bytes_before(s, 0))
}

/// The name of a thread is read back: it stands behind 48 bytes, and ends at its first NUL
/// or after 64 bytes.
pub proof fn lemma_name_read_back(head: Seq<u8>, name: Seq<u8>, pad: Seq<u8>, rest: Seq<u8>)
    requires
        head.len() == 48,
        name.len() + pad.len() == 64,
        !name.contains(0u8),
        pad.len() == 0 || pad[0] == 0,
    ensures
        name_in(head + name + pad + rest) == name,
{
    let b = head + name + pad + rest;
    let field = name + pad;
    assert(b.subrange(48, 112) =~= field);
    assert forall|i: int| 0 <= i < name.len() implies field[i] != 0 by {
        assert(field[i] == name[i]);
    }
    bytes::lemma_index_of_is(field, 0, name.len());
    assert(field.take(name.len() as int) =~= name);
}

} // verus!
