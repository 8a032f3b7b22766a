//! The names of processes and threads for callers that bring their own buffers.

use crate::bytes;
use crate::sched::proc_info;
use crate::sched::proc_info::{parent_pid, thread_name};
use vstd::prelude::*;

verus! {

/// Store the parent of a process, where the kernel filled the whole buffer.
pub fn sismo_proc_parent_pid(rc: i32, buf: &[u8], out_ppid: &mut u32) -> (ok: bool)
    requires
        buf@.len() == proc_info::PROC_PIDTBSDINFO_SIZE,
    ensures
        ok == (rc == proc_info::PROC_PIDTBSDINFO_SIZE),
        *final(out_ppid) == (if ok {
            bytes::le_u32(buf@, proc_info::PBI_PPID_OFFSET as int)
        } else {
            *old(out_ppid)
        }),
{
    match parent_pid(rc, buf) {
        Some(p) => {
            *out_ppid = p;
            true
        },
        None => false,
    }
}

/// The name of a thread as far as `cap` bytes hold it; nothing where the kernel did
/// not fill the whole buffer.
pub open spec fn cut_name(rc: i32, buf: Seq<u8>, cap: nat) -> Seq<u8> {
    let name = proc_info::name_in(buf);
    if rc != proc_info::PROC_PIDTHREADID64INFO_SIZE {
        Seq::empty()
    } else if name.len() <= cap {
        name
    } else {
        name.take(cap as int)
    }
}

/// Store the name of a thread at the start of `out`, as far as it fits, and return
/// how long it is there. What stands behind it stays.
pub fn sismo_proc_thread_name(rc: i32, buf: &[u8], out: &mut [u8]) -> (n: usize)
    requires
        buf@.len() == proc_info::PROC_PIDTHREADID64INFO_SIZE,
    ensures
        n == cut_name(rc, buf@, old(out)@.len()).len(),
        final(out)@ == cut_name(rc, buf@, old(out)@.len()) + old(out)@.skip(n as int),
{
    let ghost name = cut_name(rc, buf@, out@.len());
    let ghost out0 = out@;
    let v = match thread_name(rc, buf) {
        Some(v) => v,
        None => {
            assert(name =~= Seq::empty());
            assert(name + out0.skip(0) =~= out0);
            return 0;
        },
    };
    let n: usize = if v.len() <= out.len() {
        v.len()
    } else {
        out.len()
    };
    assert(v@.take(n as int) =~= name);
    let mut i: usize = 0;
    while i < n
        invariant
            i <= n,
            n <= v@.len(),
            n <= out@.len(),
            out@.len() == out0.len(),
            v@.take(n as int) == name,
            forall|j: int| 0 <= j < i ==> out@[j] == name[j],
            forall|j: int| i <= j < out@.len() ==> out@[j] == out0[j],
        decreases n - i,
    {
        assert(name[i as int] == v@[i as int]);
        out[i] = v[i];
        i += 1;
    }
    assert(out@ =~= name + out0.skip(n as int));
    n
}

/// How many bytes of a process's path the kernel wrote to a buffer of `cap` bytes;
/// 0 where it failed.
pub fn sismo_proc_pid_path(rc: i32, cap: usize) -> (n: usize)
    ensures
        n as int == (if rc <= 0 {
            0
        } else if rc <= cap {
            rc as int
        } else {
            cap as int
        }),
{
    if rc <= 0 {
        return 0;
    }
    if rc as u64 <= cap as u64 {
        rc as usize
    } else {
        cap
    }
}

} // verus!
