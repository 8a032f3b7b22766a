//! Putting together the callstacks that arrive in pieces: a header with the number
//! of frames, then four addresses at a time. Each thread has its own; a thread runs
//! on one CPU at a time, so its pieces arrive in order.

use std::collections::HashMap;
use vstd::prelude::*;

verus! {

/// A header that asks for more frames is taken to ask for this many.
pub const MAX_FRAMES: usize = 256;

/// A callstack of which not all is there.
pub struct Pending {
    pub want: usize,
    pub frames: Vec<u64>,
}

#[verifier::ext_equal]
pub struct PendingView {
    pub want: nat,
    pub frames: Seq<u64>,
}

impl View for Pending {
    type V = PendingView;

    open spec fn view(&self) -> PendingView {
        PendingView { want: self.want as nat, frames: self.frames@ }
    }
}

/// The state, as plain values, by thread.
#[verifier::ext_equal]
pub struct StacksView {
    pub pid_of: Map<u64, u64>,
    pub building: Map<u64, PendingView>,
    pub building_kernel: Map<u64, PendingView>,
    pub kernel_done: Map<u64, Seq<u64>>,
}

pub struct UserStacks {
    pub pid_of: HashMap<u64, u64>,
    pub building: HashMap<u64, Pending>,
    pub building_kernel: HashMap<u64, Pending>,
    pub kernel_done: HashMap<u64, Vec<u64>>,
}

impl View for UserStacks {
    type V = StacksView;

    open spec fn view(&self) -> StacksView {
        StacksView {
            pid_of: self.pid_of@,
            building: self.building@.map_values(|p: Pending| p@),
            building_kernel: self.building_kernel@.map_values(|p: Pending| p@),
            kernel_done: self.kernel_done@.map_values(|v: Vec<u64>| v@),
        }
    }
}

pub open spec fn no_stacks() -> StacksView {
    StacksView {
        pid_of: Map::empty(),
        building: Map::empty(),
        building_kernel: Map::empty(),
        kernel_done: Map::empty(),
    }
}

/// How many frames a header asks for.
pub open spec fn wanted(nframes: u64) -> nat {
    if nframes < MAX_FRAMES {
        nframes as nat
    } else {
        MAX_FRAMES as nat
    }
}

/// A callstack with up to four more addresses: no more than it wants.
pub open spec fn with_pcs(p: PendingView, pcs: Seq<u64>) -> PendingView {
    let left = p.want - p.frames.len();
    PendingView {
        want: p.want,
        frames: if left <= 0 {
            p.frames
        } else if left < pcs.len() {
            p.frames + pcs.take(left)
        } else {
            p.frames + pcs
        },
    }
}

pub open spec fn after_header(nframes: u64) -> PendingView {
    PendingView { want: wanted(nframes), frames: Seq::empty() }
}

pub open spec fn pid_or_zero(s: StacksView, tid: u64) -> u64 {
    if s.pid_of.dom().contains(tid) {
        s.pid_of[tid]
    } else {
        0
    }
}

/// The state after four addresses of a user stack, and the process and the frames
/// of the stack where it is whole.
pub open spec fn udata(s: StacksView, tid: u64, pcs: Seq<u64>) -> (StacksView, Option<
    (u64, Seq<u64>),
>) {
    if !s.building.dom().contains(tid) {
        (s, None)
    } else {
        let p = with_pcs(s.building[tid], pcs);
        if p.frames.len() < p.want {
            (StacksView { building: s.building.insert(tid, p), ..s }, None)
        } else {
            (
                StacksView { building: s.building.remove(tid), ..s },
                Some((pid_or_zero(s, tid), p.frames)),
            )
        }
    }
}

/// The state after four addresses of a kernel stack: where it is whole it is kept
/// until the user stack is.
pub open spec fn kdata(s: StacksView, tid: u64, pcs: Seq<u64>) -> StacksView {
    if !s.building_kernel.dom().contains(tid) {
        s
    } else {
        let p = with_pcs(s.building_kernel[tid], pcs);
        if p.frames.len() < p.want {
            StacksView { building_kernel: s.building_kernel.insert(tid, p), ..s }
        } else {
            StacksView {
                building_kernel: s.building_kernel.remove(tid),
                kernel_done: s.kernel_done.insert(tid, p.frames),
                ..s
            }
        }
    }
}

pub open spec fn kernel_of(s: StacksView, tid: u64) -> Seq<u64> {
    if s.kernel_done.dom().contains(tid) {
        s.kernel_done[tid]
    } else {
        Seq::empty()
    }
}

/// Add up to four addresses to a callstack.
fn push_pcs(p: &mut Pending, pcs: [u64; 4])
    ensures
        final(p)@ == with_pcs(old(p)@, pcs@),
{
    let ghost before = p@;
    let mut i: usize = 0;
    while i < 4
        invariant
            i <= 4,
            p.want == before.want,
            p.frames@ == with_pcs(before, pcs@.take(i as int)).frames,
        decreases 4 - i,
    {
        if p.frames.len() < p.want {
            p.frames.push(pcs[i]);
        }
        i += 1;
        assert(p.frames@ =~= with_pcs(before, pcs@.take(i as int)).frames);
    }
    assert(pcs@.take(4) =~= pcs@);
}

fn new_pending(nframes: u64) -> (p: Pending)
    ensures
        p@ == after_header(nframes),
{
    let want: usize = if nframes < MAX_FRAMES as u64 {
        nframes as usize
    } else {
        MAX_FRAMES
    };
    let p = Pending { want, frames: Vec::new() };
    assert(p@ =~= after_header(nframes));
    p
}

impl UserStacks {
    pub fn new() -> (s: Self)
        ensures
            s@ == no_stacks(),
    {
        let s = UserStacks {
            pid_of: HashMap::new(),
            building: HashMap::new(),
            building_kernel: HashMap::new(),
            kernel_done: HashMap::new(),
        };
        assert(s@ =~= no_stacks());
        s
    }

    pub fn on_threadinfo(&mut self, tid: u64, pid: u64)
        ensures
            final(self)@ == (StacksView {
                pid_of: old(self)@.pid_of.insert(tid, pid),
                ..old(self)@
            }),
    {
        self.pid_of.insert(tid, pid);
    }

    pub fn on_uhdr(&mut self, tid: u64, nframes: u64)
        ensures
            final(self)@ == (StacksView {
                building: old(self)@.building.insert(tid, after_header(nframes)),
                ..old(self)@
            }),
    {
        self.building.insert(tid, new_pending(nframes));
        assert(self@.building =~= old(self)@.building.insert(tid, after_header(nframes)));
    }

    pub fn on_khdr(&mut self, tid: u64, nframes: u64)
        ensures
            final(self)@ == (StacksView {
                building_kernel: old(self)@.building_kernel.insert(tid, after_header(nframes)),
                ..old(self)@
            }),
    {
        self.building_kernel.insert(tid, new_pending(nframes));
        assert(self@.building_kernel =~= old(self)@.building_kernel.insert(
            tid,
            after_header(nframes),
        ));
    }

    /// Four addresses of a user stack: its process and its frames, leaf first,
    /// where it is whole.
    pub fn on_udata(&mut self, tid: u64, pcs: [u64; 4]) -> (r: Option<(u64, Vec<u64>)>)
        ensures
            ({
                let u = udata(old(self)@, tid, pcs@);
                &&& final(self)@ == u.0
                &&& r is Some <==> u.1 is Some
                &&& r matches Some(v) ==> u.1 == Some((v.0, v.1@))
            }),
    {
        let ghost before = self@;
        match self.building.remove(&tid) {
            None => {
                assert(self@ =~= before);
                None
            },
            Some(mut p) => {
                assert(before.building[tid] == p@);
                push_pcs(&mut p, pcs);
                if p.frames.len() < p.want {
                    let ghost pv = p@;
                    self.building.insert(tid, p);
                    assert(self@.building =~= before.building.insert(tid, pv));
                    return None;
                }
                assert(self@.building =~= before.building.remove(tid));
                let pid: u64 = match self.pid_of.get(&tid) {
                    Some(n) => *n,
                    None => 0,
                };
                Some((pid, p.frames))
            },
        }
    }

    /// Four addresses of a kernel stack.
    pub fn on_kdata(&mut self, tid: u64, pcs: [u64; 4])
        ensures
            final(self)@ == kdata(old(self)@, tid, pcs@),
    {
        let ghost before = self@;
        match self.building_kernel.remove(&tid) {
            None => {
                assert(self@ =~= before);
            },
            Some(mut p) => {
                assert(before.building_kernel[tid] == p@);
                push_pcs(&mut p, pcs);
                if p.frames.len() < p.want {
                    let ghost pv = p@;
                    self.building_kernel.insert(tid, p);
                    assert(self@.building_kernel =~= before.building_kernel.insert(tid, pv));
                } else {
                    assert(self@.building_kernel =~= before.building_kernel.remove(tid));
                    let ghost fs = p.frames@;
                    self.kernel_done.insert(tid, p.frames);
                    assert(self@.kernel_done =~= before.kernel_done.insert(tid, fs));
                }
            },
        }
    }

    /// Take the kernel stack that is kept for a thread; none is an empty one.
    pub fn take_kernel(&mut self, tid: u64) -> (r: Vec<u64>)
        ensures
            r@ == kernel_of(old(self)@, tid),
            final(self)@ == (StacksView {
                kernel_done: old(self)@.kernel_done.remove(tid),
                ..old(self)@
            }),
    {
        let ghost before = self@;
        match self.kernel_done.remove(&tid) {
            Some(v) => {
                assert(before.kernel_done[tid] == v@);
                assert(self@.kernel_done =~= before.kernel_done.remove(tid));
                v
            },
            None => {
                assert(self@.kernel_done =~= before.kernel_done.remove(tid));
                let v: Vec<u64> = Vec::new();
                assert(v@ =~= kernel_of(before, tid));
                v
            },
        }
    }
}

/// A stack never holds more frames than its header asked for, so no more than
/// [`MAX_FRAMES`].
pub proof fn lemma_never_more_than_wanted(p: PendingView, pcs: Seq<u64>, nframes: u64)
    ensures
        p.frames.len() <= p.want ==> with_pcs(p, pcs).frames.len() <= p.want,
        after_header(nframes).frames.len() <= after_header(nframes).want <= MAX_FRAMES,
{
}

/// The addresses of the first `k` pieces, one after the other.
pub open spec fn joined(pieces: Seq<Seq<u64>>, k: nat) -> Seq<u64>
    decreases k,
{
    if k == 0 {
        Seq::empty()
    } else {
        joined(pieces, (k - 1) as nat) + pieces[k - 1]
    }
}

/// A callstack after its header and the first `k` pieces.
pub open spec fn after_pieces(nframes: u64, pieces: Seq<Seq<u64>>, k: nat) -> PendingView
    decreases k,
{
    if k == 0 {
        after_header(nframes)
    } else {
        with_pcs(after_pieces(nframes, pieces, (k - 1) as nat), pieces[k - 1])
    }
}

/// The law of a callstack that arrives in pieces: its frames are the addresses of the
/// pieces in the order they came, up to as many as the header asked for, which is at most
/// 256; what fills the last piece is left out.
pub proof fn lemma_pieces_in_order(nframes: u64, pieces: Seq<Seq<u64>>, k: nat)
    requires
        k <= pieces.len(),
    ensures
        ({
            let p = after_pieces(nframes, pieces, k);
            let all = joined(pieces, k);
            let most = if nframes < 256 {
                nframes as int
            } else {
                256
            };
            &&& p.want == most
            &&& p.frames == all.take(
                if all.len() < most {
                    all.len() as int
                } else {
                    most
                },
            )
        }),
    decreases k,
{
    let most = wanted(nframes) as int;
    let all = joined(pieces, k);
    if k > 0 {
        let m = (k - 1) as nat;
        lemma_pieces_in_order(nframes, pieces, m);
        let before = joined(pieces, m);
        let q = after_pieces(nframes, pieces, m);
        let piece = pieces[k - 1];
        if before.len() < most {
            assert(before.take(before.len() as int) =~= before);
        }
        let p = after_pieces(nframes, pieces, k);
        assert(p.frames =~= all.take(
            if all.len() < most {
                all.len() as int
            } else {
                most
            },
        ));
    } else {
        assert(all.take(0) =~= Seq::empty());
    }
}

/// A user stack is handed out exactly when as many addresses came as its header asked for,
/// and then no more of it is kept; until then none is. Addresses without a header are
/// passed over.
#[verifier::spinoff_prover]
#[verifier::rlimit(40)]
pub proof fn lemma_whole_when_all_came(s: StacksView, tid: u64, pcs: Seq<u64>)
    ensures
        ({
            let (n, done) = udata(s, tid, pcs);
            let p = s.building[tid];
            let building = s.building.dom().contains(tid);
            &&& !building ==> n == s && done is None
            &&& building && p.frames.len() + pcs.len() >= p.want ==> done is Some
                && !n.building.dom().contains(tid)
            &&& building && p.frames.len() + pcs.len() < p.want ==> done is None
                && n.building.dom().contains(tid) && n.building[tid].frames == p.frames + pcs
                && n.building[tid].want == p.want
            &&& building && p.frames.len() + pcs.len() == p.want ==> (done matches Some(d)
                && d.1 == p.frames + pcs)
            &&& s.pid_of.dom().contains(tid) ==> (done matches Some(d) ==> d.0 == s.pid_of[tid])
            &&& n.kernel_done == s.kernel_done && n.building_kernel == s.building_kernel
        }),
{
    let p = s.building[tid];
    assert(pcs.take(pcs.len() as int) =~= pcs);
    assert(p.frames + pcs.take(0) =~= p.frames);
    if p.frames.len() + pcs.len() == p.want {
        assert(p.frames + pcs.take(pcs.len() as int) =~= p.frames + pcs);
        if pcs.len() == 0 {
            assert(p.frames + pcs =~= p.frames);
        }
    } else if p.frames.len() + pcs.len() < p.want {
        assert(with_pcs(p, pcs).frames == p.frames + pcs);
    }
}

/// A kernel stack is kept for its thread exactly when as many addresses came as its header
/// asked for; it does not touch the user stack.
#[verifier::spinoff_prover]
#[verifier::rlimit(40)]
pub proof fn lemma_kernel_stack_is_kept(s: StacksView, tid: u64, pcs: Seq<u64>)
    ensures
        ({
            let n = kdata(s, tid, pcs);
            let p = s.building_kernel[tid];
            let building = s.building_kernel.dom().contains(tid);
            &&& !building ==> n == s
            &&& building && p.frames.len() + pcs.len() >= p.want ==> n.kernel_done.dom().contains(
                tid,
            ) && !n.building_kernel.dom().contains(tid)
            &&& building && p.frames.len() + pcs.len() == p.want ==> kernel_of(n, tid) == p.frames
                + pcs
            &&& building && p.frames.len() + pcs.len() < p.want ==> n.kernel_done == s.kernel_done
                && n.building_kernel[tid].frames == p.frames + pcs
            &&& n.building == s.building && n.pid_of == s.pid_of
        }),
{
    let p = s.building_kernel[tid];
    assert(pcs.take(pcs.len() as int) =~= pcs);
    assert(p.frames + pcs.take(0) =~= p.frames);
    if p.frames.len() + pcs.len() == p.want && pcs.len() == 0 {
        assert(p.frames + pcs =~= p.frames);
    } else if p.frames.len() + pcs.len() < p.want {
        assert(with_pcs(p, pcs).frames == p.frames + pcs);
    }
}

} // verus!
