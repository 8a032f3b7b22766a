//! Setting the Linux collector up: its steps, opening the counters in groups on
//! each CPU, summing up how precise the samplers are, and what to undo where a step
//! fails.

use crate::cpu::counters::{Counter, SamplerCfg, Src, SISMO_MAX_COUNTERS, SISMO_MAX_CPUS};
use vstd::prelude::*;

verus! {

/// The descriptor that starts a new group.
pub const NO_LEADER: i32 = -1;

/// How many CPUs are set up: at most as many as the counter map has rows for.
pub fn cpus_used(possible: u32) -> (r: u32)
    ensures
        r == (if possible < SISMO_MAX_CPUS {
            possible
        } else {
            SISMO_MAX_CPUS
        }),
{
    if possible < SISMO_MAX_CPUS {
        possible
    } else {
        SISMO_MAX_CPUS
    }
}

/// The descriptor of the group that slot `n` joins on a CPU: the first that was
/// opened in the run of slots of its group that ends there; none where there is
/// none yet. `fds` are what opening the earlier slots gave.
pub open spec fn leader_at(counters: Seq<Counter>, fds: Seq<Option<i32>>, n: nat) -> i32
    decreases n,
{
    if n == 0 {
        NO_LEADER
    } else {
        let before = if n >= 2 && counters[n - 1].group == counters[n - 2].group {
            leader_at(counters, fds, (n - 1) as nat)
        } else {
            NO_LEADER
        };
        if before != NO_LEADER {
            before
        } else {
            match fds[n - 1] {
                Some(fd) => fd,
                None => NO_LEADER,
            }
        }
    }
}

/// The group descriptor that opening slot `n` is given.
pub open spec fn group_fd(counters: Seq<Counter>, fds: Seq<Option<i32>>, n: nat) -> i32 {
    if n > 0 && counters[n as int].group == counters[n - 1].group {
        leader_at(counters, fds, n)
    } else {
        NO_LEADER
    }
}

/// Opening the counters of one CPU, slot after slot.
pub struct GroupWalk {
    /// The descriptor of the group of the last slot.
    pub leader: i32,
    /// What opening each slot gave.
    pub fds: Vec<Option<i32>>,
}

/// An entry of the counter map: where it stands and the descriptor it holds.
#[derive(Clone, Copy, PartialEq, Eq, Structural, Debug)]
pub struct CounterEntry {
    pub idx: u32,
    pub fd: i32,
}

impl GroupWalk {
    pub open spec fn wf(self, counters: Seq<Counter>) -> bool {
        &&& self.fds@.len() <= counters.len()
        &&& self.leader == leader_at(counters, self.fds@, self.fds@.len())
    }

    pub fn new(counters: &Vec<Counter>) -> (r: Self)
        ensures
            r.wf(counters@),
            r.fds@.len() == 0,
    {
        GroupWalk { leader: NO_LEADER, fds: Vec::new() }
    }

    /// The counter to open next and the group to open it in; None where all were
    /// tried.
    pub fn next(&self, counters: &Vec<Counter>) -> (r: Option<(Src, i32)>)
        requires
            self.wf(counters@),
        ensures
            ({
                let n = self.fds@.len();
                r == (if n < counters@.len() {
                    Some((counters@[n as int].src, group_fd(counters@, self.fds@, n)))
                } else {
                    None
                })
            }),
    {
        let n: usize = self.fds.len();
        if n >= counters.len() {
            return None;
        }
        if n > 0 && counters[n].group == counters[n - 1].group {
            Some((counters[n].src, self.leader))
        } else {
            Some((counters[n].src, NO_LEADER))
        }
    }

    /// What opening the next counter gave. Returns the entry that the counter map
    /// gets for it.
    pub fn opened(&mut self, counters: &Vec<Counter>, cpu: u32, fd: Option<i32>) -> (r: Option<
        CounterEntry,
    >)
        requires
            old(self).wf(counters@),
            old(self).fds@.len() < counters@.len(),
            counters@.len() <= SISMO_MAX_COUNTERS,
            cpu < SISMO_MAX_CPUS,
        ensures
            final(self).wf(counters@),
            final(self).fds@ == old(self).fds@.push(fd),
            r == (match fd {
                Some(f) => Some(
                    CounterEntry {
                        idx: (old(self).fds@.len() * SISMO_MAX_CPUS + cpu) as u32,
                        fd: f,
                    },
                ),
                None => None,
            }),
    {
        let n: usize = self.fds.len();
        let ghost before = self.fds@;
        let same = n > 0 && counters[n].group == counters[n - 1].group;
        let leader: i32 = if same {
            self.leader
        } else {
            NO_LEADER
        };
        self.fds.push(fd);
        let entry: Option<CounterEntry> = match fd {
            Some(f) => {
                if leader == NO_LEADER {
                    self.leader = f;
                } else {
                    self.leader = leader;
                }
                Some(CounterEntry { idx: n as u32 * SISMO_MAX_CPUS + cpu, fd: f })
            },
            None => {
                self.leader = leader;
                None
            },
        };
        proof {
            lemma_leader_prefix(counters@, before, self.fds@, n as nat);
        }
        entry
    }
}

proof fn lemma_leader_prefix(counters: Seq<Counter>, a: Seq<Option<i32>>, b: Seq<Option<i32>>, n: nat)
    requires
        n <= a.len(),
        a.is_prefix_of(b),
    ensures
        leader_at(counters, a, n) == leader_at(counters, b, n),
    decreases n,
{
    if n > 0 {
        assert(a[n - 1] == b[n - 1]);
        lemma_leader_prefix(counters, a, b, (n - 1) as nat);
    }
}

/// The leader that the slots of a group join is one that was opened: in the run of
/// equal groups that ends at slot `n`, it is the first descriptor that opening
/// gave.
pub proof fn lemma_leader_is_first_opened(
    counters: Seq<Counter>,
    fds: Seq<Option<i32>>,
    first: int,
    n: nat,
)
    requires
        0 <= first < n <= fds.len(),
        n <= counters.len(),
        first > 0 ==> counters[first].group != counters[first - 1].group,
        forall|i: int|
            first <= i < n ==> (#[trigger] counters[i]).group == counters[first].group,
        forall|i: int| first <= i < n ==> #[trigger] fds[i] != Some(NO_LEADER),
    ensures
        leader_at(counters, fds, n) == NO_LEADER ==> forall|i: int|
            first <= i < n ==> (#[trigger] fds[i]) is None,
        leader_at(counters, fds, n) != NO_LEADER ==> exists|i: int|
            first <= i < n && (#[trigger] fds[i]) == Some(leader_at(counters, fds, n)) && forall|j: int|
                first <= j < i ==> (#[trigger] fds[j]) is None,
    decreases n,
{
    if n == first + 1 {
        assert(fds[first] == fds[n - 1]);
        if n >= 2 {
            assert(counters[n - 1].group != counters[n - 2].group);
        }
        if fds[first] is Some {
            assert(fds[first] == Some(leader_at(counters, fds, n)));
        }
    } else {
        let m = (n - 1) as nat;
        lemma_leader_is_first_opened(counters, fds, first, m);
        assert(counters[n - 1].group == counters[first].group);
        assert(counters[n - 2].group == counters[first].group);
        if leader_at(counters, fds, m) != NO_LEADER {
            let i = choose|i: int|
                first <= i < m && (#[trigger] fds[i]) == Some(leader_at(counters, fds, m))
                    && forall|j: int| first <= j < i ==> (#[trigger] fds[j]) is None;
            assert(fds[i] == Some(leader_at(counters, fds, n)));
        } else {
            if fds[n - 1] is Some {
                assert(fds[n - 1] == Some(leader_at(counters, fds, n)));
            }
        }
    }
}

/// The slots that were opened on the first CPU, in order.
pub open spec fn open_slots(fds: Seq<Option<i32>>, n: nat) -> Seq<u8>
    decreases n,
{
    if n == 0 {
        Seq::empty()
    } else if fds[n - 1] is Some {
        open_slots(fds, (n - 1) as nat).push((n - 1) as u8)
    } else {
        open_slots(fds, (n - 1) as nat)
    }
}

/// The active slots: those that were opened on the first CPU. The first of them
/// is the timebase.
pub fn active_slots(fds: &Vec<Option<i32>>) -> (r: Vec<u8>)
    requires
        fds@.len() <= SISMO_MAX_COUNTERS,
    ensures
        r@ == open_slots(fds@, fds@.len()),
        forall|i: int| 0 <= i < r@.len() ==> (#[trigger] r@[i]) < fds@.len(),
{
    let mut r: Vec<u8> = Vec::new();
    let mut i: usize = 0;
    while i < fds.len()
        invariant
            i <= fds@.len() <= SISMO_MAX_COUNTERS,
            r@ == open_slots(fds@, i as nat),
            forall|j: int| 0 <= j < r@.len() ==> (#[trigger] r@[j]) < i,
        decreases fds@.len() - i,
    {
        if fds[i].is_some() {
            r.push(i as u8);
        }
        i += 1;
    }
    r
}

/// The samplers that were opened: whether any was, and the lowest precision that
/// one got.
#[derive(Clone, Copy, PartialEq, Eq, Structural, Debug)]
pub struct SamplerSummary {
    pub any: bool,
    pub precise_ip: u8,
}

impl SamplerSummary {
    pub fn new() -> (r: Self)
        ensures
            r == (SamplerSummary { any: false, precise_ip: 0 }),
    {
        SamplerSummary { any: false, precise_ip: 0 }
    }

    /// A sampler of precision `got` was opened.
    pub fn note(&mut self, got: u8)
        ensures
            final(self).any,
            final(self).precise_ip == (if !old(self).any || got < old(self).precise_ip {
                got
            } else {
                old(self).precise_ip
            }),
    {
        if !self.any || got < self.precise_ip {
            self.precise_ip = got;
        }
        self.any = true;
    }

    /// Whether samples of a focus will skid: a sampler did not get the precision
    /// that was asked for.
    pub fn skids(&self, focused: bool, cfg: &SamplerCfg) -> (r: bool)
        ensures
            r == (focused && self.any && self.precise_ip < cfg.precise_ip),
    {
        focused && self.any && self.precise_ip < cfg.precise_ip
    }
}

/// How far setting up got.
#[derive(Clone, Copy, PartialEq, Eq, Structural, Debug)]
pub enum SetupFailure {
    /// The data source could not be registered, or the BPF object not opened.
    NoObject,
    /// The object could not be loaded, or lacks a map.
    ObjectUnusable,
    /// The ring buffer could not be made.
    NoRingBuffer,
}

/// What is undone, in this order.
#[derive(Clone, Copy, PartialEq, Eq, Structural, Debug)]
pub struct Undo {
    pub destroy_links: bool,
    pub close_fds: bool,
    pub close_object: bool,
}

/// What is undone after a failure.
pub open spec fn undone(failure: SetupFailure) -> Undo {
    Undo {
        destroy_links: failure == SetupFailure::NoRingBuffer,
        close_fds: failure == SetupFailure::NoRingBuffer,
        close_object: failure != SetupFailure::NoObject,
    }
}

/// What is undone after a failure: what had been set up by then.
pub fn undo_after(failure: SetupFailure) -> (r: Undo)
    ensures
        r == undone(failure),
{
    match failure {
        SetupFailure::NoObject => Undo {
            destroy_links: false,
            close_fds: false,
            close_object: false,
        },
        SetupFailure::ObjectUnusable => Undo {
            destroy_links: false,
            close_fds: false,
            close_object: true,
        },
        SetupFailure::NoRingBuffer => Undo {
            destroy_links: true,
            close_fds: true,
            close_object: true,
        },
    }
}

/// How many programs look at threads that wait.
pub const OFFCPU_PROGRAMS: usize = 7;

/// The programs that look at threads that wait, in the order in which they are
/// attached: the switch itself, and what tells what is waited for.
pub open spec fn offcpu_names() -> Seq<Seq<char>> {
    seq![
        "on_sched_switch"@,
        "on_futex_enter"@,
        "on_futex_exit"@,
        "on_tcp_recvmsg"@,
        "on_tcp_recvmsg_ret"@,
        "on_vfs_read"@,
        "on_vfs_read_ret"@,
    ]
}

pub fn offcpu_program(i: usize) -> (s: &'static str)
    requires
        i < OFFCPU_PROGRAMS,
    ensures
        s@ == offcpu_names()[i as int],
{
    match i {
        0 => "on_sched_switch",
        1 => "on_futex_enter",
        2 => "on_futex_exit",
        3 => "on_tcp_recvmsg",
        4 => "on_tcp_recvmsg_ret",
        5 => "on_vfs_read",
        _ => "on_vfs_read_ret",
    }
}

/// The steps of the set-up, in their order.
#[derive(Clone, Copy, PartialEq, Eq, Structural, Debug)]
pub enum SetupStep {
    /// Register the data source.
    Register,
    OpenObject,
    LoadObject,
    /// Find the maps that the set-up cannot do without.
    FindMaps,
    /// Open the counters on each CPU, as many as there are.
    OpenCounters,
    /// Tell the programs whom to look at.
    SetTarget,
    /// Tell the programs whether stacks are copied.
    SetUnwindFlag,
    /// Attach the programs that look at threads that wait, as many as there are.
    AttachOffCpu,
    /// Open the samplers on each CPU, as many as there are.
    OpenSamplers,
    CreateRing,
    StartWorker,
    /// The collector runs.
    Running,
    /// Take down what had been set up by then.
    TakeDown(SetupFailure),
    /// There is no collector, and nothing is left of it.
    Failed,
}

/// The step after one that went well, or did not. The counters, the programs and
/// the samplers may be fewer than there could be; the rest is needed.
pub open spec fn setup_after(offcpu: bool, step: SetupStep, ok: bool) -> SetupStep {
    match step {
        SetupStep::Register => if ok {
            SetupStep::OpenObject
        } else {
            SetupStep::TakeDown(SetupFailure::NoObject)
        },
        SetupStep::OpenObject => if ok {
            SetupStep::LoadObject
        } else {
            SetupStep::TakeDown(SetupFailure::NoObject)
        },
        SetupStep::LoadObject => if ok {
            SetupStep::FindMaps
        } else {
            SetupStep::TakeDown(SetupFailure::ObjectUnusable)
        },
        SetupStep::FindMaps => if ok {
            SetupStep::OpenCounters
        } else {
            SetupStep::TakeDown(SetupFailure::ObjectUnusable)
        },
        SetupStep::OpenCounters => SetupStep::SetTarget,
        SetupStep::SetTarget => SetupStep::SetUnwindFlag,
        SetupStep::SetUnwindFlag => if offcpu {
            SetupStep::AttachOffCpu
        } else {
            SetupStep::OpenSamplers
        },
        SetupStep::AttachOffCpu => SetupStep::OpenSamplers,
        SetupStep::OpenSamplers => SetupStep::CreateRing,
        SetupStep::CreateRing => if ok {
            SetupStep::StartWorker
        } else {
            SetupStep::TakeDown(SetupFailure::NoRingBuffer)
        },
        SetupStep::StartWorker => SetupStep::Running,
        SetupStep::Running => SetupStep::Running,
        SetupStep::TakeDown(_) => SetupStep::Failed,
        SetupStep::Failed => SetupStep::Failed,
    }
}

/// Whether the object is open when a step is taken.
pub open spec fn object_open(step: SetupStep) -> bool {
    match step {
        SetupStep::Register | SetupStep::OpenObject | SetupStep::Failed => false,
        SetupStep::TakeDown(f) => f != SetupFailure::NoObject,
        _ => true,
    }
}

/// Whether links and descriptors may have been made when a step is taken.
pub open spec fn handles_made(step: SetupStep) -> bool {
    match step {
        SetupStep::Register
        | SetupStep::OpenObject
        | SetupStep::LoadObject
        | SetupStep::FindMaps
        | SetupStep::OpenCounters
        | SetupStep::Failed => false,
        SetupStep::TakeDown(f) => f == SetupFailure::NoRingBuffer,
        _ => true,
    }
}

/// The set-up: what is held, and the step to take.
#[derive(Clone, Copy, PartialEq, Eq, Structural, Debug)]
pub struct CaptureSetup {
    pub offcpu: bool,
    pub step: SetupStep,
    pub object: bool,
    pub handles: bool,
}

impl CaptureSetup {
    /// What is held is what the steps before this one made.
    pub open spec fn wf(&self) -> bool {
        &&& self.object == object_open(self.step)
        &&& self.handles == handles_made(self.step)
    }

    pub fn new(offcpu: bool) -> (r: Self)
        ensures
            r.wf(),
            r == (CaptureSetup {
                offcpu,
                step: SetupStep::Register,
                object: false,
                handles: false,
            }),
    {
        CaptureSetup { offcpu, step: SetupStep::Register, object: false, handles: false }
    }

    /// The step was taken: `ok` says whether it went well.
    pub fn advance(&mut self, ok: bool)
        requires
            old(self).wf(),
        ensures
            final(self).wf(),
            final(self).offcpu == old(self).offcpu,
            final(self).step == setup_after(old(self).offcpu, old(self).step, ok),
    {
        let next: SetupStep = match self.step {
            SetupStep::Register => if ok {
                SetupStep::OpenObject
            } else {
                SetupStep::TakeDown(SetupFailure::NoObject)
            },
            SetupStep::OpenObject => if ok {
                self.object = true;
                SetupStep::LoadObject
            } else {
                SetupStep::TakeDown(SetupFailure::NoObject)
            },
            SetupStep::LoadObject => if ok {
                SetupStep::FindMaps
            } else {
                SetupStep::TakeDown(SetupFailure::ObjectUnusable)
            },
            SetupStep::FindMaps => if ok {
                SetupStep::OpenCounters
            } else {
                SetupStep::TakeDown(SetupFailure::ObjectUnusable)
            },
            SetupStep::OpenCounters => {
                self.handles = true;
                SetupStep::SetTarget
            },
            SetupStep::SetTarget => SetupStep::SetUnwindFlag,
            SetupStep::SetUnwindFlag => if self.offcpu {
                SetupStep::AttachOffCpu
            } else {
                SetupStep::OpenSamplers
            },
            SetupStep::AttachOffCpu => SetupStep::OpenSamplers,
            SetupStep::OpenSamplers => SetupStep::CreateRing,
            SetupStep::CreateRing => if ok {
                SetupStep::StartWorker
            } else {
                SetupStep::TakeDown(SetupFailure::NoRingBuffer)
            },
            SetupStep::StartWorker => SetupStep::Running,
            SetupStep::Running => SetupStep::Running,
            SetupStep::TakeDown(_) => {
                self.object = false;
                self.handles = false;
                SetupStep::Failed
            },
            SetupStep::Failed => SetupStep::Failed,
        };
        self.step = next;
    }
}

/// The step after `n` steps, of which `oks` says how each went.
pub open spec fn setup_reached(offcpu: bool, oks: Seq<bool>, n: nat) -> SetupStep
    decreases n,
{
    if n == 0 {
        SetupStep::Register
    } else {
        setup_after(offcpu, setup_reached(offcpu, oks, (n - 1) as nat), oks[n - 1])
    }
}

/// The collector runs exactly when the data source was registered, the object
/// opened and loaded, its maps found and the ring made; else there is none. Whether
/// there were counters, programs or samplers does not matter.
pub proof fn lemma_runs_iff_needed_steps_went_well(offcpu: bool, oks: Seq<bool>)
    requires
        oks.len() == 11,
    ensures
        ({
            let ring = if offcpu {
                9int
            } else {
                8int
            };
            let end = setup_reached(offcpu, oks, 11);
            if oks[0] && oks[1] && oks[2] && oks[3] && oks[ring] {
                end == SetupStep::Running
            } else {
                end == SetupStep::Failed
            }
        }),
{
    reveal_with_fuel(setup_reached, 12);
}

/// What is taken down after a failure is what is held, no less and no more; and
/// nothing is held behind it.
pub proof fn lemma_taken_down_is_what_was_made(failure: SetupFailure)
    ensures
        ({
            let step = SetupStep::TakeDown(failure);
            &&& undone(failure).close_object == object_open(step)
            &&& undone(failure).close_fds == handles_made(step)
            &&& undone(failure).destroy_links == handles_made(step)
            &&& forall|offcpu: bool, ok: bool|
                {
                    let next = #[trigger] setup_after(offcpu, step, ok);
                    !object_open(next) && !handles_made(next)
                }
        }),
{
}

/// The flag that turns unwind captures on in the BPF program: on x86-64 unless
/// `SISMO_UNWIND_CAPTURE` is "0", elsewhere never.
pub fn unwind_flag(x86_64: bool, setting_is_zero: bool) -> (r: u32)
    ensures
        r == (if x86_64 && !setting_is_zero {
            1u32
        } else {
            0u32
        }),
{
    if x86_64 && !setting_is_zero {
        1
    } else {
        0
    }
}

/// The active slots are those that were opened, each once and in ascending order.
#[verifier::spinoff_prover]
#[verifier::rlimit(40)]
pub proof fn lemma_open_slots(fds: Seq<Option<i32>>, n: nat)
    requires
        n <= fds.len(),
        n <= 256,
    ensures
        forall|k: int|
            0 <= k < n ==> (open_slots(fds, n).contains(k as u8) <==> #[trigger] fds[k] is Some),
        forall|i: int| 0 <= i < open_slots(fds, n).len() ==> (#[trigger] open_slots(fds, n)[i]) < n,
        forall|i: int, j: int|
            0 <= i < j < open_slots(fds, n).len() ==> (#[trigger] open_slots(fds, n)[i]) < (
            #[trigger] open_slots(fds, n)[j]),
    decreases n,
{
    if n > 0 {
        let m = (n - 1) as nat;
        lemma_open_slots(fds, m);
        let before = open_slots(fds, m);
        let all = open_slots(fds, n);
        assert forall|k: int| 0 <= k < n implies (all.contains(k as u8)
            <==> #[trigger] fds[k] is Some) by {
            if fds[n - 1] is Some {
                assert(all[before.len() as int] == m as u8);
            }
            if k < m && before.contains(k as u8) {
                let i = choose|i: int| 0 <= i < before.len() && before[i] == k as u8;
                assert(all[i] == k as u8);
            }
            if all.contains(k as u8) && !before.contains(k as u8) {
                let i = choose|i: int| 0 <= i < all.len() && all[i] == k as u8;
                if i < before.len() {
                    assert(before[i] == k as u8);
                }
            }
            if k == m && before.contains(k as u8) {
                let i = choose|i: int| 0 <= i < before.len() && before[i] == k as u8;
                assert(before[i] < m);
            }
        }
    }
}

/// The group that a slot joins: none where it is the first of its group, else that of the
/// first slot of the group that was opened; none where none of them was.
#[verifier::spinoff_prover]
#[verifier::rlimit(40)]
pub proof fn lemma_group_joined(counters: Seq<Counter>, fds: Seq<Option<i32>>, first: int, n: nat)
    requires
        0 <= first <= n < counters.len(),
        n <= fds.len(),
        first > 0 ==> counters[first].group != counters[first - 1].group,
        forall|i: int|
            first <= i <= n ==> (#[trigger] counters[i]).group == counters[first].group,
        forall|i: int| first <= i < n ==> #[trigger] fds[i] != Some(-1i32),
    ensures
        first == n ==> group_fd(counters, fds, n) == -1,
        (forall|i: int| first <= i < n ==> (#[trigger] fds[i]) is None) ==> group_fd(
            counters,
            fds,
            n,
        ) == -1,
        forall|k: int|
            first <= k < n && (#[trigger] fds[k]) is Some && (forall|j: int|
                first <= j < k ==> (#[trigger] fds[j]) is None) ==> fds[k] == Some(
                group_fd(counters, fds, n),
            ),
{
    if first < n {
        lemma_leader_is_first_opened(counters, fds, first, n);
        assert(counters[n as int].group == counters[first].group);
        assert(counters[n - 1].group == counters[first].group);
        assert forall|k: int|
            first <= k < n && (#[trigger] fds[k]) is Some && (forall|j: int|
                first <= j < k ==> (#[trigger] fds[j]) is None) implies fds[k] == Some(
            group_fd(counters, fds, n),
        ) by {
            let l = leader_at(counters, fds, n);
            let i = choose|i: int|
                first <= i < n && (#[trigger] fds[i]) == Some(l) && forall|j: int|
                    first <= j < i ==> (#[trigger] fds[j]) is None;
            assert(fds[i] == Some(l));
        }
    } else if n > 0 {
        assert(counters[first].group != counters[first - 1].group);
    }
}

} // verus!
