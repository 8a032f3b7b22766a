//! Control of the kernel's sampler: what is set, in which order, to sample the
//! threads of a process that wake from a long wait.

use crate::mach;
use crate::mach::{ns_to_ticks, TimebaseInfo};
use vstd::prelude::*;

verus! {

/// What a sample holds.
pub const SAMPLER_TH_INFO: u32 = 1;

pub const SAMPLER_KSTACK: u32 = 4;

pub const SAMPLER_USTACK: u32 = 8;

/// Action ids count from 1; 0 is no action.
pub const OFFCPU_ACTION_ID: u64 = 1;

pub const UCALLSTACK_DEPTH: u64 = 128;

/// What the sampler lets be set.
#[derive(Clone, Copy, PartialEq, Eq, Structural, Debug)]
pub enum Knob {
    Reset,
    ActionCount,
    ActionSamplers,
    ActionUcallstackDepth,
    ActionFilterByPid,
    LazyWaitTimeThreshold,
    LazyWaitAction,
    Sampling,
}

/// A value that is set: of 32 bits, of 64, or of 64 for one action.
#[derive(Clone, Copy, PartialEq, Eq, Structural, Debug)]
pub enum KnobValue {
    Word(u32),
    Long(u64),
    Indexed(u64, u64),
}

/// An i32 as the kernel takes it: its sign is extended.
pub open spec fn extended(pid: i32) -> u64 {
    if pid >= 0 {
        pid as u64
    } else {
        (pid + 0x1_0000_0000_0000_0000) as u64
    }
}

/// What is set to sample the waits of `pid` that last longer than `threshold_ns`.
pub open spec fn lazy_wait_settings(pid: i32, threshold_ns: u64, tb: TimebaseInfo) -> Seq<
    (Knob, KnobValue),
> {
    seq![
        (Knob::Reset, KnobValue::Word(1)),
        (Knob::ActionCount, KnobValue::Word(1)),
        (Knob::ActionSamplers, KnobValue::Indexed(OFFCPU_ACTION_ID, 9)),
        (
            Knob::ActionUcallstackDepth,
            KnobValue::Indexed(OFFCPU_ACTION_ID, UCALLSTACK_DEPTH),
        ),
        (Knob::ActionFilterByPid, KnobValue::Indexed(OFFCPU_ACTION_ID, extended(pid))),
        (
            Knob::LazyWaitTimeThreshold,
            KnobValue::Long(mach::scaled(threshold_ns, tb.denom, tb.numer)),
        ),
        (Knob::LazyWaitAction, KnobValue::Word(1)),
        (Knob::Sampling, KnobValue::Word(1)),
    ]
}

pub fn arm_lazy_wait(pid: i32, threshold_ns: u64, tb: TimebaseInfo) -> (r: Vec<(Knob, KnobValue)>)
    requires
        tb.wf(),
    ensures
        r@ == lazy_wait_settings(pid, threshold_ns, tb),
{
    let samplers: u64 = SAMPLER_USTACK as u64 + SAMPLER_TH_INFO as u64;
    let target: u64 = if pid >= 0 {
        pid as u64
    } else {
        (pid as i128 + 0x1_0000_0000_0000_0000) as u64
    };
    let mut r: Vec<(Knob, KnobValue)> = Vec::new();
    r.push((Knob::Reset, KnobValue::Word(1)));
    r.push((Knob::ActionCount, KnobValue::Word(1)));
    r.push((Knob::ActionSamplers, KnobValue::Indexed(OFFCPU_ACTION_ID, samplers)));
    r.push(
        (Knob::ActionUcallstackDepth, KnobValue::Indexed(OFFCPU_ACTION_ID, UCALLSTACK_DEPTH)),
    );
    r.push((Knob::ActionFilterByPid, KnobValue::Indexed(OFFCPU_ACTION_ID, target)));
    r.push((Knob::LazyWaitTimeThreshold, KnobValue::Long(ns_to_ticks(threshold_ns, tb))));
    r.push((Knob::LazyWaitAction, KnobValue::Word(OFFCPU_ACTION_ID as u32)));
    r.push((Knob::Sampling, KnobValue::Word(1)));
    assert(r@ =~= lazy_wait_settings(pid, threshold_ns, tb));
    r
}

/// What is set to stop the sampler and clear its state.
pub fn disarm() -> (r: Vec<(Knob, KnobValue)>)
    ensures
        r@ == seq![
            (Knob::Sampling, KnobValue::Word(0)),
            (Knob::Reset, KnobValue::Word(1)),
        ],
{
    let mut r: Vec<(Knob, KnobValue)> = Vec::new();
    r.push((Knob::Sampling, KnobValue::Word(0)));
    r.push((Knob::Reset, KnobValue::Word(1)));
    assert(r@ =~= seq![
        (Knob::Sampling, KnobValue::Word(0)),
        (Knob::Reset, KnobValue::Word(1)),
    ]);
    r
}

/// What is set has a name, and so has what failed to be set.
pub fn knob_name(k: Knob) -> (s: &'static str)
    ensures
        s@ == name_of(k),
{
    match k {
        Knob::Reset => "kperf.reset",
        Knob::ActionCount => "kperf.action.count",
        Knob::ActionSamplers => "kperf.action.samplers",
        Knob::ActionUcallstackDepth => "kperf.action.ucallstack_depth",
        Knob::ActionFilterByPid => "kperf.action.filter_by_pid",
        Knob::LazyWaitTimeThreshold => "kperf.lazy.wait_time_threshold",
        Knob::LazyWaitAction => "kperf.lazy.wait_action",
        Knob::Sampling => "kperf.sampling",
    }
}

pub open spec fn name_of(k: Knob) -> Seq<char> {
    match k {
        Knob::Reset => "kperf.reset"@,
        Knob::ActionCount => "kperf.action.count"@,
        Knob::ActionSamplers => "kperf.action.samplers"@,
        Knob::ActionUcallstackDepth => "kperf.action.ucallstack_depth"@,
        Knob::ActionFilterByPid => "kperf.action.filter_by_pid"@,
        Knob::LazyWaitTimeThreshold => "kperf.lazy.wait_time_threshold"@,
        Knob::LazyWaitAction => "kperf.lazy.wait_action"@,
        Knob::Sampling => "kperf.sampling"@,
    }
}

/// The sampler starts last, and only after everything else was set.
pub proof fn lemma_sampling_starts_last(pid: i32, threshold_ns: u64, tb: TimebaseInfo, i: int)
    requires
        0 <= i < lazy_wait_settings(pid, threshold_ns, tb).len(),
    ensures
        lazy_wait_settings(pid, threshold_ns, tb)[i].0 == Knob::Sampling <==> i
            == lazy_wait_settings(pid, threshold_ns, tb).len() - 1,
{
}

/// What is set to sample waits: the action takes the user stack and the thread's identity,
/// of the process that is asked for and no other; a wait is sampled once it is as long as
/// the threshold, in whole ticks; and a negative pid keeps its bits.
#[verifier::spinoff_prover]
#[verifier::rlimit(40)]
pub proof fn lemma_wait_settings(pid: i32, threshold_ns: u64, tb: TimebaseInfo)
    requires
        tb.wf(),
        (threshold_ns as nat * tb.denom as nat) / (tb.numer as nat) <= u64::MAX,
    ensures
        ({
            let v = lazy_wait_settings(pid, threshold_ns, tb);
            &&& v[0] == (Knob::Reset, KnobValue::Word(1))
            &&& v.contains((Knob::ActionCount, KnobValue::Word(1)))
            &&& v.contains((Knob::ActionSamplers, KnobValue::Indexed(1, 9)))
            &&& v.contains((Knob::ActionUcallstackDepth, KnobValue::Indexed(1, 128)))
            &&& v.contains((Knob::LazyWaitAction, KnobValue::Word(1)))
            &&& v.contains((Knob::Sampling, KnobValue::Word(1)))
            &&& exists|p: u64|
                #[trigger] v.contains((Knob::ActionFilterByPid, KnobValue::Indexed(1, p))) && (p
                    - pid) % 0x1_0000_0000_0000_0000 == 0
            &&& exists|t: u64|
                #[trigger] v.contains((Knob::LazyWaitTimeThreshold, KnobValue::Long(t))) && t
                    * tb.numer <= threshold_ns * tb.denom < (t + 1) * tb.numer
        }),
{
    let v = lazy_wait_settings(pid, threshold_ns, tb);
    mach::lemma_rounded_down(threshold_ns, tb.denom, tb.numer);
    assert(v[1] == (Knob::ActionCount, KnobValue::Word(1)));
    assert(v[2] == (Knob::ActionSamplers, KnobValue::Indexed(1, 9)));
    assert(v[3] == (Knob::ActionUcallstackDepth, KnobValue::Indexed(1, 128)));
    assert(v[4] == (Knob::ActionFilterByPid, KnobValue::Indexed(1, extended(pid))));
    assert(v[5] == (
        Knob::LazyWaitTimeThreshold,
        KnobValue::Long(mach::scaled(threshold_ns, tb.denom, tb.numer)),
    ));
    assert(v[6] == (Knob::LazyWaitAction, KnobValue::Word(1)));
    assert(v[7] == (Knob::Sampling, KnobValue::Word(1)));
    assert(v.contains((Knob::ActionFilterByPid, KnobValue::Indexed(1, extended(pid)))));
    assert(v.contains(
        (
            Knob::LazyWaitTimeThreshold,
            KnobValue::Long(mach::scaled(threshold_ns, tb.denom, tb.numer)),
        ),
    ));
}

} // verus!
