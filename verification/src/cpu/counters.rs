//! Which PMU counters to record and what the sampler overflows on.

use crate::intern;
use crate::text;
use crate::text::{
    chars_of, contains_text, first_word_of, lines_of, same_chars, split_at_first, trimmed,
    unsigned_of,
};
use vstd::prelude::*;
use vstd::string::*;

verus! {

/// The most counters that a sample record has slots for.
pub const SISMO_MAX_COUNTERS: usize = 12;

/// The most CPUs that the counter map has rows for.
pub const SISMO_MAX_CPUS: u32 = 256;

pub const HW_CPU_CYCLES: u32 = 0;

pub const HW_INSTRUCTIONS: u32 = 1;

pub const HW_CACHE_MISSES: u32 = 3;

pub const HW_BRANCH_MISSES: u32 = 5;

pub const HW_STALLED_FRONTEND: u32 = 7;

pub const HW_STALLED_BACKEND: u32 = 8;

/// What a counter is programmed with: a generic hardware event, or a raw event
/// encoding.
#[derive(Clone, Copy, PartialEq, Eq, Structural)]
pub enum Src {
    Hw(u32),
    Raw(u32),
}

/// A counter: the group it is scheduled with, its event and its name.
#[derive(Clone, Copy)]
pub struct Counter {
    pub group: u8,
    pub src: Src,
    pub name: &'static str,
}

/// What an event of the PMU table measures.
#[derive(Clone, Copy, PartialEq, Eq, Structural)]
pub enum Role {
    Cycles,
    Instructions,
    Slots,
    Retired,
    FetchBubbles,
    CacheMiss,
    BranchMiss,
    L3MissLoad,
}

/// An event of the PMU table.
#[derive(Clone, Copy, PartialEq, Eq, Structural)]
pub struct Event {
    pub role: Role,
    pub config: u64,
}

/// A row of the PMU table: a CPU model and its events.
pub struct Model {
    pub family: u16,
    pub model: u16,
    /// The steppings that the row is for; all of them where this is empty.
    pub steppings: Vec<u8>,
    pub core: String,
    pub events: Vec<Event>,
}

#[derive(Clone, Copy, PartialEq, Eq, Structural)]
pub struct CpuId {
    pub family: u16,
    pub model: u16,
    pub stepping: u8,
}

/// The stable counter name of a role.
pub open spec fn name_of_role(role: Role) -> Seq<char> {
    match role {
        Role::Cycles => "cpu-cycles"@,
        Role::Instructions => "instructions"@,
        Role::Slots => "slots"@,
        Role::Retired => "topdown-slots-retired"@,
        Role::FetchBubbles => "topdown-fetch-bubbles"@,
        Role::CacheMiss => "cache-misses"@,
        Role::BranchMiss => "branch-misses"@,
        Role::L3MissLoad => "mem-load-l3-miss"@,
    }
}

/// The stable counter name of a role.
pub fn role_name(role: Role) -> (r: &'static str)
    ensures
        r@ == name_of_role(role),
{
    match role {
        Role::Cycles => "cpu-cycles",
        Role::Instructions => "instructions",
        Role::Slots => "slots",
        Role::Retired => "topdown-slots-retired",
        Role::FetchBubbles => "topdown-fetch-bubbles",
        Role::CacheMiss => "cache-misses",
        Role::BranchMiss => "branch-misses",
        Role::L3MissLoad => "mem-load-l3-miss",
    }
}

/// The group that a role is scheduled with.
pub open spec fn group_of_role(role: Role) -> u8 {
    if role == Role::CacheMiss || role == Role::BranchMiss {
        1
    } else {
        0
    }
}

pub fn role_group(role: Role) -> (r: u8)
    ensures
        r == group_of_role(role),
{
    match role {
        Role::CacheMiss | Role::BranchMiss => 1,
        _ => 0,
    }
}

/// Whether a role only ever leads a focus sampler and is never counted along.
pub fn is_leader_only_role(role: Role) -> (r: bool)
    ensures
        r == (role == Role::L3MissLoad),
{
    role == Role::L3MissLoad
}

/// The slot-based Top-Down set.
pub open spec fn topdown_role(role: Role) -> bool {
    role == Role::Slots || role == Role::Retired || role == Role::FetchBubbles
}

pub fn is_topdown_role(role: Role) -> (r: bool)
    ensures
        r == topdown_role(role),
{
    role == Role::Slots || role == Role::Retired || role == Role::FetchBubbles
}

/// The number of a `key : number` line. None where the line has no colon, another
/// key, or something else behind the colon.
pub open spec fn line_value(line: Seq<char>, key: Seq<char>) -> Option<u64> {
    match text::split_once(line, ':') {
        None => None,
        Some((lhs, rhs)) => if text::trim(lhs) == key {
            match text::parse_unsigned(text::first_word(rhs), 10, u64::MAX as nat) {
                Some(v) => Some(v as u64),
                None => None,
            }
        } else {
            None
        },
    }
}

/// The number of the first `key : number` line from `i` on. Other lines are passed
/// over.
pub open spec fn field_value(lines: Seq<Seq<char>>, key: Seq<char>, i: nat) -> Option<u64>
    decreases lines.len() - i,
{
    if i >= lines.len() {
        None
    } else {
        match line_value(lines[i as int], key) {
            Some(v) => Some(v),
            None => field_value(lines, key, i + 1),
        }
    }
}

/// The number of the first `key : number` line of `/proc/cpuinfo`. The key is
/// matched whole, so that "model" is not "model name".
pub fn cpuinfo_field(text: &str, key: &str) -> (r: Option<u64>)
    ensures
        r == field_value(text::lines(text@), key@, 0),
{
    let lines = lines_of(text);
    let key_chars = chars_of(key);
    let ghost ls = text::lines(text@);
    let mut i: usize = 0;
    while i < lines.len()
        invariant
            i <= lines@.len(),
            intern::rows(lines@) == ls,
            ls == text::lines(text@),
            key_chars@ == key@,
            field_value(ls, key@, i as nat) == field_value(ls, key@, 0),
        decreases lines@.len() - i,
    {
        assert(lines@[i as int]@ == ls[i as int]);
        if let Some((lhs, rhs)) = split_at_first(lines[i].as_slice(), ':') {
            if same_chars(trimmed(lhs), key_chars.as_slice()) {
                if let Some(v) = unsigned_of(first_word_of(rhs), false, u64::MAX) {
                    return Some(v);
                }
            }
        }
        i += 1;
    }
    None
}

/// What `/proc/cpuinfo` says of an Intel CPU.
pub open spec fn cpu_id(text: Seq<char>) -> Option<CpuId> {
    let lines = text::lines(text);
    if !text::contains(text, "GenuineIntel"@) {
        None
    } else {
        match (field_value(lines, "cpu family"@, 0), field_value(lines, "model"@, 0)) {
            (Some(family), Some(model)) => Some(
                CpuId {
                    family: (family % 0x1_0000) as u16,
                    model: (model % 0x1_0000) as u16,
                    stepping: match field_value(lines, "stepping"@, 0) {
                        Some(s) => (s % 0x100) as u8,
                        None => 0,
                    },
                },
            ),
            _ => None,
        }
    }
}

/// The CPU that the text of `/proc/cpuinfo` describes; None where it is not an
/// Intel one.
pub fn read_cpu_id(text: &str) -> (r: Option<CpuId>)
    ensures
        r == cpu_id(text@),
{
    let chars = chars_of(text);
    let vendor = chars_of("GenuineIntel");
    if !contains_text(chars.as_slice(), vendor.as_slice()) {
        return None;
    }
    match (cpuinfo_field(text, "cpu family"), cpuinfo_field(text, "model")) {
        (Some(family), Some(model)) => {
            let stepping: u64 = match cpuinfo_field(text, "stepping") {
                Some(s) => s,
                None => 0,
            };
            Some(
                CpuId {
                    family: (family % 0x1_0000) as u16,
                    model: (model % 0x1_0000) as u16,
                    stepping: (stepping % 0x100) as u8,
                },
            )
        },
        _ => None,
    }
}

/// Whether the CPU has the slots counter and the Top-Down metrics: version 5 or
/// later in the low byte of `eax`, and fixed counter 3 (bit 3 of `ecx`), of CPUID
/// leaf 0x0A.
pub fn topdown_enumerated(eax: u32, ecx: u32) -> (r: bool)
    ensures
        r == (eax % 256 >= 5 && ecx / 8 % 2 == 1),
{
    eax % 256 >= 5 && ecx / 8 % 2 == 1
}

/// Whether a row of the PMU table is for the CPU `id`.
pub open spec fn row_matches(m: Model, id: CpuId) -> bool {
    &&& m.family == id.family
    &&& m.model == id.model
    &&& m.steppings@.len() == 0 || m.steppings@.contains(id.stepping)
}

/// The row for `id` among the first `n`: the first that is not of an Atom core,
/// else the last.
pub open spec fn matched(models: Seq<Model>, id: CpuId, n: nat) -> Option<nat>
    decreases n,
{
    if n == 0 {
        None
    } else {
        let before = matched(models, id, (n - 1) as nat);
        if before matches Some(k) && models[k as int].core@ != "Atom"@ {
            before
        } else if row_matches(models[n - 1], id) {
            Some((n - 1) as nat)
        } else {
            before
        }
    }
}

/// Once a row that is not of an Atom core is matched, it stays.
pub proof fn lemma_matched_stays(models: Seq<Model>, id: CpuId, a: nat, b: nat)
    requires
        a <= b,
        matched(models, id, a) matches Some(k) && models[k as int].core@ != "Atom"@,
    ensures
        matched(models, id, b) == matched(models, id, a),
    decreases b,
{
    if a < b {
        lemma_matched_stays(models, id, a, (b - 1) as nat);
    }
}

fn holds_byte(v: &Vec<u8>, b: u8) -> (r: bool)
    ensures
        r == v@.contains(b),
{
    let mut i: usize = 0;
    while i < v.len()
        invariant
            i <= v@.len(),
            forall|j: int| 0 <= j < i ==> v@[j] != b,
        decreases v@.len() - i,
    {
        if v[i] == b {
            return true;
        }
        i += 1;
    }
    false
}

/// The row of the PMU table for `id`, a P-core row where there is one.
pub fn match_model(models: &Vec<Model>, id: CpuId) -> (r: Option<usize>)
    ensures
        match r {
            Some(k) => k < models@.len() && matched(models@, id, models@.len()) == Some(k as nat)
                && row_matches(models@[k as int], id),
            None => matched(models@, id, models@.len()) is None,
        },
{
    let atom = "Atom".to_owned();
    let mut best: Option<usize> = None;
    let mut i: usize = 0;
    while i < models.len()
        invariant
            i <= models@.len(),
            atom@ == "Atom"@,
            match best {
                Some(k) => k < i && matched(models@, id, i as nat) == Some(k as nat) && row_matches(
                    models@[k as int],
                    id,
                ) && models@[k as int].core@ == "Atom"@,
                None => matched(models@, id, i as nat) is None,
            },
        decreases models@.len() - i,
    {
        let m = &models[i];
        if m.family == id.family && m.model == id.model && (m.steppings.len() == 0 || holds_byte(
            &m.steppings,
            id.stepping,
        )) {
            best = Some(i);
            if m.core != atom {
                proof {
                    lemma_matched_stays(models@, id, (i + 1) as nat, models@.len());
                }
                return best;
            }
        }
        i += 1;
    }
    best
}

/// The position of the first event of role `role`.
pub open spec fn role_config(events: Seq<Event>, role: Role, i: nat) -> Option<u64>
    decreases events.len() - i,
{
    if i >= events.len() {
        None
    } else if events[i as int].role == role {
        Some(events[i as int].config)
    } else {
        role_config(events, role, i + 1)
    }
}

/// The raw configuration of `role` on the CPU of a PMU table row.
pub fn config_for_role(m: &Model, role: Role) -> (r: Option<u64>)
    ensures
        r == role_config(m.events@, role, 0),
{
    let mut i: usize = 0;
    while i < m.events.len()
        invariant
            i <= m.events@.len(),
            role_config(m.events@, role, i as nat) == role_config(m.events@, role, 0),
        decreases m.events@.len() - i,
    {
        let ev = m.events[i];
        if ev.role == role {
            return Some(ev.config);
        }
        i += 1;
    }
    None
}

/// A counter, as plain values.
pub struct CounterView {
    pub group: u8,
    pub src: Src,
    pub name: Seq<char>,
}

impl View for Counter {
    type V = CounterView;

    open spec fn view(&self) -> CounterView {
        CounterView { group: self.group, src: self.src, name: self.name@ }
    }
}

pub open spec fn views(c: Seq<Counter>) -> Seq<CounterView> {
    Seq::new(c.len(), |i: int| c[i]@)
}

/// Whether an event of the table is counted.
pub open spec fn counted(role: Role, topdown: bool) -> bool {
    role != Role::L3MissLoad && (topdown || !topdown_role(role))
}

/// The counters of the first `n` events that are counted, at most
/// [`SISMO_MAX_COUNTERS`] of them.
pub open spec fn table_counters(events: Seq<Event>, topdown: bool, n: nat) -> Seq<CounterView>
    decreases n,
{
    if n == 0 {
        Seq::empty()
    } else {
        let before = table_counters(events, topdown, (n - 1) as nat);
        let ev = events[n - 1];
        if before.len() < SISMO_MAX_COUNTERS && counted(ev.role, topdown) {
            before.push(
                CounterView {
                    group: group_of_role(ev.role),
                    src: Src::Raw((ev.config % 0x1_0000_0000) as u32),
                    name: name_of_role(ev.role),
                },
            )
        } else {
            before
        }
    }
}

proof fn lemma_table_full(events: Seq<Event>, topdown: bool, a: nat, b: nat)
    requires
        a <= b,
        table_counters(events, topdown, a).len() >= SISMO_MAX_COUNTERS,
    ensures
        table_counters(events, topdown, b) == table_counters(events, topdown, a),
    decreases b,
{
    if a < b {
        lemma_table_full(events, topdown, a, (b - 1) as nat);
    }
}

/// The counters that a row of the PMU table gives.
pub fn counters_from_table(m: &Model, topdown: bool) -> (r: Vec<Counter>)
    ensures
        views(r@) == table_counters(m.events@, topdown, m.events@.len()),
        r@.len() <= SISMO_MAX_COUNTERS,
{
    let mut out: Vec<Counter> = Vec::new();
    assert(views(out@) =~= Seq::empty());
    let mut i: usize = 0;
    while i < m.events.len()
        invariant
            i <= m.events@.len(),
            out@.len() <= SISMO_MAX_COUNTERS,
            views(out@) == table_counters(m.events@, topdown, i as nat),
        decreases m.events@.len() - i,
    {
        if out.len() >= SISMO_MAX_COUNTERS {
            proof {
                lemma_table_full(m.events@, topdown, i as nat, m.events@.len());
            }
            return out;
        }
        let ev = m.events[i];
        if !is_leader_only_role(ev.role) && (!is_topdown_role(ev.role) || topdown) {
            let ghost before = views(out@);
            let c = Counter {
                group: role_group(ev.role),
                src: Src::Raw((ev.config % 0x1_0000_0000) as u32),
                name: role_name(ev.role),
            };
            out.push(c);
            assert(views(out@) =~= before.push(c@));
        }
        i += 1;
    }
    out
}

pub open spec fn counter_view(group: u8, src: Src, name: Seq<char>) -> CounterView {
    CounterView { group, src, name }
}

/// The counters of a CPU that the PMU table does not know.
pub open spec fn fallback_views(x86_64: bool) -> Seq<CounterView> {
    if x86_64 {
        seq![
            counter_view(0, Src::Hw(HW_CPU_CYCLES), "cpu-cycles"@),
            counter_view(0, Src::Hw(HW_INSTRUCTIONS), "instructions"@),
            counter_view(0, Src::Hw(HW_STALLED_FRONTEND), "stalled-cycles-frontend"@),
            counter_view(0, Src::Hw(HW_STALLED_BACKEND), "stalled-cycles-backend"@),
            counter_view(1, Src::Hw(HW_CACHE_MISSES), "cache-misses"@),
            counter_view(1, Src::Hw(HW_BRANCH_MISSES), "branch-misses"@),
        ]
    } else {
        seq![
            counter_view(0, Src::Hw(HW_CPU_CYCLES), "cpu-cycles"@),
            counter_view(0, Src::Hw(HW_INSTRUCTIONS), "instructions"@),
            counter_view(1, Src::Hw(HW_CACHE_MISSES), "cache-misses"@),
            counter_view(1, Src::Hw(HW_BRANCH_MISSES), "branch-misses"@),
        ]
    }
}

/// The counters of a CPU that the PMU table does not know.
pub fn fallback_counters(x86_64: bool) -> (r: Vec<Counter>)
    ensures
        views(r@) == fallback_views(x86_64),
        r@.len() <= SISMO_MAX_COUNTERS,
{
    let r: Vec<Counter> = if x86_64 {
        vec![
            Counter { group: 0, src: Src::Hw(HW_CPU_CYCLES), name: "cpu-cycles" },
            Counter { group: 0, src: Src::Hw(HW_INSTRUCTIONS), name: "instructions" },
            Counter { group: 0, src: Src::Hw(HW_STALLED_FRONTEND), name: "stalled-cycles-frontend" },
            Counter { group: 0, src: Src::Hw(HW_STALLED_BACKEND), name: "stalled-cycles-backend" },
            Counter { group: 1, src: Src::Hw(HW_CACHE_MISSES), name: "cache-misses" },
            Counter { group: 1, src: Src::Hw(HW_BRANCH_MISSES), name: "branch-misses" },
        ]
    } else {
        vec![
            Counter { group: 0, src: Src::Hw(HW_CPU_CYCLES), name: "cpu-cycles" },
            Counter { group: 0, src: Src::Hw(HW_INSTRUCTIONS), name: "instructions" },
            Counter { group: 1, src: Src::Hw(HW_CACHE_MISSES), name: "cache-misses" },
            Counter { group: 1, src: Src::Hw(HW_BRANCH_MISSES), name: "branch-misses" },
        ]
    };
    assert(views(r@) =~= fallback_views(x86_64));
    r
}

/// The slot-based counters that one virtual machine is given in spite of what its
/// CPUID says.
pub open spec fn slots_views() -> Seq<CounterView> {
    seq![
        counter_view(0, Src::Raw(0x3c), "cpu-cycles"@),
        counter_view(0, Src::Raw(0xc0), "instructions"@),
        counter_view(0, Src::Raw(0x400), "slots"@),
        counter_view(0, Src::Raw(0x2c2), "topdown-slots-retired"@),
        counter_view(0, Src::Raw(0x19c), "topdown-fetch-bubbles"@),
        counter_view(1, Src::Raw(0x412e), "cache-misses"@),
        counter_view(1, Src::Raw(0xc5), "branch-misses"@),
    ]
}

/// Whether this is that virtual machine: family 6, model 134, stepping 0, with the
/// hypervisor bit (bit 31 of `ecx` of CPUID leaf 1).
pub open spec fn is_slots_vm(id: Option<CpuId>, ecx: u32) -> bool {
    id == Some(CpuId { family: 6, model: 134, stepping: 0 }) && ecx >= 0x8000_0000
}

pub fn vm_slots_hack_counters(id: Option<CpuId>, ecx: u32) -> (r: Option<Vec<Counter>>)
    ensures
        r is Some <==> is_slots_vm(id, ecx),
        r matches Some(v) ==> views(v@) == slots_views() && v@.len() <= SISMO_MAX_COUNTERS,
{
    let id = match id {
        Some(i) => i,
        None => {
            return None;
        },
    };
    if id.family != 6 || id.model != 134 || id.stepping != 0 {
        return None;
    }
    if ecx < 0x8000_0000 {
        return None;
    }
    let v: Vec<Counter> = vec![
        Counter { group: 0, src: Src::Raw(0x3c), name: "cpu-cycles" },
        Counter { group: 0, src: Src::Raw(0xc0), name: "instructions" },
        Counter { group: 0, src: Src::Raw(0x400), name: "slots" },
        Counter { group: 0, src: Src::Raw(0x2c2), name: "topdown-slots-retired" },
        Counter { group: 0, src: Src::Raw(0x19c), name: "topdown-fetch-bubbles" },
        Counter { group: 1, src: Src::Raw(0x412e), name: "cache-misses" },
        Counter { group: 1, src: Src::Raw(0xc5), name: "branch-misses" },
    ];
    assert(views(v@) =~= slots_views());
    Some(v)
}

/// What the counters of a host are chosen from: the text of `/proc/cpuinfo`, where
/// it could be read, and what CPUID says. Off x86-64 the registers are 0.
pub struct Host<'a> {
    pub x86_64: bool,
    pub cpuinfo: Option<&'a str>,
    pub leaf1_ecx: u32,
    pub leaf10_eax: u32,
    pub leaf10_ecx: u32,
}

impl<'a> Host<'a> {
    pub open spec fn id(self) -> Option<CpuId> {
        match self.cpuinfo {
            Some(t) => cpu_id(t@),
            None => None,
        }
    }

    pub open spec fn topdown(self) -> bool {
        self.x86_64 && self.leaf10_eax % 256 >= 5 && self.leaf10_ecx / 8 % 2 == 1
    }
}

/// The row of the PMU table that is for the host.
pub open spec fn host_row(models: Seq<Model>, id: Option<CpuId>) -> Option<nat> {
    match id {
        Some(i) => matched(models, i, models.len()),
        None => None,
    }
}

/// The counters of a host: those of the one virtual machine, else those of the PMU
/// table, else the fallback.
pub open spec fn host_counters(models: Seq<Model>, host: Host) -> Seq<CounterView> {
    if host.x86_64 && is_slots_vm(host.id(), host.leaf1_ecx) {
        slots_views()
    } else {
        match host_row(models, host.id()) {
            Some(k) => if host.x86_64 {
                table_counters(models[k as int].events@, host.topdown(), models[k as int].events@.len())
            } else {
                fallback_views(false)
            },
            None => fallback_views(host.x86_64),
        }
    }
}

/// The counters to record on a host.
pub fn select_counters(models: &Vec<Model>, host: &Host) -> (r: Vec<Counter>)
    ensures
        views(r@) == host_counters(models@, *host),
        r@.len() <= SISMO_MAX_COUNTERS,
{
    let id: Option<CpuId> = match host.cpuinfo {
        Some(t) => read_cpu_id(t),
        None => None,
    };
    if host.x86_64 {
        if let Some(v) = vm_slots_hack_counters(id, host.leaf1_ecx) {
            return v;
        }
        if let Some(i) = id {
            if let Some(k) = match_model(models, i) {
                let topdown = topdown_enumerated(host.leaf10_eax, host.leaf10_ecx);
                return counters_from_table(&models[k], topdown);
            }
        }
    }
    fallback_counters(host.x86_64)
}

/// A focus of the recording: what to sample on in place of cycles.
#[derive(Clone, Copy, PartialEq, Eq, Structural)]
pub enum FocusPreset {
    Cache,
}

/// What a focus sampler overflows on.
#[derive(Clone, Copy, PartialEq, Eq, Structural)]
pub enum Leader {
    Cycles,
    Event(Role),
}

#[derive(Clone, Copy, PartialEq, Eq, Structural)]
pub struct FocusSpec {
    pub leader: Leader,
    pub precise_ip: u8,
    pub period: u64,
    pub sample_data_addr: bool,
}

impl FocusPreset {
    /// The preset of a name.
    pub fn from_name(name: &[u8]) -> (r: Option<FocusPreset>)
        ensures
            r == (if name@ == "cache".spec_bytes() {
                Some(FocusPreset::Cache)
            } else {
                None
            }),
    {
        if crate::bytes::same_bytes(name, "cache".as_bytes()) {
            Some(FocusPreset::Cache)
        } else {
            None
        }
    }

    pub fn name(self) -> (r: &'static str)
        ensures
            r@ == "cache"@,
    {
        match self {
            FocusPreset::Cache => "cache",
        }
    }

    /// Retired loads that missed the last cache: a precise event, which carries
    /// the address of the data.
    pub open spec fn spec_of(self) -> FocusSpec {
        FocusSpec {
            leader: Leader::Event(Role::L3MissLoad),
            precise_ip: 2,
            period: 2003,
            sample_data_addr: true,
        }
    }

    pub fn spec(self) -> (r: FocusSpec)
        ensures
            r == self.spec_of(),
    {
        match self {
            FocusPreset::Cache => FocusSpec {
                leader: Leader::Event(Role::L3MissLoad),
                precise_ip: 2,
                period: 2003,
                sample_data_addr: true,
            },
        }
    }
}

/// The raw configuration of the leader of a focus on the CPU that `cpuinfo` describes:
/// that of its role in the row of the CPU. None where the leader is the cycle counter.
pub open spec fn leader_event(models: Seq<Model>, cpuinfo: Option<Seq<char>>, focus: FocusPreset)
    -> Option<u64> {
    match (focus.spec_of().leader, cpuinfo) {
        (Leader::Event(role), Some(text)) => match cpu_id(text) {
            Some(id) => match matched(models, id, models.len()) {
                Some(k) => role_config(models[k as int].events@, role, 0),
                None => None,
            },
            None => None,
        },
        _ => None,
    }
}

/// The raw configuration of the leader of a focus on the CPU that `cpuinfo` describes.
pub fn leader_config(models: &Vec<Model>, cpuinfo: Option<&str>, focus: FocusPreset) -> (r: Option<
    u64,
>)
    ensures
        r == leader_event(
            models@,
            match cpuinfo {
                Some(text) => Some(text@),
                None => None,
            },
            focus,
        ),
{
    match (focus.spec().leader, cpuinfo) {
        (Leader::Event(role), Some(text)) => match read_cpu_id(text) {
            Some(id) => match match_model(models, id) {
                Some(k) => config_for_role(&models[k], role),
                None => None,
            },
            None => None,
        },
        _ => None,
    }
}

/// The kinds of perf event that are opened.
#[derive(Clone, Copy, PartialEq, Eq, Structural)]
pub enum EventType {
    Hardware,
    Raw,
}

/// The type and configuration that a counter is opened with.
pub fn event_of(src: Src) -> (r: (EventType, u64))
    ensures
        r == (match src {
            Src::Hw(h) => (EventType::Hardware, h as u64),
            Src::Raw(c) => (EventType::Raw, c as u64),
        }),
{
    match src {
        Src::Hw(h) => (EventType::Hardware, h as u64),
        Src::Raw(c) => (EventType::Raw, c as u64),
    }
}

/// What the sampler overflows on, how often, and with which precision.
#[derive(Clone, Copy, PartialEq, Eq, Structural)]
pub struct SamplerCfg {
    pub typ: EventType,
    pub config: u64,
    pub period: u64,
    pub precise_ip: u8,
    pub sample_data_addr: bool,
}

/// How many cycles the samples are apart where there is no focus.
pub const SURVEY_PERIOD: u64 = 1_000_003;

/// The sampler without a focus: cycles, [`SURVEY_PERIOD`] apart, imprecise. With
/// one: the preset's event, `period` apart; None where the CPU has no such event.
pub open spec fn sampler(focus: Option<FocusPreset>, period: u64, leader_config: Option<u64>) -> Option<
    SamplerCfg,
> {
    match focus {
        None => Some(
            SamplerCfg {
                typ: EventType::Hardware,
                config: HW_CPU_CYCLES as u64,
                period: SURVEY_PERIOD,
                precise_ip: 0,
                sample_data_addr: false,
            },
        ),
        Some(p) => match p.spec_of().leader {
            Leader::Cycles => Some(
                SamplerCfg {
                    typ: EventType::Hardware,
                    config: HW_CPU_CYCLES as u64,
                    period,
                    precise_ip: p.spec_of().precise_ip,
                    sample_data_addr: false,
                },
            ),
            Leader::Event(_) => match leader_config {
                Some(config) => Some(
                    SamplerCfg {
                        typ: EventType::Raw,
                        config,
                        period,
                        precise_ip: p.spec_of().precise_ip,
                        sample_data_addr: p.spec_of().sample_data_addr,
                    },
                ),
                None => None,
            },
        },
    }
}

/// The sampler for a focus. `period` is the preset's period after scaling,
/// `leader_config` the raw configuration of its leader on this CPU.
pub fn resolve_sampler(focus: Option<FocusPreset>, period: u64, leader_config: Option<u64>) -> (r:
    Option<SamplerCfg>)
    ensures
        r == sampler(focus, period, leader_config),
{
    let p = match focus {
        None => {
            return Some(
                SamplerCfg {
                    typ: EventType::Hardware,
                    config: HW_CPU_CYCLES as u64,
                    period: SURVEY_PERIOD,
                    precise_ip: 0,
                    sample_data_addr: false,
                },
            );
        },
        Some(p) => p,
    };
    let s = p.spec();
    match s.leader {
        Leader::Cycles => Some(
            SamplerCfg {
                typ: EventType::Hardware,
                config: HW_CPU_CYCLES as u64,
                period,
                precise_ip: s.precise_ip,
                sample_data_addr: false,
            },
        ),
        Leader::Event(_) => match leader_config {
            Some(config) => Some(
                SamplerCfg {
                    typ: EventType::Raw,
                    config,
                    period,
                    precise_ip: s.precise_ip,
                    sample_data_addr: s.sample_data_addr,
                },
            ),
            None => None,
        },
    }
}

/// One attempt to open the sampler: the precision to ask for, and what each
/// sample carries. A precise event needs the call chain for its stack, and only a
/// precise event resolves a data address.
#[derive(Clone, Copy, PartialEq, Eq, Structural)]
pub struct SamplerAttr {
    pub precise_ip: u8,
    pub callchain: bool,
    pub addr: bool,
}

/// How an attempt went.
#[derive(Clone, Copy, PartialEq, Eq, Structural)]
pub enum AttemptResult {
    /// The event was opened and the program attached.
    Attached,
    /// The event was opened, and the program refused it.
    AttachRefused,
    /// The event could not be opened.
    OpenRefused,
}

/// What follows an attempt. Where the event was opened and is of no use,
/// `close_fd` says to close it first.
#[derive(Clone, Copy, PartialEq, Eq, Structural)]
pub enum SamplerNext {
    Done { precise_ip: u8 },
    Retry { attr: SamplerAttr, close_fd: bool },
    GiveUp { close_fd: bool },
}

pub open spec fn attr_at(cfg: SamplerCfg, want: u8) -> SamplerAttr {
    SamplerAttr {
        precise_ip: want,
        callchain: want > 0,
        addr: cfg.sample_data_addr && want > 0,
    }
}

/// The attempt at precision `want`.
pub fn sampler_attr(cfg: &SamplerCfg, want: u8) -> (r: SamplerAttr)
    ensures
        r == attr_at(*cfg, want),
{
    SamplerAttr { precise_ip: want, callchain: want > 0, addr: cfg.sample_data_addr && want > 0 }
}

/// What follows an attempt at precision `want`: a refused one is tried again one
/// level lower, down to 0.
pub fn sampler_next(cfg: &SamplerCfg, want: u8, result: AttemptResult) -> (r: SamplerNext)
    ensures
        r == (match result {
            AttemptResult::Attached => SamplerNext::Done { precise_ip: want },
            _ => if want == 0 {
                SamplerNext::GiveUp { close_fd: result == AttemptResult::AttachRefused }
            } else {
                SamplerNext::Retry {
                    attr: attr_at(*cfg, (want - 1) as u8),
                    close_fd: result == AttemptResult::AttachRefused,
                }
            },
        }),
{
    let close_fd = result == AttemptResult::AttachRefused;
    match result {
        AttemptResult::Attached => SamplerNext::Done { precise_ip: want },
        _ => if want == 0 {
            SamplerNext::GiveUp { close_fd }
        } else {
            SamplerNext::Retry { attr: sampler_attr(cfg, want - 1), close_fd }
        },
    }
}

/// The configuration of a role is that of the first event with the role, where there is
/// one.
pub proof fn lemma_first_of_role(events: Seq<Event>, role: Role, from: nat)
    requires
        from <= events.len(),
    ensures
        match role_config(events, role, from) {
            Some(c) => exists|k: int|
                {
                    &&& from <= k < events.len()
                    &&& (#[trigger] events[k]).role == role && events[k].config == c
                    &&& forall|i: int| from <= i < k ==> (#[trigger] events[i]).role != role
                },
            None => forall|i: int| from <= i < events.len() ==> (#[trigger] events[i]).role != role,
        },
    decreases events.len() - from,
{
    if from < events.len() {
        if events[from as int].role != role {
            lemma_first_of_role(events, role, from + 1);
            if let Some(c) = role_config(events, role, from + 1) {
                let k = choose|k: int|
                    {
                        &&& from + 1 <= k < events.len()
                        &&& (#[trigger] events[k]).role == role && events[k].config == c
                        &&& forall|i: int|
                            from + 1 <= i < k ==> (#[trigger] events[i]).role != role
                    };
                assert(events[k].role == role);
            }
        } else {
            assert(events[from as int].config == role_config(events, role, from)->0);
        }
    }
}

/// Whether a counter is that of an event: a raw one of its configuration's low 32 bits.
pub open spec fn counts_event(c: CounterView, ev: Event) -> bool {
    &&& c.src == Src::Raw((ev.config % 0x1_0000_0000) as u32)
    &&& c.group == 1 <==> ev.role == Role::CacheMiss || ev.role == Role::BranchMiss
    &&& c.group <= 1
    &&& c.name == name_of_role(ev.role)
}

/// Whether an event takes part: none that only leads a focus, and one of slots only where
/// they are asked for.
pub open spec fn takes_part(ev: Event, topdown: bool) -> bool {
    match ev.role {
        Role::L3MissLoad => false,
        Role::Slots | Role::Retired | Role::FetchBubbles => topdown,
        Role::Cycles | Role::Instructions | Role::CacheMiss | Role::BranchMiss => true,
    }
}

/// Whether a counter is that of one of the first `n` events, which takes part.
pub open spec fn from_table(c: CounterView, events: Seq<Event>, topdown: bool, n: nat) -> bool {
    exists|i: int|
        0 <= i < n && #[trigger] takes_part(events[i], topdown) && counts_event(c, events[i])
}

/// The counters of a row of the table: each is that of an event that takes part; there are
/// at most twelve, and where all take part and fit there is one for each, in their order.
#[verifier::spinoff_prover]
#[verifier::rlimit(40)]
pub proof fn lemma_table_counters(events: Seq<Event>, topdown: bool, n: nat)
    requires
        n <= events.len(),
    ensures
        table_counters(events, topdown, n).len() <= 12,
        table_counters(events, topdown, n).len() <= n,
        forall|j: int|
            0 <= j < table_counters(events, topdown, n).len() ==> from_table(
                #[trigger] table_counters(events, topdown, n)[j],
                events,
                topdown,
                n,
            ),
        n <= 12 && (forall|i: int| 0 <= i < n ==> #[trigger] takes_part(events[i], topdown))
            ==> table_counters(events, topdown, n).len() == n && forall|i: int|
            0 <= i < n ==> counts_event(
                #[trigger] table_counters(events, topdown, n)[i],
                events[i],
            ),
    decreases n,
{
    if n > 0 {
        let m = (n - 1) as nat;
        lemma_table_counters(events, topdown, m);
        let before = table_counters(events, topdown, m);
        let t = table_counters(events, topdown, n);
        assert forall|j: int| 0 <= j < t.len() implies from_table(
            #[trigger] t[j],
            events,
            topdown,
            n,
        ) by {
            if j < before.len() {
                assert(t[j] == before[j]);
                let i = choose|i: int|
                    0 <= i < m && #[trigger] takes_part(events[i], topdown) && counts_event(
                        before[j],
                        events[i],
                    );
                assert(takes_part(events[i], topdown));
            } else {
                assert(takes_part(events[n - 1], topdown));
                assert(counts_event(t[j], events[n - 1]));
            }
        }
        if n <= 12 && (forall|i: int| 0 <= i < n ==> #[trigger] takes_part(events[i], topdown)) {
            assert(takes_part(events[n - 1], topdown));
            assert(counted(events[n - 1].role, topdown));
            assert(counts_event(t[n - 1], events[n - 1]));
            assert forall|i: int| 0 <= i < n implies counts_event(#[trigger] t[i], events[i]) by {
                if i < m {
                    assert(t[i] == before[i]);
                }
            }
        }
    }
}

/// An event that takes part is counted, where fewer than twelve are before it.
pub proof fn lemma_event_is_counted(events: Seq<Event>, topdown: bool, n: nat)
    requires
        n < events.len(),
        table_counters(events, topdown, n).len() < 12,
    ensures
        takes_part(events[n as int], topdown) ==> {
            let t = table_counters(events, topdown, n + 1);
            t.len() == table_counters(events, topdown, n).len() + 1 && counts_event(
                t.last(),
                events[n as int],
            )
        },
        !takes_part(events[n as int], topdown) ==> table_counters(events, topdown, n + 1)
            == table_counters(events, topdown, n),
{
}

/// A sampler without a focus counts cycles, imprecisely and without addresses. One with a
/// focus on the cache needs the configuration of its event, takes it and the period as
/// they are, precisely and with addresses.
pub proof fn lemma_sampler(period: u64, config: u64)
    ensures
        forall|c: Option<u64>| (#[trigger] sampler(None, period, c)) == (Some(
            SamplerCfg {
                typ: EventType::Hardware,
                config: 0,
                period: 1_000_003,
                precise_ip: 0,
                sample_data_addr: false,
            },
        )),
        sampler(Some(FocusPreset::Cache), period, None) is None,
        sampler(Some(FocusPreset::Cache), period, Some(config)) == Some(
            SamplerCfg {
                typ: EventType::Raw,
                config,
                period,
                precise_ip: 2,
                sample_data_addr: true,
            },
        ),
{
}

/// What each sample carries: the call chain where it is precise, and the address only
/// where it is precise and wanted.
pub proof fn lemma_attempt(cfg: SamplerCfg, want: u8)
    ensures
        attr_at(cfg, want).precise_ip == want,
        attr_at(cfg, want).callchain <==> want != 0,
        attr_at(cfg, want).addr <==> want != 0 && cfg.sample_data_addr,
{
}

/// The number under which the kernel knows a counter.
pub open spec fn kernel_number(name: Seq<char>) -> u32 {
    if name == "cpu-cycles"@ {
        0
    } else if name == "instructions"@ {
        1
    } else if name == "cache-misses"@ {
        3
    } else if name == "branch-misses"@ {
        5
    } else if name == "stalled-cycles-frontend"@ {
        7
    } else {
        8
    }
}

/// The counters of a CPU that is not in the table are the kernel's own: each has the number
/// of its name, the cycles lead, the misses make a group of their own behind the others,
/// and the stalls are counted only on x86.
#[verifier::spinoff_prover]
#[verifier::rlimit(40)]
pub proof fn lemma_fallback(x86_64: bool, i: int)
    requires
        0 <= i < fallback_views(x86_64).len(),
    ensures
        ({
            let f = fallback_views(x86_64);
            let c = f[i];
            &&& f.len() == (if x86_64 {
                6nat
            } else {
                4nat
            })
            &&& f[0].name == "cpu-cycles"@
            &&& c.src == Src::Hw(kernel_number(c.name))
            &&& c.group == 1 <==> c.name == "cache-misses"@ || c.name == "branch-misses"@
            &&& c.group == 1 <==> i >= f.len() - 2
            &&& c.group <= 1
        }),
{
    reveal_strlit("cpu-cycles");
    reveal_strlit("instructions");
    reveal_strlit("cache-misses");
    reveal_strlit("branch-misses");
    reveal_strlit("stalled-cycles-frontend");
    reveal_strlit("stalled-cycles-backend");
    assert("cpu-cycles"@[0] == 'c' && "cpu-cycles"@.len() == 10);
    assert("instructions"@.len() == 12 && "cache-misses"@.len() == 12);
    assert("instructions"@[0] == 'i' && "cache-misses"@[0] == 'c');
    assert("branch-misses"@.len() == 13);
    assert("stalled-cycles-frontend"@.len() == 23);
    assert("stalled-cycles-backend"@.len() == 22);
}

/// Which counters a host has: on another architecture the kernel's own; on x86 those of
/// its row, with the slots where the CPU counts them, and the kernel's own where it has
/// no row. One virtual machine is the exception.
pub proof fn lemma_host_counters(models: Seq<Model>, host: Host)
    ensures
        !host.x86_64 ==> host_counters(models, host) == fallback_views(false),
        host.x86_64 && host.cpuinfo is None ==> host_counters(models, host) == fallback_views(true),
        host.leaf1_ecx & 0x8000_0000 == 0 && host.x86_64 ==> match host_row(models, host.id()) {
            Some(k) => host_counters(models, host) == table_counters(
                models[k as int].events@,
                host.topdown(),
                models[k as int].events@.len(),
            ),
            None => host_counters(models, host) == fallback_views(true),
        },
        host.topdown() <==> host.x86_64 && host.leaf10_eax & 0xff >= 5 && host.leaf10_ecx & 8 != 0,
{
    let e = host.leaf1_ecx;
    let a = host.leaf10_eax;
    let c = host.leaf10_ecx;
    assert((e & 0x8000_0000 == 0) == (e < 0x8000_0000)) by (bit_vector);
    assert(a & 0xff == a % 256) by (bit_vector);
    assert((c & 8 != 0) == (c / 8 % 2 == 1)) by (bit_vector);
}

/// The row of a CPU is one that has its family and its model, and its stepping or none at
/// all: the first of those that is not of an Atom core; where all of them are, the last.
#[verifier::spinoff_prover]
#[verifier::rlimit(40)]
pub proof fn lemma_row_of_cpu(models: Seq<Model>, id: CpuId, n: nat)
    requires
        n <= models.len(),
    ensures
        match matched(models, id, n) {
            Some(k) => {
                let atom = models[k as int].core@ == "Atom"@;
                &&& k < n
                &&& is_of_cpu(models[k as int], id)
                &&& !atom ==> forall|i: int|
                    0 <= i < k && is_of_cpu(#[trigger] models[i], id) ==> models[i].core@
                        == "Atom"@
                &&& atom ==> forall|i: int|
                    0 <= i < n && is_of_cpu(#[trigger] models[i], id) ==> i <= k
                        && models[i].core@ == "Atom"@
            },
            None => forall|i: int| 0 <= i < n ==> !is_of_cpu(#[trigger] models[i], id),
        },
    decreases n,
{
    if n > 0 {
        lemma_row_of_cpu(models, id, (n - 1) as nat);
    }
}

/// Whether a row of the table is for a CPU.
pub open spec fn is_of_cpu(m: Model, id: CpuId) -> bool {
    m.family == id.family && m.model == id.model && (m.steppings@.len() > 0
        ==> m.steppings@.contains(id.stepping))
}

} // verus!
