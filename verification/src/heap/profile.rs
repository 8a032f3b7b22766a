//! Heap profile assembly: from the target's images and the aggregated allocation
//! sites to the packets of the trace.
//!
//! A profile packet holds one pool of strings, image paths first and then the
//! names of the frames; one frame per address; one callstack and one sample per
//! site.

use crate::cpu::told;
use crate::intern;
use crate::proto::wire;
use crate::proto::wire::FieldValue;
use crate::proto::writer::ProtoWriter;
use std::collections::HashMap;
use vstd::prelude::*;
use vstd::slice::slice_to_vec;
use vstd::string::*;

verus! {

pub const TP_CLOCK_SNAPSHOT: u32 = 6;

pub const TP_PROFILE_PACKET: u32 = 37;

pub const TP_FIELD_TIMESTAMP: u32 = 8;

pub const TP_FIELD_SEQUENCE_FLAGS: u32 = 13;

pub const SEQ_INCREMENTAL_STATE_CLEARED: u32 = 1;

pub const CS_CLOCKS: u32 = 1;

pub const BUILTIN_CLOCK_BOOTTIME: u32 = 6;

pub const BUILTIN_CLOCK_MONOTONIC_COARSE: u32 = 4;

pub const PP_STRINGS: u32 = 1;

pub const PP_FRAMES: u32 = 2;

pub const PP_CALLSTACKS: u32 = 3;

pub const PP_MAPPINGS: u32 = 4;

pub const PP_PROCESS_DUMPS: u32 = 5;

pub const PHS_SAMPLES: u32 = 2;

/// An image of the target: its load address and path. Images are given by
/// ascending address.
pub struct HeapImage {
    pub base_avma: u64,
    pub path: Vec<u8>,
}

/// An allocation site: its callstack, leaf first, how often it allocated and how
/// much.
pub struct HeapSite {
    pub pcs: Vec<u64>,
    pub count: u64,
    pub total_size: u64,
}

#[derive(Clone, Copy, PartialEq, Eq, Structural, Debug)]
pub struct Mapping {
    pub iid: u64,
    pub path_string_iid: u64,
    pub start: u64,
    pub end: u64,
    pub load_bias: u64,
}

#[derive(Clone, Copy, PartialEq, Eq, Structural, Debug)]
pub struct Frame {
    pub iid: u64,
    pub function_name_iid: u64,
    pub mapping_iid: u64,
    pub rel_pc: u64,
}

pub struct Callstack {
    pub iid: u64,
    pub frame_iids: Vec<u64>,
}

#[derive(Clone, Copy, PartialEq, Eq, Structural, Debug)]
pub struct Sample {
    pub callstack_iid: u64,
    pub self_allocated: u64,
    pub alloc_count: u64,
}

/// The tables of a profile. The id of a string is its position, counted from 1.
pub struct TraceData {
    pub strings: Vec<Vec<u8>>,
    pub mappings: Vec<Mapping>,
    pub frames: Vec<Frame>,
    pub callstacks: Vec<Callstack>,
    pub samples: Vec<Sample>,
}

/// A table with the first `n` addresses of a callstack added.
pub open spec fn with_pcs(table: Seq<u64>, pcs: Seq<u64>, n: nat) -> Seq<u64>
    decreases n,
{
    if n == 0 {
        table
    } else {
        intern::with_key(with_pcs(table, pcs, (n - 1) as nat), pcs[n - 1])
    }
}

/// The addresses of the first `n` sites, each once, in the order they are first
/// seen.
pub open spec fn distinct_pcs(sites: Seq<HeapSite>, n: nat) -> Seq<u64>
    decreases n,
{
    if n == 0 {
        Seq::empty()
    } else {
        with_pcs(
            distinct_pcs(sites, (n - 1) as nat),
            sites[n - 1].pcs@,
            sites[n - 1].pcs@.len(),
        )
    }
}

/// How many addresses the first `n` sites have.
pub open spec fn pc_count(sites: Seq<HeapSite>, n: nat) -> nat
    decreases n,
{
    if n == 0 {
        0
    } else {
        pc_count(sites, (n - 1) as nat) + sites[n - 1].pcs@.len()
    }
}

/// How many images, from `j` on without a break, are loaded at or below `pc`.
pub open spec fn images_below(images: Seq<HeapImage>, pc: u64, j: nat) -> nat
    decreases images.len() - j,
{
    if j < images.len() && images[j as int].base_avma <= pc {
        images_below(images, pc, j + 1)
    } else {
        j
    }
}

/// The frame of the `i`th distinct address. It belongs to the image just below
/// the address; to the first mapping, from address 0, where there is none.
pub open spec fn frame_of(images: Seq<HeapImage>, pc: u64, i: int) -> Frame {
    let j = images_below(images, pc, 0);
    Frame {
        iid: (i + 1) as u64,
        function_name_iid: (images.len() + i + 1) as u64,
        mapping_iid: if j > 0 {
            j as u64
        } else {
            1
        },
        rel_pc: vstd::wrapping::u64_specs::wrapping_sub(
            pc,
            if j > 0 {
                images[j - 1].base_avma
            } else {
                0
            },
        ),
    }
}

/// The name of the `i`th distinct address: "?" where it was not resolved.
pub open spec fn name_of(names: Seq<Vec<u8>>, i: int) -> Seq<u8> {
    if 0 <= i < names.len() && names[i]@.len() > 0 {
        names[i]@
    } else {
        "?".spec_bytes()
    }
}

/// The string pool: the image paths, then the names of the frames.
pub open spec fn pool(images: Seq<HeapImage>, names: Seq<Vec<u8>>, frames: nat) -> Seq<Seq<u8>> {
    Seq::new(
        images.len() + frames,
        |i: int|
            if i < images.len() {
                images[i].path@
            } else {
                name_of(names, i - images.len())
            },
    )
}

pub open spec fn mapping_of(images: Seq<HeapImage>, i: int) -> Mapping {
    Mapping {
        iid: (i + 1) as u64,
        path_string_iid: (i + 1) as u64,
        start: images[i].base_avma,
        end: images[i].base_avma,
        load_bias: 0,
    }
}

/// The frame ids of a callstack.
pub open spec fn frame_ids(table: Seq<u64>, pcs: Seq<u64>) -> Seq<u64> {
    Seq::new(pcs.len(), |i: int| intern::iid_of(table, pcs[i]))
}

/// Whether `td` is the profile of these images and sites.
pub open spec fn is_profile(
    td: TraceData,
    images: Seq<HeapImage>,
    sites: Seq<HeapSite>,
    names: Seq<Vec<u8>>,
) -> bool {
    let table = distinct_pcs(sites, sites.len());
    &&& intern::rows(td.strings@) == pool(images, names, table.len())
    &&& td.mappings@ == Seq::new(images.len(), |i: int| mapping_of(images, i))
    &&& td.frames@ == Seq::new(table.len(), |i: int| frame_of(images, table[i], i))
    &&& td.callstacks@.len() == sites.len()
    &&& forall|k: int|
        0 <= k < sites.len() ==> (#[trigger] td.callstacks@[k]).iid == k + 1
            && td.callstacks@[k].frame_iids@ == frame_ids(table, sites[k].pcs@)
    &&& td.samples@ == Seq::new(
        sites.len(),
        |k: int|
            Sample {
                callstack_iid: (k + 1) as u64,
                self_allocated: sites[k].total_size,
                alloc_count: sites[k].count,
            },
    )
}

proof fn lemma_with_pcs(table: Seq<u64>, pcs: Seq<u64>, n: nat)
    requires
        table.no_duplicates(),
        table.len() + n <= u64::MAX,
    ensures
        with_pcs(table, pcs, n).no_duplicates(),
        table.len() <= with_pcs(table, pcs, n).len() <= table.len() + n,
        table.is_prefix_of(with_pcs(table, pcs, n)),
    decreases n,
{
    if n > 0 {
        lemma_with_pcs(table, pcs, (n - 1) as nat);
        intern::lemma_interned(with_pcs(table, pcs, (n - 1) as nat), pcs[n - 1]);
    }
}

pub proof fn lemma_distinct_pcs(sites: Seq<HeapSite>, n: nat)
    requires
        n <= sites.len(),
        pc_count(sites, n) <= u64::MAX,
    ensures
        distinct_pcs(sites, n).no_duplicates(),
        distinct_pcs(sites, n).len() <= pc_count(sites, n),
    decreases n,
{
    if n > 0 {
        lemma_distinct_pcs(sites, (n - 1) as nat);
        lemma_with_pcs(
            distinct_pcs(sites, (n - 1) as nat),
            sites[n - 1].pcs@,
            sites[n - 1].pcs@.len(),
        );
    }
}

proof fn lemma_pc_count_grows(sites: Seq<HeapSite>, a: nat, b: nat)
    requires
        a <= b,
    ensures
        pc_count(sites, a) <= pc_count(sites, b),
    decreases b,
{
    if a < b {
        lemma_pc_count_grows(sites, a, (b - 1) as nat);
    }
}

/// What is in a table keeps its id in a longer one.
proof fn lemma_prefix_ids(a: Seq<u64>, b: Seq<u64>, k: u64)
    requires
        a.is_prefix_of(b),
        b.no_duplicates(),
        a.contains(k),
    ensures
        b.contains(k),
        intern::iid_of(b, k) == intern::iid_of(a, k),
{
    let i = a.index_of(k);
    assert(b[i] == a[i]);
    intern::lemma_index_is(b, k, i);
}

proof fn lemma_with_pcs_prefix(table: Seq<u64>, pcs: Seq<u64>, a: nat, b: nat)
    requires
        a <= b,
        table.no_duplicates(),
        table.len() + b <= u64::MAX,
    ensures
        with_pcs(table, pcs, a).is_prefix_of(with_pcs(table, pcs, b)),
    decreases b,
{
    if a < b {
        lemma_with_pcs_prefix(table, pcs, a, (b - 1) as nat);
        lemma_with_pcs(table, pcs, (b - 1) as nat);
        intern::lemma_interned(with_pcs(table, pcs, (b - 1) as nat), pcs[b - 1]);
    }
}

proof fn lemma_distinct_prefix(sites: Seq<HeapSite>, a: nat, b: nat)
    requires
        a <= b <= sites.len(),
        pc_count(sites, b) <= u64::MAX,
    ensures
        distinct_pcs(sites, a).is_prefix_of(distinct_pcs(sites, b)),
    decreases b,
{
    if a < b {
        lemma_pc_count_grows(sites, (b - 1) as nat, b);
        lemma_distinct_prefix(sites, a, (b - 1) as nat);
        lemma_distinct_pcs(sites, (b - 1) as nat);
        lemma_with_pcs(
            distinct_pcs(sites, (b - 1) as nat),
            sites[b - 1].pcs@,
            sites[b - 1].pcs@.len(),
        );
    }
}

/// Two sites that share an address share its frame: an address has one frame id,
/// and different addresses have different ones.
pub proof fn lemma_frames_dedupe(sites: Seq<HeapSite>, k: int, i: int, l: int, j: int)
    requires
        pc_count(sites, sites.len()) < u64::MAX,
        0 <= k < sites.len(),
        0 <= i < sites[k].pcs@.len(),
        0 <= l < sites.len(),
        0 <= j < sites[l].pcs@.len(),
    ensures
        ({
            let table = distinct_pcs(sites, sites.len());
            frame_ids(table, sites[k].pcs@)[i] == frame_ids(table, sites[l].pcs@)[j]
                <==> sites[k].pcs@[i] == sites[l].pcs@[j]
        }),
{
    let table = distinct_pcs(sites, sites.len());
    lemma_distinct_pcs(sites, sites.len());
    lemma_pc_is_in_table(sites, k, i);
    lemma_pc_is_in_table(sites, l, j);
    intern::lemma_ids_tell_keys_apart(table, sites[k].pcs@[i], sites[l].pcs@[j]);
}

proof fn lemma_pc_is_in_table(sites: Seq<HeapSite>, k: int, i: int)
    requires
        pc_count(sites, sites.len()) < u64::MAX,
        0 <= k < sites.len(),
        0 <= i < sites[k].pcs@.len(),
    ensures
        distinct_pcs(sites, sites.len()).contains(sites[k].pcs@[i]),
{
    let table = distinct_pcs(sites, sites.len());
    let n = (k + 1) as nat;
    let before = distinct_pcs(sites, k as nat);
    let pcs = sites[k].pcs@;
    lemma_pc_count_grows(sites, n, sites.len());
    lemma_pc_count_grows(sites, k as nat, n);
    lemma_distinct_pcs(sites, k as nat);
    lemma_distinct_pcs(sites, sites.len());
    lemma_with_pcs(before, pcs, i as nat);
    intern::lemma_interned(with_pcs(before, pcs, i as nat), pcs[i]);
    lemma_with_pcs(before, pcs, pcs.len());
    lemma_with_pcs_prefix(before, pcs, (i + 1) as nat, pcs.len());
    lemma_distinct_pcs(sites, n);
    lemma_distinct_prefix(sites, n, sites.len());
    lemma_prefix_ids(with_pcs(before, pcs, (i + 1) as nat), distinct_pcs(sites, n), pcs[i]);
    lemma_prefix_ids(distinct_pcs(sites, n), table, pcs[i]);
}

/// The image that an address belongs to.
fn images_at_or_below(images: &Vec<HeapImage>, pc: u64) -> (j: usize)
    ensures
        j == images_below(images@, pc, 0),
        j <= images@.len(),
{
    let mut j: usize = 0;
    while j < images.len() && images[j].base_avma <= pc
        invariant
            j <= images@.len(),
            images_below(images@, pc, j as nat) == images_below(images@, pc, 0),
        decreases images@.len() - j,
    {
        j += 1;
    }
    j
}

/// The addresses of the sites, each once, in the order in which
/// [`build_trace_data`] takes their names.
pub fn unique_pcs(sites: &Vec<HeapSite>) -> (r: Vec<u64>)
    requires
        pc_count(sites@, sites@.len()) < u64::MAX,
    ensures
        r@ == distinct_pcs(sites@, sites@.len()),
{
    let mut r: Vec<u64> = Vec::new();
    let mut k: usize = 0;
    while k < sites.len()
        invariant
            k <= sites@.len(),
            r@ == distinct_pcs(sites@, k as nat),
        decreases sites@.len() - k,
    {
        let pcs = &sites[k].pcs;
        let ghost before = r@;
        let mut i: usize = 0;
        while i < pcs.len()
            invariant
                i <= pcs@.len(),
                r@ == with_pcs(before, pcs@, i as nat),
            decreases pcs@.len() - i,
        {
            if intern::find_u64(&r, pcs[i]).is_none() {
                r.push(pcs[i]);
            } else {
                assert(r@.contains(pcs@[i as int]));
            }
            i += 1;
        }
        k += 1;
    }
    r
}

/// The frame ids by address agree with the table.
pub open spec fn agrees(m: Map<u64, u64>, table: Seq<u64>) -> bool {
    forall|pc: u64| #[trigger] m.dom().contains(pc) == table.contains(pc) && (table.contains(pc)
        ==> m[pc] == intern::iid_of(table, pc))
}

/// The profile of the sites. `names` are the names of the addresses that
/// [`unique_pcs`] lists, as far as they were resolved.
pub fn build_trace_data(images: &Vec<HeapImage>, sites: &Vec<HeapSite>, names: &Vec<Vec<u8>>) -> (td:
    TraceData)
    requires
        images@.len() + pc_count(sites@, sites@.len()) < u64::MAX,
        sites@.len() < u64::MAX,
    ensures
        is_profile(td, images@, sites@, names@),
{
    let ghost total = pc_count(sites@, sites@.len());
    let mut strings: Vec<Vec<u8>> = Vec::new();
    let mut mappings: Vec<Mapping> = Vec::new();
    let mut a: usize = 0;
    while a < images.len()
        invariant
            a <= images@.len() < u64::MAX,
            intern::rows(strings@) == pool(images@, names@, 0).take(a as int),
            mappings@ == Seq::new(a as nat, |i: int| mapping_of(images@, i)),
        decreases images@.len() - a,
    {
        let ghost before = intern::rows(strings@);
        let path = slice_to_vec(images[a].path.as_slice());
        strings.push(path);
        assert(intern::rows(strings@) =~= before.push(images@[a as int].path@));
        let iid: u64 = a as u64 + 1;
        mappings.push(
            Mapping {
                iid,
                path_string_iid: iid,
                start: images[a].base_avma,
                end: images[a].base_avma,
                load_bias: 0,
            },
        );
        a += 1;
        assert(intern::rows(strings@) =~= pool(images@, names@, 0).take(a as int));
        assert(mappings@ =~= Seq::new(a as nat, |i: int| mapping_of(images@, i)));
    }
    assert(intern::rows(strings@) =~= pool(images@, names@, 0));
    let mut frames: Vec<Frame> = Vec::new();
    let mut frame_by_pc: HashMap<u64, u64> = HashMap::new();
    let mut callstacks: Vec<Callstack> = Vec::new();
    let mut samples: Vec<Sample> = Vec::new();
    let ghost mut table: Seq<u64> = Seq::empty();
    let mut k: usize = 0;
    while k < sites.len()
        invariant
            k <= sites@.len() < u64::MAX,
            total == pc_count(sites@, sites@.len()),
            images@.len() + total < u64::MAX,
            table == distinct_pcs(sites@, k as nat),
            agrees(frame_by_pc@, table),
            intern::rows(strings@) == pool(images@, names@, table.len()),
            frames@ == Seq::new(table.len(), |i: int| frame_of(images@, table[i], i)),
            callstacks@.len() == k,
            forall|j: int|
                0 <= j < k ==> (#[trigger] callstacks@[j]).iid == j + 1
                    && callstacks@[j].frame_iids@ == frame_ids(table, sites@[j].pcs@),
            samples@ == Seq::new(
                k as nat,
                |j: int|
                    Sample {
                        callstack_iid: (j + 1) as u64,
                        self_allocated: sites@[j].total_size,
                        alloc_count: sites@[j].count,
                    },
            ),
        decreases sites@.len() - k,
    {
        let pcs = &sites[k].pcs;
        let ghost table0 = table;
        proof {
            lemma_pc_count_grows(sites@, (k + 1) as nat, sites@.len());
            lemma_pc_count_grows(sites@, k as nat, (k + 1) as nat);
            lemma_distinct_pcs(sites@, k as nat);
        }
        let mut frame_iids: Vec<u64> = Vec::new();
        let mut i: usize = 0;
        while i < pcs.len()
            invariant
                i <= pcs@.len(),
                table0.no_duplicates(),
                table0.len() + pcs@.len() <= total,
                images@.len() + total < u64::MAX,
                table == with_pcs(table0, pcs@, i as nat),
                agrees(frame_by_pc@, table),
                intern::rows(strings@) == pool(images@, names@, table.len()),
                frames@ == Seq::new(table.len(), |j: int| frame_of(images@, table[j], j)),
                frame_iids@.len() == i,
                forall|j: int|
                    0 <= j < i ==> table.contains(#[trigger] pcs@[j]) && frame_iids@[j]
                        == intern::iid_of(table, pcs@[j]),
            decreases pcs@.len() - i,
        {
            let pc: u64 = pcs[i];
            let ghost before = table;
            proof {
                lemma_with_pcs(table0, pcs@, i as nat);
                intern::lemma_interned(before, pc);
                table = intern::with_key(before, pc);
                assert forall|j: int| 0 <= j < i implies table.contains(#[trigger] pcs@[j])
                    && frame_iids@[j] == intern::iid_of(table, pcs@[j]) by {
                    lemma_prefix_ids(before, table, pcs@[j]);
                }
            }
            match frame_by_pc.get(&pc) {
                Some(fid) => {
                    assert(frame_by_pc@.dom().contains(pc));
                    frame_iids.push(*fid);
                },
                None => {
                    assert(!frame_by_pc@.dom().contains(pc));
                    assert(!before.contains(pc));
                    let ghost pool0 = intern::rows(strings@);
                    let n: usize = frames.len();
                    let name: Vec<u8> = if n < names.len() && names[n].len() > 0 {
                        slice_to_vec(names[n].as_slice())
                    } else {
                        slice_to_vec("?".as_bytes())
                    };
                    let ghost nm = name@;
                    strings.push(name);
                    proof {
                        assert(nm == name_of(names@, n as int));
                        assert(intern::rows(strings@) =~= pool0.push(nm));
                        assert(intern::rows(strings@) =~= pool(images@, names@, table.len()));
                    }
                    assert(intern::rows(strings@).len() == images@.len() + table.len());
                    let fn_iid: u64 = strings.len() as u64;
                    let j: usize = images_at_or_below(images, pc);
                    let map_iid: u64 = if j > 0 {
                        j as u64
                    } else {
                        1
                    };
                    let map_base: u64 = if j > 0 {
                        images[j - 1].base_avma
                    } else {
                        0
                    };
                    let iid: u64 = n as u64 + 1;
                    let frame = Frame {
                        iid,
                        function_name_iid: fn_iid,
                        mapping_iid: map_iid,
                        rel_pc: pc.wrapping_sub(map_base),
                    };
                    frames.push(frame);
                    let ghost m0 = frame_by_pc@;
                    frame_by_pc.insert(pc, iid);
                    frame_iids.push(iid);
                    proof {
                        assert(frame == frame_of(images@, pc, n as int));
                        assert(frames@ =~= Seq::new(
                            table.len(),
                            |x: int| frame_of(images@, table[x], x),
                        ));
                        assert forall|x: u64| #[trigger]
                            frame_by_pc@.dom().contains(x) == table.contains(x) && (table.contains(x)
                            ==> frame_by_pc@[x] == intern::iid_of(table, x)) by {
                            if x != pc {
                                assert(m0.dom().contains(x) == before.contains(x));
                                if before.contains(x) {
                                    lemma_prefix_ids(before, table, x);
                                }
                                if table.contains(x) {
                                    let y = table.index_of(x);
                                    assert(before[y] == x);
                                }
                            }
                        }
                    }
                },
            }
            i += 1;
        }
        let cs_iid: u64 = k as u64 + 1;
        assert(frame_iids@ =~= frame_ids(table, pcs@));
        callstacks.push(Callstack { iid: cs_iid, frame_iids });
        samples.push(
            Sample {
                callstack_iid: cs_iid,
                self_allocated: sites[k].total_size,
                alloc_count: sites[k].count,
            },
        );
        proof {
            lemma_with_pcs(table0, pcs@, pcs@.len());
            lemma_distinct_pcs(sites@, (k + 1) as nat);
            assert forall|j: int| 0 <= j < k implies frame_ids(table, (#[trigger] sites@[j]).pcs@)
                == frame_ids(table0, sites@[j].pcs@) by {
                assert forall|x: int| 0 <= x < sites@[j].pcs@.len() implies intern::iid_of(
                    table,
                    #[trigger] sites@[j].pcs@[x],
                ) == intern::iid_of(table0, sites@[j].pcs@[x]) by {
                    lemma_pc_is_in_prefix(sites@, k as nat, j, x);
                    lemma_prefix_ids(table0, table, sites@[j].pcs@[x]);
                }
                assert(frame_ids(table, sites@[j].pcs@) =~= frame_ids(table0, sites@[j].pcs@));
            }
            assert forall|j: int| 0 <= j < k + 1 implies (#[trigger] callstacks@[j]).iid == j + 1
                && callstacks@[j].frame_iids@ == frame_ids(table, sites@[j].pcs@) by {
                if j < k {
                    assert(frame_ids(table, sites@[j].pcs@) == frame_ids(table0, sites@[j].pcs@));
                }
            }
            assert(samples@ =~= Seq::new(
                (k + 1) as nat,
                |j: int|
                    Sample {
                        callstack_iid: (j + 1) as u64,
                        self_allocated: sites@[j].total_size,
                        alloc_count: sites@[j].count,
                    },
            ));
        }
        k += 1;
    }
    TraceData { strings, mappings, frames, callstacks, samples }
}

/// An address of one of the first `n` sites is in their table.
proof fn lemma_pc_is_in_prefix(sites: Seq<HeapSite>, n: nat, k: int, i: int)
    requires
        n <= sites.len(),
        pc_count(sites, n) < u64::MAX,
        0 <= k < n,
        0 <= i < sites[k].pcs@.len(),
    ensures
        distinct_pcs(sites, n).contains(sites[k].pcs@[i]),
{
    let t = sites.take(n as int);
    lemma_take(sites, n, n);
    assert(t[k] == sites[k]);
    lemma_pc_is_in_table(t, k, i);
}

proof fn lemma_take(sites: Seq<HeapSite>, n: nat, m: nat)
    requires
        m <= n <= sites.len(),
    ensures
        pc_count(sites.take(n as int), m) == pc_count(sites, m),
        distinct_pcs(sites.take(n as int), m) == distinct_pcs(sites, m),
    decreases m,
{
    if m > 0 {
        lemma_take(sites, n, (m - 1) as nat);
        assert(sites.take(n as int)[m - 1] == sites[m - 1]);
    }
}

/// `InternedString { iid = 1, str = 2 }`, repeated, for the first `n` strings.
pub open spec fn string_fields(strings: Seq<Seq<u8>>, n: nat) -> Seq<u8>
    decreases n,
{
    if n == 0 {
        Seq::empty()
    } else {
        string_fields(strings, (n - 1) as nat) + wire::len_field(
            PP_STRINGS,
            wire::varint_field(1, n as u64) + wire::len_field(2, strings[n - 1]),
        )
    }
}

/// `Mapping { iid = 1, start = 4, end = 5, load_bias = 6, path_string_ids = 7 }`.
pub open spec fn mapping_body(m: Mapping) -> Seq<u8> {
    wire::varint_field(1, m.iid) + wire::varint_field(4, m.start) + wire::varint_field(5, m.end)
        + wire::varint_field(6, m.load_bias) + wire::varint_field(7, m.path_string_iid)
}

pub open spec fn mapping_fields(mappings: Seq<Mapping>, n: nat) -> Seq<u8>
    decreases n,
{
    if n == 0 {
        Seq::empty()
    } else {
        mapping_fields(mappings, (n - 1) as nat) + wire::len_field(
            PP_MAPPINGS,
            mapping_body(mappings[n - 1]),
        )
    }
}

/// `Frame { iid = 1, function_name_id = 2, mapping_id = 3, rel_pc = 4 }`.
pub open spec fn frame_body(f: Frame) -> Seq<u8> {
    wire::varint_field(1, f.iid) + wire::varint_field(2, f.function_name_iid) + wire::varint_field(
        3,
        f.mapping_iid,
    ) + wire::varint_field(4, f.rel_pc)
}

pub open spec fn frame_fields(frames: Seq<Frame>, n: nat) -> Seq<u8>
    decreases n,
{
    if n == 0 {
        Seq::empty()
    } else {
        frame_fields(frames, (n - 1) as nat) + wire::len_field(
            PP_FRAMES,
            frame_body(frames[n - 1]),
        )
    }
}

/// `Callstack { iid = 1, frame_ids = 2 (repeated) }`.
pub open spec fn callstack_body(c: Callstack) -> Seq<u8> {
    wire::varint_field(1, c.iid) + intern::frame_id_fields(c.frame_iids@, c.frame_iids@.len())
}

pub open spec fn callstack_fields(callstacks: Seq<Callstack>, n: nat) -> Seq<u8>
    decreases n,
{
    if n == 0 {
        Seq::empty()
    } else {
        callstack_fields(callstacks, (n - 1) as nat) + wire::len_field(
            PP_CALLSTACKS,
            callstack_body(callstacks[n - 1]),
        )
    }
}

/// `HeapSample { callstack_id = 1, self_allocated = 2, alloc_count = 5 }`.
pub open spec fn sample_body(s: Sample) -> Seq<u8> {
    wire::varint_field(1, s.callstack_iid) + wire::varint_field(2, s.self_allocated)
        + wire::varint_field(5, s.alloc_count)
}

pub open spec fn sample_fields(samples: Seq<Sample>, n: nat) -> Seq<u8>
    decreases n,
{
    if n == 0 {
        Seq::empty()
    } else {
        sample_fields(samples, (n - 1) as nat) + wire::len_field(
            PHS_SAMPLES,
            sample_body(samples[n - 1]),
        )
    }
}

/// `ProcessHeapSamples { pid = 1, timestamp = 9, heap_name = 11,
/// sampling_interval_bytes = 12, samples = 2 (repeated) }`.
pub open spec fn process_dump(pid: u32, interval: u64, ts: u64, samples: Seq<Sample>) -> Seq<u8> {
    wire::varint_field(1, pid as u64) + wire::varint_field(9, ts) + wire::len_field(
        11,
        "libc.malloc".spec_bytes(),
    ) + wire::varint_field(12, interval) + sample_fields(samples, samples.len())
}

/// The profile packet: the tables, then the samples of the process.
pub open spec fn profile_payload(pid: u32, interval: u64, ts: u64, td: TraceData) -> Seq<u8> {
    string_fields(intern::rows(td.strings@), td.strings@.len()) + mapping_fields(
        td.mappings@,
        td.mappings@.len(),
    ) + frame_fields(td.frames@, td.frames@.len()) + callstack_fields(
        td.callstacks@,
        td.callstacks@.len(),
    ) + wire::len_field(PP_PROCESS_DUMPS, process_dump(pid, interval, ts, td.samples@))
}

fn write_strings(w: &mut ProtoWriter, strings: &Vec<Vec<u8>>)
    requires
        strings@.len() < u64::MAX,
    ensures
        final(w)@ == old(w)@ + string_fields(intern::rows(strings@), strings@.len()),
{
    let ghost head = w@;
    let ghost ss = intern::rows(strings@);
    let mut i: usize = 0;
    assert(head + string_fields(ss, 0) =~= head);
    while i < strings.len()
        invariant
            i <= strings@.len() < u64::MAX,
            ss == intern::rows(strings@),
            w@ == head + string_fields(ss, i as nat),
        decreases strings@.len() - i,
    {
        let mut c = ProtoWriter::new();
        c.write_uint64(1, i as u64 + 1);
        c.write_string(2, strings[i].as_slice());
        w.write_message(PP_STRINGS, c.bytes());
        assert(ss[i as int] == strings@[i as int]@);
        i += 1;
        assert(c@ =~= wire::varint_field(1, i as u64) + wire::len_field(2, ss[i - 1]));
        assert(w@ =~= head + string_fields(ss, i as nat));
    }
}

fn write_mappings(w: &mut ProtoWriter, mappings: &Vec<Mapping>)
    ensures
        final(w)@ == old(w)@ + mapping_fields(mappings@, mappings@.len()),
{
    let ghost head = w@;
    let mut i: usize = 0;
    assert(head + mapping_fields(mappings@, 0) =~= head);
    while i < mappings.len()
        invariant
            i <= mappings@.len(),
            w@ == head + mapping_fields(mappings@, i as nat),
        decreases mappings@.len() - i,
    {
        let m = mappings[i];
        let mut c = ProtoWriter::new();
        c.write_uint64(1, m.iid);
        c.write_uint64(4, m.start);
        c.write_uint64(5, m.end);
        c.write_uint64(6, m.load_bias);
        c.write_uint64(7, m.path_string_iid);
        w.write_message(PP_MAPPINGS, c.bytes());
        i += 1;
        assert(c@ =~= mapping_body(m));
        assert(w@ =~= head + mapping_fields(mappings@, i as nat));
    }
}

fn write_frames(w: &mut ProtoWriter, frames: &Vec<Frame>)
    ensures
        final(w)@ == old(w)@ + frame_fields(frames@, frames@.len()),
{
    let ghost head = w@;
    let mut i: usize = 0;
    assert(head + frame_fields(frames@, 0) =~= head);
    while i < frames.len()
        invariant
            i <= frames@.len(),
            w@ == head + frame_fields(frames@, i as nat),
        decreases frames@.len() - i,
    {
        let f = frames[i];
        let mut c = ProtoWriter::new();
        c.write_uint64(1, f.iid);
        c.write_uint64(2, f.function_name_iid);
        c.write_uint64(3, f.mapping_iid);
        c.write_uint64(4, f.rel_pc);
        w.write_message(PP_FRAMES, c.bytes());
        i += 1;
        assert(c@ =~= frame_body(f));
        assert(w@ =~= head + frame_fields(frames@, i as nat));
    }
}

fn write_callstacks(w: &mut ProtoWriter, callstacks: &Vec<Callstack>)
    ensures
        final(w)@ == old(w)@ + callstack_fields(callstacks@, callstacks@.len()),
{
    let ghost head = w@;
    let mut i: usize = 0;
    assert(head + callstack_fields(callstacks@, 0) =~= head);
    while i < callstacks.len()
        invariant
            i <= callstacks@.len(),
            w@ == head + callstack_fields(callstacks@, i as nat),
        decreases callstacks@.len() - i,
    {
        let cs = &callstacks[i];
        let ids = &cs.frame_iids;
        let mut c = ProtoWriter::new();
        c.write_uint64(1, cs.iid);
        let ghost start = c@;
        let mut j: usize = 0;
        assert(start + intern::frame_id_fields(ids@, 0) =~= start);
        while j < ids.len()
            invariant
                j <= ids@.len(),
                c@ == start + intern::frame_id_fields(ids@, j as nat),
            decreases ids@.len() - j,
        {
            c.write_uint64(2, ids[j]);
            j += 1;
            assert(c@ =~= start + intern::frame_id_fields(ids@, j as nat));
        }
        w.write_message(PP_CALLSTACKS, c.bytes());
        i += 1;
        assert(c@ =~= callstack_body(*cs));
        assert(w@ =~= head + callstack_fields(callstacks@, i as nat));
    }
}

fn write_samples(w: &mut ProtoWriter, samples: &Vec<Sample>)
    ensures
        final(w)@ == old(w)@ + sample_fields(samples@, samples@.len()),
{
    let ghost head = w@;
    let mut i: usize = 0;
    assert(head + sample_fields(samples@, 0) =~= head);
    while i < samples.len()
        invariant
            i <= samples@.len(),
            w@ == head + sample_fields(samples@, i as nat),
        decreases samples@.len() - i,
    {
        let s = samples[i];
        let mut c = ProtoWriter::new();
        c.write_uint64(1, s.callstack_iid);
        c.write_uint64(2, s.self_allocated);
        c.write_uint64(5, s.alloc_count);
        w.write_message(PHS_SAMPLES, c.bytes());
        i += 1;
        assert(c@ =~= sample_body(s));
        assert(w@ =~= head + sample_fields(samples@, i as nat));
    }
}

/// The bytes of a profile packet.
pub fn encode_profile_packet(pid: u32, sampling_interval: u64, timestamp_ns: u64, td: &TraceData) -> (r:
    Vec<u8>)
    requires
        td.strings@.len() < u64::MAX,
    ensures
        r@ == profile_payload(pid, sampling_interval, timestamp_ns, *td),
{
    let mut w = ProtoWriter::new();
    write_strings(&mut w, &td.strings);
    write_mappings(&mut w, &td.mappings);
    write_frames(&mut w, &td.frames);
    write_callstacks(&mut w, &td.callstacks);
    let mut phs = ProtoWriter::new();
    phs.write_uint64(1, pid as u64);
    phs.write_uint64(9, timestamp_ns);
    phs.write_string(11, "libc.malloc".as_bytes());
    phs.write_uint64(12, sampling_interval);
    write_samples(&mut phs, &td.samples);
    assert(phs@ =~= process_dump(pid, sampling_interval, timestamp_ns, td.samples@));
    w.write_message(PP_PROCESS_DUMPS, phs.bytes());
    assert(w@ =~= profile_payload(pid, sampling_interval, timestamp_ns, *td));
    w.into_bytes()
}

/// `Clock { clock_id = 1, timestamp = 2 }`.
pub open spec fn clock_body(clock_id: u32, ts: u64) -> Seq<u8> {
    wire::varint_field(1, clock_id as u64) + wire::varint_field(2, ts)
}

/// A clock snapshot that takes the coarse monotonic clock, which heap samples are
/// stamped with, for the boot clock.
pub open spec fn clock_payload(ts: u64) -> Seq<u8> {
    wire::len_field(CS_CLOCKS, clock_body(BUILTIN_CLOCK_BOOTTIME, ts)) + wire::len_field(
        CS_CLOCKS,
        clock_body(BUILTIN_CLOCK_MONOTONIC_COARSE, ts),
    )
}

fn write_clock(w: &mut ProtoWriter, clock_id: u32, ts_ns: u64)
    ensures
        final(w)@ == old(w)@ + wire::len_field(CS_CLOCKS, clock_body(clock_id, ts_ns)),
{
    let mut c = ProtoWriter::new();
    c.write_uint32(1, clock_id);
    c.write_uint64(2, ts_ns);
    assert(c@ =~= clock_body(clock_id, ts_ns));
    w.write_message(CS_CLOCKS, c.bytes());
}

/// The bytes of a clock snapshot.
pub fn encode_clock_snapshot(ts_ns: u64) -> (r: Vec<u8>)
    ensures
        r@ == clock_payload(ts_ns),
{
    let mut w = ProtoWriter::new();
    write_clock(&mut w, BUILTIN_CLOCK_BOOTTIME, ts_ns);
    write_clock(&mut w, BUILTIN_CLOCK_MONOTONIC_COARSE, ts_ns);
    assert(w@ =~= clock_payload(ts_ns));
    w.into_bytes()
}

/// `TracePacket { timestamp = 8 (omitted if 0), sequence_flags = 13 (omitted if 0),
/// .. }` around a payload.
pub open spec fn trace_packet(ts: u64, flags: u32, field: u32, payload: Seq<u8>) -> Seq<u8> {
    wire::nonzero_field(TP_FIELD_TIMESTAMP, ts) + wire::nonzero_field(
        TP_FIELD_SEQUENCE_FLAGS,
        flags as u64,
    ) + wire::len_field(field, payload)
}

/// A payload in a trace packet, as the field `field`.
pub fn wrap_trace_packet(timestamp_ns: u64, sequence_flags: u32, field: u32, payload: &[u8]) -> (r:
    Vec<u8>)
    ensures
        r@ == trace_packet(timestamp_ns, sequence_flags, field, payload@),
{
    let mut w = ProtoWriter::new();
    w.write_nonzero(TP_FIELD_TIMESTAMP, timestamp_ns);
    w.write_nonzero(TP_FIELD_SEQUENCE_FLAGS, sequence_flags as u64);
    w.write_message(field, payload);
    assert(w@ =~= trace_packet(timestamp_ns, sequence_flags, field, payload@));
    w.into_bytes()
}

/// The trace packet of a heap profile.
pub fn sismo_heap_build_profile_packet(
    pid: u32,
    sampling_interval: u64,
    timestamp_ns: u64,
    images: &Vec<HeapImage>,
    sites: &Vec<HeapSite>,
    names: &Vec<Vec<u8>>,
) -> (r: Vec<u8>)
    requires
        images@.len() + pc_count(sites@, sites@.len()) < u64::MAX,
        sites@.len() < u64::MAX,
    ensures
        exists|td: TraceData| #[trigger]
            is_profile(td, images@, sites@, names@) && r@ == trace_packet(
                timestamp_ns,
                SEQ_INCREMENTAL_STATE_CLEARED,
                TP_PROFILE_PACKET,
                profile_payload(pid, sampling_interval, timestamp_ns, td),
            ),
{
    let td = build_trace_data(images, sites, names);
    proof {
        lemma_distinct_pcs(sites@, sites@.len());
        assert(intern::rows(td.strings@).len() == td.strings@.len());
    }
    let payload = encode_profile_packet(pid, sampling_interval, timestamp_ns, &td);
    let r = wrap_trace_packet(
        timestamp_ns,
        SEQ_INCREMENTAL_STATE_CLEARED,
        TP_PROFILE_PACKET,
        payload.as_slice(),
    );
    assert(is_profile(td, images@, sites@, names@));
    r
}

/// The trace packet of a clock snapshot.
pub fn sismo_heap_build_clock_snapshot_packet(timestamp_ns: u64) -> (r: Vec<u8>)
    ensures
        r@ == trace_packet(timestamp_ns, 0, TP_CLOCK_SNAPSHOT, clock_payload(timestamp_ns)),
{
    let payload = encode_clock_snapshot(timestamp_ns);
    wrap_trace_packet(timestamp_ns, 0, TP_CLOCK_SNAPSHOT, payload.as_slice())
}

/// Two profiles of the same images, sites and names are the same bytes.
pub proof fn lemma_profile_is_determined(
    a: TraceData,
    b: TraceData,
    images: Seq<HeapImage>,
    sites: Seq<HeapSite>,
    names: Seq<Vec<u8>>,
    pid: u32,
    interval: u64,
    ts: u64,
)
    requires
        is_profile(a, images, sites, names),
        is_profile(b, images, sites, names),
    ensures
        profile_payload(pid, interval, ts, a) == profile_payload(pid, interval, ts, b),
{
    assert(intern::rows(a.strings@).len() == a.strings@.len());
    assert(intern::rows(b.strings@).len() == b.strings@.len());
    lemma_same_callstacks(a.callstacks@, b.callstacks@, sites.len());
}

proof fn lemma_same_callstacks(a: Seq<Callstack>, b: Seq<Callstack>, n: nat)
    requires
        n <= a.len(),
        n <= b.len(),
        forall|k: int|
            0 <= k < n ==> (#[trigger] a[k]).iid == (#[trigger] b[k]).iid && a[k].frame_iids@
                == b[k].frame_iids@,
    ensures
        callstack_fields(a, n) == callstack_fields(b, n),
    decreases n,
{
    if n > 0 {
        lemma_same_callstacks(a, b, (n - 1) as nat);
        assert(a[n - 1].iid == b[n - 1].iid);
    }
}

// ---- what a profile says -----------------------------------------------------

/// Whether images are given by ascending address.
pub open spec fn ascending(images: Seq<HeapImage>) -> bool {
    forall|i: int, j: int|
        0 <= i <= j < images.len() ==> (#[trigger] images[i]).base_avma <= (
        #[trigger] images[j]).base_avma
}

/// The image that an address belongs to is the last one at or below it.
proof fn lemma_image_of(images: Seq<HeapImage>, pc: u64, j: nat)
    requires
        ascending(images),
        j <= images.len(),
        forall|i: int| 0 <= i < j ==> (#[trigger] images[i]).base_avma <= pc,
    ensures
        ({
            let k = images_below(images, pc, j);
            &&& j <= k <= images.len()
            &&& forall|i: int| 0 <= i < k ==> (#[trigger] images[i]).base_avma <= pc
            &&& forall|i: int| k <= i < images.len() ==> (#[trigger] images[i]).base_avma > pc
        }),
    decreases images.len() - j,
{
    if j < images.len() && images[j as int].base_avma <= pc {
        lemma_image_of(images, pc, j + 1);
    } else if j < images.len() {
        assert forall|i: int| j <= i < images.len() implies (#[trigger] images[i]).base_avma
            > pc by {
            assert(images[j as int].base_avma <= images[i].base_avma);
        }
    }
}

/// The law of a frame: it is where the address lies. Of an address at or above the first
/// image, the frame's mapping starts at or below it, at the image that is closest to it:
/// none starts between the two. Start and offset add up to the address, and the mapping
/// is named after the file of that image. An address below every image stays as it is.
pub open spec fn frame_locates(td: TraceData, images: Seq<HeapImage>, f: Frame, pc: u64) -> bool {
    if images.len() > 0 && images[0].base_avma <= pc {
        let m = td.mappings@[f.mapping_iid - 1];
        &&& 1 <= f.mapping_iid <= td.mappings@.len()
        &&& m.start + f.rel_pc == pc
        &&& m.start <= pc
        &&& forall|i: int|
            0 <= i < images.len() ==> !(m.start < (#[trigger] images[i]).base_avma <= pc)
        &&& m.iid == f.mapping_iid
        &&& 1 <= m.path_string_iid <= td.strings@.len()
        &&& exists|i: int|
            0 <= i < images.len() && (#[trigger] images[i]).base_avma == m.start
                && td.strings@[m.path_string_iid - 1]@ == images[i].path@
    } else {
        f.rel_pc == pc && f.mapping_iid == 1
    }
}

/// Whether the frame is named as the address was resolved: by the name that stands where
/// the address stands among the distinct ones, or "?" where there is none.
pub open spec fn frame_names(
    td: TraceData,
    sites: Seq<HeapSite>,
    names: Seq<Vec<u8>>,
    f: Frame,
    pc: u64,
) -> bool {
    let table = distinct_pcs(sites, sites.len());
    &&& 1 <= f.function_name_iid <= td.strings@.len()
    &&& exists|j: int|
        {
            &&& 0 <= j < table.len()
            &&& #[trigger] table[j] == pc
            &&& j < names.len() && names[j]@.len() > 0 ==> td.strings@[f.function_name_iid - 1]@
                == names[j]@
            &&& !(j < names.len() && names[j]@.len() > 0) ==> td.strings@[f.function_name_iid - 1]@
                == "?".spec_bytes()
        }
}

/// The law of a heap profile: following the ids from a site's sample to its callstack, to
/// a frame of it, to the mapping and the name, leads back to the address that the site
/// was given with, in the order of the site; and the sample has what the site allocated.
pub proof fn lemma_profile_leads_back(
    td: TraceData,
    images: Seq<HeapImage>,
    sites: Seq<HeapSite>,
    names: Seq<Vec<u8>>,
    k: int,
    i: int,
)
    requires
        is_profile(td, images, sites, names),
        ascending(images),
        images.len() + pc_count(sites, sites.len()) < u64::MAX,
        sites.len() < u64::MAX,
        0 <= k < sites.len(),
        0 <= i < sites[k].pcs@.len(),
    ensures
        td.samples@.len() == sites.len(),
        td.callstacks@.len() == sites.len(),
        1 <= td.samples@[k].callstack_iid <= td.callstacks@.len(),
        td.samples@[k].self_allocated == sites[k].total_size,
        td.samples@[k].alloc_count == sites[k].count,
        ({
            let c = td.callstacks@[td.samples@[k].callstack_iid - 1];
            let f = td.frames@[c.frame_iids@[i] - 1];
            &&& c.iid == td.samples@[k].callstack_iid
            &&& c.frame_iids@.len() == sites[k].pcs@.len()
            &&& 1 <= c.frame_iids@[i] <= td.frames@.len()
            &&& f.iid == c.frame_iids@[i]
            &&& frame_locates(td, images, f, sites[k].pcs@[i])
            &&& frame_names(td, sites, names, f, sites[k].pcs@[i])
        }),
{
    let table = distinct_pcs(sites, sites.len());
    let pc = sites[k].pcs@[i];
    lemma_distinct_pcs(sites, sites.len());
    lemma_pc_is_in_table(sites, k, i);
    let c = td.callstacks@[k];
    assert(c.iid == k + 1);
    assert(td.samples@[k].callstack_iid == k + 1);
    let j = table.index_of(pc);
    assert(c.frame_iids@[i] == j + 1);
    let f = td.frames@[j];
    assert(f == frame_of(images, pc, j));
    lemma_image_of(images, pc, 0);
    let n = images_below(images, pc, 0) as int;
    let strings = intern::rows(td.strings@);
    assert(strings.len() == td.strings@.len());
    if images.len() > 0 && images[0].base_avma <= pc {
        assert(n > 0);
        let m = td.mappings@[n - 1];
        assert(m == mapping_of(images, n - 1));
        assert(strings[n - 1] == images[n - 1].path@);
        assert(td.strings@[m.path_string_iid - 1]@ == images[n - 1].path@);
        assert forall|x: int| 0 <= x < images.len() implies !(m.start < (
        #[trigger] images[x]).base_avma <= pc) by {
            if x < n {
                assert(images[x].base_avma <= images[n - 1].base_avma);
            }
        }
        assert(images[n - 1].base_avma == m.start);
    } else {
        if n > 0 {
            assert(images[0].base_avma <= pc);
        }
    }
    assert(strings[images.len() + j] == name_of(names, j));
    assert(table[j] == pc);
}

/// What the first `n` sites allocated, in bytes.
pub open spec fn bytes_of_sites(sites: Seq<HeapSite>, n: nat) -> nat
    decreases n,
{
    if n == 0 {
        0
    } else {
        bytes_of_sites(sites, (n - 1) as nat) + sites[n - 1].total_size as nat
    }
}

/// What the first `n` samples say was allocated, in bytes.
pub open spec fn bytes_of_samples(samples: Seq<Sample>, n: nat) -> nat
    decreases n,
{
    if n == 0 {
        0
    } else {
        bytes_of_samples(samples, (n - 1) as nat) + samples[n - 1].self_allocated as nat
    }
}

/// A profile accounts for what was allocated, no more and no less.
pub proof fn lemma_profile_accounts_for_all(
    td: TraceData,
    images: Seq<HeapImage>,
    sites: Seq<HeapSite>,
    names: Seq<Vec<u8>>,
    n: nat,
)
    requires
        is_profile(td, images, sites, names),
        n <= sites.len(),
    ensures
        bytes_of_samples(td.samples@, n) == bytes_of_sites(sites, n),
        td.samples@.len() == sites.len(),
    decreases n,
{
    if n > 0 {
        lemma_profile_accounts_for_all(td, images, sites, names, (n - 1) as nat);
    }
}

/// A mapping is read back: 1 its id, 4 and 5 where it starts and ends, 6 its load bias, 7
/// its path.
pub open spec fn mapping_told(v: FieldValue, m: Mapping) -> bool {
    exists|b: Seq<u8>|
        {
            &&& v == FieldValue::Len(b)
            &&& #[trigger] wire::under(b, 1) == wire::one(m.iid)
            &&& wire::under(b, 4) == wire::one(m.start)
            &&& wire::under(b, 5) == wire::one(m.end)
            &&& wire::under(b, 6) == wire::one(m.load_bias)
            &&& wire::under(b, 7) == wire::one(m.path_string_iid)
        }
}

/// A frame is read back: 1 its id, 2 its name, 3 its mapping, 4 its offset.
pub open spec fn frame_told(v: FieldValue, f: Frame) -> bool {
    exists|b: Seq<u8>|
        {
            &&& v == FieldValue::Len(b)
            &&& #[trigger] wire::under(b, 1) == wire::one(f.iid)
            &&& wire::under(b, 2) == wire::one(f.function_name_iid)
            &&& wire::under(b, 3) == wire::one(f.mapping_iid)
            &&& wire::under(b, 4) == wire::one(f.rel_pc)
        }
}

/// A sample is read back: 1 its callstack, 2 the bytes allocated, 5 how often.
pub open spec fn sample_told(v: FieldValue, s: Sample) -> bool {
    exists|b: Seq<u8>|
        {
            &&& v == FieldValue::Len(b)
            &&& #[trigger] wire::under(b, 1) == wire::one(s.callstack_iid)
            &&& wire::under(b, 2) == wire::one(s.self_allocated)
            &&& wire::under(b, 5) == wire::one(s.alloc_count)
        }
}

/// A message that grows by one entry under `field`.
proof fn lemma_one_more(front: Seq<u8>, field: u32, body: Seq<u8>)
    requires
        wire::complete(front),
        body.len() <= u64::MAX,
        forall|k: u32| k != field ==> (#[trigger] wire::under(front, k)).len() == 0,
    ensures
        ({
            let all = front + wire::len_field(field, body);
            &&& wire::complete(all)
            &&& wire::under(all, field) == wire::under(front, field).push(FieldValue::Len(body))
            &&& forall|k: u32| k != field ==> (#[trigger] wire::under(all, k)).len() == 0
        }),
{
    wire::lemma_under_len(field, body);
    wire::lemma_join(front, wire::len_field(field, body));
    let all = front + wire::len_field(field, body);
    assert(wire::under(all, field) =~= wire::under(front, field).push(FieldValue::Len(body)));
}

proof fn lemma_strings_read_back(strings: Seq<Seq<u8>>, n: nat)
    requires
        n <= strings.len(),
        n <= u64::MAX,
        string_fields(strings, n).len() <= u64::MAX,
    ensures
        ({
            let o = string_fields(strings, n);
            &&& wire::complete(o)
            &&& wire::under(o, 1).len() == n
            &&& forall|k: int|
                0 <= k < n ==> told::string_told(
                    #[trigger] wire::under(o, 1)[k],
                    (k + 1) as u64,
                    strings[k],
                )
            &&& forall|x: u32| x != 1 ==> (#[trigger] wire::under(o, x)).len() == 0
        }),
    decreases n,
{
    if n == 0 {
        wire::lemma_under_empty();
    } else {
        let m = (n - 1) as nat;
        let a = wire::varint_field(1, n as u64);
        let b = wire::len_field(2, strings[n - 1]);
        lemma_strings_read_back(strings, m);
        wire::lemma_under_varint(1, n as u64);
        wire::lemma_under_len(2, strings[n - 1]);
        wire::lemma_join(a, b);
        assert(wire::under(a + b, 1) =~= wire::one(n as u64));
        assert(wire::under(a + b, 2) =~= wire::one_text(strings[n - 1]));
        lemma_one_more(string_fields(strings, m), PP_STRINGS, a + b);
    }
}

#[verifier::spinoff_prover]
#[verifier::rlimit(40)]
proof fn lemma_mappings_read_back(mappings: Seq<Mapping>, n: nat)
    requires
        n <= mappings.len(),
        mapping_fields(mappings, n).len() <= u64::MAX,
    ensures
        ({
            let o = mapping_fields(mappings, n);
            &&& wire::complete(o)
            &&& wire::under(o, 4).len() == n
            &&& forall|k: int|
                0 <= k < n ==> mapping_told(#[trigger] wire::under(o, 4)[k], mappings[k])
            &&& forall|x: u32| x != 4 ==> (#[trigger] wire::under(o, x)).len() == 0
        }),
    decreases n,
{
    if n == 0 {
        wire::lemma_under_empty();
    } else {
        let m = (n - 1) as nat;
        let x = mappings[n - 1];
        let a = wire::varint_field(1, x.iid);
        let b = wire::varint_field(4, x.start);
        let c = wire::varint_field(5, x.end);
        let d = wire::varint_field(6, x.load_bias);
        let e = wire::varint_field(7, x.path_string_iid);
        lemma_mappings_read_back(mappings, m);
        wire::lemma_under_varint(1, x.iid);
        wire::lemma_under_varint(4, x.start);
        wire::lemma_under_varint(5, x.end);
        wire::lemma_under_varint(6, x.load_bias);
        wire::lemma_under_varint(7, x.path_string_iid);
        wire::lemma_join(a, b);
        wire::lemma_join(a + b, c);
        wire::lemma_join(a + b + c, d);
        wire::lemma_join(a + b + c + d, e);
        let body = mapping_body(x);
        assert(wire::under(body, 1) =~= wire::one(x.iid));
        assert(wire::under(body, 4) =~= wire::one(x.start));
        assert(wire::under(body, 5) =~= wire::one(x.end));
        assert(wire::under(body, 6) =~= wire::one(x.load_bias));
        assert(wire::under(body, 7) =~= wire::one(x.path_string_iid));
        lemma_one_more(mapping_fields(mappings, m), PP_MAPPINGS, body);
    }
}

#[verifier::spinoff_prover]
#[verifier::rlimit(40)]
proof fn lemma_frames_read_back(frames: Seq<Frame>, n: nat)
    requires
        n <= frames.len(),
        frame_fields(frames, n).len() <= u64::MAX,
    ensures
        ({
            let o = frame_fields(frames, n);
            &&& wire::complete(o)
            &&& wire::under(o, 2).len() == n
            &&& forall|k: int|
                0 <= k < n ==> frame_told(#[trigger] wire::under(o, 2)[k], frames[k])
            &&& forall|x: u32| x != 2 ==> (#[trigger] wire::under(o, x)).len() == 0
        }),
    decreases n,
{
    if n == 0 {
        wire::lemma_under_empty();
    } else {
        let m = (n - 1) as nat;
        let x = frames[n - 1];
        let a = wire::varint_field(1, x.iid);
        let b = wire::varint_field(2, x.function_name_iid);
        let c = wire::varint_field(3, x.mapping_iid);
        let d = wire::varint_field(4, x.rel_pc);
        lemma_frames_read_back(frames, m);
        wire::lemma_under_varint(1, x.iid);
        wire::lemma_under_varint(2, x.function_name_iid);
        wire::lemma_under_varint(3, x.mapping_iid);
        wire::lemma_under_varint(4, x.rel_pc);
        wire::lemma_join(a, b);
        wire::lemma_join(a + b, c);
        wire::lemma_join(a + b + c, d);
        let body = frame_body(x);
        assert(wire::under(body, 1) =~= wire::one(x.iid));
        assert(wire::under(body, 2) =~= wire::one(x.function_name_iid));
        assert(wire::under(body, 3) =~= wire::one(x.mapping_iid));
        assert(wire::under(body, 4) =~= wire::one(x.rel_pc));
        lemma_one_more(frame_fields(frames, m), PP_FRAMES, body);
    }
}

proof fn lemma_callstacks_read_back(callstacks: Seq<Callstack>, n: nat)
    requires
        n <= callstacks.len(),
        callstack_fields(callstacks, n).len() <= u64::MAX,
    ensures
        ({
            let o = callstack_fields(callstacks, n);
            &&& wire::complete(o)
            &&& wire::under(o, 3).len() == n
            &&& forall|k: int|
                0 <= k < n ==> told::callstack_told(
                    #[trigger] wire::under(o, 3)[k],
                    callstacks[k].iid,
                    callstacks[k].frame_iids@,
                )
            &&& forall|x: u32| x != 3 ==> (#[trigger] wire::under(o, x)).len() == 0
        }),
    decreases n,
{
    if n == 0 {
        wire::lemma_under_empty();
    } else {
        let m = (n - 1) as nat;
        let x = callstacks[n - 1];
        let ids = x.frame_iids@;
        let a = wire::varint_field(1, x.iid);
        let b = intern::frame_id_fields(ids, ids.len());
        lemma_callstacks_read_back(callstacks, m);
        wire::lemma_under_varint(1, x.iid);
        told::lemma_frame_ids_read_back(ids, ids.len());
        assert(ids.take(ids.len() as int) =~= ids);
        wire::lemma_join(a, b);
        let body = callstack_body(x);
        assert(wire::under(body, 1) =~= wire::one(x.iid));
        assert(wire::under(body, 2) =~= told::numbers(ids));
        lemma_one_more(callstack_fields(callstacks, m), PP_CALLSTACKS, body);
    }
}

proof fn lemma_samples_read_back(samples: Seq<Sample>, n: nat)
    requires
        n <= samples.len(),
        sample_fields(samples, n).len() <= u64::MAX,
    ensures
        ({
            let o = sample_fields(samples, n);
            &&& wire::complete(o)
            &&& wire::under(o, 2).len() == n
            &&& forall|k: int|
                0 <= k < n ==> sample_told(#[trigger] wire::under(o, 2)[k], samples[k])
            &&& forall|x: u32| x != 2 ==> (#[trigger] wire::under(o, x)).len() == 0
        }),
    decreases n,
{
    if n == 0 {
        wire::lemma_under_empty();
    } else {
        let m = (n - 1) as nat;
        let x = samples[n - 1];
        let a = wire::varint_field(1, x.callstack_iid);
        let b = wire::varint_field(2, x.self_allocated);
        let c = wire::varint_field(5, x.alloc_count);
        lemma_samples_read_back(samples, m);
        wire::lemma_under_varint(1, x.callstack_iid);
        wire::lemma_under_varint(2, x.self_allocated);
        wire::lemma_under_varint(5, x.alloc_count);
        wire::lemma_join(a, b);
        wire::lemma_join(a + b, c);
        let body = sample_body(x);
        assert(wire::under(body, 1) =~= wire::one(x.callstack_iid));
        assert(wire::under(body, 2) =~= wire::one(x.self_allocated));
        assert(wire::under(body, 5) =~= wire::one(x.alloc_count));
        lemma_one_more(sample_fields(samples, m), PHS_SAMPLES, body);
    }
}

/// What a reader of a profile packet finds: strings under 1, frames under 2, callstacks
/// under 3, mappings under 4, each in the order of its ids; under 5 the process (1), the
/// moment (9), which heap it is (11), the sampling interval (12), and a sample for each
/// site (2).
#[verifier::spinoff_prover]
#[verifier::rlimit(40)]
pub proof fn lemma_profile_read_back(pid: u32, interval: u64, ts: u64, td: TraceData)
    requires
        td.strings@.len() <= u64::MAX,
        profile_payload(pid, interval, ts, td).len() <= u64::MAX,
    ensures
        ({
            let p = profile_payload(pid, interval, ts, td);
            &&& wire::under(p, 1).len() == td.strings@.len()
            &&& forall|k: int|
                0 <= k < td.strings@.len() ==> told::string_told(
                    #[trigger] wire::under(p, 1)[k],
                    (k + 1) as u64,
                    td.strings@[k]@,
                )
            &&& wire::under(p, 2).len() == td.frames@.len()
            &&& forall|k: int|
                0 <= k < td.frames@.len() ==> frame_told(
                    #[trigger] wire::under(p, 2)[k],
                    td.frames@[k],
                )
            &&& wire::under(p, 3).len() == td.callstacks@.len()
            &&& forall|k: int|
                0 <= k < td.callstacks@.len() ==> told::callstack_told(
                    #[trigger] wire::under(p, 3)[k],
                    td.callstacks@[k].iid,
                    td.callstacks@[k].frame_iids@,
                )
            &&& wire::under(p, 4).len() == td.mappings@.len()
            &&& forall|k: int|
                0 <= k < td.mappings@.len() ==> mapping_told(
                    #[trigger] wire::under(p, 4)[k],
                    td.mappings@[k],
                )
            &&& exists|d: Seq<u8>|
                {
                    &&& #[trigger] wire::one_text(d) == wire::under(p, 5)
                    &&& wire::under(d, 1) == wire::one(pid as u64)
                    &&& wire::under(d, 9) == wire::one(ts)
                    &&& wire::under(d, 11) == wire::one_text("libc.malloc".spec_bytes())
                    &&& wire::under(d, 12) == wire::one(interval)
                    &&& wire::under(d, 2).len() == td.samples@.len()
                    &&& forall|k: int|
                        0 <= k < td.samples@.len() ==> sample_told(
                            #[trigger] wire::under(d, 2)[k],
                            td.samples@[k],
                        )
                }
        }),
{
    let strings = intern::rows(td.strings@);
    let a = string_fields(strings, td.strings@.len());
    let b = mapping_fields(td.mappings@, td.mappings@.len());
    let c = frame_fields(td.frames@, td.frames@.len());
    let e = callstack_fields(td.callstacks@, td.callstacks@.len());
    let d = process_dump(pid, interval, ts, td.samples@);
    let z = wire::len_field(PP_PROCESS_DUMPS, d);
    let p = profile_payload(pid, interval, ts, td);
    assert(p == a + b + c + e + z);
    assert(z.len() >= d.len());
    lemma_dump_read_back(pid, interval, ts, td.samples@);
    lemma_strings_read_back(strings, td.strings@.len());
    lemma_mappings_read_back(td.mappings@, td.mappings@.len());
    lemma_frames_read_back(td.frames@, td.frames@.len());
    lemma_callstacks_read_back(td.callstacks@, td.callstacks@.len());
    wire::lemma_under_len(PP_PROCESS_DUMPS, d);
    wire::lemma_join(a, b);
    wire::lemma_join(a + b, c);
    wire::lemma_join(a + b + c, e);
    wire::lemma_join(a + b + c + e, z);
    assert(wire::under(p, 1) =~= wire::under(a, 1));
    assert(wire::under(p, 2) =~= wire::under(c, 2));
    assert(wire::under(p, 3) =~= wire::under(e, 3));
    assert(wire::under(p, 4) =~= wire::under(b, 4));
    assert(wire::under(p, 5) =~= wire::one_text(d));
    assert forall|k: int| 0 <= k < td.strings@.len() implies told::string_told(
        #[trigger] wire::under(p, 1)[k],
        (k + 1) as u64,
        td.strings@[k]@,
    ) by {
        assert(strings[k] == td.strings@[k]@);
    }
}

#[verifier::spinoff_prover]
#[verifier::rlimit(40)]
proof fn lemma_dump_read_back(pid: u32, interval: u64, ts: u64, samples: Seq<Sample>)
    requires
        process_dump(pid, interval, ts, samples).len() <= u64::MAX,
    ensures
        ({
            let d = process_dump(pid, interval, ts, samples);
            &&& wire::under(d, 1) == wire::one(pid as u64)
            &&& wire::under(d, 9) == wire::one(ts)
            &&& wire::under(d, 11) == wire::one_text("libc.malloc".spec_bytes())
            &&& wire::under(d, 12) == wire::one(interval)
            &&& wire::under(d, 2).len() == samples.len()
            &&& forall|k: int|
                0 <= k < samples.len() ==> sample_told(#[trigger] wire::under(d, 2)[k], samples[k])
        }),
{
    let name = "libc.malloc".spec_bytes();
    let a = wire::varint_field(1, pid as u64);
    let b = wire::varint_field(9, ts);
    let c = wire::len_field(11, name);
    let e = wire::varint_field(12, interval);
    let f = sample_fields(samples, samples.len());
    let d = process_dump(pid, interval, ts, samples);
    assert(d == a + b + c + e + f);
    wire::lemma_under_varint(1, pid as u64);
    wire::lemma_under_varint(9, ts);
    wire::lemma_under_len(11, name);
    wire::lemma_under_varint(12, interval);
    lemma_samples_read_back(samples, samples.len());
    wire::lemma_join(a, b);
    wire::lemma_join(a + b, c);
    wire::lemma_join(a + b + c, e);
    wire::lemma_join(a + b + c + e, f);
    assert(wire::under(d, 1) =~= wire::one(pid as u64));
    assert(wire::under(d, 9) =~= wire::one(ts));
    assert(wire::under(d, 11) =~= wire::one_text(name));
    assert(wire::under(d, 12) =~= wire::one(interval));
    assert(wire::under(d, 2) =~= wire::under(f, 2));
}

/// What a reader of a trace packet finds: the moment under 8, the flags under 13, and the
/// payload under its field.
pub proof fn lemma_trace_packet_read_back(ts: u64, flags: u32, field: u32, payload: Seq<u8>)
    requires
        payload.len() <= u64::MAX,
        field != 8 && field != 13,
    ensures
        ({
            let p = trace_packet(ts, flags, field, payload);
            &&& wire::under(p, 8) == wire::one_unless_zero(ts)
            &&& wire::under(p, 13) == wire::one_unless_zero(flags as u64)
            &&& wire::under(p, field) == wire::one_text(payload)
        }),
{
    let a = wire::nonzero_field(8, ts);
    let b = wire::nonzero_field(13, flags as u64);
    let c = wire::len_field(field, payload);
    wire::lemma_under_nonzero(8, ts);
    wire::lemma_under_nonzero(13, flags as u64);
    wire::lemma_under_len(field, payload);
    wire::lemma_join(a, b);
    wire::lemma_join(a + b, c);
    let p = trace_packet(ts, flags, field, payload);
    assert(wire::under(p, 8) =~= wire::one_unless_zero(ts));
    assert(wire::under(p, 13) =~= wire::one_unless_zero(flags as u64));
    assert(wire::under(p, field) =~= wire::one_text(payload));
}

/// A heap profile starts afresh (1) and is found under 37; a clock snapshot is found
/// under 6.
pub proof fn lemma_heap_packets_read_back(
    ts: u64,
    pid: u32,
    interval: u64,
    td: TraceData,
)
    requires
        profile_payload(pid, interval, ts, td).len() <= u64::MAX,
    ensures
        ({
            let payload = profile_payload(pid, interval, ts, td);
            let p = trace_packet(ts, SEQ_INCREMENTAL_STATE_CLEARED, TP_PROFILE_PACKET, payload);
            &&& wire::under(p, 8) == wire::one_unless_zero(ts)
            &&& wire::under(p, 13) == wire::one(1)
            &&& wire::under(p, 37) == wire::one_text(payload)
        }),
        ({
            let q = trace_packet(ts, 0, TP_CLOCK_SNAPSHOT, clock_payload(ts));
            &&& wire::under(q, 8) == wire::one_unless_zero(ts)
            &&& wire::under(q, 13).len() == 0
            &&& exists|c: Seq<u8>| #[trigger] wire::one_text(c) == wire::under(q, 6) && c
                == clock_payload(ts)
        }),
{
    lemma_trace_packet_read_back(
        ts,
        SEQ_INCREMENTAL_STATE_CLEARED,
        TP_PROFILE_PACKET,
        profile_payload(pid, interval, ts, td),
    );
    lemma_clocks_read_back(ts);
    lemma_trace_packet_read_back(ts, 0, TP_CLOCK_SNAPSHOT, clock_payload(ts));
    assert(wire::one_text(clock_payload(ts)) == wire::under(
        trace_packet(ts, 0, TP_CLOCK_SNAPSHOT, clock_payload(ts)),
        6,
    ));
}

/// A clock of a snapshot: 1 which it is, 2 what it shows.
pub open spec fn clock_told(v: FieldValue, clock: u64, ts: u64) -> bool {
    exists|b: Seq<u8>|
        v == FieldValue::Len(b) && #[trigger] wire::under(b, 1) == wire::one(clock) && wire::under(
            b,
            2,
        ) == wire::one(ts)
}

/// A clock snapshot has two clocks that show the same moment: the boot clock (6) and the
/// coarse monotonic one (4).
#[verifier::spinoff_prover]
#[verifier::rlimit(40)]
pub proof fn lemma_clocks_read_back(ts: u64)
    ensures
        clock_payload(ts).len() <= 200,
        wire::under(clock_payload(ts), 1).len() == 2,
        clock_told(wire::under(clock_payload(ts), 1)[0], 6, ts),
        clock_told(wire::under(clock_payload(ts), 1)[1], 4, ts),
{
    let x = clock_body(BUILTIN_CLOCK_BOOTTIME, ts);
    let y = clock_body(BUILTIN_CLOCK_MONOTONIC_COARSE, ts);
    let t = wire::varint_field(2, ts);
    let a = wire::varint_field(1, 6);
    let b = wire::varint_field(1, 4);
    wire::lemma_under_varint(2, ts);
    wire::lemma_under_varint(1, 6);
    wire::lemma_under_varint(1, 4);
    wire::lemma_join(a, t);
    wire::lemma_join(b, t);
    assert(wire::under(x, 1) =~= wire::one(6));
    assert(wire::under(x, 2) =~= wire::one(ts));
    assert(wire::under(y, 1) =~= wire::one(4));
    assert(wire::under(y, 2) =~= wire::one(ts));
    wire::lemma_under_len(CS_CLOCKS, x);
    wire::lemma_under_len(CS_CLOCKS, y);
    wire::lemma_join(wire::len_field(CS_CLOCKS, x), wire::len_field(CS_CLOCKS, y));
    assert(wire::under(clock_payload(ts), 1) =~= seq![FieldValue::Len(x), FieldValue::Len(y)]);
}

} // verus!
