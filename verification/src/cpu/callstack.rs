//! Interning a whole sampled callstack: Python frames, native user frames and
//! kernel frames.

use crate::cpu::interner;
use crate::cpu::interner::{FrameKey, InternState, Interned, Interner, Mapping};
use crate::cpu::told;
use crate::intern;
use crate::proto::writer::ProtoWriter;
use std::collections::HashMap;
use vstd::prelude::*;
use vstd::string::*;

verus! {

/// What is known of a sampled user address.
pub enum Lookup {
    /// Nothing: no mapping holds it, and the process runs no runtime that compiles
    /// code of its own.
    Missing,
    /// A file-backed mapping holds it.
    Mapped(Mapping),
    /// No file-backed mapping holds it; it is code of a runtime, with a label, and
    /// with the method's name where the runtime published it.
    Residual { label: Vec<u8>, name: Option<Vec<u8>> },
}

/// Frames interned so far: the tables, the frame ids, and what was defined.
#[verifier::ext_equal]
pub struct Walk {
    pub state: InternState,
    pub fids: Seq<u64>,
    pub out: Seq<u8>,
}

/// The walk with frame `key` added, after `step` interned what the key refers to.
pub open spec fn with_frame(w: Walk, step: Interned, key: FrameKey) -> Walk {
    let f = interner::frame_step(step.state, key);
    Walk { state: f.state, fids: w.fids.push(f.iid), out: w.out + step.out + f.out }
}

/// Interning `name`, where there is one; the id is 0 where there is none.
pub open spec fn opt_name_step(before: Interned, name: Option<Seq<u8>>) -> Interned {
    match name {
        Some(n) => {
            let s = interner::func_name_step(before.state, n);
            Interned { state: s.state, iid: s.iid, out: before.out + s.out }
        },
        None => Interned { state: before.state, iid: 0, out: before.out },
    }
}

pub open spec fn opt_vec(v: Option<Vec<u8>>) -> Option<Seq<u8>> {
    match v {
        Some(b) => Some(b@),
        None => None,
    }
}

/// The walk after one user address. The address 0 is no frame.
pub open spec fn user_frame(w: Walk, pc: u64, lookup: Lookup) -> Walk {
    if pc == 0 {
        w
    } else {
        match lookup {
            Lookup::Missing => w,
            Lookup::Mapped(m) => {
                let s = interner::mapping_step(
                    w.state,
                    m.start,
                    m.end,
                    m.offset,
                    m.base_avma,
                    m.path@,
                    m.build_id@,
                );
                with_frame(w, s, FrameKey { mapping_iid: s.iid, rel_pc: pc, name_iid: 0 })
            },
            Lookup::Residual { label, name } => {
                let m = interner::residual_mapping_step(w.state, label@);
                let n = opt_name_step(m, opt_vec(name));
                with_frame(w, n, FrameKey { mapping_iid: m.iid, rel_pc: pc, name_iid: n.iid })
            },
        }
    }
}

/// The walk after the first `n` user addresses.
pub open spec fn user_walk(w: Walk, pcs: Seq<u64>, lookups: Seq<Lookup>, n: nat) -> Walk
    decreases n,
{
    if n == 0 {
        w
    } else {
        user_frame(user_walk(w, pcs, lookups, (n - 1) as nat), pcs[n - 1], lookups[n - 1])
    }
}

/// The walk after one named frame of the mapping `mapping_iid`.
pub open spec fn named_frame(w: Walk, mapping_iid: u64, name: Seq<u8>) -> Walk {
    let n = interner::func_name_step(w.state, name);
    with_frame(w, n, FrameKey { mapping_iid, rel_pc: 0, name_iid: n.iid })
}

/// The walk after the first `n` Python frames, all of the mapping `mapping_iid`.
pub open spec fn named_walk(w: Walk, mapping_iid: u64, names: Seq<Seq<u8>>, n: nat) -> Walk
    decreases n,
{
    if n == 0 {
        w
    } else {
        named_frame(named_walk(w, mapping_iid, names, (n - 1) as nat), mapping_iid, names[n - 1])
    }
}

/// The walk after the Python frames, which share the label mapping `[python]`.
pub open spec fn python_walk(w: Walk, names: Seq<Seq<u8>>) -> Walk {
    if names.len() == 0 {
        w
    } else {
        let m = interner::residual_mapping_step(w.state, "[python]".spec_bytes());
        named_walk(
            Walk { state: m.state, fids: w.fids, out: w.out + m.out },
            m.iid,
            names,
            names.len(),
        )
    }
}

/// The name of a kernel symbol: `[kernel]` where it is not known.
pub open spec fn kernel_name(ksyms: Map<u32, Seq<u8>>, id: u32) -> Seq<u8> {
    if ksyms.dom().contains(id) {
        ksyms[id]
    } else {
        "[kernel]".spec_bytes()
    }
}

/// The walk after one kernel frame. The id 0 is no frame.
pub open spec fn kernel_frame(w: Walk, ksyms: Map<u32, Seq<u8>>, id: u32) -> Walk {
    if id == 0 {
        w
    } else {
        let m = interner::kernel_mapping_step(w.state);
        named_frame(
            Walk { state: m.state, fids: w.fids, out: w.out + m.out },
            m.iid,
            kernel_name(ksyms, id),
        )
    }
}

/// The walk after the first `n` kernel frames.
pub open spec fn kernel_walk(w: Walk, ksyms: Map<u32, Seq<u8>>, ids: Seq<u32>, n: nat) -> Walk
    decreases n,
{
    if n == 0 {
        w
    } else {
        kernel_frame(kernel_walk(w, ksyms, ids, (n - 1) as nat), ksyms, ids[n - 1])
    }
}

/// The Python and user frames, leaf first. Without the target's mappings there
/// are none.
pub open spec fn user_part(
    st: InternState,
    maps_known: bool,
    py_names: Seq<Seq<u8>>,
    pcs: Seq<u64>,
    lookups: Seq<Lookup>,
) -> Walk {
    let start = Walk { state: st, fids: Seq::empty(), out: Seq::empty() };
    if maps_known {
        user_walk(python_walk(start, py_names), pcs, lookups, pcs.len())
    } else {
        start
    }
}

/// The kernel frames, leaf first, after the user part.
pub open spec fn kernel_part(u: Walk, ksyms: Map<u32, Seq<u8>>, kernel_ids: Seq<u32>) -> Walk {
    kernel_walk(
        Walk { state: u.state, fids: Seq::empty(), out: u.out },
        ksyms,
        kernel_ids,
        kernel_ids.len(),
    )
}

/// Interning a callstack: the user frames root first, then the kernel frames root
/// first. A stack without frames has the id 0.
pub open spec fn callstack(
    st: InternState,
    maps_known: bool,
    py_names: Seq<Seq<u8>>,
    pcs: Seq<u64>,
    lookups: Seq<Lookup>,
    ksyms: Map<u32, Seq<u8>>,
    kernel_ids: Seq<u32>,
) -> Interned {
    let u = user_part(st, maps_known, py_names, pcs, lookups);
    let k = kernel_part(u, ksyms, kernel_ids);
    let fids = u.fids.reverse() + k.fids.reverse();
    if fids.len() == 0 {
        Interned { state: k.state, iid: 0, out: k.out }
    } else {
        let c = interner::callstack_step(k.state, fids);
        Interned { state: c.state, iid: c.iid, out: k.out + c.out }
    }
}

/// The names of a table of kernel symbols, files or Python frames.
pub open spec fn names(m: Map<u32, Vec<u8>>) -> Map<u32, Seq<u8>> {
    m.map_values(|v: Vec<u8>| v@)
}

/// The most ids that a callstack can take from a table.
pub open spec fn callstack_cost(py: nat, user: nat, kernel: nat) -> nat {
    2 + 2 * py + 3 * user + 3 * kernel
}

/// Intern one user address; pushes its frame id.
fn intern_user_frame(
    it: &mut Interner,
    pc: u64,
    lookup: &Lookup,
    fids: &mut Vec<u64>,
    idw: &mut ProtoWriter,
)
    requires
        old(it)@.wf(),
        old(it)@.room() >= 3,
    ensures
        ({
            let w = Walk { state: old(it)@, fids: old(fids)@, out: old(idw)@ };
            let r = user_frame(w, pc, *lookup);
            &&& final(it)@ == r.state
            &&& final(fids)@ == r.fids
            &&& final(idw)@ == r.out
        }),
        final(it)@.wf(),
        final(it)@.room() >= old(it)@.room() - 3,
{
    if pc == 0 {
        return;
    }
    let ghost w = Walk { state: it@, fids: fids@, out: idw@ };
    let ghost goal = user_frame(w, pc, *lookup);
    match lookup {
        Lookup::Missing => {},
        Lookup::Mapped(m) => {
            let mapping_iid: u64 = it.intern_mapping(
                m.start,
                m.end,
                m.offset,
                m.base_avma,
                m.path.as_slice(),
                m.build_id.as_slice(),
                idw,
            );
            let f: u64 = it.intern_frame(FrameKey { mapping_iid, rel_pc: pc, name_iid: 0 }, idw);
            fids.push(f);
            assert(idw@ =~= goal.out);
        },
        Lookup::Residual { label, name } => {
            let mapping_iid: u64 = it.intern_residual_mapping(label.as_slice(), idw);
            let name_iid: u64 = match name {
                Some(n) => it.intern_func_name(n.as_slice(), idw),
                None => 0,
            };
            let f: u64 = it.intern_frame(FrameKey { mapping_iid, rel_pc: pc, name_iid }, idw);
            fids.push(f);
            assert(idw@ =~= goal.out);
        },
    }
}

/// Intern a frame by its name; pushes its frame id.
fn intern_named_frame(
    it: &mut Interner,
    mapping_iid: u64,
    name: &[u8],
    fids: &mut Vec<u64>,
    idw: &mut ProtoWriter,
)
    requires
        old(it)@.wf(),
        old(it)@.room() >= 2,
    ensures
        ({
            let w = Walk { state: old(it)@, fids: old(fids)@, out: old(idw)@ };
            let r = named_frame(w, mapping_iid, name@);
            &&& final(it)@ == r.state
            &&& final(fids)@ == r.fids
            &&& final(idw)@ == r.out
        }),
        final(it)@.wf(),
        final(it)@.room() >= old(it)@.room() - 2,
{
    let ghost w = Walk { state: it@, fids: fids@, out: idw@ };
    let name_iid: u64 = it.intern_func_name(name, idw);
    let f: u64 = it.intern_frame(FrameKey { mapping_iid, rel_pc: 0, name_iid }, idw);
    fids.push(f);
    assert(idw@ =~= named_frame(w, mapping_iid, name@).out);
}

/// Append what `v` holds, last first.
pub fn append_reversed(out: &mut Vec<u64>, v: &Vec<u64>)
    ensures
        final(out)@ == old(out)@ + v@.reverse(),
{
    let ghost before = out@;
    let mut i: usize = v.len();
    assert(v@.reverse().take(0) =~= Seq::empty());
    while i > 0
        invariant
            i <= v@.len(),
            out@ == before + v@.reverse().take(v@.len() - i),
        decreases i,
    {
        i -= 1;
        out.push(v[i]);
        assert(v@.reverse()[v@.len() - 1 - i] == v@[i as int]);
        assert(out@ =~= before + v@.reverse().take(v@.len() - i));
    }
    assert(v@.reverse().take(v@.len() as int) =~= v@.reverse());
}

/// Intern the Python frames, leaf first.
fn intern_python(
    it: &mut Interner,
    py_names: &Vec<Vec<u8>>,
    fids: &mut Vec<u64>,
    idw: &mut ProtoWriter,
)
    requires
        old(it)@.wf(),
        old(it)@.room() >= 1 + 2 * py_names@.len(),
    ensures
        ({
            let w = Walk { state: old(it)@, fids: old(fids)@, out: old(idw)@ };
            let r = python_walk(w, intern::rows(py_names@));
            &&& final(it)@ == r.state
            &&& final(fids)@ == r.fids
            &&& final(idw)@ == r.out
        }),
        final(it)@.wf(),
        final(it)@.room() >= old(it)@.room() - 1 - 2 * py_names@.len(),
{
    if py_names.len() == 0 {
        return;
    }
    let ghost room = it@.room();
    let ghost ns = intern::rows(py_names@);
    let mapping_iid: u64 = it.intern_residual_mapping("[python]".as_bytes(), idw);
    let ghost w = Walk { state: it@, fids: fids@, out: idw@ };
    let mut i: usize = 0;
    while i < py_names.len()
        invariant
            i <= py_names@.len(),
            ns == intern::rows(py_names@),
            it@.wf(),
            it@.room() >= room - 1 - 2 * i,
            room >= 1 + 2 * py_names@.len(),
            (Walk { state: it@, fids: fids@, out: idw@ }) == named_walk(
                w,
                mapping_iid,
                ns,
                i as nat,
            ),
        decreases py_names@.len() - i,
    {
        assert(ns[i as int] == py_names@[i as int]@);
        intern_named_frame(it, mapping_iid, py_names[i].as_slice(), fids, idw);
        i += 1;
    }
}

/// Intern a sample's callstack: the user frames, then the kernel frames above
/// them. `pcs` are the user addresses, leaf first, and `lookups` what is known of
/// each; `py_names` are the Python frames, which come ahead of the native ones.
/// Returns the callstack's id, 0 where there is no frame.
pub fn intern_callstack(
    it: &mut Interner,
    maps_known: bool,
    py_names: &Vec<Vec<u8>>,
    pcs: &Vec<u64>,
    lookups: &Vec<Lookup>,
    ksyms: &HashMap<u32, Vec<u8>>,
    kernel_ids: &[u32],
    idw: &mut ProtoWriter,
) -> (iid: u64)
    requires
        old(it)@.wf(),
        pcs@.len() == lookups@.len(),
        old(it)@.room() >= callstack_cost(py_names@.len(), pcs@.len(), kernel_ids@.len()),
        old(idw)@.len() == 0,
    ensures
        ({
            let r = callstack(
                old(it)@,
                maps_known,
                intern::rows(py_names@),
                pcs@,
                lookups@,
                names(ksyms@),
                kernel_ids@,
            );
            &&& final(it)@ == r.state
            &&& iid == r.iid
            &&& final(idw)@ == r.out
        }),
        final(it)@.wf(),
        final(it)@.room() >= old(it)@.room() - callstack_cost(
            py_names@.len(),
            pcs@.len(),
            kernel_ids@.len(),
        ),
{
    let ghost room = it@.room();
    let ghost py = intern::rows(py_names@);
    let ghost start = Walk { state: it@, fids: Seq::empty(), out: Seq::empty() };
    assert(idw@ =~= Seq::empty());
    let mut fids: Vec<u64> = Vec::new();
    if maps_known {
        intern_python(it, py_names, &mut fids, idw);
        let ghost w = Walk { state: it@, fids: fids@, out: idw@ };
        let mut i: usize = 0;
        while i < pcs.len()
            invariant
                i <= pcs@.len(),
                pcs@.len() == lookups@.len(),
                it@.wf(),
                it@.room() >= room - 1 - 2 * py_names@.len() - 3 * i,
                room >= callstack_cost(py_names@.len(), pcs@.len(), kernel_ids@.len()),
                (Walk { state: it@, fids: fids@, out: idw@ }) == user_walk(
                    w,
                    pcs@,
                    lookups@,
                    i as nat,
                ),
            decreases pcs@.len() - i,
        {
            intern_user_frame(it, pcs[i], &lookups[i], &mut fids, idw);
            i += 1;
        }
    }
    let ghost u = user_part(start.state, maps_known, py, pcs@, lookups@);
    assert((Walk { state: it@, fids: fids@, out: idw@ }) == u);
    let mut kfids: Vec<u64> = Vec::new();
    let ghost kstart = Walk { state: u.state, fids: Seq::empty(), out: u.out };
    let mut j: usize = 0;
    while j < kernel_ids.len()
        invariant
            j <= kernel_ids@.len(),
            it@.wf(),
            it@.room() >= room - 1 - 2 * py_names@.len() - 3 * pcs@.len() - 3 * j,
            room >= callstack_cost(py_names@.len(), pcs@.len(), kernel_ids@.len()),
            (Walk { state: it@, fids: kfids@, out: idw@ }) == kernel_walk(
                kstart,
                names(ksyms@),
                kernel_ids@,
                j as nat,
            ),
        decreases kernel_ids@.len() - j,
    {
        let id: u32 = kernel_ids[j];
        if id != 0 {
            let mapping_iid: u64 = it.intern_kernel_mapping(idw);
            match ksyms.get(&id) {
                Some(name) => {
                    assert(names(ksyms@)[id] == name@);
                    intern_named_frame(it, mapping_iid, name.as_slice(), &mut kfids, idw);
                },
                None => {
                    intern_named_frame(
                        it,
                        mapping_iid,
                        "[kernel]".as_bytes(),
                        &mut kfids,
                        idw,
                    );
                },
            }
        }
        j += 1;
    }
    let mut combined: Vec<u64> = Vec::new();
    append_reversed(&mut combined, &fids);
    append_reversed(&mut combined, &kfids);
    assert(combined@ =~= fids@.reverse() + kfids@.reverse());
    if combined.len() == 0 {
        return 0;
    }
    it.intern_callstack_ids(combined.as_slice(), idw)
}

// ---- what a callstack shows --------------------------------------------------

/// What one frame of a callstack stands for.
pub enum Place {
    Python(Seq<u8>),
    Address(u64, Lookup),
    Kernel(Seq<u8>),
}

/// Whether the key is that of a label.
pub open spec fn labelled(st: InternState, key: u64, label: Seq<u8>) -> bool {
    exists|p: u64| #[trigger]
        told::labels(st, key, p) && key == u64::MAX - p && st.paths[p - 1] == label
}

/// Whether a frame's name is the one with that id.
pub open spec fn named(st: InternState, name_iid: u64, name: Seq<u8>) -> bool {
    1 <= name_iid <= st.func_names.len() && st.func_names[name_iid - 1] == name
}

/// Whether a frame is that of a place: an address in the mapping that holds it, or
/// under the label of what it is code of; a Python or kernel function by its name.
pub open spec fn means(st: InternState, f: FrameKey, place: Place) -> bool {
    &&& 1 <= f.mapping_iid <= st.mappings.len()
    &&& match place {
        Place::Python(name) => f.rel_pc == 0 && named(st, f.name_iid, name) && labelled(
            st,
            st.mappings[f.mapping_iid - 1],
            "[python]".spec_bytes(),
        ),
        Place::Kernel(name) => f.rel_pc == 0 && named(st, f.name_iid, name)
            && st.mappings[f.mapping_iid - 1] == 0,
        Place::Address(pc, Lookup::Mapped(m)) => f.rel_pc == pc && f.name_iid == 0
            && st.mappings[f.mapping_iid - 1] == m.start,
        Place::Address(pc, Lookup::Residual { label, name }) => f.rel_pc == pc && labelled(
            st,
            st.mappings[f.mapping_iid - 1],
            label@,
        ) && match name {
            Some(n) => named(st, f.name_iid, n@),
            None => f.name_iid == 0,
        },
        Place::Address(_, Lookup::Missing) => false,
    }
}

/// Whether a frame id stands for a place.
pub open spec fn stands_for(st: InternState, fid: u64, place: Place) -> bool {
    1 <= fid <= st.frames.len() && means(st, st.frames[fid - 1], place)
}

/// The places that are shown of the first `n` user addresses: all but 0 and those of
/// which nothing is known.
pub open spec fn user_places(pcs: Seq<u64>, lookups: Seq<Lookup>, n: nat) -> Seq<Place>
    decreases n,
{
    if n == 0 {
        Seq::empty()
    } else if pcs[n - 1] == 0 || lookups[n - 1] is Missing {
        user_places(pcs, lookups, (n - 1) as nat)
    } else {
        user_places(pcs, lookups, (n - 1) as nat).push(Place::Address(pcs[n - 1], lookups[n - 1]))
    }
}

/// The places that are shown of the first `n` kernel symbols: all but 0. A symbol whose
/// name was not heard of is shown as the kernel.
pub open spec fn kernel_places(ksyms: Map<u32, Seq<u8>>, ids: Seq<u32>, n: nat) -> Seq<Place>
    decreases n,
{
    if n == 0 {
        Seq::empty()
    } else if ids[n - 1] == 0 {
        kernel_places(ksyms, ids, (n - 1) as nat)
    } else {
        kernel_places(ksyms, ids, (n - 1) as nat).push(
            Place::Kernel(
                if ksyms.dom().contains(ids[n - 1]) {
                    ksyms[ids[n - 1]]
                } else {
                    "[kernel]".spec_bytes()
                },
            ),
        )
    }
}

/// All that a sample shows, from the innermost frame outward: where the thread is in
/// the kernel, then the Python frames, then the native ones.
pub open spec fn from_innermost(
    maps_known: bool,
    py_names: Seq<Seq<u8>>,
    pcs: Seq<u64>,
    lookups: Seq<Lookup>,
    ksyms: Map<u32, Seq<u8>>,
    kernel_ids: Seq<u32>,
) -> Seq<Place> {
    kernel_places(ksyms, kernel_ids, kernel_ids.len()) + if maps_known {
        py_names.map_values(|n: Seq<u8>| Place::Python(n)) + user_places(pcs, lookups, pcs.len())
    } else {
        Seq::empty()
    }
}

/// Frames interned since `st`: each stands for its place, and all that they refer to
/// has been told.
spec fn walked(st: InternState, w: Walk, places: Seq<Place>, cost: int) -> bool {
    &&& told::sound(st, w.state, w.out, cost)
    &&& w.fids.len() == places.len()
    &&& forall|k: int|
        0 <= k < places.len() ==> stands_for(w.state, #[trigger] w.fids[k], places[k])
}

proof fn lemma_means_stays(a: InternState, b: InternState, f: FrameKey, place: Place)
    requires
        told::grows(a, b),
        means(a, f, place),
    ensures
        means(b, f, place),
{
    let key = a.mappings[f.mapping_iid - 1];
    assert(b.mappings[f.mapping_iid - 1] == key);
    if 1 <= f.name_iid <= a.func_names.len() {
        assert(a.func_names[f.name_iid - 1] == b.func_names[f.name_iid - 1]);
    }
    match place {
        Place::Python(_) => lemma_labelled_stays(a, b, key, "[python]".spec_bytes()),
        Place::Address(_, Lookup::Residual { label, name }) => lemma_labelled_stays(
            a,
            b,
            key,
            label@,
        ),
        _ => {},
    }
}

proof fn lemma_labelled_stays(a: InternState, b: InternState, key: u64, label: Seq<u8>)
    requires
        told::grows(a, b),
        labelled(a, key, label),
    ensures
        labelled(b, key, label),
{
    let p = choose|p: u64| #[trigger]
        told::labels(a, key, p) && key == u64::MAX - p && a.paths[p - 1] == label;
    assert(a.paths[p - 1] == b.paths[p - 1]);
    assert(told::labels(b, key, p));
}

proof fn lemma_stands_stays(a: InternState, b: InternState, fid: u64, place: Place)
    requires
        told::grows(a, b),
        stands_for(a, fid, place),
    ensures
        stands_for(b, fid, place),
{
    assert(a.frames[fid - 1] == b.frames[fid - 1]);
    lemma_means_stays(a, b, a.frames[fid - 1], place);
}

/// One more frame, after `step` interned what it refers to.
proof fn lemma_with_frame(
    st: InternState,
    w: Walk,
    places: Seq<Place>,
    cost: int,
    step: Interned,
    more: int,
    key: FrameKey,
    place: Place,
)
    requires
        walked(st, w, places, cost),
        told::sound(w.state, step.state, step.out, more),
        means(step.state, key, place),
        st.room() >= cost + more + 1,
    ensures
        walked(st, with_frame(w, step, key), places.push(place), cost + more + 1),
{
    let f = interner::frame_step(step.state, key);
    told::lemma_frame_is_told(step.state, key);
    told::lemma_tells_join(st, w.state, step.state, w.out, step.out, cost, more);
    told::lemma_tells_join(st, step.state, f.state, w.out + step.out, f.out, cost + more, 1);
    let r = with_frame(w, step, key);
    let all = places.push(place);
    lemma_means_stays(step.state, f.state, key, place);
    told::lemma_tells_join(w.state, step.state, f.state, step.out, f.out, more, 1);
    assert forall|k: int| 0 <= k < all.len() implies stands_for(
        r.state,
        #[trigger] r.fids[k],
        all[k],
    ) by {
        if k < places.len() {
            assert(stands_for(w.state, w.fids[k], places[k]));
            lemma_stands_stays(w.state, f.state, w.fids[k], places[k]);
        }
    }
}

/// The same frames, after `step` interned something else.
proof fn lemma_with_step(
    st: InternState,
    w: Walk,
    places: Seq<Place>,
    cost: int,
    step: Interned,
    more: int,
)
    requires
        walked(st, w, places, cost),
        told::sound(w.state, step.state, step.out, more),
        st.room() >= cost + more,
    ensures
        walked(
            st,
            (Walk { state: step.state, fids: w.fids, out: w.out + step.out }),
            places,
            cost + more,
        ),
{
    told::lemma_tells_join(st, w.state, step.state, w.out, step.out, cost, more);
    let r = Walk { state: step.state, fids: w.fids, out: w.out + step.out };
    assert forall|k: int| 0 <= k < places.len() implies stands_for(
        r.state,
        #[trigger] r.fids[k],
        places[k],
    ) by {
        assert(stands_for(w.state, w.fids[k], places[k]));
        lemma_stands_stays(w.state, step.state, w.fids[k], places[k]);
    }
}

proof fn lemma_walked_for_less(st: InternState, w: Walk, places: Seq<Place>, a: int, b: int)
    requires
        walked(st, w, places, a),
        a <= b,
    ensures
        walked(st, w, places, b),
{
}

proof fn lemma_user_frame(
    st: InternState,
    w: Walk,
    places: Seq<Place>,
    cost: int,
    pc: u64,
    lookup: Lookup,
)
    requires
        walked(st, w, places, cost),
        st.room() >= cost + 3,
        user_frame(w, pc, lookup).out.len() < 0x8_0000_0000,
    ensures
        walked(
            st,
            user_frame(w, pc, lookup),
            if pc == 0 || lookup is Missing {
                places
            } else {
                places.push(Place::Address(pc, lookup))
            },
            cost + 3,
        ),
{
    if pc == 0 || lookup is Missing {
        lemma_walked_for_less(st, w, places, cost, cost + 3);
    } else {
        let place = Place::Address(pc, lookup);
        match lookup {
            Lookup::Missing => {},
            Lookup::Mapped(m) => {
                let s = interner::mapping_step(
                    w.state,
                    m.start,
                    m.end,
                    m.offset,
                    m.base_avma,
                    m.path@,
                    m.build_id@,
                );
                told::lemma_mapping_is_told(
                    w.state,
                    m.start,
                    m.end,
                    m.offset,
                    m.base_avma,
                    m.path@,
                    m.build_id@,
                );
                let key = FrameKey { mapping_iid: s.iid, rel_pc: pc, name_iid: 0 };
                lemma_with_frame(st, w, places, cost, s, 1, key, place);
                lemma_walked_for_less(
                    st,
                    with_frame(w, s, key),
                    places.push(place),
                    cost + 2,
                    cost + 3,
                );
            },
            Lookup::Residual { label, name } => {
                let m = interner::residual_mapping_step(w.state, label@);
                let n = opt_name_step(m, opt_vec(name));
                told::lemma_residual_is_told(w.state, label@);
                let key = FrameKey { mapping_iid: m.iid, rel_pc: pc, name_iid: n.iid };
                assert(labelled(m.state, m.state.mappings[m.iid - 1], label@));
                match name {
                    Some(b) => {
                        let x = interner::func_name_step(m.state, b@);
                        told::lemma_name_is_told(m.state, b@);
                        told::lemma_tells_join(w.state, m.state, x.state, m.out, x.out, 1, 1);
                        lemma_labelled_stays(
                            m.state,
                            x.state,
                            m.state.mappings[m.iid - 1],
                            label@,
                        );
                    },
                    None => {},
                }
                assert(told::sound(w.state, n.state, n.out, 2));
                lemma_with_frame(st, w, places, cost, n, 2, key, place);
            },
        }
    }
}

proof fn lemma_user_walk(
    st: InternState,
    w: Walk,
    places: Seq<Place>,
    cost: int,
    pcs: Seq<u64>,
    lookups: Seq<Lookup>,
    n: nat,
)
    requires
        walked(st, w, places, cost),
        st.room() >= cost + 3 * n,
        user_walk(w, pcs, lookups, n).out.len() < 0x8_0000_0000,
    ensures
        walked(
            st,
            user_walk(w, pcs, lookups, n),
            places + user_places(pcs, lookups, n),
            cost + 3 * n,
        ),
    decreases n,
{
    if n == 0 {
        assert(places + user_places(pcs, lookups, n) =~= places);
    } else {
        let m = (n - 1) as nat;
        let front = user_walk(w, pcs, lookups, m);
        let shown = user_places(pcs, lookups, m);
        let pc = pcs[n - 1];
        let lookup = lookups[n - 1];
        lemma_out_grows(front, pc, lookup);
        lemma_user_walk(st, w, places, cost, pcs, lookups, m);
        lemma_user_frame(st, front, places + shown, cost + 3 * m, pc, lookup);
        assert((places + shown).push(Place::Address(pc, lookup)) =~= places + shown.push(
            Place::Address(pc, lookup),
        ));
    }
}

proof fn lemma_out_grows(w: Walk, pc: u64, lookup: Lookup)
    ensures
        w.out.len() <= user_frame(w, pc, lookup).out.len(),
{
}

/// One more frame that is known by its name.
proof fn lemma_named_frame(
    st: InternState,
    w: Walk,
    places: Seq<Place>,
    cost: int,
    mapping_iid: u64,
    name: Seq<u8>,
    place: Place,
)
    requires
        walked(st, w, places, cost),
        st.room() >= cost + 2,
        named_frame(w, mapping_iid, name).out.len() < 0x8_0000_0000,
        1 <= mapping_iid <= w.state.mappings.len(),
        (place == Place::Python(name) && labelled(
            w.state,
            w.state.mappings[mapping_iid - 1],
            "[python]".spec_bytes(),
        )) || (place == Place::Kernel(name) && w.state.mappings[mapping_iid - 1] == 0),
    ensures
        walked(st, named_frame(w, mapping_iid, name), places.push(place), cost + 2),
        told::grows(w.state, named_frame(w, mapping_iid, name).state),
{
    let n = interner::func_name_step(w.state, name);
    told::lemma_name_is_told(w.state, name);
    let key = FrameKey { mapping_iid, rel_pc: 0, name_iid: n.iid };
    if place == Place::Python(name) {
        lemma_labelled_stays(
            w.state,
            n.state,
            w.state.mappings[mapping_iid - 1],
            "[python]".spec_bytes(),
        );
    }
    lemma_with_frame(st, w, places, cost, n, 1, key, place);
    let f = interner::frame_step(n.state, key);
    told::lemma_frame_is_told(n.state, key);
    told::lemma_tells_join(w.state, n.state, f.state, n.out, f.out, 1, 1);
}

proof fn lemma_named_walk(
    st: InternState,
    w: Walk,
    cost: int,
    mapping_iid: u64,
    py: Seq<Seq<u8>>,
    n: nat,
)
    requires
        walked(st, w, Seq::empty(), cost),
        n <= py.len(),
        st.room() >= cost + 2 * n,
        named_walk(w, mapping_iid, py, n).out.len() < 0x8_0000_0000,
        1 <= mapping_iid <= w.state.mappings.len(),
        labelled(w.state, w.state.mappings[mapping_iid - 1], "[python]".spec_bytes()),
    ensures
        ({
            let r = named_walk(w, mapping_iid, py, n);
            &&& walked(
                st,
                r,
                py.map_values(|n: Seq<u8>| Place::Python(n)).take(n as int),
                cost + 2 * n,
            )
            &&& 1 <= mapping_iid <= r.state.mappings.len()
            &&& labelled(r.state, r.state.mappings[mapping_iid - 1], "[python]".spec_bytes())
        }),
    decreases n,
{
    let all = py.map_values(|n: Seq<u8>| Place::Python(n));
    if n == 0 {
        assert(all.take(0) =~= Seq::empty());
    } else {
        let m = (n - 1) as nat;
        let front = named_walk(w, mapping_iid, py, m);
        lemma_named_walk(st, w, cost, mapping_iid, py, m);
        lemma_named_frame(
            st,
            front,
            all.take(m as int),
            cost + 2 * m,
            mapping_iid,
            py[n - 1],
            Place::Python(py[n - 1]),
        );
        let r = named_walk(w, mapping_iid, py, n);
        assert(front.state.mappings[mapping_iid - 1] == r.state.mappings[mapping_iid - 1]);
        lemma_labelled_stays(
            front.state,
            r.state,
            front.state.mappings[mapping_iid - 1],
            "[python]".spec_bytes(),
        );
        assert(all.take(m as int).push(Place::Python(py[n - 1])) =~= all.take(n as int));
    }
}

proof fn lemma_python_walk(st: InternState, w: Walk, py: Seq<Seq<u8>>)
    requires
        walked(st, w, Seq::empty(), 0),
        st.room() >= 1 + 2 * py.len(),
        python_walk(w, py).out.len() < 0x8_0000_0000,
    ensures
        walked(
            st,
            python_walk(w, py),
            py.map_values(|n: Seq<u8>| Place::Python(n)),
            (1 + 2 * py.len()) as int,
        ),
{
    let all = py.map_values(|n: Seq<u8>| Place::Python(n));
    if py.len() == 0 {
        assert(all =~= Seq::empty());
        lemma_walked_for_less(st, w, Seq::empty(), 0, 1);
    } else {
        let m = interner::residual_mapping_step(w.state, "[python]".spec_bytes());
        let v = Walk { state: m.state, fids: w.fids, out: w.out + m.out };
        lemma_named_out_grows(v, m.iid, py, py.len());
        told::lemma_residual_is_told(w.state, "[python]".spec_bytes());
        lemma_with_step(st, w, Seq::empty(), 0, m, 1);
        lemma_named_walk(st, v, 1, m.iid, py, py.len());
        assert(all.take(py.len() as int) =~= all);
    }
}

proof fn lemma_named_out_grows(w: Walk, mapping_iid: u64, py: Seq<Seq<u8>>, n: nat)
    ensures
        w.out.len() <= named_walk(w, mapping_iid, py, n).out.len(),
    decreases n,
{
    if n > 0 {
        lemma_named_out_grows(w, mapping_iid, py, (n - 1) as nat);
    }
}

proof fn lemma_user_out_grows(w: Walk, pcs: Seq<u64>, lookups: Seq<Lookup>, n: nat)
    ensures
        w.out.len() <= user_walk(w, pcs, lookups, n).out.len(),
    decreases n,
{
    if n > 0 {
        lemma_user_out_grows(w, pcs, lookups, (n - 1) as nat);
        lemma_out_grows(user_walk(w, pcs, lookups, (n - 1) as nat), pcs[n - 1], lookups[n - 1]);
    }
}

proof fn lemma_kernel_out_grows(w: Walk, ksyms: Map<u32, Seq<u8>>, ids: Seq<u32>, n: nat)
    ensures
        w.out.len() <= kernel_walk(w, ksyms, ids, n).out.len(),
    decreases n,
{
    if n > 0 {
        lemma_kernel_out_grows(w, ksyms, ids, (n - 1) as nat);
    }
}

proof fn lemma_kernel_walk(
    st: InternState,
    w: Walk,
    cost: int,
    ksyms: Map<u32, Seq<u8>>,
    ids: Seq<u32>,
    n: nat,
)
    requires
        walked(st, w, Seq::empty(), cost),
        n <= ids.len(),
        st.room() >= cost + 3 * n,
        kernel_walk(w, ksyms, ids, n).out.len() < 0x8_0000_0000,
    ensures
        walked(st, kernel_walk(w, ksyms, ids, n), kernel_places(ksyms, ids, n), cost + 3 * n),
        told::grows(w.state, kernel_walk(w, ksyms, ids, n).state),
    decreases n,
{
    if n > 0 {
        let i = (n - 1) as nat;
        let front = kernel_walk(w, ksyms, ids, i);
        let places = kernel_places(ksyms, ids, i);
        lemma_kernel_walk(st, w, cost, ksyms, ids, i);
        if ids[n - 1] == 0 {
            lemma_walked_for_less(st, front, places, cost + 3 * i, cost + 3 * n);
        } else {
            let m = interner::kernel_mapping_step(front.state);
            let name = kernel_name(ksyms, ids[n - 1]);
            told::lemma_kernel_is_told(front.state);
            lemma_with_step(st, front, places, cost + 3 * i, m, 1);
            let v = Walk { state: m.state, fids: front.fids, out: front.out + m.out };
            lemma_named_frame(
                st,
                v,
                places,
                cost + 3 * i + 1,
                m.iid,
                name,
                Place::Kernel(name),
            );
            let r = kernel_walk(w, ksyms, ids, n);
            lemma_grows_on(w.state, front.state, m.state);
            lemma_grows_on(w.state, m.state, r.state);
        }
    }
}

proof fn lemma_grows_on(a: InternState, b: InternState, c: InternState)
    requires
        told::grows(a, b),
        told::grows(b, c),
    ensures
        told::grows(a, c),
{
    told::lemma_prefix(a.paths, b.paths, c.paths);
    told::lemma_prefix(a.build_ids, b.build_ids, c.build_ids);
    told::lemma_prefix(a.func_names, b.func_names, c.func_names);
    told::lemma_prefix(a.mappings, b.mappings, c.mappings);
    told::lemma_prefix(a.defs, b.defs, c.defs);
    told::lemma_prefix(a.frames, b.frames, c.frames);
    told::lemma_prefix(a.callstacks, b.callstacks, c.callstacks);
}

/// The law of a sampled callstack. Read from its end, the list under the callstack's id
/// runs from the innermost frame outward: it has a frame for each place that the sample
/// shows, and no other. Everything that the list refers to has been told to the reader,
/// once. A sample that shows nothing has the id 0 and tells nothing.
#[verifier::spinoff_prover]
#[verifier::rlimit(40)]
pub proof fn lemma_callstack_runs_outward(
    st: InternState,
    maps_known: bool,
    py_names: Seq<Seq<u8>>,
    pcs: Seq<u64>,
    lookups: Seq<Lookup>,
    ksyms: Map<u32, Seq<u8>>,
    kernel_ids: Seq<u32>,
)
    requires
        st.wf(),
        pcs.len() == lookups.len(),
        st.room() >= callstack_cost(py_names.len(), pcs.len(), kernel_ids.len()),
        callstack(st, maps_known, py_names, pcs, lookups, ksyms, kernel_ids).out.len()
            < 0x8_0000_0000,
    ensures
        ({
            let r = callstack(st, maps_known, py_names, pcs, lookups, ksyms, kernel_ids);
            let places = from_innermost(maps_known, py_names, pcs, lookups, ksyms, kernel_ids);
            let list = r.state.callstacks[r.iid - 1];
            &&& r.state.wf()
            &&& told::grows(st, r.state)
            &&& told::tells(st, r.state, r.out)
            &&& r.iid == 0 <==> places.len() == 0
            &&& places.len() > 0 ==> {
                &&& 1 <= r.iid <= r.state.callstacks.len()
                &&& list.len() == places.len()
                &&& forall|t: int|
                    0 <= t < places.len() ==> stands_for(
                        r.state,
                        list[places.len() - 1 - t],
                        #[trigger] places[t],
                    )
            }
        }),
{
    let r = callstack(st, maps_known, py_names, pcs, lookups, ksyms, kernel_ids);
    let start = Walk { state: st, fids: Seq::empty(), out: Seq::empty() };
    let u = user_part(st, maps_known, py_names, pcs, lookups);
    let k0 = Walk { state: u.state, fids: Seq::empty(), out: u.out };
    let k = kernel_part(u, ksyms, kernel_ids);
    lemma_kernel_out_grows(k0, ksyms, kernel_ids, kernel_ids.len());
    told::lemma_tells_nothing(st);
    assert(walked(st, start, Seq::empty(), 0));
    let py = py_names.map_values(|n: Seq<u8>| Place::Python(n));
    let native = user_places(pcs, lookups, pcs.len());
    let user = if maps_known {
        py + native
    } else {
        Seq::empty()
    };
    let cost = 1 + 2 * py_names.len() + 3 * pcs.len();
    if maps_known {
        let p = python_walk(start, py_names);
        lemma_user_out_grows(p, pcs, lookups, pcs.len());
        lemma_python_walk(st, start, py_names);
        lemma_user_walk(st, p, py, (1 + 2 * py_names.len()) as int, pcs, lookups, pcs.len());
    } else {
        lemma_walked_for_less(st, start, Seq::empty(), 0, cost as int);
    }
    assert(walked(st, u, user, cost as int));
    assert(walked(st, k0, Seq::empty(), cost as int));
    let kp = kernel_places(ksyms, kernel_ids, kernel_ids.len());
    lemma_kernel_walk(st, k0, cost as int, ksyms, kernel_ids, kernel_ids.len());
    let places = from_innermost(maps_known, py_names, pcs, lookups, ksyms, kernel_ids);
    assert(places == kp + user);
    let listed = u.fids.reverse() + k.fids.reverse();
    assert(listed.len() == places.len());
    if listed.len() > 0 {
        let c = interner::callstack_step(k.state, listed);
        told::lemma_callstack_is_told(k.state, listed);
        told::lemma_tells_join(
            st,
            k.state,
            c.state,
            k.out,
            c.out,
            (cost + 3 * kernel_ids.len()) as int,
            1,
        );
        let n = places.len() as int;
        assert forall|t: int| 0 <= t < n implies stands_for(
            r.state,
            listed[n - 1 - t],
            #[trigger] places[t],
        ) by {
            if t < kp.len() {
                assert(listed[n - 1 - t] == k.fids[t]);
                assert(stands_for(k.state, k.fids[t], kp[t]));
                lemma_stands_stays(k.state, c.state, k.fids[t], kp[t]);
            } else {
                let j = t - kp.len();
                assert(listed[n - 1 - t] == u.fids[j]);
                assert(stands_for(u.state, u.fids[j], user[j]));
                lemma_stands_stays(u.state, k.state, u.fids[j], user[j]);
                lemma_stands_stays(k.state, c.state, u.fids[j], user[j]);
            }
        }
    }
}

proof fn lemma_all_mapped(pcs: Seq<u64>, lookups: Seq<Lookup>, n: nat)
    requires
        n <= pcs.len(),
        pcs.len() == lookups.len(),
        forall|i: int| 0 <= i < pcs.len() ==> (#[trigger] pcs[i]) != 0,
        forall|i: int| 0 <= i < lookups.len() ==> (#[trigger] lookups[i]) is Mapped,
    ensures
        user_places(pcs, lookups, n).len() == n,
        forall|i: int|
            0 <= i < n ==> (#[trigger] user_places(pcs, lookups, n)[i]) == Place::Address(
                pcs[i],
                lookups[i],
            ),
    decreases n,
{
    if n > 0 {
        lemma_all_mapped(pcs, lookups, (n - 1) as nat);
        assert(pcs[n - 1] != 0);
        assert(lookups[n - 1] is Mapped);
    }
}

proof fn lemma_all_kernel(ksyms: Map<u32, Seq<u8>>, ids: Seq<u32>, n: nat)
    requires
        n <= ids.len(),
        forall|i: int| 0 <= i < ids.len() ==> (#[trigger] ids[i]) != 0,
    ensures
        kernel_places(ksyms, ids, n).len() == n,
        forall|i: int|
            0 <= i < n ==> (#[trigger] kernel_places(ksyms, ids, n)[i]) == Place::Kernel(
                if ksyms.dom().contains(ids[i]) {
                    ksyms[ids[i]]
                } else {
                    "[kernel]".spec_bytes()
                },
            ),
    decreases n,
{
    if n > 0 {
        lemma_all_kernel(ksyms, ids, (n - 1) as nat);
        assert(ids[n - 1] != 0);
    }
}

/// Whether a frame id is that of an address in the mapping that holds it.
pub open spec fn is_address(st: InternState, fid: u64, pc: u64, lookup: Lookup) -> bool {
    &&& 1 <= fid <= st.frames.len()
    &&& st.frames[fid - 1].rel_pc == pc
    &&& 1 <= st.frames[fid - 1].mapping_iid <= st.mappings.len()
    &&& lookup matches Lookup::Mapped(x) && st.mappings[st.frames[fid - 1].mapping_iid - 1]
        == x.start
}

/// Whether a frame id is that of a kernel symbol: its name, or the kernel's where it is
/// not known, in the kernel's mapping.
pub open spec fn is_symbol(st: InternState, fid: u64, ksyms: Map<u32, Seq<u8>>, id: u32) -> bool {
    let f = st.frames[fid - 1];
    &&& 1 <= fid <= st.frames.len()
    &&& 1 <= f.name_iid <= st.func_names.len()
    &&& ksyms.dom().contains(id) ==> st.func_names[f.name_iid - 1] == ksyms[id]
    &&& !ksyms.dom().contains(id) ==> st.func_names[f.name_iid - 1] == "[kernel]".spec_bytes()
    &&& 1 <= f.mapping_iid <= st.mappings.len()
    &&& st.mappings[f.mapping_iid - 1] == 0
}

/// Whether a list of frame ids is that of these user addresses and kernel symbols, root
/// first.
pub open spec fn root_first(
    st: InternState,
    list: Seq<u64>,
    pcs: Seq<u64>,
    lookups: Seq<Lookup>,
    ksyms: Map<u32, Seq<u8>>,
    kernel_ids: Seq<u32>,
) -> bool {
    let n = pcs.len() as int;
    let m = kernel_ids.len() as int;
    &&& list.len() == n + m
    &&& forall|i: int|
        0 <= i < n ==> is_address(st, list[n - 1 - i], #[trigger] pcs[i], lookups[i])
    &&& forall|j: int|
        0 <= j < m ==> is_symbol(st, list[n + m - 1 - j], ksyms, #[trigger] kernel_ids[j])
}

proof fn lemma_listed_root_first(
    st: InternState,
    list: Seq<u64>,
    places: Seq<Place>,
    pcs: Seq<u64>,
    lookups: Seq<Lookup>,
    ksyms: Map<u32, Seq<u8>>,
    kernel_ids: Seq<u32>,
)
    requires
        pcs.len() == lookups.len(),
        forall|i: int| 0 <= i < pcs.len() ==> (#[trigger] pcs[i]) != 0,
        forall|i: int| 0 <= i < lookups.len() ==> (#[trigger] lookups[i]) is Mapped,
        forall|i: int| 0 <= i < kernel_ids.len() ==> (#[trigger] kernel_ids[i]) != 0,
        places == kernel_places(ksyms, kernel_ids, kernel_ids.len()) + user_places(
            pcs,
            lookups,
            pcs.len(),
        ),
        list.len() == places.len(),
        forall|t: int|
            0 <= t < places.len() ==> stands_for(
                st,
                list[places.len() - 1 - t],
                #[trigger] places[t],
            ),
    ensures
        places.len() == pcs.len() + kernel_ids.len(),
        root_first(st, list, pcs, lookups, ksyms, kernel_ids),
{
    let n = pcs.len() as int;
    let m = kernel_ids.len() as int;
    lemma_all_mapped(pcs, lookups, pcs.len());
    lemma_all_kernel(ksyms, kernel_ids, kernel_ids.len());
    let kp = kernel_places(ksyms, kernel_ids, kernel_ids.len());
    let up = user_places(pcs, lookups, pcs.len());
    assert forall|i: int| 0 <= i < n implies is_address(
        st,
        list[n - 1 - i],
        #[trigger] pcs[i],
        lookups[i],
    ) by {
        let t = m + i;
        assert(places[t] == up[i]);
        assert(stands_for(st, list[places.len() - 1 - t], places[t]));
        assert(lookups[i] is Mapped);
    }
    assert forall|j: int| 0 <= j < m implies is_symbol(
        st,
        list[n + m - 1 - j],
        ksyms,
        #[trigger] kernel_ids[j],
    ) by {
        assert(places[j] == kp[j]);
        assert(stands_for(st, list[places.len() - 1 - j], places[j]));
    }
}

/// The order of a native callstack. Of `n` user addresses, all of them mapped, and `m`
/// kernel symbols, each leaf first, the callstack lists `n + m` frames, root first: the
/// outermost user address comes first, the leaf last of the user's; behind them the
/// kernel's, again the innermost last. A user frame has the address itself and the
/// mapping that holds it, a kernel frame the symbol's name.
#[verifier::spinoff_prover]
#[verifier::rlimit(40)]
pub proof fn lemma_callstack_is_root_first(
    st: InternState,
    pcs: Seq<u64>,
    lookups: Seq<Lookup>,
    ksyms: Map<u32, Seq<u8>>,
    kernel_ids: Seq<u32>,
)
    requires
        st.wf(),
        pcs.len() == lookups.len(),
        pcs.len() + kernel_ids.len() > 0,
        forall|i: int| 0 <= i < pcs.len() ==> (#[trigger] pcs[i]) != 0,
        forall|i: int| 0 <= i < lookups.len() ==> (#[trigger] lookups[i]) is Mapped,
        forall|i: int| 0 <= i < kernel_ids.len() ==> (#[trigger] kernel_ids[i]) != 0,
        st.room() >= callstack_cost(0, pcs.len(), kernel_ids.len()),
        callstack(st, true, Seq::empty(), pcs, lookups, ksyms, kernel_ids).out.len()
            < 0x8_0000_0000,
    ensures
        ({
            let r = callstack(st, true, Seq::empty(), pcs, lookups, ksyms, kernel_ids);
            &&& 1 <= r.iid <= r.state.callstacks.len()
            &&& root_first(
                r.state,
                r.state.callstacks[r.iid - 1],
                pcs,
                lookups,
                ksyms,
                kernel_ids,
            )
        }),
{
    let py = Seq::<Seq<u8>>::empty();
    let r = callstack(st, true, py, pcs, lookups, ksyms, kernel_ids);
    lemma_callstack_runs_outward(st, true, py, pcs, lookups, ksyms, kernel_ids);
    let places = from_innermost(true, py, pcs, lookups, ksyms, kernel_ids);
    let kp = kernel_places(ksyms, kernel_ids, kernel_ids.len());
    let up = user_places(pcs, lookups, pcs.len());
    assert(places =~= kp + up);
    lemma_all_mapped(pcs, lookups, pcs.len());
    lemma_all_kernel(ksyms, kernel_ids, kernel_ids.len());
    lemma_listed_root_first(
        r.state,
        r.state.callstacks[r.iid - 1],
        places,
        pcs,
        lookups,
        ksyms,
        kernel_ids,
    );
}

} // verus!
