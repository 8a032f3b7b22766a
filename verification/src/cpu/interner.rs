//! The InternedData tables of one perf sample sequence: mapping paths, build
//! ids, function names, mappings, frames and callstacks. Each entry is defined
//! once per sequence; a fresh sequence starts from empty tables.

use crate::bytes::same_bytes;
use crate::intern;
use crate::intern::{
    find_u64, intern_callstack_into, intern_string, BUILD_IDS_FIELD, FRAMES_FIELD,
    FUNCTION_NAMES_FIELD, MAPPINGS_FIELD, PATHS_FIELD,
};
use crate::proto::wire;
use crate::proto::writer;
use crate::proto::writer::ProtoWriter;
use std::collections::HashMap;
use vstd::prelude::*;
use vstd::slice::slice_to_vec;
use vstd::string::*;

verus! {

/// What a frame is interned by.
#[derive(Clone, Copy, PartialEq, Eq, Structural)]
pub struct FrameKey {
    pub mapping_iid: u64,
    pub rel_pc: u64,
    pub name_iid: u64,
}

/// What it takes to define a mapping again under the id it has.
#[derive(Clone, Copy, PartialEq, Eq, Structural)]
pub struct MappingDef {
    pub base_avma: u64,
    pub iid: u64,
    pub start: u64,
    pub end: u64,
    pub offset: u64,
    pub path_iid: u64,
}

/// A file-backed mapping of the target.
pub struct Mapping {
    pub start: u64,
    pub end: u64,
    pub offset: u64,
    pub base_avma: u64,
    pub path: Vec<u8>,
    pub build_id: Vec<u8>,
}

/// The tables, as sequences of what they hold.
#[verifier::ext_equal]
pub struct InternState {
    pub paths: Seq<Seq<u8>>,
    pub build_ids: Seq<Seq<u8>>,
    pub func_names: Seq<Seq<u8>>,
    pub mappings: Seq<u64>,
    /// Every file-backed mapping, in the order it was defined.
    pub defs: Seq<MappingDef>,
    /// The build id that the last mapping of an image base was defined with.
    pub def_ids: Map<u64, Seq<u8>>,
    pub frames: Seq<FrameKey>,
    pub callstacks: Seq<Seq<u64>>,
}

/// The outcome of interning: the tables after it, the id, and what it appends to
/// the InternedData message.
#[verifier::ext_equal]
pub struct Interned {
    pub state: InternState,
    pub iid: u64,
    pub out: Seq<u8>,
}

pub open spec fn larger(a: nat, b: nat) -> nat {
    if a >= b {
        a
    } else {
        b
    }
}

impl InternState {
    pub open spec fn new() -> Self {
        InternState {
            paths: Seq::empty(),
            build_ids: Seq::empty(),
            func_names: Seq::empty(),
            mappings: Seq::empty(),
            defs: Seq::empty(),
            def_ids: Map::empty(),
            frames: Seq::empty(),
            callstacks: Seq::empty(),
        }
    }

    /// No table holds a key twice.
    pub open spec fn wf(self) -> bool {
        &&& self.paths.no_duplicates()
        &&& self.build_ids.no_duplicates()
        &&& self.func_names.no_duplicates()
        &&& self.mappings.no_duplicates()
        &&& self.frames.no_duplicates()
        &&& self.callstacks.no_duplicates()
    }

    /// How many more ids the fullest table can give.
    pub open spec fn room(self) -> int {
        u64::MAX - larger(
            larger(larger(self.paths.len(), self.build_ids.len()), self.func_names.len()),
            larger(larger(self.mappings.len(), self.frames.len()), self.callstacks.len()),
        )
    }
}

pub open spec fn path_step(st: InternState, path: Seq<u8>) -> Interned {
    Interned {
        state: InternState { paths: intern::with_key(st.paths, path), ..st },
        iid: intern::iid_of(st.paths, path),
        out: intern::def_of(
            st.paths,
            path,
            intern::string_def(PATHS_FIELD, (st.paths.len() + 1) as u64, path),
        ),
    }
}

pub open spec fn build_id_step(st: InternState, raw: Seq<u8>) -> Interned {
    Interned {
        state: InternState { build_ids: intern::with_key(st.build_ids, raw), ..st },
        iid: intern::iid_of(st.build_ids, raw),
        out: intern::def_of(
            st.build_ids,
            raw,
            intern::string_def(BUILD_IDS_FIELD, (st.build_ids.len() + 1) as u64, raw),
        ),
    }
}

pub open spec fn func_name_step(st: InternState, name: Seq<u8>) -> Interned {
    Interned {
        state: InternState { func_names: intern::with_key(st.func_names, name), ..st },
        iid: intern::iid_of(st.func_names, name),
        out: intern::def_of(
            st.func_names,
            name,
            intern::string_def(FUNCTION_NAMES_FIELD, (st.func_names.len() + 1) as u64, name),
        ),
    }
}

/// `Mapping { iid = 1, build_id = 2 (omitted if 0), start = 4, end = 5, load_bias =
/// 6, exact_offset = 8, path_string_ids = 7 }`. The load bias is the image base.
pub open spec fn mapping_message(def: MappingDef, build_id_iid: u64) -> Seq<u8> {
    wire::sub_message(
        MAPPINGS_FIELD,
        wire::varint_field(1, def.iid) + wire::nonzero_field(2, build_id_iid) + wire::varint_field(
            4,
            def.start,
        ) + wire::varint_field(5, def.end) + wire::varint_field(6, def.base_avma)
            + wire::varint_field(8, def.offset) + wire::varint_field(7, def.path_iid),
    )
}

/// `Mapping { iid = 1, path_string_ids = 7 }`: a mapping that is only a label.
pub open spec fn label_mapping_message(iid: u64, path_iid: u64) -> Seq<u8> {
    wire::sub_message(MAPPINGS_FIELD, wire::varint_field(1, iid) + wire::varint_field(7, path_iid))
}

/// Interning a file-backed mapping, by its start address.
pub open spec fn mapping_step(
    st: InternState,
    start: u64,
    end: u64,
    offset: u64,
    base_avma: u64,
    path: Seq<u8>,
    build_id: Seq<u8>,
) -> Interned {
    if st.mappings.contains(start) {
        Interned { state: st, iid: intern::iid_of(st.mappings, start), out: Seq::empty() }
    } else {
        let iid = (st.mappings.len() + 1) as u64;
        let p = path_step(InternState { mappings: st.mappings.push(start), ..st }, path);
        let b = if build_id.len() > 0 {
            build_id_step(p.state, build_id)
        } else {
            Interned { state: p.state, iid: 0, out: Seq::empty() }
        };
        let def = MappingDef { base_avma, iid, start, end, offset, path_iid: p.iid };
        Interned {
            state: InternState {
                defs: b.state.defs.push(def),
                def_ids: b.state.def_ids.insert(base_avma, build_id),
                ..b.state
            },
            iid,
            out: p.out + b.out + mapping_message(def, b.iid),
        }
    }
}

/// The definitions, among the first `n`, of mappings with image base `base`,
/// each with the build id `build_id_iid`.
pub open spec fn redefinitions(defs: Seq<MappingDef>, base: u64, build_id_iid: u64, n: nat) -> Seq<
    u8,
>
    decreases n,
{
    if n == 0 {
        Seq::empty()
    } else if defs[n - 1].base_avma == base {
        redefinitions(defs, base, build_id_iid, (n - 1) as nat) + mapping_message(
            defs[n - 1],
            build_id_iid,
        )
    } else {
        redefinitions(defs, base, build_id_iid, (n - 1) as nat)
    }
}

/// Whether a mapping with image base `base` has been defined.
pub open spec fn has_base(defs: Seq<MappingDef>, base: u64) -> bool {
    exists|i: int| 0 <= i < defs.len() && (#[trigger] defs[i]).base_avma == base
}

/// Whether the mappings of `base` have to be defined again with `build_id`: there
/// are some, and the last was defined with another id.
pub open spec fn needs_redefinition(st: InternState, base: u64, build_id: Seq<u8>) -> bool {
    has_base(st.defs, base) && !(st.def_ids.dom().contains(base) && st.def_ids[base] == build_id)
}

/// Interning the label mapping of key `key`, whose path has the id `path_iid`.
pub open spec fn label_mapping_step(st: InternState, key: u64, path_iid: u64) -> Interned {
    Interned {
        state: InternState { mappings: intern::with_key(st.mappings, key), ..st },
        iid: intern::iid_of(st.mappings, key),
        out: intern::def_of(
            st.mappings,
            key,
            label_mapping_message((st.mappings.len() + 1) as u64, path_iid),
        ),
    }
}

/// The mapping that every kernel frame shares: key 0, where no real mapping starts.
pub open spec fn kernel_mapping_step(st: InternState) -> Interned {
    if st.mappings.contains(0u64) {
        Interned { state: st, iid: intern::iid_of(st.mappings, 0u64), out: Seq::empty() }
    } else {
        let p = path_step(st, "[kernel.kallsyms]".spec_bytes());
        let m = label_mapping_step(p.state, 0, p.iid);
        Interned { state: m.state, iid: m.iid, out: p.out + m.out }
    }
}

/// The mapping of a residual label: its key counts down from the top by the id of
/// its path.
pub open spec fn residual_mapping_step(st: InternState, label: Seq<u8>) -> Interned {
    let p = path_step(st, label);
    let m = label_mapping_step(p.state, (u64::MAX - p.iid) as u64, p.iid);
    Interned { state: m.state, iid: m.iid, out: p.out + m.out }
}

/// `Frame { iid = 1, function_name_id = 2 (omitted if 0), mapping_id = 3, rel_pc = 4 }`.
pub open spec fn frame_message(iid: u64, key: FrameKey) -> Seq<u8> {
    wire::sub_message(
        FRAMES_FIELD,
        wire::varint_field(1, iid) + wire::nonzero_field(2, key.name_iid) + wire::varint_field(
            3,
            key.mapping_iid,
        ) + wire::varint_field(4, key.rel_pc),
    )
}

pub open spec fn frame_step(st: InternState, key: FrameKey) -> Interned {
    Interned {
        state: InternState { frames: intern::with_key(st.frames, key), ..st },
        iid: intern::iid_of(st.frames, key),
        out: intern::def_of(
            st.frames,
            key,
            frame_message((st.frames.len() + 1) as u64, key),
        ),
    }
}

pub open spec fn callstack_step(st: InternState, fids: Seq<u64>) -> Interned {
    Interned {
        state: InternState { callstacks: intern::with_key(st.callstacks, fids), ..st },
        iid: intern::iid_of(st.callstacks, fids),
        out: intern::def_of(
            st.callstacks,
            fids,
            intern::callstack_def((st.callstacks.len() + 1) as u64, fids),
        ),
    }
}

/// The interning state of one sample sequence.
pub struct Interner {
    pub paths: Vec<Vec<u8>>,
    pub build_ids: Vec<Vec<u8>>,
    pub func_names: Vec<Vec<u8>>,
    pub mappings: Vec<u64>,
    pub defs: Vec<MappingDef>,
    pub def_ids: HashMap<u64, Vec<u8>>,
    pub frames: Vec<FrameKey>,
    pub callstacks: Vec<Vec<u64>>,
}

impl View for Interner {
    type V = InternState;

    open spec fn view(&self) -> InternState {
        InternState {
            paths: intern::rows(self.paths@),
            build_ids: intern::rows(self.build_ids@),
            func_names: intern::rows(self.func_names@),
            mappings: self.mappings@,
            defs: self.defs@,
            def_ids: self.def_ids@.map_values(|v: Vec<u8>| v@),
            frames: self.frames@,
            callstacks: intern::rows(self.callstacks@),
        }
    }
}

/// Where `k` stands in the frame table.
fn find_frame(table: &Vec<FrameKey>, k: FrameKey) -> (r: Option<usize>)
    ensures
        match r {
            Some(i) => i < table@.len() && table@[i as int] == k,
            None => !table@.contains(k),
        },
{
    let mut i: usize = 0;
    while i < table.len()
        invariant
            i <= table@.len(),
            forall|j: int| 0 <= j < i ==> table@[j] != k,
        decreases table@.len() - i,
    {
        if table[i] == k {
            return Some(i);
        }
        i += 1;
    }
    None
}

/// Append the definition of a mapping.
fn write_mapping(idw: &mut ProtoWriter, def: MappingDef, build_id_iid: u64)
    ensures
        final(idw)@ == old(idw)@ + mapping_message(def, build_id_iid),
{
    let marker: usize = idw.begin_message(MAPPINGS_FIELD);
    let ghost start = idw@;
    idw.write_uint64(1, def.iid);
    idw.write_nonzero(2, build_id_iid);
    idw.write_uint64(4, def.start);
    idw.write_uint64(5, def.end);
    idw.write_uint64(6, def.base_avma);
    idw.write_uint64(8, def.offset);
    idw.write_uint64(7, def.path_iid);
    proof {
        let body = wire::varint_field(1, def.iid) + wire::nonzero_field(2, build_id_iid)
            + wire::varint_field(4, def.start) + wire::varint_field(5, def.end)
            + wire::varint_field(6, def.base_avma) + wire::varint_field(8, def.offset)
            + wire::varint_field(7, def.path_iid);
        assert(idw@ =~= start + body);
        writer::lemma_closed_message(old(idw)@, MAPPINGS_FIELD, body);
    }
    idw.end_message(marker);
}

/// Append the definition of a mapping that is only a label.
fn write_label_mapping(idw: &mut ProtoWriter, iid: u64, path_iid: u64)
    ensures
        final(idw)@ == old(idw)@ + label_mapping_message(iid, path_iid),
{
    let marker: usize = idw.begin_message(MAPPINGS_FIELD);
    let ghost start = idw@;
    idw.write_uint64(1, iid);
    idw.write_uint64(7, path_iid);
    proof {
        let body = wire::varint_field(1, iid) + wire::varint_field(7, path_iid);
        assert(idw@ =~= start + body);
        writer::lemma_closed_message(old(idw)@, MAPPINGS_FIELD, body);
    }
    idw.end_message(marker);
}

impl Interner {
    pub fn new() -> (r: Self)
        ensures
            r@ == InternState::new(),
            r@.wf(),
    {
        let r = Interner {
            paths: Vec::new(),
            build_ids: Vec::new(),
            func_names: Vec::new(),
            mappings: Vec::new(),
            defs: Vec::new(),
            def_ids: HashMap::new(),
            frames: Vec::new(),
            callstacks: Vec::new(),
        };
        assert(r@ =~= InternState::new());
        r
    }

    /// Start a fresh sequence.
    pub fn reset(&mut self)
        ensures
            final(self)@ == InternState::new(),
            final(self)@.wf(),
    {
        *self = Interner::new();
    }

    /// Whether every table can give `n` more ids.
    pub fn has_room(&self, n: u64) -> (r: bool)
        ensures
            r == (self@.room() >= n),
    {
        let left: u64 = u64::MAX - n;
        self.paths.len() as u64 <= left && self.build_ids.len() as u64 <= left
            && self.func_names.len() as u64 <= left && self.mappings.len() as u64 <= left
            && self.frames.len() as u64 <= left && self.callstacks.len() as u64 <= left
    }

    pub fn intern_path(&mut self, path: &[u8], idw: &mut ProtoWriter) -> (iid: u64)
        requires
            old(self)@.wf(),
            old(self)@.room() >= 1,
        ensures
            ({
                let s = path_step(old(self)@, path@);
                &&& final(self)@ == s.state
                &&& iid == s.iid
                &&& final(idw)@ == old(idw)@ + s.out
            }),
            iid >= 1,
            final(self)@.wf(),
            final(self)@.room() >= old(self)@.room() - 1,
    {
        proof {
            intern::lemma_interned(self@.paths, path@);
        }
        let iid: u64 = intern_string(&mut self.paths, PATHS_FIELD, path, idw);
        assert(self@ =~= path_step(old(self)@, path@).state);
        iid
    }

    pub fn intern_build_id(&mut self, raw: &[u8], idw: &mut ProtoWriter) -> (iid: u64)
        requires
            old(self)@.wf(),
            old(self)@.room() >= 1,
        ensures
            ({
                let s = build_id_step(old(self)@, raw@);
                &&& final(self)@ == s.state
                &&& iid == s.iid
                &&& final(idw)@ == old(idw)@ + s.out
            }),
            iid >= 1,
            final(self)@.wf(),
            final(self)@.room() >= old(self)@.room() - 1,
    {
        proof {
            intern::lemma_interned(self@.build_ids, raw@);
        }
        let iid: u64 = intern_string(&mut self.build_ids, BUILD_IDS_FIELD, raw, idw);
        assert(self@ =~= build_id_step(old(self)@, raw@).state);
        iid
    }

    pub fn intern_func_name(&mut self, name: &[u8], idw: &mut ProtoWriter) -> (iid: u64)
        requires
            old(self)@.wf(),
            old(self)@.room() >= 1,
        ensures
            ({
                let s = func_name_step(old(self)@, name@);
                &&& final(self)@ == s.state
                &&& iid == s.iid
                &&& final(idw)@ == old(idw)@ + s.out
            }),
            iid >= 1,
            final(self)@.wf(),
            final(self)@.room() >= old(self)@.room() - 1,
    {
        proof {
            intern::lemma_interned(self@.func_names, name@);
        }
        let iid: u64 = intern_string(&mut self.func_names, FUNCTION_NAMES_FIELD, name, idw);
        assert(self@ =~= func_name_step(old(self)@, name@).state);
        iid
    }

    /// Intern a file-backed mapping by its start address.
    pub fn intern_mapping(
        &mut self,
        start: u64,
        end: u64,
        offset: u64,
        base_avma: u64,
        path: &[u8],
        build_id: &[u8],
        idw: &mut ProtoWriter,
    ) -> (iid: u64)
        requires
            old(self)@.wf(),
            old(self)@.room() >= 1,
        ensures
            ({
                let s = mapping_step(
                    old(self)@,
                    start,
                    end,
                    offset,
                    base_avma,
                    path@,
                    build_id@,
                );
                &&& final(self)@ == s.state
                &&& iid == s.iid
                &&& final(idw)@ == old(idw)@ + s.out
            }),
            iid >= 1,
            final(self)@.wf(),
            final(self)@.room() >= old(self)@.room() - 1,
    {
        let ghost st = self@;
        if let Some(i) = find_u64(&self.mappings, start) {
            proof {
                intern::lemma_index_is(st.mappings, start, i as int);
                assert(idw@ =~= idw@ + Seq::empty());
            }
            return i as u64 + 1;
        }
        let iid: u64 = self.mappings.len() as u64 + 1;
        proof {
            intern::lemma_interned(st.mappings, start);
            intern::lemma_interned(st.paths, path@);
            intern::lemma_interned(st.build_ids, build_id@);
        }
        self.mappings.push(start);
        let ghost st1 = InternState { mappings: st.mappings.push(start), ..st };
        assert(self@ =~= st1);
        let ghost p = path_step(st1, path@);
        let path_iid: u64 = intern_string(&mut self.paths, PATHS_FIELD, path, idw);
        assert(self@ =~= p.state);
        let build_id_iid: u64 = if build_id.len() > 0 {
            let b: u64 = intern_string(&mut self.build_ids, BUILD_IDS_FIELD, build_id, idw);
            assert(self@ =~= build_id_step(p.state, build_id@).state);
            b
        } else {
            0
        };
        let def = MappingDef { base_avma, iid, start, end, offset, path_iid };
        write_mapping(idw, def, build_id_iid);
        self.defs.push(def);
        let kept = slice_to_vec(build_id);
        self.def_ids.insert(base_avma, kept);
        proof {
            let s = mapping_step(st, start, end, offset, base_avma, path@, build_id@);
            assert(self@.def_ids =~= st.def_ids.insert(base_avma, build_id@));
            assert(self@ =~= s.state);
            assert(idw@ =~= old(idw)@ + s.out);
        }
        iid
    }

    /// Define every mapping of image base `base` again, with `build_id`, under
    /// the id it has: a module's identity can arrive after its mappings were
    /// defined with another. Returns whether anything was defined.
    pub fn reemit_build_id(&mut self, base: u64, build_id: &[u8], idw: &mut ProtoWriter) -> (emitted:
        bool)
        requires
            old(self)@.wf(),
            old(self)@.room() >= 1,
        ensures
            emitted == needs_redefinition(old(self)@, base, build_id@),
            !emitted ==> final(self)@ == old(self)@ && final(idw)@ == old(idw)@,
            emitted ==> {
                let b = build_id_step(old(self)@, build_id@);
                &&& final(self)@ == b.state
                &&& final(idw)@ == old(idw)@ + b.out + redefinitions(
                    old(self)@.defs,
                    base,
                    b.iid,
                    old(self)@.defs.len(),
                )
            },
            final(self)@.wf(),
            final(self)@.room() >= old(self)@.room() - 1,
    {
        let ghost st = self@;
        if let Some(id) = self.def_ids.get(&base) {
            if same_bytes(id.as_slice(), build_id) {
                assert(st.def_ids[base] == build_id@);
                return false;
            }
            assert(st.def_ids[base] != build_id@);
        }
        let mut any = false;
        let mut k: usize = 0;
        while k < self.defs.len()
            invariant
                k <= self.defs@.len(),
                any == (exists|i: int| 0 <= i < k && (#[trigger] self.defs@[i]).base_avma == base),
            decreases self.defs@.len() - k,
        {
            if self.defs[k].base_avma == base {
                any = true;
                assert(self.defs@[k as int].base_avma == base);
            }
            k += 1;
        }
        assert(any == has_base(st.defs, base));
        if !any {
            return false;
        }
        let build_id_iid: u64 = self.intern_build_id(build_id, idw);
        let ghost head = idw@;
        let mut j: usize = 0;
        while j < self.defs.len()
            invariant
                j <= self.defs@.len(),
                idw@ == head + redefinitions(self.defs@, base, build_id_iid, j as nat),
            decreases self.defs@.len() - j,
        {
            let def = self.defs[j];
            if def.base_avma == base {
                write_mapping(idw, def, build_id_iid);
            }
            j += 1;
            assert(idw@ =~= head + redefinitions(self.defs@, base, build_id_iid, j as nat));
        }
        true
    }

    /// Intern the label mapping of key `key`.
    fn intern_label_mapping(&mut self, key: u64, path_iid: u64, idw: &mut ProtoWriter) -> (iid: u64)
        requires
            old(self)@.wf(),
            old(self)@.mappings.len() < u64::MAX,
        ensures
            ({
                let s = label_mapping_step(old(self)@, key, path_iid);
                &&& final(self)@ == s.state
                &&& iid == s.iid
                &&& final(idw)@ == old(idw)@ + s.out
            }),
            iid >= 1,
            final(self)@.wf(),
            final(self)@.mappings.len() <= old(self)@.mappings.len() + 1,
    {
        let ghost st = self@;
        proof {
            intern::lemma_interned(st.mappings, key);
        }
        if let Some(i) = find_u64(&self.mappings, key) {
            proof {
                intern::lemma_index_is(st.mappings, key, i as int);
                assert(idw@ =~= idw@ + Seq::empty());
                assert(self@ =~= label_mapping_step(st, key, path_iid).state);
            }
            return i as u64 + 1;
        }
        let iid: u64 = self.mappings.len() as u64 + 1;
        self.mappings.push(key);
        write_label_mapping(idw, iid, path_iid);
        assert(self@ =~= label_mapping_step(st, key, path_iid).state);
        iid
    }

    /// The mapping `[kernel.kallsyms]` that every kernel frame shares.
    pub fn intern_kernel_mapping(&mut self, idw: &mut ProtoWriter) -> (iid: u64)
        requires
            old(self)@.wf(),
            old(self)@.room() >= 1,
        ensures
            ({
                let s = kernel_mapping_step(old(self)@);
                &&& final(self)@ == s.state
                &&& iid == s.iid
                &&& final(idw)@ == old(idw)@ + s.out
            }),
            iid >= 1,
            final(self)@.wf(),
            final(self)@.room() >= old(self)@.room() - 1,
    {
        let ghost st = self@;
        if let Some(i) = find_u64(&self.mappings, 0) {
            proof {
                intern::lemma_index_is(st.mappings, 0, i as int);
                assert(idw@ =~= idw@ + Seq::empty());
            }
            return i as u64 + 1;
        }
        let path_iid: u64 = self.intern_path("[kernel.kallsyms]".as_bytes(), idw);
        let iid: u64 = self.intern_label_mapping(0, path_iid, idw);
        assert(idw@ =~= old(idw)@ + kernel_mapping_step(st).out);
        iid
    }

    /// The mapping of a residual label such as `[anon]`: it carries only a path,
    /// so that its frames render as the label.
    pub fn intern_residual_mapping(&mut self, label: &[u8], idw: &mut ProtoWriter) -> (iid: u64)
        requires
            old(self)@.wf(),
            old(self)@.room() >= 1,
        ensures
            ({
                let s = residual_mapping_step(old(self)@, label@);
                &&& final(self)@ == s.state
                &&& iid == s.iid
                &&& final(idw)@ == old(idw)@ + s.out
            }),
            iid >= 1,
            final(self)@.wf(),
            final(self)@.room() >= old(self)@.room() - 1,
    {
        let ghost st = self@;
        let path_iid: u64 = self.intern_path(label, idw);
        let iid: u64 = self.intern_label_mapping(u64::MAX - path_iid, path_iid, idw);
        assert(idw@ =~= old(idw)@ + residual_mapping_step(st, label@).out);
        iid
    }

    pub fn intern_frame(&mut self, key: FrameKey, idw: &mut ProtoWriter) -> (iid: u64)
        requires
            old(self)@.wf(),
            old(self)@.room() >= 1,
        ensures
            ({
                let s = frame_step(old(self)@, key);
                &&& final(self)@ == s.state
                &&& iid == s.iid
                &&& final(idw)@ == old(idw)@ + s.out
            }),
            iid >= 1,
            final(self)@.wf(),
            final(self)@.room() >= old(self)@.room() - 1,
    {
        let ghost st = self@;
        proof {
            intern::lemma_interned(st.frames, key);
        }
        if let Some(i) = find_frame(&self.frames, key) {
            proof {
                intern::lemma_index_is(st.frames, key, i as int);
                assert(idw@ =~= idw@ + Seq::empty());
                assert(self@ =~= frame_step(st, key).state);
            }
            return i as u64 + 1;
        }
        let iid: u64 = self.frames.len() as u64 + 1;
        self.frames.push(key);
        assert(self@ =~= frame_step(st, key).state);
        let marker: usize = idw.begin_message(FRAMES_FIELD);
        let ghost start = idw@;
        idw.write_uint64(1, iid);
        idw.write_nonzero(2, key.name_iid);
        idw.write_uint64(3, key.mapping_iid);
        idw.write_uint64(4, key.rel_pc);
        proof {
            let body = wire::varint_field(1, iid) + wire::nonzero_field(2, key.name_iid)
                + wire::varint_field(3, key.mapping_iid) + wire::varint_field(4, key.rel_pc);
            assert(idw@ =~= start + body);
            writer::lemma_closed_message(old(idw)@, FRAMES_FIELD, body);
        }
        idw.end_message(marker);
        iid
    }

    /// Intern the callstack whose frames are `fids`, root first.
    pub fn intern_callstack_ids(&mut self, fids: &[u64], idw: &mut ProtoWriter) -> (iid: u64)
        requires
            old(self)@.wf(),
            old(self)@.room() >= 1,
        ensures
            ({
                let s = callstack_step(old(self)@, fids@);
                &&& final(self)@ == s.state
                &&& iid == s.iid
                &&& final(idw)@ == old(idw)@ + s.out
            }),
            iid >= 1,
            final(self)@.wf(),
            final(self)@.room() >= old(self)@.room() - 1,
    {
        proof {
            intern::lemma_interned(self@.callstacks, fids@);
        }
        let iid: u64 = intern_callstack_into(&mut self.callstacks, fids, idw);
        assert(self@ =~= callstack_step(old(self)@, fids@).state);
        iid
    }
}

impl Default for Interner {
    fn default() -> (r: Self)
        ensures
            r@ == InternState::new(),
            r@.wf(),
    {
        Interner::new()
    }
}

/// The mappings of a module are defined again only where there are some, and only where
/// they do not have the build id yet.
pub proof fn lemma_redefined_where_needed(st: InternState, base: u64, build_id: Seq<u8>, i: int)
    ensures
        (forall|j: int| 0 <= j < st.defs.len() ==> (#[trigger] st.defs[j]).base_avma != base)
            ==> !needs_redefinition(st, base, build_id),
        st.def_ids.dom().contains(base) && st.def_ids[base] == build_id ==> !needs_redefinition(
            st,
            base,
            build_id,
        ),
        0 <= i < st.defs.len() && st.defs[i].base_avma == base && !(st.def_ids.dom().contains(base)
            && st.def_ids[base] == build_id) ==> needs_redefinition(st, base, build_id),
{
}

} // verus!
