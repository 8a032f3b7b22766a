//! What a reader of a sample sequence learns. The tables of the sequence grow by what
//! its packets define: each new path, build id, name, mapping, frame and callstack is
//! told once, under the id that it is referred to by.

use crate::cpu::interner;
use crate::cpu::interner::{FrameKey, InternState, Interned, MappingDef};
use crate::intern;
use crate::proto::wire;
use crate::proto::wire::FieldValue;
use vstd::prelude::*;
use vstd::string::*;

verus! {

/// What is in a table stays there, under its id.
pub open spec fn grows(a: InternState, b: InternState) -> bool {
    &&& a.paths.is_prefix_of(b.paths)
    &&& a.build_ids.is_prefix_of(b.build_ids)
    &&& a.func_names.is_prefix_of(b.func_names)
    &&& a.mappings.is_prefix_of(b.mappings)
    &&& a.defs.is_prefix_of(b.defs)
    &&& a.frames.is_prefix_of(b.frames)
    &&& a.callstacks.is_prefix_of(b.callstacks)
}

/// A string under an id: 1 is the id, 2 the string.
pub open spec fn string_told(v: FieldValue, iid: u64, s: Seq<u8>) -> bool {
    exists|m: Seq<u8>|
        v == FieldValue::Len(m) && #[trigger] wire::under(m, 1) == wire::one(iid) && wire::under(
            m,
            2,
        ) == wire::one_text(s)
}

/// A frame under an id: 1 is the id, 2 its name where it has one, 3 its mapping, 4 its
/// address.
pub open spec fn frame_told(v: FieldValue, iid: u64, key: FrameKey) -> bool {
    exists|m: Seq<u8>|
        {
            &&& v == FieldValue::Len(m)
            &&& #[trigger] wire::under(m, 1) == wire::one(iid)
            &&& wire::under(m, 2) == wire::one_unless_zero(key.name_iid)
            &&& wire::under(m, 3) == wire::one(key.mapping_iid)
            &&& wire::under(m, 4) == wire::one(key.rel_pc)
        }
}

/// Numbers under one field, in their order.
pub open spec fn numbers(ids: Seq<u64>) -> Seq<FieldValue> {
    Seq::new(ids.len(), |i: int| FieldValue::Varint(ids[i]))
}

/// A callstack under an id: 1 is the id, 2 its frames, in their order.
pub open spec fn callstack_told(v: FieldValue, iid: u64, fids: Seq<u64>) -> bool {
    exists|m: Seq<u8>|
        v == FieldValue::Len(m) && #[trigger] wire::under(m, 1) == wire::one(iid) && wire::under(
            m,
            2,
        ) == numbers(fids)
}

/// A file-backed mapping under its id: 1 is the id, 4 and 5 where it starts and ends, 6
/// the image base, 7 its path, 8 the offset in the file.
pub open spec fn is_mapping(m: Seq<u8>, d: MappingDef) -> bool {
    &&& wire::under(m, 1) == wire::one(d.iid)
    &&& wire::under(m, 4) == wire::one(d.start)
    &&& wire::under(m, 5) == wire::one(d.end)
    &&& wire::under(m, 6) == wire::one(d.base_avma)
    &&& wire::under(m, 7) == wire::one(d.path_iid)
    &&& wire::under(m, 8) == wire::one(d.offset)
}

/// A mapping that is a label: 1 is the id, 7 the path that labels it, and it starts
/// nowhere.
pub open spec fn is_label(m: Seq<u8>, iid: u64, path_iid: u64) -> bool {
    &&& wire::under(m, 1) == wire::one(iid)
    &&& wire::under(m, 7) == wire::one(path_iid)
    &&& wire::under(m, 4).len() == 0
    &&& wire::under(m, 5).len() == 0
    &&& wire::under(m, 6).len() == 0
}

/// Whether a key that is no address belongs to the label that a path is: that of the
/// kernel has the key 0, another counts down from the top.
pub open spec fn labels(st: InternState, key: u64, path_iid: u64) -> bool {
    &&& 1 <= path_iid <= st.paths.len()
    &&& key == u64::MAX - path_iid || (key == 0 && st.paths[path_iid - 1]
        == "[kernel.kallsyms]".spec_bytes())
}

/// A mapping under an id, as the table has it.
pub open spec fn mapping_told(v: FieldValue, iid: u64, st: InternState) -> bool {
    let key = st.mappings[iid - 1];
    ||| exists|m: Seq<u8>, d: int|
        {
            &&& 0 <= d < st.defs.len()
            &&& v == FieldValue::Len(m)
            &&& st.defs[d].iid == iid
            &&& st.defs[d].start == key
            &&& #[trigger] is_mapping(m, st.defs[d])
        }
    ||| exists|m: Seq<u8>, p: u64|
        v == FieldValue::Len(m) && labels(st, key, p) && #[trigger] is_label(m, iid, p)
}

pub open spec fn strings_told(vs: Seq<FieldValue>, a: Seq<Seq<u8>>, b: Seq<Seq<u8>>) -> bool {
    &&& a.len() + vs.len() == b.len()
    &&& forall|k: int|
        0 <= k < vs.len() ==> string_told(
            #[trigger] vs[k],
            (a.len() + k + 1) as u64,
            b[a.len() + k],
        )
}

pub open spec fn frames_told(vs: Seq<FieldValue>, a: Seq<FrameKey>, b: Seq<FrameKey>) -> bool {
    &&& a.len() + vs.len() == b.len()
    &&& forall|k: int|
        0 <= k < vs.len() ==> frame_told(
            #[trigger] vs[k],
            (a.len() + k + 1) as u64,
            b[a.len() + k],
        )
}

pub open spec fn callstacks_told(vs: Seq<FieldValue>, a: Seq<Seq<u64>>, b: Seq<Seq<u64>>) -> bool {
    &&& a.len() + vs.len() == b.len()
    &&& forall|k: int|
        0 <= k < vs.len() ==> callstack_told(
            #[trigger] vs[k],
            (a.len() + k + 1) as u64,
            b[a.len() + k],
        )
}

pub open spec fn mappings_told(vs: Seq<FieldValue>, a: InternState, b: InternState) -> bool {
    &&& a.mappings.len() + vs.len() == b.mappings.len()
    &&& forall|k: int|
        0 <= k < vs.len() ==> mapping_told(
            #[trigger] vs[k],
            (a.mappings.len() + k + 1) as u64,
            b,
        )
}

/// Whether `out` tells just what the tables have gained from `a` to `b`, each entry
/// once, in the order of the ids: paths under 17, build ids under 16, names under 5,
/// mappings under 19, frames under 6, callstacks under 7.
#[verifier::opaque]
pub open spec fn tells(a: InternState, b: InternState, out: Seq<u8>) -> bool {
    &&& wire::complete(out)
    &&& strings_told(wire::under(out, 17), a.paths, b.paths)
    &&& strings_told(wire::under(out, 16), a.build_ids, b.build_ids)
    &&& strings_told(wire::under(out, 5), a.func_names, b.func_names)
    &&& mappings_told(wire::under(out, 19), a, b)
    &&& frames_told(wire::under(out, 6), a.frames, b.frames)
    &&& callstacks_told(wire::under(out, 7), a.callstacks, b.callstacks)
}

/// A step that keeps the tables sound, takes at most `cost` ids from each, and tells
/// what it adds.
pub open spec fn sound(a: InternState, b: InternState, out: Seq<u8>, cost: int) -> bool {
    &&& b.wf()
    &&& grows(a, b)
    &&& b.room() >= a.room() - cost
    &&& tells(a, b, out)
}

proof fn lemma_strings_join(
    v: Seq<FieldValue>,
    w: Seq<FieldValue>,
    a: Seq<Seq<u8>>,
    b: Seq<Seq<u8>>,
    c: Seq<Seq<u8>>,
)
    requires
        strings_told(v, a, b),
        strings_told(w, b, c),
        b.is_prefix_of(c),
    ensures
        strings_told(v + w, a, c),
{
    let x = v + w;
    assert forall|k: int| 0 <= k < x.len() implies string_told(
        #[trigger] x[k],
        (a.len() + k + 1) as u64,
        c[a.len() + k],
    ) by {
        if k < v.len() {
            assert(string_told(v[k], (a.len() + k + 1) as u64, b[a.len() + k]));
            assert(b[a.len() + k] == c[a.len() + k]);
        } else {
            let j = k - v.len();
            assert(string_told(w[j], (b.len() + j + 1) as u64, c[b.len() + j]));
        }
    }
}

proof fn lemma_frames_join(
    v: Seq<FieldValue>,
    w: Seq<FieldValue>,
    a: Seq<FrameKey>,
    b: Seq<FrameKey>,
    c: Seq<FrameKey>,
)
    requires
        frames_told(v, a, b),
        frames_told(w, b, c),
        b.is_prefix_of(c),
    ensures
        frames_told(v + w, a, c),
{
    let x = v + w;
    assert forall|k: int| 0 <= k < x.len() implies frame_told(
        #[trigger] x[k],
        (a.len() + k + 1) as u64,
        c[a.len() + k],
    ) by {
        if k < v.len() {
            assert(frame_told(v[k], (a.len() + k + 1) as u64, b[a.len() + k]));
            assert(b[a.len() + k] == c[a.len() + k]);
        } else {
            let j = k - v.len();
            assert(frame_told(w[j], (b.len() + j + 1) as u64, c[b.len() + j]));
        }
    }
}

proof fn lemma_callstacks_join(
    v: Seq<FieldValue>,
    w: Seq<FieldValue>,
    a: Seq<Seq<u64>>,
    b: Seq<Seq<u64>>,
    c: Seq<Seq<u64>>,
)
    requires
        callstacks_told(v, a, b),
        callstacks_told(w, b, c),
        b.is_prefix_of(c),
    ensures
        callstacks_told(v + w, a, c),
{
    let x = v + w;
    assert forall|k: int| 0 <= k < x.len() implies callstack_told(
        #[trigger] x[k],
        (a.len() + k + 1) as u64,
        c[a.len() + k],
    ) by {
        if k < v.len() {
            assert(callstack_told(v[k], (a.len() + k + 1) as u64, b[a.len() + k]));
            assert(b[a.len() + k] == c[a.len() + k]);
        } else {
            let j = k - v.len();
            assert(callstack_told(w[j], (b.len() + j + 1) as u64, c[b.len() + j]));
        }
    }
}

/// A mapping that was told stays what it was told as.
proof fn lemma_mapping_stays(v: FieldValue, iid: u64, b: InternState, c: InternState)
    requires
        1 <= iid <= b.mappings.len(),
        grows(b, c),
        mapping_told(v, iid, b),
    ensures
        mapping_told(v, iid, c),
{
    let key = b.mappings[iid - 1];
    assert(c.mappings[iid - 1] == key);
    if exists|m: Seq<u8>, d: int|
        {
            &&& 0 <= d < b.defs.len()
            &&& v == FieldValue::Len(m)
            &&& b.defs[d].iid == iid
            &&& b.defs[d].start == key
            &&& #[trigger] is_mapping(m, b.defs[d])
        } {
        let (m, d) = choose|m: Seq<u8>, d: int|
            {
                &&& 0 <= d < b.defs.len()
                &&& v == FieldValue::Len(m)
                &&& b.defs[d].iid == iid
                &&& b.defs[d].start == key
                &&& #[trigger] is_mapping(m, b.defs[d])
            };
        assert(b.defs[d] == c.defs[d]);
        assert(is_mapping(m, c.defs[d]));
    } else {
        let (m, p) = choose|m: Seq<u8>, p: u64|
            v == FieldValue::Len(m) && labels(b, key, p) && #[trigger] is_label(m, iid, p);
        assert(b.paths[p - 1] == c.paths[p - 1]);
        assert(labels(c, key, p));
        assert(is_label(m, iid, p));
    }
}

proof fn lemma_mappings_join(
    v: Seq<FieldValue>,
    w: Seq<FieldValue>,
    a: InternState,
    b: InternState,
    c: InternState,
)
    requires
        mappings_told(v, a, b),
        mappings_told(w, b, c),
        grows(b, c),
        c.mappings.len() <= u64::MAX,
    ensures
        mappings_told(v + w, a, c),
{
    let x = v + w;
    let n = a.mappings.len();
    assert forall|k: int| 0 <= k < x.len() implies mapping_told(
        #[trigger] x[k],
        (n + k + 1) as u64,
        c,
    ) by {
        if k < v.len() {
            assert(mapping_told(v[k], (n + k + 1) as u64, b));
            lemma_mapping_stays(v[k], (n + k + 1) as u64, b, c);
        } else {
            let j = k - v.len();
            assert(mapping_told(w[j], (b.mappings.len() + j + 1) as u64, c));
        }
    }
}

/// Two steps, one after the other, tell what both tell.
pub proof fn lemma_tells_join(
    a: InternState,
    b: InternState,
    c: InternState,
    o: Seq<u8>,
    p: Seq<u8>,
    x: int,
    y: int,
)
    requires
        sound(a, b, o, x),
        sound(b, c, p, y),
        c.room() >= 0,
    ensures
        sound(a, c, o + p, x + y),
{
    reveal(tells);
    wire::lemma_join(o, p);
    lemma_strings_join(wire::under(o, 17), wire::under(p, 17), a.paths, b.paths, c.paths);
    lemma_strings_join(
        wire::under(o, 16),
        wire::under(p, 16),
        a.build_ids,
        b.build_ids,
        c.build_ids,
    );
    lemma_strings_join(
        wire::under(o, 5),
        wire::under(p, 5),
        a.func_names,
        b.func_names,
        c.func_names,
    );
    lemma_mappings_join(wire::under(o, 19), wire::under(p, 19), a, b, c);
    lemma_frames_join(wire::under(o, 6), wire::under(p, 6), a.frames, b.frames, c.frames);
    lemma_callstacks_join(
        wire::under(o, 7),
        wire::under(p, 7),
        a.callstacks,
        b.callstacks,
        c.callstacks,
    );
    lemma_prefix(a.paths, b.paths, c.paths);
    lemma_prefix(a.build_ids, b.build_ids, c.build_ids);
    lemma_prefix(a.func_names, b.func_names, c.func_names);
    lemma_prefix(a.mappings, b.mappings, c.mappings);
    lemma_prefix(a.defs, b.defs, c.defs);
    lemma_prefix(a.frames, b.frames, c.frames);
    lemma_prefix(a.callstacks, b.callstacks, c.callstacks);
}

pub proof fn lemma_prefix<T>(a: Seq<T>, b: Seq<T>, c: Seq<T>)
    requires
        a.is_prefix_of(b),
        b.is_prefix_of(c),
    ensures
        a.is_prefix_of(c),
{
    assert(a =~= c.subrange(0, a.len() as int)) by {
        assert forall|i: int| 0 <= i < a.len() implies a[i] == c[i] by {
            assert(a[i] == b[i]);
            assert(b[i] == c[i]);
        }
    }
}

/// What adds nothing tells nothing.
pub proof fn lemma_tells_nothing(a: InternState)
    requires
        a.wf(),
    ensures
        sound(a, a, Seq::empty(), 0),
{
    reveal(tells);
    wire::lemma_under_empty();
}

/// A string's definition is read back.
proof fn lemma_string_def(field: u32, iid: u64, s: Seq<u8>)
    requires
        intern::string_def(field, iid, s).len() < 0x8_0000_0000,
    ensures
        ({
            let d = intern::string_def(field, iid, s);
            &&& wire::complete(d)
            &&& wire::under(d, field).len() == 1
            &&& string_told(wire::under(d, field)[0], iid, s)
            &&& forall|n: u32|
                n != field ==> #[trigger] wire::under(d, n) == Seq::<FieldValue>::empty()
        }),
{
    let x = wire::varint_field(1, iid);
    let y = wire::len_field(2, s);
    wire::lemma_under_varint(1, iid);
    wire::lemma_under_len(2, s);
    wire::lemma_join(x, y);
    wire::lemma_under_sub_message(field, x + y);
    assert(wire::under(x + y, 1) =~= wire::one(iid));
    assert(wire::under(x + y, 2) =~= wire::one_text(s));
}

/// Interning a path tells it, once, under the id that it is given.
pub proof fn lemma_path_is_told(st: InternState, path: Seq<u8>)
    requires
        st.wf(),
        st.room() >= 1,
        interner::path_step(st, path).out.len() < 0x8_0000_0000,
    ensures
        ({
            let s = interner::path_step(st, path);
            &&& sound(st, s.state, s.out, 1)
            &&& 1 <= s.iid <= s.state.paths.len()
            &&& s.state.paths[s.iid - 1] == path
        }),
{
    reveal(tells);
    intern::lemma_interned(st.paths, path);
    wire::lemma_under_empty();
    if !st.paths.contains(path) {
        lemma_string_def(17, (st.paths.len() + 1) as u64, path);
    }
}

pub proof fn lemma_build_id_is_told(st: InternState, raw: Seq<u8>)
    requires
        st.wf(),
        st.room() >= 1,
        interner::build_id_step(st, raw).out.len() < 0x8_0000_0000,
    ensures
        ({
            let s = interner::build_id_step(st, raw);
            &&& sound(st, s.state, s.out, 1)
            &&& 1 <= s.iid <= s.state.build_ids.len()
            &&& s.state.build_ids[s.iid - 1] == raw
        }),
{
    reveal(tells);
    intern::lemma_interned(st.build_ids, raw);
    wire::lemma_under_empty();
    if !st.build_ids.contains(raw) {
        lemma_string_def(16, (st.build_ids.len() + 1) as u64, raw);
    }
}

pub proof fn lemma_name_is_told(st: InternState, name: Seq<u8>)
    requires
        st.wf(),
        st.room() >= 1,
        interner::func_name_step(st, name).out.len() < 0x8_0000_0000,
    ensures
        ({
            let s = interner::func_name_step(st, name);
            &&& sound(st, s.state, s.out, 1)
            &&& 1 <= s.iid <= s.state.func_names.len()
            &&& s.state.func_names[s.iid - 1] == name
        }),
{
    reveal(tells);
    intern::lemma_interned(st.func_names, name);
    wire::lemma_under_empty();
    if !st.func_names.contains(name) {
        lemma_string_def(5, (st.func_names.len() + 1) as u64, name);
    }
}

/// Interning a frame tells it, once, under the id that it is given.
#[verifier::spinoff_prover]
#[verifier::rlimit(40)]
pub proof fn lemma_frame_is_told(st: InternState, key: FrameKey)
    requires
        st.wf(),
        st.room() >= 1,
    ensures
        ({
            let s = interner::frame_step(st, key);
            &&& sound(st, s.state, s.out, 1)
            &&& 1 <= s.iid <= s.state.frames.len()
            &&& s.state.frames[s.iid - 1] == key
        }),
{
    reveal(tells);
    intern::lemma_interned(st.frames, key);
    wire::lemma_under_empty();
    if !st.frames.contains(key) {
        let iid = (st.frames.len() + 1) as u64;
        let a = wire::varint_field(1, iid);
        let b = wire::nonzero_field(2, key.name_iid);
        let c = wire::varint_field(3, key.mapping_iid);
        let d = wire::varint_field(4, key.rel_pc);
        wire::lemma_under_varint(1, iid);
        wire::lemma_under_nonzero(2, key.name_iid);
        wire::lemma_under_varint(3, key.mapping_iid);
        wire::lemma_under_varint(4, key.rel_pc);
        wire::lemma_join(a, b);
        wire::lemma_join(a + b, c);
        wire::lemma_join(a + b + c, d);
        let m = a + b + c + d;
        wire::lemma_under_sub_message(6, m);
        assert(wire::under(m, 1) =~= wire::one(iid));
        assert(wire::under(m, 2) =~= wire::one_unless_zero(key.name_iid));
        assert(wire::under(m, 3) =~= wire::one(key.mapping_iid));
        assert(wire::under(m, 4) =~= wire::one(key.rel_pc));
    }
}

/// Frame ids are read back in the order they were written.
pub proof fn lemma_frame_ids_read_back(fids: Seq<u64>, n: nat)
    requires
        n <= fids.len(),
    ensures
        wire::complete(intern::frame_id_fields(fids, n)),
        wire::under(intern::frame_id_fields(fids, n), 2) == numbers(fids.take(n as int)),
        forall|k: u32|
            k != 2 ==> #[trigger] wire::under(intern::frame_id_fields(fids, n), k) == Seq::<
                FieldValue,
            >::empty(),
    decreases n,
{
    if n == 0 {
        wire::lemma_under_empty();
        assert(wire::under(intern::frame_id_fields(fids, n), 2) =~= numbers(fids.take(0)));
    } else {
        let m = (n - 1) as nat;
        let front = intern::frame_id_fields(fids, m);
        let last = wire::varint_field(2, fids[n - 1]);
        lemma_frame_ids_read_back(fids, m);
        wire::lemma_under_varint(2, fids[n - 1]);
        wire::lemma_join(front, last);
        assert(wire::under(front + last, 2) =~= numbers(fids.take(n as int)));
        assert forall|k: u32| k != 2 implies #[trigger] wire::under(front + last, k) == Seq::<
            FieldValue,
        >::empty() by {
            assert(wire::under(front, k) + wire::under(last, k) =~= Seq::<FieldValue>::empty());
        }
    }
}

/// Interning a callstack tells its frames, in their order, once, under the id that it
/// is given.
pub proof fn lemma_callstack_is_told(st: InternState, fids: Seq<u64>)
    requires
        st.wf(),
        st.room() >= 1,
        interner::callstack_step(st, fids).out.len() < 0x8_0000_0000,
    ensures
        ({
            let s = interner::callstack_step(st, fids);
            &&& sound(st, s.state, s.out, 1)
            &&& 1 <= s.iid <= s.state.callstacks.len()
            &&& s.state.callstacks[s.iid - 1] == fids
        }),
{
    reveal(tells);
    intern::lemma_interned(st.callstacks, fids);
    wire::lemma_under_empty();
    if !st.callstacks.contains(fids) {
        let iid = (st.callstacks.len() + 1) as u64;
        let a = wire::varint_field(1, iid);
        let b = intern::frame_id_fields(fids, fids.len());
        wire::lemma_under_varint(1, iid);
        lemma_frame_ids_read_back(fids, fids.len());
        assert(fids.take(fids.len() as int) =~= fids);
        wire::lemma_join(a, b);
        wire::lemma_under_sub_message(7, a + b);
        assert(wire::under(a + b, 1) =~= wire::one(iid));
        assert(wire::under(a + b, 2) =~= numbers(fids));
    }
}

/// A mapping's definition is read back: the mapping, and its build id where it has one.
#[verifier::spinoff_prover]
#[verifier::rlimit(40)]
pub proof fn lemma_mapping_read_back(d: MappingDef, build_id_iid: u64)
    ensures
        ({
            let o = interner::mapping_message(d, build_id_iid);
            &&& wire::complete(o)
            &&& exists|m: Seq<u8>|
                #[trigger] wire::one_text(m) == wire::under(o, 19) && is_mapping(m, d)
                    && wire::under(m, 2) == wire::one_unless_zero(build_id_iid)
            &&& forall|n: u32|
                n != 19 ==> #[trigger] wire::under(o, n) == Seq::<FieldValue>::empty()
        }),
{
    let a = wire::varint_field(1, d.iid);
    let b = wire::nonzero_field(2, build_id_iid);
    let c = wire::varint_field(4, d.start);
    let e = wire::varint_field(5, d.end);
    let f = wire::varint_field(6, d.base_avma);
    let g = wire::varint_field(8, d.offset);
    let h = wire::varint_field(7, d.path_iid);
    wire::lemma_under_varint(1, d.iid);
    wire::lemma_under_nonzero(2, build_id_iid);
    wire::lemma_under_varint(4, d.start);
    wire::lemma_under_varint(5, d.end);
    wire::lemma_under_varint(6, d.base_avma);
    wire::lemma_under_varint(8, d.offset);
    wire::lemma_under_varint(7, d.path_iid);
    wire::lemma_join(a, b);
    wire::lemma_join(a + b, c);
    wire::lemma_join(a + b + c, e);
    wire::lemma_join(a + b + c + e, f);
    wire::lemma_join(a + b + c + e + f, g);
    wire::lemma_join(a + b + c + e + f + g, h);
    let m = a + b + c + e + f + g + h;
    wire::lemma_under_sub_message(19, m);
    assert(wire::under(m, 1) =~= wire::one(d.iid));
    assert(wire::under(m, 2) =~= wire::one_unless_zero(build_id_iid));
    assert(wire::under(m, 4) =~= wire::one(d.start));
    assert(wire::under(m, 5) =~= wire::one(d.end));
    assert(wire::under(m, 6) =~= wire::one(d.base_avma));
    assert(wire::under(m, 7) =~= wire::one(d.path_iid));
    assert(wire::under(m, 8) =~= wire::one(d.offset));
    assert(is_mapping(m, d));
    assert(wire::one_text(m) == wire::under(interner::mapping_message(d, build_id_iid), 19));
}

/// Adding a mapping to the tables, and telling it.
proof fn lemma_add_mapping(st: InternState, d: MappingDef, def_ids: Map<u64, Seq<u8>>, b: u64)
    requires
        st.wf(),
        st.mappings.len() < u64::MAX,
        !st.mappings.contains(d.start),
        d.iid == st.mappings.len() + 1,
    ensures
        ({
            let t = InternState {
                mappings: st.mappings.push(d.start),
                defs: st.defs.push(d),
                def_ids,
                ..st
            };
            sound(st, t, interner::mapping_message(d, b), 1)
        }),
{
    intern::lemma_interned(st.mappings, d.start);
    let t = InternState {
        mappings: st.mappings.push(d.start),
        defs: st.defs.push(d),
        def_ids,
        ..st
    };
    let o = interner::mapping_message(d, b);
    lemma_mapping_read_back(d, b);
    let m = choose|m: Seq<u8>|
        #[trigger] wire::one_text(m) == wire::under(o, 19) && is_mapping(m, d) && wire::under(m, 2)
            == wire::one_unless_zero(b);
    reveal(tells);
    assert(t.defs[st.defs.len() as int] == d);
    assert(is_mapping(m, t.defs[st.defs.len() as int]));
    assert(t.mappings[d.iid - 1] == d.start);
    assert(mapping_told(FieldValue::Len(m), d.iid, t));
}

/// Interning a file-backed mapping gives an id that stands for its start. Where the
/// start is new the mapping is told, with where it ends, the image it is of and the
/// offset, with the path that was given and, unless it is empty, the build id.
pub proof fn lemma_mapping_is_told(
    st: InternState,
    start: u64,
    end: u64,
    offset: u64,
    base_avma: u64,
    path: Seq<u8>,
    build_id: Seq<u8>,
)
    requires
        st.wf(),
        st.room() >= 1,
        interner::mapping_step(st, start, end, offset, base_avma, path, build_id).out.len()
            < 0x8_0000_0000,
    ensures
        ({
            let s = interner::mapping_step(st, start, end, offset, base_avma, path, build_id);
            &&& sound(st, s.state, s.out, 1)
            &&& 1 <= s.iid <= s.state.mappings.len()
            &&& s.state.mappings[s.iid - 1] == start
            &&& !st.mappings.contains(start) ==> exists|m: Seq<u8>, d: MappingDef, b: u64|
                {
                    &&& #[trigger] wire::one_text(m) == wire::under(s.out, 19)
                    &&& #[trigger] is_mapping(m, d)
                    &&& d.iid == s.iid && d.start == start && d.end == end && d.offset == offset
                    &&& d.base_avma == base_avma
                    &&& 1 <= d.path_iid <= s.state.paths.len()
                    &&& s.state.paths[d.path_iid - 1] == path
                    &&& wire::under(m, 2) == #[trigger] wire::one_unless_zero(b)
                    &&& build_id.len() == 0 ==> b == 0
                    &&& build_id.len() > 0 ==> 1 <= b <= s.state.build_ids.len()
                        && s.state.build_ids[b - 1] == build_id
                }
        }),
{
    intern::lemma_interned(st.mappings, start);
    let s = interner::mapping_step(st, start, end, offset, base_avma, path, build_id);
    if st.mappings.contains(start) {
        lemma_tells_nothing(st);
    } else {
        let iid = (st.mappings.len() + 1) as u64;
        let p = interner::path_step(st, path);
        lemma_path_is_told(st, path);
        intern::lemma_interned(st.paths, path);
        intern::lemma_interned(st.build_ids, build_id);
        let b = if build_id.len() > 0 {
            interner::build_id_step(p.state, build_id)
        } else {
            Interned { state: p.state, iid: 0, out: Seq::empty() }
        };
        if build_id.len() > 0 {
            lemma_build_id_after_path(st, path, build_id);
        } else {
            lemma_tells_nothing(p.state);
        }
        let d = MappingDef { base_avma, iid, start, end, offset, path_iid: p.iid };
        let o = interner::mapping_message(d, b.iid);
        let ids = b.state.def_ids.insert(base_avma, build_id);
        lemma_add_mapping(b.state, d, ids, b.iid);
        lemma_mapping_read_back(d, b.iid);
        let m = choose|m: Seq<u8>|
            #[trigger] wire::one_text(m) == wire::under(o, 19) && is_mapping(m, d) && wire::under(
                m,
                2,
            ) == wire::one_unless_zero(b.iid);
        let t = InternState {
            mappings: b.state.mappings.push(start),
            defs: b.state.defs.push(d),
            def_ids: ids,
            ..b.state
        };
        assert(s.state =~= t);
        assert(s.out == p.out + b.out + o);
        lemma_tells_join(st, p.state, b.state, p.out, b.out, 1, 1);
        lemma_tells_join(st, b.state, t, p.out + b.out, o, 2, 1);
        lemma_only_mapping(p.out, b.out, o, st, p.state, b.state);
        assert(wire::one_text(m) == wire::under(s.out, 19));
        assert(is_mapping(m, d));
        assert(wire::under(m, 2) == wire::one_unless_zero(b.iid));
    }
}

proof fn lemma_build_id_after_path(st: InternState, path: Seq<u8>, raw: Seq<u8>)
    requires
        st.wf(),
        st.room() >= 1,
        interner::build_id_step(interner::path_step(st, path).state, raw).out.len()
            < 0x8_0000_0000,
    ensures
        ({
            let q = interner::path_step(st, path).state;
            let s = interner::build_id_step(q, raw);
            &&& sound(q, s.state, s.out, 1)
            &&& 1 <= s.iid <= s.state.build_ids.len()
            &&& s.state.build_ids[s.iid - 1] == raw
        }),
{
    let q = interner::path_step(st, path).state;
    intern::lemma_interned(st.paths, path);
    reveal(tells);
    intern::lemma_interned(q.build_ids, raw);
    wire::lemma_under_empty();
    if !q.build_ids.contains(raw) {
        lemma_string_def(16, (q.build_ids.len() + 1) as u64, raw);
    }
}

/// Paths and build ids are told under other fields than mappings.
proof fn lemma_only_mapping(
    p: Seq<u8>,
    b: Seq<u8>,
    o: Seq<u8>,
    x: InternState,
    y: InternState,
    z: InternState,
)
    requires
        tells(x, y, p),
        tells(y, z, b),
        x.mappings == y.mappings,
        y.mappings == z.mappings,
        wire::complete(o),
    ensures
        wire::under(p + b + o, 19) == wire::under(o, 19),
{
    reveal(tells);
    wire::lemma_join(p, b);
    wire::lemma_join(p + b, o);
    assert(wire::under(p + b + o, 19) =~= wire::under(o, 19));
}

/// A label's definition is read back.
proof fn lemma_label_read_back(iid: u64, path_iid: u64)
    ensures
        ({
            let o = interner::label_mapping_message(iid, path_iid);
            &&& wire::complete(o)
            &&& exists|m: Seq<u8>|
                #[trigger] wire::one_text(m) == wire::under(o, 19) && is_label(m, iid, path_iid)
            &&& forall|n: u32|
                n != 19 ==> #[trigger] wire::under(o, n) == Seq::<FieldValue>::empty()
        }),
{
    let a = wire::varint_field(1, iid);
    let b = wire::varint_field(7, path_iid);
    wire::lemma_under_varint(1, iid);
    wire::lemma_under_varint(7, path_iid);
    wire::lemma_join(a, b);
    wire::lemma_under_sub_message(19, a + b);
    assert(wire::under(a + b, 1) =~= wire::one(iid));
    assert(wire::under(a + b, 7) =~= wire::one(path_iid));
    assert(is_label(a + b, iid, path_iid));
    assert(wire::one_text(a + b) == wire::under(interner::label_mapping_message(iid, path_iid), 19));
}

proof fn lemma_label_mapping(st: InternState, key: u64, path_iid: u64)
    requires
        st.wf(),
        st.mappings.len() < u64::MAX,
        labels(st, key, path_iid),
    ensures
        ({
            let s = interner::label_mapping_step(st, key, path_iid);
            &&& sound(st, s.state, s.out, 1)
            &&& s.state.paths == st.paths
            &&& 1 <= s.iid <= s.state.mappings.len()
            &&& s.state.mappings[s.iid - 1] == key
        }),
{
    intern::lemma_interned(st.mappings, key);
    let s = interner::label_mapping_step(st, key, path_iid);
    if st.mappings.contains(key) {
        assert(s.state =~= st);
        lemma_tells_nothing(st);
    } else {
        let iid = (st.mappings.len() + 1) as u64;
        lemma_label_read_back(iid, path_iid);
        let m = choose|m: Seq<u8>|
            #[trigger] wire::one_text(m) == wire::under(s.out, 19) && is_label(m, iid, path_iid);
        reveal(tells);
        wire::lemma_under_empty();
        assert(labels(s.state, key, path_iid));
        assert(is_label(m, iid, path_iid));
        assert(mapping_told(FieldValue::Len(m), iid, s.state));
    }
}

/// The mapping of a residual label is that of the path that the label is.
pub proof fn lemma_residual_is_told(st: InternState, label: Seq<u8>)
    requires
        st.wf(),
        st.room() >= 1,
        interner::residual_mapping_step(st, label).out.len() < 0x8_0000_0000,
    ensures
        ({
            let s = interner::residual_mapping_step(st, label);
            &&& sound(st, s.state, s.out, 1)
            &&& 1 <= s.iid <= s.state.mappings.len()
            &&& exists|p: u64|
                #[trigger] labels(s.state, s.state.mappings[s.iid - 1], p)
                    && s.state.mappings[s.iid - 1] == u64::MAX - p && s.state.paths[p - 1] == label
        }),
{
    let p = interner::path_step(st, label);
    lemma_path_is_told(st, label);
    let key = (u64::MAX - p.iid) as u64;
    let m = interner::label_mapping_step(p.state, key, p.iid);
    intern::lemma_interned(st.paths, label);
    intern::lemma_interned(st.mappings, key);
    lemma_label_mapping(p.state, key, p.iid);
    lemma_tells_join(st, p.state, m.state, p.out, m.out, 1, 1);
    assert(labels(m.state, m.state.mappings[m.iid - 1], p.iid));
}

/// The mapping of the kernel's frames is that of the key 0.
pub proof fn lemma_kernel_is_told(st: InternState)
    requires
        st.wf(),
        st.room() >= 1,
        interner::kernel_mapping_step(st).out.len() < 0x8_0000_0000,
    ensures
        ({
            let s = interner::kernel_mapping_step(st);
            &&& sound(st, s.state, s.out, 1)
            &&& 1 <= s.iid <= s.state.mappings.len()
            &&& s.state.mappings[s.iid - 1] == 0
        }),
{
    intern::lemma_interned(st.mappings, 0u64);
    if st.mappings.contains(0u64) {
        lemma_tells_nothing(st);
    } else {
        let label = "[kernel.kallsyms]".spec_bytes();
        let p = interner::path_step(st, label);
        lemma_path_is_told(st, label);
        let m = interner::label_mapping_step(p.state, 0, p.iid);
        intern::lemma_interned(st.paths, label);
        lemma_label_mapping(p.state, 0, p.iid);
        lemma_tells_join(st, p.state, m.state, p.out, m.out, 1, 1);
    }
}

} // verus!
