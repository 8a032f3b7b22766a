//! Interning tables. A table is a list of distinct keys in the order they were
//! first seen; the interning id of a key is its position, counted from 1. A key
//! that is new is defined once, in the InternedData message of the packet that
//! first uses it.

use crate::bytes::same_bytes;
use crate::proto::wire;
use crate::proto::writer;
use crate::proto::writer::ProtoWriter;
use vstd::prelude::*;
use vstd::slice::slice_to_vec;

verus! {

/// InternedData.mapping_paths.
pub const PATHS_FIELD: u32 = 17;

/// InternedData.build_ids.
pub const BUILD_IDS_FIELD: u32 = 16;

/// InternedData.function_names.
pub const FUNCTION_NAMES_FIELD: u32 = 5;

/// InternedData.mappings.
pub const MAPPINGS_FIELD: u32 = 19;

/// InternedData.frames.
pub const FRAMES_FIELD: u32 = 6;

/// InternedData.callstacks.
pub const CALLSTACKS_FIELD: u32 = 7;

/// The table with `k` in it: at the end, where it is new.
pub open spec fn with_key<K>(table: Seq<K>, k: K) -> Seq<K> {
    if table.contains(k) {
        table
    } else {
        table.push(k)
    }
}

/// The id that interning `k` gives.
pub open spec fn iid_of<K>(table: Seq<K>, k: K) -> u64 {
    if table.contains(k) {
        (table.index_of(k) + 1) as u64
    } else {
        (table.len() + 1) as u64
    }
}

/// What defining `k` appends: `def` where it is new, nothing where it is not.
pub open spec fn def_of<K>(table: Seq<K>, k: K, def: Seq<u8>) -> Seq<u8> {
    if table.contains(k) {
        Seq::empty()
    } else {
        def
    }
}

/// A table of byte strings as sequences.
pub open spec fn rows<T>(v: Seq<Vec<T>>) -> Seq<Seq<T>> {
    Seq::new(v.len(), |i: int| v[i]@)
}

/// Interning never gives the id 0, and gives the same id again.
pub proof fn lemma_interned<K>(table: Seq<K>, k: K)
    requires
        table.no_duplicates(),
        table.len() < u64::MAX,
    ensures
        with_key(table, k).no_duplicates(),
        with_key(table, k).contains(k),
        table.len() <= with_key(table, k).len() <= table.len() + 1,
        1 <= iid_of(table, k) <= with_key(table, k).len(),
        with_key(table, k)[iid_of(table, k) - 1] == k,
        iid_of(with_key(table, k), k) == iid_of(table, k),
        with_key(with_key(table, k), k) == with_key(table, k),
        table.is_prefix_of(with_key(table, k)),
{
    let t = with_key(table, k);
    if !table.contains(k) {
        assert(t[table.len() as int] == k);
        assert forall|i: int, j: int| 0 <= i < t.len() && 0 <= j < t.len() && i != j implies t[i]
            != t[j] by {
            if i == table.len() {
                assert(table.contains(table[j]));
            } else if j == table.len() {
                assert(table.contains(table[i]));
            }
        }
    }
    assert(t.contains(k));
}

/// Two keys get the same id exactly where they are the same key.
pub proof fn lemma_ids_tell_keys_apart<K>(table: Seq<K>, a: K, b: K)
    requires
        table.no_duplicates(),
        table.len() < u64::MAX,
        table.contains(a),
        table.contains(b),
    ensures
        iid_of(table, a) == iid_of(table, b) <==> a == b,
{
}

/// What has been interned keeps its id when other keys are added.
pub proof fn lemma_ids_are_stable<K>(table: Seq<K>, a: K, b: K)
    requires
        table.no_duplicates(),
        table.len() < u64::MAX,
        table.contains(a),
    ensures
        with_key(table, b).contains(a),
        iid_of(with_key(table, b), a) == iid_of(table, a),
{
    lemma_interned(table, b);
    let t = with_key(table, b);
    let i = table.index_of(a);
    assert(t[i] == a);
    assert(t.contains(a));
}

/// A position that holds `k` is the one that `index_of` gives.
pub proof fn lemma_index_is<K>(table: Seq<K>, k: K, i: int)
    requires
        table.no_duplicates(),
        0 <= i < table.len(),
        table[i] == k,
    ensures
        table.contains(k),
        table.index_of(k) == i,
{
}

/// Where `b` stands in a table of byte strings.
pub fn find_bytes(table: &Vec<Vec<u8>>, b: &[u8]) -> (r: Option<usize>)
    ensures
        match r {
            Some(i) => i < table@.len() && rows(table@)[i as int] == b@,
            None => !rows(table@).contains(b@),
        },
{
    let mut i: usize = 0;
    while i < table.len()
        invariant
            i <= table@.len(),
            forall|j: int| 0 <= j < i ==> rows(table@)[j] != b@,
        decreases table@.len() - i,
    {
        if same_bytes(table[i].as_slice(), b) {
            return Some(i);
        }
        i += 1;
    }
    None
}

/// Where `k` stands in a table of numbers.
pub fn find_u64(table: &Vec<u64>, k: u64) -> (r: Option<usize>)
    ensures
        match r {
            Some(i) => i < table@.len() && table@[i as int] == k,
            None => !table@.contains(k),
        },
{
    let mut i: usize = 0;
    while i < table.len()
        invariant
            i <= table@.len(),
            forall|j: int| 0 <= j < i ==> table@[j] != k,
        decreases table@.len() - i,
    {
        if table[i] == k {
            return Some(i);
        }
        i += 1;
    }
    None
}

/// Whether two lists of numbers are the same.
pub fn same_numbers(a: &[u64], b: &[u64]) -> (r: bool)
    ensures
        r == (a@ == b@),
{
    if a.len() != b.len() {
        return false;
    }
    let mut i: usize = 0;
    while i < a.len()
        invariant
            a@.len() == b@.len(),
            i <= a@.len(),
            forall|j: int| 0 <= j < i ==> a@[j] == b@[j],
        decreases a@.len() - i,
    {
        if a[i] != b[i] {
            assert(a@[i as int] != b@[i as int]);
            return false;
        }
        i += 1;
    }
    assert(a@ =~= b@);
    true
}

/// Where `k` stands in a table of lists of numbers.
pub fn find_numbers(table: &Vec<Vec<u64>>, k: &[u64]) -> (r: Option<usize>)
    ensures
        match r {
            Some(i) => i < table@.len() && rows(table@)[i as int] == k@,
            None => !rows(table@).contains(k@),
        },
{
    let mut i: usize = 0;
    while i < table.len()
        invariant
            i <= table@.len(),
            forall|j: int| 0 <= j < i ==> rows(table@)[j] != k@,
        decreases table@.len() - i,
    {
        if same_numbers(table[i].as_slice(), k) {
            return Some(i);
        }
        i += 1;
    }
    None
}

/// `InternedString { iid = 1, str = 2 }` under `field`.
pub open spec fn string_def(field: u32, iid: u64, s: Seq<u8>) -> Seq<u8> {
    wire::sub_message(field, wire::varint_field(1, iid) + wire::len_field(2, s))
}

/// Intern `s` into `table`, defining it under `field` of `idw` where it is new.
pub fn intern_string(table: &mut Vec<Vec<u8>>, field: u32, s: &[u8], idw: &mut ProtoWriter) -> (iid:
    u64)
    requires
        rows(old(table)@).no_duplicates(),
        old(table)@.len() < u64::MAX,
    ensures
        rows(final(table)@) == with_key(rows(old(table)@), s@),
        iid == iid_of(rows(old(table)@), s@),
        final(idw)@ == old(idw)@ + def_of(
            rows(old(table)@),
            s@,
            string_def(field, (old(table)@.len() + 1) as u64, s@),
        ),
{
    let ghost keys = rows(table@);
    if let Some(i) = find_bytes(table, s) {
        proof {
            lemma_index_is(keys, s@, i as int);
            assert(idw@ =~= idw@ + Seq::empty());
        }
        return i as u64 + 1;
    }
    let iid: u64 = table.len() as u64 + 1;
    let key = slice_to_vec(s);
    table.push(key);
    assert(rows(table@) =~= keys.push(s@));
    let marker: usize = idw.begin_message(field);
    let ghost start = idw@;
    idw.write_uint64(1, iid);
    idw.write_string(2, s);
    proof {
        let body = wire::varint_field(1, iid) + wire::len_field(2, s@);
        assert(idw@ =~= start + body);
        writer::lemma_closed_message(old(idw)@, field, body);
    }
    idw.end_message(marker);
    iid
}

/// The first `n` frame ids, each as field 2.
pub open spec fn frame_id_fields(fids: Seq<u64>, n: nat) -> Seq<u8>
    decreases n,
{
    if n == 0 {
        Seq::empty()
    } else {
        frame_id_fields(fids, (n - 1) as nat) + wire::varint_field(2, fids[n - 1])
    }
}

/// `Callstack { iid = 1, frame_ids = 2 (repeated) }`.
pub open spec fn callstack_def(iid: u64, fids: Seq<u64>) -> Seq<u8> {
    wire::sub_message(
        CALLSTACKS_FIELD,
        wire::varint_field(1, iid) + frame_id_fields(fids, fids.len()),
    )
}

/// Intern the callstack made of the frames `fids`.
pub fn intern_callstack_into(table: &mut Vec<Vec<u64>>, fids: &[u64], idw: &mut ProtoWriter) -> (iid:
    u64)
    requires
        rows(old(table)@).no_duplicates(),
        old(table)@.len() < u64::MAX,
    ensures
        rows(final(table)@) == with_key(rows(old(table)@), fids@),
        iid == iid_of(rows(old(table)@), fids@),
        final(idw)@ == old(idw)@ + def_of(
            rows(old(table)@),
            fids@,
            callstack_def((old(table)@.len() + 1) as u64, fids@),
        ),
{
    let ghost keys = rows(table@);
    if let Some(i) = find_numbers(table, fids) {
        proof {
            lemma_index_is(keys, fids@, i as int);
            assert(idw@ =~= idw@ + Seq::empty());
        }
        return i as u64 + 1;
    }
    let iid: u64 = table.len() as u64 + 1;
    let key = slice_to_vec(fids);
    table.push(key);
    assert(rows(table@) =~= keys.push(fids@));
    let marker: usize = idw.begin_message(CALLSTACKS_FIELD);
    let ghost start = idw@;
    idw.write_uint64(1, iid);
    let ghost head = idw@;
    let mut i: usize = 0;
    while i < fids.len()
        invariant
            i <= fids@.len(),
            idw@ == head + frame_id_fields(fids@, i as nat),
        decreases fids@.len() - i,
    {
        let f: u64 = fids[i];
        idw.write_uint64(2, f);
        i += 1;
        assert(idw@ =~= head + frame_id_fields(fids@, i as nat));
    }
    proof {
        let body = wire::varint_field(1, iid) + frame_id_fields(fids@, fids@.len());
        assert(idw@ =~= start + body);
        writer::lemma_closed_message(old(idw)@, CALLSTACKS_FIELD, body);
    }
    idw.end_message(marker);
    iid
}

} // verus!
