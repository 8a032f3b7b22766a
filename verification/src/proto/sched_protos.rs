//! The scheduler producer's messages: the process tree, and the ProtoVM program
//! that mirrors process-tree packets so that long-lived thread names survive when
//! a ring buffer overwrites them.

use crate::proto::config_abi::emit;
use crate::proto::wire;
use crate::proto::writer::ProtoWriter;
use vstd::prelude::*;

verus! {

// ---- GenericKernelProcessTree ----------------------------------------------

/// A process of the tree.
pub struct ProcessC {
    pub pid: i64,
    pub ppid: i64,
    pub cmdline: Vec<u8>,
}

/// A thread of the tree.
pub struct ThreadC {
    pub tid: i64,
    pub pid: i64,
    pub comm: Vec<u8>,
    pub is_main_thread: bool,
    pub is_idle: bool,
}

/// `Process { pid = 1, ppid = 2 (omitted if 0), cmdline = 3 (omitted if empty) }`.
pub open spec fn process_body(p: ProcessC) -> Seq<u8> {
    wire::varint_field(1, wire::int64_bits(p.pid)) + wire::nonzero_field(
        2,
        wire::int64_bits(p.ppid),
    ) + wire::nonempty_field(3, p.cmdline@)
}

pub fn encode_process(p: &ProcessC) -> (r: Vec<u8>)
    ensures
        r@ == process_body(*p),
{
    let mut w = ProtoWriter::new();
    w.write_int64(1, p.pid);
    if p.ppid != 0 {
        w.write_int64(2, p.ppid);
    }
    w.write_nonempty(3, p.cmdline.as_slice());
    assert(w@ =~= process_body(*p));
    w.into_bytes()
}

/// `Thread { tid = 1, pid = 2, comm = 3 (omitted if empty), is_main_thread = 4,
/// is_idle = 5 }`, the flags only where they are set.
pub open spec fn thread_body(t: ThreadC) -> Seq<u8> {
    wire::varint_field(1, wire::int64_bits(t.tid)) + wire::varint_field(
        2,
        wire::int64_bits(t.pid),
    ) + wire::nonempty_field(3, t.comm@) + wire::flag_field(4, t.is_main_thread)
        + wire::flag_field(5, t.is_idle)
}

pub fn encode_thread(t: &ThreadC) -> (r: Vec<u8>)
    ensures
        r@ == thread_body(*t),
{
    let mut w = ProtoWriter::new();
    w.write_int64(1, t.tid);
    w.write_int64(2, t.pid);
    w.write_nonempty(3, t.comm.as_slice());
    w.write_flag(4, t.is_main_thread);
    w.write_flag(5, t.is_idle);
    assert(w@ =~= thread_body(*t));
    w.into_bytes()
}

/// The first `n` processes, each as field 1.
pub open spec fn process_fields(ps: Seq<ProcessC>, n: nat) -> Seq<u8>
    decreases n,
{
    if n == 0 {
        Seq::empty()
    } else {
        process_fields(ps, (n - 1) as nat) + wire::len_field(1, process_body(ps[n - 1]))
    }
}

/// The first `n` threads, each as field 2.
pub open spec fn thread_fields(ts: Seq<ThreadC>, n: nat) -> Seq<u8>
    decreases n,
{
    if n == 0 {
        Seq::empty()
    } else {
        thread_fields(ts, (n - 1) as nat) + wire::len_field(2, thread_body(ts[n - 1]))
    }
}

/// A GenericKernelProcessTree: the processes, then the threads.
pub open spec fn process_tree(ps: Seq<ProcessC>, ts: Seq<ThreadC>) -> Seq<u8> {
    process_fields(ps, ps.len()) + thread_fields(ts, ts.len())
}

pub fn encode_kernel_process_tree(processes: &[ProcessC], threads: &[ThreadC]) -> (r: Vec<u8>)
    ensures
        r@ == process_tree(processes@, threads@),
{
    let mut w = ProtoWriter::new();
    let mut i: usize = 0;
    while i < processes.len()
        invariant
            i <= processes@.len(),
            w@ == process_fields(processes@, i as nat),
        decreases processes@.len() - i,
    {
        w.write_message(1, encode_process(&processes[i]).as_slice());
        i += 1;
    }
    let ghost head = w@;
    let mut j: usize = 0;
    while j < threads.len()
        invariant
            j <= threads@.len(),
            w@ == head + thread_fields(threads@, j as nat),
        decreases threads@.len() - j,
    {
        w.write_message(2, encode_thread(&threads[j]).as_slice());
        j += 1;
        assert(w@ =~= head + thread_fields(threads@, j as nat));
    }
    w.into_bytes()
}

/// Encode a GenericKernelProcessTree into `out`. Returns the length, or 0 where
/// `out` is too small.
pub fn sismo_encode_kernel_process_tree(
    processes: &[ProcessC],
    threads: &[ThreadC],
    out: &mut [u8],
) -> (n: usize)
    ensures
        crate::proto::config_abi::emitted(
            process_tree(processes@, threads@),
            old(out)@,
            final(out)@,
            n,
        ),
{
    let b = encode_kernel_process_tree(processes, threads);
    emit(b.as_slice(), out)
}

// ---- ProtoVM VmProgram -----------------------------------------------------

pub const CURSOR_UNSPECIFIED: u32 = 0;

pub const CURSOR_DST: u32 = 2;

/// No abort level: the field is left out.
pub const ABORT_UNSET: u32 = 0;

pub const ABORT_SKIP_CURRENT: u32 = 1;

/// One step of a path that an instruction selects.
pub struct PathComponent {
    pub field_id: Option<u32>,
    pub array_index: Option<u32>,
    pub map_key_field_id: Option<u32>,
    pub is_repeated: bool,
    pub register_to_match: Option<u32>,
    pub store_foreach_index_into_register: Option<u32>,
}

impl PathComponent {
    /// The component that selects field `id`.
    pub open spec fn of_field(id: u32) -> PathComponent {
        PathComponent {
            field_id: Some(id),
            array_index: None,
            map_key_field_id: None,
            is_repeated: false,
            register_to_match: None,
            store_foreach_index_into_register: None,
        }
    }

    /// The component that selects field `id`.
    pub fn field(id: u32) -> (r: PathComponent)
        ensures
            r == PathComponent::of_field(id),
    {
        PathComponent {
            field_id: Some(id),
            array_index: None,
            map_key_field_id: None,
            is_repeated: false,
            register_to_match: None,
            store_foreach_index_into_register: None,
        }
    }
}

impl Default for PathComponent {
    fn default() -> (r: PathComponent)
        ensures
            r == (PathComponent {
                field_id: None,
                array_index: None,
                map_key_field_id: None,
                is_repeated: false,
                register_to_match: None,
                store_foreach_index_into_register: None,
            }),
    {
        PathComponent {
            field_id: None,
            array_index: None,
            map_key_field_id: None,
            is_repeated: false,
            register_to_match: None,
            store_foreach_index_into_register: None,
        }
    }
}

pub struct Select {
    pub cursor: u32,
    pub relative_path: Vec<PathComponent>,
    pub create_if_not_exist: bool,
}

pub enum Op {
    Select(Select),
    RegLoad { cursor: u32, dst_register: u32 },
    Merge { skip_submessages: bool },
    Store,
    Del,
}

pub struct Instruction {
    pub op: Op,
    pub abort_level: u32,
    pub nested: Vec<Instruction>,
}

impl Instruction {
    pub fn new(op: Op) -> (r: Self)
        ensures
            r.op == op,
            r.abort_level == ABORT_UNSET,
            r.nested@ == Seq::<Instruction>::empty(),
    {
        Instruction { op, abort_level: ABORT_UNSET, nested: Vec::new() }
    }

    pub fn with_abort(self, level: u32) -> (r: Self)
        ensures
            r == (Instruction { op: self.op, abort_level: level, nested: self.nested }),
    {
        Instruction { op: self.op, abort_level: level, nested: self.nested }
    }

    pub fn with_nested(self, nested: Vec<Instruction>) -> (r: Self)
        ensures
            r == (Instruction { op: self.op, abort_level: self.abort_level, nested }),
    {
        Instruction { op: self.op, abort_level: self.abort_level, nested }
    }
}

/// A varint field for a value that may be absent.
pub open spec fn opt_field(field: u32, v: Option<u32>) -> Seq<u8> {
    match v {
        Some(x) => wire::varint_field(field, x as u64),
        None => Seq::empty(),
    }
}

fn write_opt(w: &mut ProtoWriter, field: u32, v: Option<u32>)
    ensures
        final(w)@ == old(w)@ + opt_field(field, v),
{
    match v {
        Some(x) => {
            w.write_uint32(field, x);
        },
        None => {
            assert(w@ =~= old(w)@ + opt_field(field, v));
        },
    }
}

pub open spec fn path_component_body(pc: PathComponent) -> Seq<u8> {
    opt_field(1, pc.field_id) + opt_field(2, pc.array_index) + opt_field(3, pc.map_key_field_id)
        + wire::flag_field(5, pc.is_repeated) + opt_field(6, pc.register_to_match) + opt_field(
        7,
        pc.store_foreach_index_into_register,
    )
}

pub fn encode_path_component(pc: &PathComponent) -> (r: Vec<u8>)
    ensures
        r@ == path_component_body(*pc),
{
    let mut w = ProtoWriter::new();
    write_opt(&mut w, 1, pc.field_id);
    write_opt(&mut w, 2, pc.array_index);
    write_opt(&mut w, 3, pc.map_key_field_id);
    w.write_flag(5, pc.is_repeated);
    write_opt(&mut w, 6, pc.register_to_match);
    write_opt(&mut w, 7, pc.store_foreach_index_into_register);
    assert(w@ =~= path_component_body(*pc));
    w.into_bytes()
}

/// The first `n` components of a path, each as field 2.
pub open spec fn path_fields(path: Seq<PathComponent>, n: nat) -> Seq<u8>
    decreases n,
{
    if n == 0 {
        Seq::empty()
    } else {
        path_fields(path, (n - 1) as nat) + wire::len_field(2, path_component_body(path[n - 1]))
    }
}

pub open spec fn select_body(cursor: u32, path: Seq<PathComponent>, create: bool) -> Seq<u8> {
    wire::nonzero_field(1, cursor as u64) + path_fields(path, path.len()) + wire::flag_field(
        3,
        create,
    )
}

pub fn encode_select(s: &Select) -> (r: Vec<u8>)
    ensures
        r@ == select_body(s.cursor, s.relative_path@, s.create_if_not_exist),
{
    let mut w = ProtoWriter::new();
    w.write_nonzero(1, s.cursor as u64);
    let ghost head = w@;
    let mut i: usize = 0;
    while i < s.relative_path.len()
        invariant
            i <= s.relative_path@.len(),
            w@ == head + path_fields(s.relative_path@, i as nat),
        decreases s.relative_path@.len() - i,
    {
        w.write_message(2, encode_path_component(&s.relative_path[i]).as_slice());
        i += 1;
        assert(w@ =~= head + path_fields(s.relative_path@, i as nat));
    }
    w.write_flag(3, s.create_if_not_exist);
    assert(w@ =~= select_body(s.cursor, s.relative_path@, s.create_if_not_exist));
    w.into_bytes()
}

/// The operation of an instruction: one field, by its kind.
pub open spec fn op_field(op: Op) -> Seq<u8> {
    match op {
        Op::Select(s) => wire::len_field(
            1,
            select_body(s.cursor, s.relative_path@, s.create_if_not_exist),
        ),
        Op::RegLoad { cursor, dst_register } => wire::len_field(
            2,
            wire::nonzero_field(1, cursor as u64) + wire::varint_field(2, dst_register as u64),
        ),
        Op::Merge { skip_submessages } => wire::len_field(
            3,
            wire::flag_field(1, skip_submessages),
        ),
        Op::Store => wire::len_field(4, Seq::empty()),
        Op::Del => wire::len_field(5, Seq::empty()),
    }
}

/// The encoding of an instruction: its operation, its abort level (omitted where
/// unset) and its nested instructions, each as field 7.
pub open spec fn instruction_body(ins: Instruction) -> Seq<u8>
    decreases ins, 1int, 0nat,
{
    op_field(ins.op) + wire::nonzero_field(6, ins.abort_level as u64) + nested_fields(
        ins,
        ins.nested@.len(),
    )
}

/// The first `n` instructions nested in `ins`, each as field 7.
pub open spec fn nested_fields(ins: Instruction, n: nat) -> Seq<u8>
    decreases ins, 0int, n,
    when n <= ins.nested@.len()
{
    if n == 0 {
        Seq::empty()
    } else {
        nested_fields(ins, (n - 1) as nat) + wire::len_field(
            7,
            instruction_body(ins.nested@[n - 1]),
        )
    }
}

pub fn encode_instruction(ins: &Instruction) -> (r: Vec<u8>)
    ensures
        r@ == instruction_body(*ins),
    decreases *ins,
{
    let mut w = ProtoWriter::new();
    match &ins.op {
        Op::Select(s) => {
            w.write_message(1, encode_select(s).as_slice());
        },
        Op::RegLoad { cursor, dst_register } => {
            let mut r = ProtoWriter::new();
            r.write_nonzero(1, *cursor as u64);
            r.write_uint32(2, *dst_register);
            assert(r@ =~= wire::nonzero_field(1, *cursor as u64) + wire::varint_field(
                2,
                *dst_register as u64,
            ));
            w.write_message(2, r.bytes());
        },
        Op::Merge { skip_submessages } => {
            let mut m = ProtoWriter::new();
            m.write_flag(1, *skip_submessages);
            assert(m@ =~= wire::flag_field(1, *skip_submessages));
            w.write_message(3, m.bytes());
        },
        Op::Store => {
            let none: Vec<u8> = Vec::new();
            w.write_message(4, none.as_slice());
        },
        Op::Del => {
            let none: Vec<u8> = Vec::new();
            w.write_message(5, none.as_slice());
        },
    }
    assert(w@ =~= op_field(ins.op));
    w.write_nonzero(6, ins.abort_level as u64);
    let ghost head = w@;
    let mut i: usize = 0;
    while i < ins.nested.len()
        invariant
            i <= ins.nested@.len(),
            w@ == head + nested_fields(*ins, i as nat),
        decreases ins.nested@.len() - i,
    {
        w.write_message(7, encode_instruction(&ins.nested[i]).as_slice());
        i += 1;
        assert(w@ =~= head + nested_fields(*ins, i as nat));
    }
    w.into_bytes()
}

/// The first `n` instructions of a program, each as field 2.
pub open spec fn instruction_fields(instructions: Seq<Instruction>, n: nat) -> Seq<u8>
    decreases n,
{
    if n == 0 {
        Seq::empty()
    } else {
        instruction_fields(instructions, (n - 1) as nat) + wire::len_field(
            2,
            instruction_body(instructions[n - 1]),
        )
    }
}

/// `VmProgram { version = 1 (omitted if 0), instructions = 2 (repeated) }`.
pub open spec fn vm_program(version: u32, instructions: Seq<Instruction>) -> Seq<u8> {
    wire::nonzero_field(1, version as u64) + instruction_fields(instructions, instructions.len())
}

pub fn encode_vm_program(version: u32, instructions: &[Instruction]) -> (r: Vec<u8>)
    ensures
        r@ == vm_program(version, instructions@),
{
    let mut w = ProtoWriter::new();
    w.write_nonzero(1, version as u64);
    let ghost head = w@;
    let mut i: usize = 0;
    while i < instructions.len()
        invariant
            i <= instructions@.len(),
            w@ == head + instruction_fields(instructions@, i as nat),
        decreases instructions@.len() - i,
    {
        w.write_message(2, encode_instruction(&instructions[i]).as_slice());
        i += 1;
        assert(w@ =~= head + instruction_fields(instructions@, i as nat));
    }
    assert(w@ =~= vm_program(version, instructions@));
    w.into_bytes()
}

// ---- the scheduler's program -----------------------------------------------

/// TracePacket.generic_kernel_process_tree.
pub const TP_TREE: u32 = 122;

/// The first `n` of some encoded instructions, each as field 7.
pub open spec fn nested_bytes(bodies: Seq<Seq<u8>>, n: nat) -> Seq<u8>
    decreases n,
{
    if n == 0 {
        Seq::empty()
    } else {
        nested_bytes(bodies, (n - 1) as nat) + wire::len_field(7, bodies[n - 1])
    }
}

/// An instruction made of an encoded operation and encoded nested instructions.
pub open spec fn assembled(op: Seq<u8>, abort_level: u32, nested: Seq<Seq<u8>>) -> Seq<u8> {
    op + wire::nonzero_field(6, abort_level as u64) + nested_bytes(nested, nested.len())
}

/// The operation that selects `path`.
pub open spec fn select_op(cursor: u32, path: Seq<PathComponent>, create: bool) -> Seq<u8> {
    wire::len_field(1, select_body(cursor, path, create))
}

/// The component that walks every element of the repeated field `id`.
pub open spec fn each_element(id: u32) -> PathComponent {
    PathComponent { is_repeated: true, ..PathComponent::of_field(id) }
}

/// The component that finds the element whose field `key` equals register 0.
pub open spec fn element_by_key(key: u32) -> PathComponent {
    PathComponent {
        field_id: None,
        array_index: None,
        map_key_field_id: Some(key),
        is_repeated: false,
        register_to_match: Some(0),
        store_foreach_index_into_register: None,
    }
}

/// For each element of the collection `coll`: load its `key` into register 0,
/// select or create the element of the destination with that key, and merge.
pub open spec fn mirror_block(coll: u32, key: u32) -> Seq<u8> {
    let load = wire::len_field(2, wire::varint_field(2, 0));
    let merge = wire::len_field(3, Seq::empty());
    assembled(
        select_op(CURSOR_UNSPECIFIED, seq![each_element(coll)], false),
        ABORT_SKIP_CURRENT,
        seq![
            assembled(
                select_op(CURSOR_UNSPECIFIED, seq![PathComponent::of_field(key)], false),
                ABORT_UNSET,
                seq![assembled(load, ABORT_UNSET, seq![])],
            ),
            assembled(
                select_op(
                    CURSOR_DST,
                    seq![
                        PathComponent::of_field(TP_TREE),
                        PathComponent::of_field(coll),
                        element_by_key(key),
                    ],
                    true,
                ),
                ABORT_UNSET,
                seq![assembled(merge, ABORT_UNSET, seq![])],
            ),
        ],
    )
}

/// The program: inside a process tree, mirror the processes by pid and the
/// threads by tid.
pub open spec fn macos_sched_program() -> Seq<u8> {
    wire::len_field(
        2,
        assembled(
            select_op(CURSOR_UNSPECIFIED, seq![PathComponent::of_field(TP_TREE)], false),
            ABORT_UNSET,
            seq![mirror_block(1, 1), mirror_block(2, 1)],
        ),
    )
}

/// The encodings of some instructions.
pub open spec fn bodies(instructions: Seq<Instruction>) -> Seq<Seq<u8>> {
    Seq::new(instructions.len(), |i: int| instruction_body(instructions[i]))
}

/// An instruction is assembled from its operation and what its nested
/// instructions encode to.
pub proof fn lemma_assembled(ins: Instruction)
    ensures
        instruction_body(ins) == assembled(op_field(ins.op), ins.abort_level, bodies(ins.nested@)),
{
    lemma_nested(ins, ins.nested@.len());
}

proof fn lemma_nested(ins: Instruction, n: nat)
    requires
        n <= ins.nested@.len(),
    ensures
        nested_fields(ins, n) == nested_bytes(bodies(ins.nested@), n),
    decreases n,
{
    if n > 0 {
        lemma_nested(ins, (n - 1) as nat);
    }
}

/// A select instruction.
fn selecting(
    cursor: u32,
    path: Vec<PathComponent>,
    create: bool,
    abort_level: u32,
    nested: Vec<Instruction>,
) -> (r: Instruction)
    ensures
        instruction_body(r) == assembled(
            select_op(cursor, path@, create),
            abort_level,
            bodies(nested@),
        ),
{
    let select = Select { cursor, relative_path: path, create_if_not_exist: create };
    let r = Instruction::new(Op::Select(select)).with_abort(abort_level).with_nested(nested);
    proof {
        lemma_assembled(r);
    }
    r
}

/// The instructions that mirror the collection `coll`, keyed by `key`.
fn make_block(coll: u32, key: u32) -> (r: Instruction)
    ensures
        instruction_body(r) == mirror_block(coll, key),
{
    let load = Instruction::new(Op::RegLoad { cursor: CURSOR_UNSPECIFIED, dst_register: 0 });
    let merge = Instruction::new(Op::Merge { skip_submessages: false });
    proof {
        lemma_assembled(load);
        lemma_assembled(merge);
        assert(bodies(load.nested@) =~= seq![]);
        assert(bodies(merge.nested@) =~= seq![]);
        assert(wire::nonzero_field(1, 0) + wire::varint_field(2, 0) =~= wire::varint_field(2, 0));
        assert(wire::flag_field(1, false) =~= Seq::empty());
    }
    let loads = vec![load];
    let merges = vec![merge];
    assert(bodies(loads@) =~= seq![instruction_body(load)]);
    assert(bodies(merges@) =~= seq![instruction_body(merge)]);
    let key_path = vec![PathComponent::field(key)];
    assert(key_path@ =~= seq![PathComponent::of_field(key)]);
    let read_key = selecting(CURSOR_UNSPECIFIED, key_path, false, ABORT_UNSET, loads);
    let by_key = PathComponent {
        field_id: None,
        array_index: None,
        map_key_field_id: Some(key),
        is_repeated: false,
        register_to_match: Some(0),
        store_foreach_index_into_register: None,
    };
    let dst_path = vec![PathComponent::field(TP_TREE), PathComponent::field(coll), by_key];
    assert(dst_path@ =~= seq![
        PathComponent::of_field(TP_TREE),
        PathComponent::of_field(coll),
        element_by_key(key),
    ]);
    let merge_into = selecting(CURSOR_DST, dst_path, true, ABORT_UNSET, merges);
    let steps = vec![read_key, merge_into];
    assert(bodies(steps@) =~= seq![instruction_body(read_key), instruction_body(merge_into)]);
    let each = PathComponent {
        field_id: Some(coll),
        array_index: None,
        map_key_field_id: None,
        is_repeated: true,
        register_to_match: None,
        store_foreach_index_into_register: None,
    };
    let each_path = vec![each];
    assert(each_path@ =~= seq![each_element(coll)]);
    selecting(CURSOR_UNSPECIFIED, each_path, false, ABORT_SKIP_CURRENT, steps)
}

/// The fixed program that mirrors process-tree packets.
pub fn build_macos_sched_vm_program() -> (r: Vec<u8>)
    ensures
        r@ == macos_sched_program(),
{
    let processes = make_block(1, 1);
    let threads = make_block(2, 1);
    let blocks = vec![processes, threads];
    assert(bodies(blocks@) =~= seq![instruction_body(processes), instruction_body(threads)]);
    let path = vec![PathComponent::field(TP_TREE)];
    assert(path@ =~= seq![PathComponent::of_field(TP_TREE)]);
    let top = selecting(CURSOR_UNSPECIFIED, path, false, ABORT_UNSET, blocks);
    let program = vec![top];
    proof {
        reveal_with_fuel(instruction_fields, 2);
        assert(program@ =~= seq![top]);
        assert(vm_program(0, program@) =~= macos_sched_program());
    }
    encode_vm_program(0, program.as_slice())
}

/// The scheduler's program.
pub fn macos_sched_vm_program() -> (r: Vec<u8>)
    ensures
        r@ == macos_sched_program(),
{
    build_macos_sched_vm_program()
}

/// Write the scheduler's program into `out`. Returns the length, or 0 where `out`
/// is too small.
pub fn sismo_macos_sched_vm_program(out: &mut [u8]) -> (n: usize)
    ensures
        crate::proto::config_abi::emitted(macos_sched_program(), old(out)@, final(out)@, n),
{
    let b = build_macos_sched_vm_program();
    emit(b.as_slice(), out)
}

/// What a process of the tree says, read back.
pub proof fn lemma_process_read_back(p: ProcessC)
    requires
        p.cmdline@.len() <= u64::MAX,
    ensures
        wire::complete(process_body(p)),
        wire::under(process_body(p), 1) == wire::one(wire::int64_bits(p.pid)),
        wire::under(process_body(p), 2) == wire::one_unless_zero(wire::int64_bits(p.ppid)),
        wire::under(process_body(p), 3) == (if p.cmdline@.len() > 0 {
            wire::one_text(p.cmdline@)
        } else {
            Seq::empty()
        }),
{
    let a = wire::varint_field(1, wire::int64_bits(p.pid));
    let b = wire::nonzero_field(2, wire::int64_bits(p.ppid));
    let c = wire::nonempty_field(3, p.cmdline@);
    wire::lemma_under_varint(1, wire::int64_bits(p.pid));
    wire::lemma_under_nonzero(2, wire::int64_bits(p.ppid));
    wire::lemma_under_nonempty(3, p.cmdline@);
    wire::lemma_join(a, b);
    wire::lemma_join(a + b, c);
    let e = process_body(p);
    assert(e =~= a + b + c);
    assert(wire::under(e, 1) =~= wire::one(wire::int64_bits(p.pid)));
    assert(wire::under(e, 2) =~= wire::one_unless_zero(wire::int64_bits(p.ppid)));
    assert(wire::under(e, 3) =~= wire::under(c, 3));
}

/// What a thread of the tree says, read back: its own number, its process's, its name
/// where it has one, and whether it is the main thread and whether it idles.
#[verifier::spinoff_prover]
#[verifier::rlimit(40)]
pub proof fn lemma_thread_read_back(t: ThreadC)
    requires
        t.comm@.len() <= u64::MAX,
    ensures
        wire::complete(thread_body(t)),
        wire::under(thread_body(t), 1) == wire::one(wire::int64_bits(t.tid)),
        wire::under(thread_body(t), 2) == wire::one(wire::int64_bits(t.pid)),
        wire::under(thread_body(t), 3) == (if t.comm@.len() > 0 {
            wire::one_text(t.comm@)
        } else {
            Seq::empty()
        }),
        wire::under(thread_body(t), 4) == (if t.is_main_thread {
            wire::one(1)
        } else {
            Seq::empty()
        }),
        wire::under(thread_body(t), 5) == (if t.is_idle {
            wire::one(1)
        } else {
            Seq::empty()
        }),
{
    let a = wire::varint_field(1, wire::int64_bits(t.tid));
    let b = wire::varint_field(2, wire::int64_bits(t.pid));
    let c = wire::nonempty_field(3, t.comm@);
    let d = wire::flag_field(4, t.is_main_thread);
    let f = wire::flag_field(5, t.is_idle);
    wire::lemma_under_varint(1, wire::int64_bits(t.tid));
    wire::lemma_under_varint(2, wire::int64_bits(t.pid));
    wire::lemma_under_nonempty(3, t.comm@);
    wire::lemma_under_flag(4, t.is_main_thread);
    wire::lemma_under_flag(5, t.is_idle);
    wire::lemma_join(a, b);
    wire::lemma_join(a + b, c);
    wire::lemma_join(a + b + c, d);
    wire::lemma_join(a + b + c + d, f);
    let e = thread_body(t);
    assert(e =~= a + b + c + d + f);
    assert(wire::under(e, 1) =~= wire::one(wire::int64_bits(t.tid)));
    assert(wire::under(e, 2) =~= wire::one(wire::int64_bits(t.pid)));
    assert(wire::under(e, 3) =~= wire::under(c, 3));
    assert(wire::under(e, 4) =~= wire::under(d, 4));
    assert(wire::under(e, 5) =~= wire::under(f, 5));
}

proof fn lemma_processes_read_back(ps: Seq<ProcessC>, n: nat)
    requires
        n <= ps.len(),
        process_fields(ps, n).len() <= u64::MAX,
    ensures
        wire::complete(process_fields(ps, n)),
        forall|k: u32| k != 1 ==> #[trigger] wire::under(process_fields(ps, n), k) == Seq::<
            wire::FieldValue,
        >::empty(),
        wire::under(process_fields(ps, n), 1) == Seq::new(
            n,
            |i: int| wire::FieldValue::Len(process_body(ps[i])),
        ),
    decreases n,
{
    if n == 0 {
        wire::lemma_under_empty();
        assert(wire::under(process_fields(ps, 0), 1) =~= Seq::new(
            0,
            |i: int| wire::FieldValue::Len(process_body(ps[i])),
        ));
    } else {
        let before = process_fields(ps, (n - 1) as nat);
        let last = wire::len_field(1, process_body(ps[n - 1]));
        assert(process_fields(ps, n) == before + last);
        lemma_processes_read_back(ps, (n - 1) as nat);
        wire::lemma_under_len(1, process_body(ps[n - 1]));
        wire::lemma_join(before, last);
        assert forall|k: u32| k != 1 implies #[trigger] wire::under(process_fields(ps, n), k)
            == Seq::<wire::FieldValue>::empty() by {
            assert(wire::under(before + last, k) =~= Seq::<wire::FieldValue>::empty());
        }
        assert(wire::under(process_fields(ps, n), 1) =~= Seq::new(
            n,
            |i: int| wire::FieldValue::Len(process_body(ps[i])),
        ));
    }
}

proof fn lemma_threads_read_back(ts: Seq<ThreadC>, n: nat)
    requires
        n <= ts.len(),
        thread_fields(ts, n).len() <= u64::MAX,
    ensures
        wire::complete(thread_fields(ts, n)),
        forall|k: u32| k != 2 ==> #[trigger] wire::under(thread_fields(ts, n), k) == Seq::<
            wire::FieldValue,
        >::empty(),
        wire::under(thread_fields(ts, n), 2) == Seq::new(
            n,
            |i: int| wire::FieldValue::Len(thread_body(ts[i])),
        ),
    decreases n,
{
    if n == 0 {
        wire::lemma_under_empty();
        assert(wire::under(thread_fields(ts, 0), 2) =~= Seq::new(
            0,
            |i: int| wire::FieldValue::Len(thread_body(ts[i])),
        ));
    } else {
        let before = thread_fields(ts, (n - 1) as nat);
        let last = wire::len_field(2, thread_body(ts[n - 1]));
        assert(thread_fields(ts, n) == before + last);
        lemma_threads_read_back(ts, (n - 1) as nat);
        wire::lemma_under_len(2, thread_body(ts[n - 1]));
        wire::lemma_join(before, last);
        assert forall|k: u32| k != 2 implies #[trigger] wire::under(thread_fields(ts, n), k)
            == Seq::<wire::FieldValue>::empty() by {
            assert(wire::under(before + last, k) =~= Seq::<wire::FieldValue>::empty());
        }
        assert(wire::under(thread_fields(ts, n), 2) =~= Seq::new(
            n,
            |i: int| wire::FieldValue::Len(thread_body(ts[i])),
        ));
    }
}

/// What the tree says, read back: each process once under 1 and each thread once under
/// 2, in their order.
pub proof fn lemma_tree_read_back(ps: Seq<ProcessC>, ts: Seq<ThreadC>)
    requires
        process_tree(ps, ts).len() <= u64::MAX,
    ensures
        wire::under(process_tree(ps, ts), 1).len() == ps.len(),
        wire::under(process_tree(ps, ts), 2).len() == ts.len(),
        forall|i: int|
            0 <= i < ps.len() ==> #[trigger] wire::under(process_tree(ps, ts), 1)[i]
                == wire::FieldValue::Len(process_body(ps[i])),
        forall|i: int|
            0 <= i < ts.len() ==> #[trigger] wire::under(process_tree(ps, ts), 2)[i]
                == wire::FieldValue::Len(thread_body(ts[i])),
{
    let a = process_fields(ps, ps.len());
    let b = thread_fields(ts, ts.len());
    lemma_processes_read_back(ps, ps.len());
    lemma_threads_read_back(ts, ts.len());
    wire::lemma_join(a, b);
    assert(wire::under(a + b, 1) =~= wire::under(a, 1));
    assert(wire::under(a + b, 2) =~= wire::under(b, 2));
}
/// What stands for a value that may be absent.
pub open spec fn if_present(v: Option<u32>) -> Seq<wire::FieldValue> {
    match v {
        Some(x) => wire::one(x as u64),
        None => Seq::empty(),
    }
}

proof fn lemma_under_opt(field: u32, v: Option<u32>)
    ensures
        wire::complete(opt_field(field, v)),
        forall|n: u32| #[trigger]
            wire::under(opt_field(field, v), n) == (if n == field {
                if_present(v)
            } else {
                Seq::empty()
            }),
        opt_field(field, v).len() <= 20,
{
    match v {
        Some(x) => {
            wire::lemma_under_varint(field, x as u64);
        },
        None => {
            wire::lemma_under_empty();
        },
    }
}

/// What a step of a path says, read back.
#[verifier::spinoff_prover]
#[verifier::rlimit(40)]
pub proof fn lemma_component_read_back(pc: PathComponent)
    ensures
        wire::under(path_component_body(pc), 1) == if_present(pc.field_id),
        wire::under(path_component_body(pc), 2) == if_present(pc.array_index),
        wire::under(path_component_body(pc), 3) == if_present(pc.map_key_field_id),
        wire::under(path_component_body(pc), 5) == (if pc.is_repeated {
            wire::one(1)
        } else {
            Seq::empty()
        }),
        wire::under(path_component_body(pc), 6) == if_present(pc.register_to_match),
        wire::under(path_component_body(pc), 7) == if_present(
            pc.store_foreach_index_into_register,
        ),
{
    let a = opt_field(1, pc.field_id);
    let b = opt_field(2, pc.array_index);
    let c = opt_field(3, pc.map_key_field_id);
    let d = wire::flag_field(5, pc.is_repeated);
    let f = opt_field(6, pc.register_to_match);
    let g = opt_field(7, pc.store_foreach_index_into_register);
    lemma_under_opt(1, pc.field_id);
    lemma_under_opt(2, pc.array_index);
    lemma_under_opt(3, pc.map_key_field_id);
    wire::lemma_under_flag(5, pc.is_repeated);
    lemma_under_opt(6, pc.register_to_match);
    lemma_under_opt(7, pc.store_foreach_index_into_register);
    wire::lemma_join(a, b);
    wire::lemma_join(a + b, c);
    wire::lemma_join(a + b + c, d);
    wire::lemma_join(a + b + c + d, f);
    wire::lemma_join(a + b + c + d + f, g);
    let e = path_component_body(pc);
    assert(e =~= a + b + c + d + f + g);
    assert(wire::under(e, 1) =~= if_present(pc.field_id));
    assert(wire::under(e, 2) =~= if_present(pc.array_index));
    assert(wire::under(e, 3) =~= if_present(pc.map_key_field_id));
    assert(wire::under(e, 5) =~= wire::under(d, 5));
    assert(wire::under(e, 6) =~= if_present(pc.register_to_match));
    assert(wire::under(e, 7) =~= if_present(pc.store_foreach_index_into_register));
}

proof fn lemma_path_read_back(path: Seq<PathComponent>, n: nat)
    requires
        n <= path.len(),
        path_fields(path, n).len() <= u64::MAX,
    ensures
        wire::complete(path_fields(path, n)),
        forall|k: u32| k != 2 ==> #[trigger] wire::under(path_fields(path, n), k) == Seq::<
            wire::FieldValue,
        >::empty(),
        wire::under(path_fields(path, n), 2) == Seq::new(
            n,
            |i: int| wire::FieldValue::Len(path_component_body(path[i])),
        ),
    decreases n,
{
    if n == 0 {
        wire::lemma_under_empty();
        assert(wire::under(path_fields(path, 0), 2) =~= Seq::new(
            0,
            |i: int| wire::FieldValue::Len(path_component_body(path[i])),
        ));
    } else {
        let before = path_fields(path, (n - 1) as nat);
        let last = wire::len_field(2, path_component_body(path[n - 1]));
        assert(path_fields(path, n) == before + last);
        lemma_path_read_back(path, (n - 1) as nat);
        wire::lemma_under_len(2, path_component_body(path[n - 1]));
        wire::lemma_join(before, last);
        assert forall|k: u32| k != 2 implies #[trigger] wire::under(path_fields(path, n), k)
            == Seq::<wire::FieldValue>::empty() by {
            assert(wire::under(before + last, k) =~= Seq::<wire::FieldValue>::empty());
        }
        assert(wire::under(path_fields(path, n), 2) =~= Seq::new(
            n,
            |i: int| wire::FieldValue::Len(path_component_body(path[i])),
        ));
    }
}

/// What a selection says, read back: the cursor, the steps of the path in their order, and
/// whether what is not there is made.
pub proof fn lemma_select_read_back(cursor: u32, path: Seq<PathComponent>, create: bool)
    requires
        select_body(cursor, path, create).len() <= u64::MAX,
    ensures
        ({
            let e = select_body(cursor, path, create);
            &&& wire::under(e, 1) == wire::one_unless_zero(cursor as u64)
            &&& wire::under(e, 2).len() == path.len()
            &&& forall|i: int|
                0 <= i < path.len() ==> #[trigger] wire::under(e, 2)[i] == wire::FieldValue::Len(
                    path_component_body(path[i]),
                )
            &&& wire::under(e, 3) == (if create {
                wire::one(1)
            } else {
                Seq::empty()
            })
        }),
{
    let a = wire::nonzero_field(1, cursor as u64);
    let b = path_fields(path, path.len());
    let c = wire::flag_field(3, create);
    let e = select_body(cursor, path, create);
    assert(e =~= a + b + c);
    wire::lemma_under_nonzero(1, cursor as u64);
    lemma_path_read_back(path, path.len());
    wire::lemma_under_flag(3, create);
    wire::lemma_join(a, b);
    wire::lemma_join(a + b, c);
    assert(wire::under(e, 1) =~= wire::one_unless_zero(cursor as u64));
    assert(wire::under(e, 2) =~= wire::under(b, 2));
    assert(wire::under(e, 3) =~= wire::under(c, 3));
}

/// The number that an operation stands under.
pub open spec fn op_number(op: Op) -> u32 {
    match op {
        Op::Select(_) => 1,
        Op::RegLoad { .. } => 2,
        Op::Merge { .. } => 3,
        Op::Store => 4,
        Op::Del => 5,
    }
}

/// Whether `body` says of an operation what it is.
pub open spec fn is_op(body: Seq<u8>, op: Op) -> bool {
    match op {
        Op::Select(s) => body == select_body(s.cursor, s.relative_path@, s.create_if_not_exist),
        Op::RegLoad { cursor, dst_register } => {
            &&& wire::under(body, 1) == wire::one_unless_zero(cursor as u64)
            &&& wire::under(body, 2) == wire::one(dst_register as u64)
        },
        Op::Merge { skip_submessages } => wire::under(body, 1) == (if skip_submessages {
            wire::one(1)
        } else {
            Seq::empty()
        }),
        Op::Store => body.len() == 0,
        Op::Del => body.len() == 0,
    }
}

proof fn lemma_op_read_back(op: Op)
    requires
        op_field(op).len() <= u64::MAX,
    ensures
        wire::complete(op_field(op)),
        exists|body: Seq<u8>|
            #[trigger] wire::one_text(body) == wire::under(op_field(op), op_number(op)) && is_op(
                body,
                op,
            ),
        forall|n: u32|
            n != op_number(op) ==> #[trigger] wire::under(op_field(op), n) == Seq::<
                wire::FieldValue,
            >::empty(),
{
    match op {
        Op::Select(s) => {
            let body = select_body(s.cursor, s.relative_path@, s.create_if_not_exist);
            assert(body.len() <= op_field(op).len());
            wire::lemma_under_len(1, body);
            assert(wire::one_text(body) == wire::under(op_field(op), 1));
        },
        Op::RegLoad { cursor, dst_register } => {
            let a = wire::nonzero_field(1, cursor as u64);
            let b = wire::varint_field(2, dst_register as u64);
            let body = a + b;
            wire::lemma_under_nonzero(1, cursor as u64);
            wire::lemma_under_varint(2, dst_register as u64);
            wire::lemma_join(a, b);
            assert(wire::under(body, 1) =~= wire::one_unless_zero(cursor as u64));
            assert(wire::under(body, 2) =~= wire::one(dst_register as u64));
            wire::lemma_under_len(2, body);
            assert(wire::one_text(body) == wire::under(op_field(op), 2));
        },
        Op::Merge { skip_submessages } => {
            let body = wire::flag_field(1, skip_submessages);
            assert(body.len() <= op_field(op).len());
            wire::lemma_under_flag(1, skip_submessages);
            wire::lemma_under_len(3, body);
            assert(wire::one_text(body) == wire::under(op_field(op), 3));
        },
        Op::Store => {
            wire::lemma_under_len(4, Seq::empty());
            assert(wire::one_text(Seq::empty()) == wire::under(op_field(op), 4));
        },
        Op::Del => {
            wire::lemma_under_len(5, Seq::empty());
            assert(wire::one_text(Seq::empty()) == wire::under(op_field(op), 5));
        },
    }
}

proof fn lemma_nested_read_back(ins: Instruction, n: nat)
    requires
        n <= ins.nested@.len(),
        nested_fields(ins, n).len() <= u64::MAX,
    ensures
        wire::complete(nested_fields(ins, n)),
        forall|k: u32| k != 7 ==> #[trigger] wire::under(nested_fields(ins, n), k) == Seq::<
            wire::FieldValue,
        >::empty(),
        wire::under(nested_fields(ins, n), 7) == Seq::new(
            n,
            |i: int| wire::FieldValue::Len(instruction_body(ins.nested@[i])),
        ),
    decreases n,
{
    if n == 0 {
        wire::lemma_under_empty();
        assert(wire::under(nested_fields(ins, 0), 7) =~= Seq::new(
            0,
            |i: int| wire::FieldValue::Len(instruction_body(ins.nested@[i])),
        ));
    } else {
        let before = nested_fields(ins, (n - 1) as nat);
        let last = wire::len_field(7, instruction_body(ins.nested@[n - 1]));
        assert(nested_fields(ins, n) == before + last);
        lemma_nested_read_back(ins, (n - 1) as nat);
        wire::lemma_under_len(7, instruction_body(ins.nested@[n - 1]));
        wire::lemma_join(before, last);
        assert forall|k: u32| k != 7 implies #[trigger] wire::under(nested_fields(ins, n), k)
            == Seq::<wire::FieldValue>::empty() by {
            assert(wire::under(before + last, k) =~= Seq::<wire::FieldValue>::empty());
        }
        assert(wire::under(nested_fields(ins, n), 7) =~= Seq::new(
            n,
            |i: int| wire::FieldValue::Len(instruction_body(ins.nested@[i])),
        ));
    }
}

/// What an instruction says, read back: one operation, under the number of its kind and no
/// other, the level that it aborts to where it has one, and the instructions within it in
/// their order.
pub proof fn lemma_instruction_read_back(ins: Instruction)
    requires
        instruction_body(ins).len() <= u64::MAX,
    ensures
        ({
            let e = instruction_body(ins);
            &&& exists|body: Seq<u8>|
                #[trigger] wire::one_text(body) == wire::under(e, op_number(ins.op)) && is_op(
                    body,
                    ins.op,
                )
            &&& forall|n: u32|
                1 <= n <= 5 && n != op_number(ins.op) ==> #[trigger] wire::under(e, n).len() == 0
            &&& wire::under(e, 6) == wire::one_unless_zero(ins.abort_level as u64)
            &&& wire::under(e, 7).len() == ins.nested@.len()
            &&& forall|i: int|
                0 <= i < ins.nested@.len() ==> #[trigger] wire::under(e, 7)[i]
                    == wire::FieldValue::Len(instruction_body(ins.nested@[i]))
        }),
{
    let a = op_field(ins.op);
    let b = wire::nonzero_field(6, ins.abort_level as u64);
    let c = nested_fields(ins, ins.nested@.len());
    let e = instruction_body(ins);
    assert(e == a + b + c);
    lemma_op_read_back(ins.op);
    wire::lemma_under_nonzero(6, ins.abort_level as u64);
    lemma_nested_read_back(ins, ins.nested@.len());
    wire::lemma_join(a, b);
    wire::lemma_join(a + b, c);
    let k = op_number(ins.op);
    assert(wire::under(e, k) =~= wire::under(a, k));
    assert forall|n: u32| 1 <= n <= 5 && n != k implies #[trigger] wire::under(e, n).len()
        == 0 by {
        assert(wire::under(a + b + c, n) =~= Seq::<wire::FieldValue>::empty());
    }
    assert(wire::under(e, 6) =~= wire::under(b, 6));
    assert(wire::under(e, 7) =~= wire::under(c, 7));
}

proof fn lemma_instructions_read_back(instructions: Seq<Instruction>, n: nat)
    requires
        n <= instructions.len(),
        instruction_fields(instructions, n).len() <= u64::MAX,
    ensures
        wire::complete(instruction_fields(instructions, n)),
        wire::under(instruction_fields(instructions, n), 1) == Seq::<wire::FieldValue>::empty(),
        wire::under(instruction_fields(instructions, n), 2) == Seq::new(
            n,
            |i: int| wire::FieldValue::Len(instruction_body(instructions[i])),
        ),
    decreases n,
{
    if n == 0 {
        wire::lemma_under_empty();
        assert(wire::under(instruction_fields(instructions, 0), 2) =~= Seq::new(
            0,
            |i: int| wire::FieldValue::Len(instruction_body(instructions[i])),
        ));
    } else {
        let before = instruction_fields(instructions, (n - 1) as nat);
        let last = wire::len_field(2, instruction_body(instructions[n - 1]));
        assert(instruction_fields(instructions, n) == before + last);
        lemma_instructions_read_back(instructions, (n - 1) as nat);
        wire::lemma_under_len(2, instruction_body(instructions[n - 1]));
        wire::lemma_join(before, last);
        assert(wire::under(before + last, 1) =~= Seq::<wire::FieldValue>::empty());
        assert(wire::under(instruction_fields(instructions, n), 2) =~= Seq::new(
            n,
            |i: int| wire::FieldValue::Len(instruction_body(instructions[i])),
        ));
    }
}

/// What a program says, read back: its version, and its instructions in their order.
pub proof fn lemma_program_read_back(version: u32, instructions: Seq<Instruction>)
    requires
        vm_program(version, instructions).len() <= u64::MAX,
    ensures
        ({
            let e = vm_program(version, instructions);
            &&& wire::under(e, 1) == wire::one_unless_zero(version as u64)
            &&& wire::under(e, 2).len() == instructions.len()
            &&& forall|i: int|
                0 <= i < instructions.len() ==> #[trigger] wire::under(e, 2)[i]
                    == wire::FieldValue::Len(instruction_body(instructions[i]))
        }),
{
    let a = wire::nonzero_field(1, version as u64);
    let b = instruction_fields(instructions, instructions.len());
    wire::lemma_under_nonzero(1, version as u64);
    lemma_instructions_read_back(instructions, instructions.len());
    wire::lemma_join(a, b);
    assert(wire::under(a + b, 1) =~= wire::one_unless_zero(version as u64));
    assert(wire::under(a + b, 2) =~= wire::under(b, 2));
}

} // verus!
