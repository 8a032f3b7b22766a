# sismo

A desktop tracing and profiling tool: it runs a command, or attaches to a
process, and records the scheduler, CPU samples and the heap into one Perfetto
trace.

`src/` is the library, verified with Verus. It holds what the tool decides and
computes; it reads no file and calls no kernel.

- `proto` — the wire format: varints, messages, the session's configuration,
  the packets of a trace.
- `cpu` — the Linux collector: counter selection, records of the kernel side,
  interning, unwind tables, the module registry, JIT maps; the macOS sampler.
- `sched` — the macOS trace ring: context switches, off-CPU and on-CPU samples,
  the worker that drains the ring.
- `heap`, `heap_preload` — the heap profiler: the ring, the book of allocations,
  the profile, and the client in the target.
- `macho` — dyld images, the dyld shared cache, the identity of a file.
- `cmd_record`, `command`, `worker_sdk` — the recording as a sequence of steps,
  the command line's dispatch, a capture worker's turns.
- `smaps_macos`, `data_regions`, `sismo_paths`, `crashlog`, `jvmti`, `launcher`,
  `proc_info`, `mach` — smaller parts.
- `bytes`, `text`, `digits`, `intern`, `assoc`, `sorted` — what the others are
  built on.

`app/` is the program around it: arguments, files, processes, and the C
libraries. `tests/` runs the library on concrete values.

Public proof functions named `lemma_…` state what holds across functions: what
a read gives back of a write, what an operation keeps, what happens once.
