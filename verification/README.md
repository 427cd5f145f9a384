# anvil_sim

An event-driven simulator for Anvil programs, verified with Verus. The Anvil
compiler turns a program into event graphs (one per `loop {}` of each proc);
this crate runs them directly.

## Layout

- `src/` — the verified library.
  - `ir.rs`: the event-graph representation.
  - `bits.rs`: registers as byte arrays, bit-level reads and writes, and
    register histories (one version per committed cycle).
  - `ops.rs`, `eval.rs`: operators and wire evaluation.
  - `regs.rs`: the register file and the end-of-cycle commit of writes.
  - `channel.rs`: single-slot channels and the table of endpoint names.
  - `queue.rs`: the event queue, smallest `(cycle, event, thread)` first.
  - `engine.rs`: the simulator of one proc, advanced one step at a time;
    each step does a bounded piece of work or says what it waits for.
  - `setup.rs`: the procs of a program and the channel table they share.
  - `text.rs`, `sort.rs`, `names.rs`: debug-print formatting, number text,
    stable sorting by id, small maps keyed by name.
- `app/` — the program: command line, the compiler's OCaml entry point,
  JSON decoding, and one OS thread per proc, which performs the waits the
  simulator's steps ask for.
- `tests/` — tests of the library on concrete programs and values.

Every public function of `src/` states its result exactly in its `ensures`;
the laws that span calls (register writes are seen only after their cycle,
a channel slot is never overwritten, nothing runs after `DebugFinish`, no
event fires at or past the cycle limit, and others) are public proof
functions next to the code they are about.
