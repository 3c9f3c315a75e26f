# zeronix

The logic of a small x86_64 teaching kernel, written in Verus and proved
against its contracts: the kernel's data structures and decisions live in
`src/`, and `app/` is the thin layer that touches the hardware.

## Layout

- `src/alloc_layout.rs`, `src/arith.rs` — allocation layouts and the
  alignment arithmetic behind them.
- `src/mem/` — physical and virtual addresses; `heap.rs`, the kernel heap's
  free list with coalescing; `page.rs`, page-table entries and tables, the
  steps of a page walk and the plan of the kernel's mappings;
  `page/pagealloc.rs`, the buddy frame allocator.
- `src/fs/ramfs.rs` — the in-memory file system, modelled as a map from
  paths to nodes.
- `src/syscall.rs`, `src/syscall/fd.rs` — system-call errors and the file
  descriptor table.
- `src/task/` — process layout, the round-robin scheduler and the
  construction of kernel and user processes.
- `src/trap/` — descriptor tables, interrupt gates, the interrupt
  controllers and the timer, as values and port writes.
- `src/user/` — the file commands, the program images and their loader.
- `src/shell.rs` — the console shell as a state machine from typed bytes to
  output and actions.
- `src/stdio.rs` — log levels and serial output rules.
- `tests/` — the tests, run against the compiled library.
- `app/` — boot, port I/O, descriptor loading, context switches, page-table
  writes in physical memory and the console loop.

Each module states its laws as public proof functions named `law_*`.
