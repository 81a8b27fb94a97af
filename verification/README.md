# rsmalloc

The decisions of a memory allocator for Linux, verified with Verus: which block serves a request,
what becomes of one that comes back, how blocks grow, when memory is given back to the system, and
how all of it is configured and reported.

- `src/` holds the verified library. It draws random words and asks how much memory is free, and
  otherwise touches no memory, files or threads: where a decision depends on the system, a function
  tells what is needed, and another one goes on with what came of it.
  - `big_allocations/` is the buddy allocator over segments of sixteen slots, its trimming and its
    report, and the heap of large payloads on top of it. `live.rs` proves that live payloads never
    share a byte, whatever is allocated, grown, freed or trimmed, as long as mappings are fresh, and
    `recognized.rs` that they are recognized when they come back.
  - `backend/` hands out pages from arenas, trims the caches of small blocks and reads the
    configuration.
  - `inner/` is allocation, return, growth, alignment and clearing of single payloads.
  - `internals/` holds the maps, the red-black tree, the radix tree of owned pages, locks, and the
    parsers of node lists and of the environment.
  - `core_prim/` has the marks of headers, the predictor of batch sizes and address wrappers.
  - `frontend/`, `global_alloc.rs` and `abi.rs` are the interfaces; `stress.rs` is the bookkeeping
    of stress runs; `text.rs` and `debug_exit_printer.rs` write the report.
- `tests/` runs the library.
- `app/` runs it on Linux: mappings, the environment, threads, the interfaces to C and Rust.
