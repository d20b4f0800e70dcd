# mmtk utilities, verified

A library of the memory-management toolkit's utilities, written in Verus:
each function carries a contract (`requires` / `ensures`) that Verus proves.

Memory is modelled by `memory::MemoryRegion`, a mapped range of bytes;
metadata reads and writes are stated over it. What needs the operating system
(mapping memory, the environment, threads) lives in `app/`, which calls the
library for every decision it makes.

## Layout

- `src/memory.rs`, `src/address.rs`, `src/constants.rs`, `src/conversions.rs`:
  the byte model, addresses, constants and alignment.
- `src/metadata/`: metadata specs in object headers and in side tables;
  `side_metadata/` holds the side table layout, access (load, store, atomic
  updates, bulk zero / set / copy), searching and scanning set bits, mapping
  requests and the sanity checks of spec layouts; beside it the mark, log,
  nursery, pinning and valid-object bits.
- `src/object_forwarding.rs`, `src/object_gc_stats.rs`: forwarding objects
  with forwarding bits and pointers; the GC byte and forwarding word.
- `src/rc.rs`: sticky reference counts and straddle-line marks.
- `src/raw_memory_freelist.rs`, `src/freelist.rs`: the free list of units
  kept in memory, with first-fit allocation, coalescing frees and growth.
- `src/reference_processor.rs`, `src/ref_scan_policy.rs`, `src/object_enum.rs`:
  reference processing, scanning policies, object enumeration.
- `src/queue.rs`, `src/rust_util.rs`, `src/options.rs`, `src/str_parse.rs`,
  `src/os.rs`: work queues, small utilities, options parsing, and the
  decisions around memory mapping.
- `tests/`: tests on concrete values. `app/`: the system side.
