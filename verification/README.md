# mesh_alloc

The bookkeeping of a compacting memory allocator, verified with Verus.

- `src/` is the verified library: slot bitmaps, size-class arithmetic,
  miniheap flags and free-list links, shuffle vectors, slabs, the cheap
  heap, the allocator front end (miniheaps, the local and the global heap),
  the record of mappings, and the heap layers (free lists, bump
  allocation). Addresses are plain `usize` values; every function states
  what it returns and changes, and the proof functions named `law_*` state
  what holds across calls.
- `app/` maps pages with `rustix`, offers the allocator through
  `GlobalAlloc`, prints statistics, and carries the error type with its
  message.
- `tests/` exercises the library on concrete values.
