# mimicros

The core of MimicROS, a small kernel for QEMU's aarch64 `virt` machine, as a
Verus library, with the kernel program around it.

- `src/` is the verified library: address arithmetic (`memory_addr`,
  `math`, `layout`), the buddy page allocator (`buddy`, `buddy_free`,
  `linked_list`, `allocator`), page table entries and four-level page tables
  (`page_table_entry`, `page_table`, `boot`), fixed-point ratios (`ratio`),
  the round-robin scheduler and the run queue (`scheduler`, `task`,
  `run_queue`, `context`), timed events (`timer_list`, `timer`, `irq`), the
  GICv2 register plans (`gic`), and the console output (`logger`). Every
  function has a contract that Verus proves, except one small wrapper around
  std's `format!` (the `Debug` form of a task's name), whose contract Verus
  takes on trust. Besides the contracts of
  the functions, `src/` states laws that span several calls as public proof
  functions: a block split off and freed at once leaves the free lists as
  they were, a block freed after other frees leaves free exactly what was
  free before it was handed out together with what was freed in between, a
  mapped page is refused a second mapping and unmapping gives its frame back,
  equal fractions give equal ratios, timed events leave in the order of their
  deadlines, and configuring one interrupt leaves the others alone.
- `app/` is the kernel program: early boot and the MMU, system and device
  registers, spin locks, the serial log, context switches, copying the page
  tables into their frames, and the boot flow. It calls the library
  for every decision and performs what the library decides.
- `tests/` runs the library on concrete values.
