# neoastrenos_kernel

The memory manager and interrupt-descriptor logic of a small x86_64 kernel,
written in Verus and proved against its contracts.

- `src/` is the verified library: physical and virtual address arithmetic,
  page-table entry encoding, the UEFI memory map reader, the bitmap frame
  allocator and its construction from the memory map, the coalescing
  first-fit heap allocator and the kernel heap that grows over it (the
  growth plan and the page-by-page steps that take a fresh frame for
  each page and unwind on failure), the
  decision logic of the four-level page-table walk (translate, flags,
  map, unmap) as step functions with their end-to-end read-back laws
  over a model of page-table memory, the GDT/TSS/IDT descriptor encodings,
  the serial console's byte encoding, the exception report, and the
  frame allocator's boot self-test.
- `tests/` runs the library on concrete values.
- `app/` is the freestanding kernel around it: the bootloader handoff,
  port and control-register access, the page tables in physical memory
  (it performs the reads and writes the step functions ask for), the
  global allocator and spin lock (it maps and unmaps the pages the growth
  steps ask for), the descriptor tables in their hardware
  layout, the exception entry points, and `kernel_main`.
