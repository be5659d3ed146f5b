# nyauxkt

The core of a small x86-64 hobby kernel, written in Verus: the functions
under `src/` carry contracts that Verus proves, except a few trusted
wrappers around outside code (the `hashbrown` maps behind directory
entries and interrupt source overrides, and `core::str::from_utf8`), whose
contracts are stated from that code's documentation and source.

- `src/mem`: the physical page allocator (a free list built from the
  bootloader's memory map), the slab allocator for small objects, the
  four-level page tables and the list of virtual regions, the bump
  allocator, the global descriptor table, and the heap that routes each
  request to slabs or page regions.
- `src/fs`: the virtual file system (in-memory and device directories and
  files, kept in one arena of nodes), the USTAR initramfs reader, path
  lookup and open files.
- `src/idt.rs`, `src/cpu.rs`, `src/drivers`, `src/acpi.rs`: the interrupt
  descriptor table, the local APIC and HPET timing decisions, MADT parsing
  and I/O APIC interrupt routing, and the access widths of the ACPI glue.
- `app/`: the kernel binary around the library: the bootloader requests,
  port and register access, interrupt stubs, the framebuffer terminal, the
  uACPI host glue, the global allocator (which writes the page tables the
  library computes into their frames) and the bring-up sequence.
- `tests/`: tests of the library on concrete values.
