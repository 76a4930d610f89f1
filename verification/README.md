# daisogen

The decisions of the Daisogen x86-64 kernel, verified with Verus: what the kernel
computes from the bootloader's information, its memory managers, its page tables, its
descriptor tables, its drivers' register values, its scheduler and its ELF loader.

Layout:

- `src/` — the verified library.
  - `boot`: the bootloader's memory map and module list, parsed from bytes.
  - `mem`: the physical memory manager (`pmm`, over per-region bitmaps), page-table
    entries and the four-level page tables (`paging`), the kernel's own mappings
    (`kspace`).
  - `desc`: GDT, IDT and TSS contents; what the interrupt handlers decide (`isr`).
  - `drivers`: ACPI tables, the local and I/O APIC, the PIT.
  - `tasks`: the task table, the round-robin scheduler, futexes, thread-local storage,
    and the ELF loader (`elf` reads the file through the `elf` crate, `loader` decides
    where everything goes).
  - `pd`: the pointer directory.
  - `term`: the VGA text terminal.
  - `collections`: `hashbrown` sets and maps behind trusted wrappers.
- `app/` — the kernel around the library: the entry point, port and register access,
  memory reads and writes, interrupt entry points, and the entry points that the
  pointer directory hands to tasks (`ffi`).
- `tests/` — tests of the library.

The library never touches memory or hardware: it returns what is to be written (port
writes, register values, copies and stores of a loaded program, page-table contents),
and `app/` performs it.
