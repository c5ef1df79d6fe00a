# scraps

Scraps of an operating system for RISC-V (QEMU `virt`) and AArch64 (Raspberry Pi), with
its core logic verified by Verus.

- `src/` is the verified library: the physical page allocator, Sv39 page-table entries and
  tables (mapping, unmapping, lookup, deep free and deep clone), ARMv8 translation tables,
  device-tree path lookups, the console choice, trap decisions, timer arithmetic, boot-time
  decisions and the atomic lock. Page tables refer to one another by physical address; the
  library holds them in a `TableMemory` keyed by that address, so a walk follows addresses
  as values.
- `tests/` runs the library on concrete values.
- `app/` is the part that talks to the machine: UART drivers, reading the device tree with
  `fdt-rs`, timer and control registers through inline assembly, the trap entry, the global
  allocator and the locks with interior mutability. It acts on what the library decides.
