# tricore-probe

The verified core of a debug probe for TriCore microcontrollers, written in Verus.

- `src/` is the library. Every function in it has a contract that Verus proves; what it
  takes from the `elf` and `ihex` crates stands behind a few small functions whose
  contracts are believed, each with a comment that says what they claim.
- `app/` is ordinary Rust around the library: the GDB server on top of `gdbstub`, the
  access to the core through the MCD API (`rust_mcd`, which is not on crates.io), and the
  disk.
- `tests/` runs the library, with the real `elf` and `ihex` crates.

## What is proved

- The Intel HEX records made from an ELF file mean exactly its loadable segments: whoever
  follows them ends up with each byte at its physical address, unless a later segment
  covers it, and nothing else changed.
  No data record is longer than 16 bytes or crosses a 64 KiB boundary, and address records
  come only where the upper half of the address changes.
- The register file is read back from its serialized form as it was. The target
  description lists the registers in the order in which they are transferred.
- The text of the object file is the Intel HEX line of each record, to the character, as
  far as the `ihex` crate keeps to its contract.
- A memory transfer that is cut into requests has the effect of a single one.
- Removing a breakpoint undoes adding it at an address that had none; where there are
  several, the oldest goes first. Breakpoints at other addresses are left alone.
- While GDB waits for the core, data from GDB comes first, and only a stopped core or such
  data ends the wait.
