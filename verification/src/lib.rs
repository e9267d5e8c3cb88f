//! Verified core of a debug probe for TriCore microcontrollers.
//!
//! The probe flashes programs and serves debug sessions. This crate holds what it
//! computes and decides; it does not talk to the core, to GDB or to the disk itself.
//!
//! - [`elf_file`] and [`hex`] turn an ELF file into an Intel HEX object file.
//! - [`registers`] and [`description`] hold the register file and how GDB sees it.
//! - [`memory`] cuts memory transfers into requests that the core can serve.
//! - [`target`] keeps the breakpoints and decides what to report to GDB, and when.

pub mod description;
pub mod elf_file;
pub mod hex;
pub mod memory;
pub mod registers;
pub mod target;
