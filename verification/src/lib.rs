//! Function-call tracing for a RISC-V instruction-set emulator.
//!
//! The emulator reports every executed control-transfer instruction; the
//! tracer classifies it as a call or a return, keeps a shadow call stack and
//! an append-only trace log, and attributes each frame to a function taken
//! from the symbol tables of one or more ELF images.
//!
//! - [`decode`] recognises `jal` and `jalr`, computes where they land and
//!   tells calls from returns.
//! - [`elf_reader`] builds the image of an ELF file, its function records
//!   sorted by start address, and looks addresses up in it.
//! - [`model`] states what the tracer does: its state, the effect of a call
//!   and of a return, and the invariant that both keep.
//! - [`manager`] is the tracer itself, proved against the model.
//! - [`trace_log`] groups the entries of the log by function.
//! - [`session`] gathers the configuration and builds the tracer once.
//! - [`clock`] reads the wall clock.

pub mod clock;
pub mod decode;
pub mod elf_reader;
pub mod manager;
pub mod model;
pub mod session;
pub mod trace_log;
