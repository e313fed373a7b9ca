//! A small execution engine for an eight-symbol byte-tape language.
//!
//! A program is a byte buffer. It is compiled either one instruction per
//! symbol with a separate jump table ([`bf`]), or into run-length folded
//! instructions that carry their branch targets inline ([`ir`]). Both forms
//! run on the same [`machine::Machine`]: a growable tape of byte cells with
//! one cursor.
//!
//! The library performs no I/O. A step of either interpreter says what it
//! asks of its driver: a byte to write, a byte to read, or nothing. Each
//! form also has a bounded run against an input buffer.
//!
//! [`brackets`] says which brackets belong together and [`layout`] where a
//! folded instruction lies among its symbols. [`equiv`] proves that the two
//! forms of a balanced source read and write the same, and [`laws`] holds
//! what else is true of every program and every run.
pub mod bf;
pub mod brackets;
pub mod equiv;
pub mod error;
pub mod ir;
pub mod laws;
pub mod layout;
pub mod machine;
pub mod opcode;
