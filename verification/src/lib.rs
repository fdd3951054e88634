//! A just-in-time compiler for the eight-instruction tape-machine language:
//! parse a source text into a compact IR, fuse runs of identical
//! instructions, and assemble x86-64 machine code that drives a 4 MiB tape
//! with inline bounds checks and host callbacks for byte I/O.
//!
//! The host (executable memory, the tape allocation, streams, and the
//! native call itself) lives outside this crate; everything here is pure
//! computation from the source text to the machine-code bytes.

pub mod bfir;
pub mod codegen;
pub mod sem;
pub mod vm;
