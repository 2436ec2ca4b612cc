//! Core runtime pieces for a small dynamically-typed scripting language:
//! a stack-based bytecode virtual machine (chunks, opcodes, values, the
//! `LoxVm` dispatch loop) and a tri-color incremental mark-and-sweep
//! garbage collector with rooted handles.

pub mod chunk;
pub mod collect;
pub mod error;
pub mod gc;
pub mod opcode;
pub mod scan;
pub mod scan_impl;
pub mod text;
pub mod util;
pub mod value;
pub mod vm;
