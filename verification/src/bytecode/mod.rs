//! A bytecode chunk and its disassembly.

pub mod chunk;
pub mod disassemble;
