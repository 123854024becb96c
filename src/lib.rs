//! A bytecode chunk for a stack-based virtual machine: an opcode codec, a
//! chunk holding code, constants and a run-length-encoded line table, and a
//! disassembler that renders a chunk as a text listing.

pub mod chunk;
pub mod disassembler;
pub mod opcode;
