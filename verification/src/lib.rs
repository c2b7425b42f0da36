//! A lexer generator and runtime built around a small bytecode virtual
//! machine that simulates a non-deterministic finite automaton in
//! lockstep over an input, with longest-match and priority tie-breaking.

pub mod assembler;
pub mod ast;
pub mod compiler;
pub mod disasm;
pub mod opcodes;
pub mod vm;
