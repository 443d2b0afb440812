//! A small stack machine: an assembler from text to instructions, a binary
//! encoding of instruction sequences, and an interpreter that runs them
//! against an operand stack and a fixed linear memory.
pub mod instruction;
pub mod text;
pub mod assembler;
pub mod run;
pub mod spliter;
