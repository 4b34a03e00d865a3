//! An assembler for the Hack machine language: a line parser and a
//! two-pass assembler that turns instructions into 16-bit machine words.

pub mod assembler;
pub mod config;
pub mod laws;
pub mod parser;
pub mod symbols;
