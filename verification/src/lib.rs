//! A toolchain for a small 32-bit RISC instruction set: a two-pass assembler
//! that turns assembly text into fixed-width 32-bit machine words, and an
//! emulator that executes those words with exact two's-complement wraparound
//! arithmetic over a sixteen-register file, two comparison flags and a
//! word-addressed memory.

pub mod emulator;
pub mod info;
pub mod parser;
