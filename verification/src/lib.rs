//! A verified interpreter for an eight-instruction, tape-based esoteric
//! language.
//!
//! The interpreter is a strict pipeline: the scanner turns source text into
//! tokens (every unrecognized character is a comment), the structurer turns
//! the flat token sequence into a tree of instructions by matching bracket
//! pairs into nested loops, and the executor walks that tree against a
//! fixed-size tape of wrapping byte cells. Console input and output are
//! modeled as byte sequences, so the whole pipeline is pure and verified;
//! a thin host binary supplies the real streams.

pub mod token;
pub mod scanner;
pub mod instruction;
pub mod structurer;
pub mod executor;
