//! A two-pass assembler for a 16-bit instruction set: a first pass maps label
//! declarations to instruction addresses, a second pass encodes each real
//! instruction as a 16-character binary line, allocating data addresses to
//! fresh symbolic operands as it meets them.

pub mod scan;
pub mod codes;
pub mod parse;
pub mod symbols;
pub mod assembler;
