//! A two-pass assembler for a small 16-bit accumulator machine.
//!
//! The pipeline turns assembly text into a flat image of 16-bit machine
//! words: a source parser builds a symbol table and an ordered list of
//! instruction lines, and a code generator resolves addresses and emits the
//! words, prefixed by a synthesized bootstrap branch.

pub mod encode;
pub mod error;
pub mod laws;
pub mod parse;
pub mod table;
pub mod text;
pub mod value;

pub use encode::produce_machine_code;
pub use error::AsmError;
pub use parse::parse_asm;
pub use table::SymTable;
pub use value::parse_value;
