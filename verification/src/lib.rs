//! A small assembler: classifies operands against the encoding rules of a
//! fixed instruction set, resolves instruction addresses and sizes in two
//! passes so that forward label references work, and emits a flat binary
//! image byte for byte.

pub mod codegen;
pub mod data;
pub mod descriptor;
pub mod parser;
pub mod preproc;
pub mod scanner;
pub mod strutil;
pub mod tables;
