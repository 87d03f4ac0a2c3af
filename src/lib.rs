//! Toolchain for a small 8-bit, six-register assembly language: macro and
//! constant expansion, assembly into one-byte instructions, and a virtual
//! machine that runs the result.

pub mod isa;
pub mod vm;
pub mod text;
pub mod instruction;
pub mod syntax;
pub mod assembler;
pub mod expander;
pub mod interface;
