//! An optimizing compiler from the eight-symbol tape language to x86-64 assembly.
//!
//! The tape program is folded into a small high-level IR (`Step`), partially
//! evaluated until it first needs input, lowered to an x86-64 flavoured IR
//! (`Instruction`), rewritten by a scheduled set of peephole passes and finally
//! printed as nasm source.
pub mod compiler;
pub mod error;
pub mod instruction;
pub mod optimizer;
pub mod options;
pub mod parser;
pub mod simulation;
pub mod target_abi;
pub mod text;

pub use compiler::compile_tokens;
pub use parser::parse;
pub use target_abi::ABI;
