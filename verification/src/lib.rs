//! A compiler-plus-interpreter pipeline for a small expression language:
//! source text is scanned into tokens, compiled into dense bytecode, and
//! executed by a stack-based virtual machine.

pub mod chunk;
pub mod compiler;
pub mod debug;
pub mod error;
pub mod linked_list;
pub mod scanner;
pub mod value;
pub mod vm;
