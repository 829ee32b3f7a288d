//! The error taxonomy of the pipeline: scan, compile, bytecode and runtime
//! failures are distinct variants, so that a caller can map each kind to its
//! own exit code.

use vstd::prelude::*;

verus! {

/// Every failure the pipeline can report.
///
/// - `ScanError` carries the offending character and the line it stands on.
/// - `CompileError` covers any parse failure, including propagated scan errors.
/// - `InvalidOpCode` is a defensive decoding failure: the byte is not an opcode.
/// - `StackOverflow` and `StackUnderflow` are the checked stack-discipline
///   failures of the virtual machine; `RuntimeError` is the generalized form
///   for any other execution failure.
/// - `IoError` carries the message of an input/output failure met by a caller
///   that reads source text.
#[derive(Debug, PartialEq, Eq)]
pub enum Error {
    MissingChunkError,
    InvalidOpCode(u8),
    CompileError,
    RuntimeError,
    StackOverflow,
    StackUnderflow,
    IoError(String),
    ScanError(char, usize),
}

} // verus!
