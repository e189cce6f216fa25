//! Errors that the compiler and the engine report.
use vstd::prelude::*;

verus! {

/// Why a module could not be compiled.
#[derive(Clone, Debug, PartialEq, Eq)]
pub enum CompileError {
    /// The code generator failed, with its message.
    Codegen(String),
    /// The module uses a feature that the compiler does not support.
    UnsupportedFeature(String),
}

/// Why a compiled artifact could not be read back.
#[derive(Clone, Debug, PartialEq, Eq)]
pub enum DeserializeError {
    /// The bytes are not in a format that this engine produces.
    Incompatible(String),
    /// The bytes claim to be an artifact but are damaged.
    CorruptedBinary(String),
    /// The artifact could not be rebuilt from its parts.
    Compiler(CompileError),
}

} // verus!
