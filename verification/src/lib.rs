//! Verified core logic of a WebAssembly native engine: the names under which
//! compiled items are exported, the framing of serialized metadata, artifact
//! bookkeeping, the single-pass compiler's configuration and function-body
//! reading through middlewares, and the data model of a virtual file system.

pub mod errors;
pub mod symbols;
pub mod metadata;
pub mod artifact;
pub mod singlepass;
pub mod middleware;
pub mod vfs;
