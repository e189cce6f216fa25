[package]
name = "wasmer_kit"
version = "0.1.0"
edition = "2021"
publish = false

[dependencies]
leb128 = "=0.2.7"
wasmparser = "=0.78.2"
thiserror = "=1.0.69"
tracing = "=0.1.44"
typetag = "=0.1.8"
serde = { version = "=1.0.229", features = ["derive"] }
smallvec = "1"
