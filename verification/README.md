# wasmer_kit

Verified pieces of a WebAssembly native engine, written in Verus.

- `src/symbols.rs` — names under which compiled functions, sections and
  trampolines are exported, and the reverse lookup; proved to round-trip.
- `src/metadata.rs` — the position trailer of a metadata archive and the
  LEB128-prefixed metadata section of a native object; both proved to
  round-trip.
- `src/artifact.rs` — recognising native objects, shared-object extensions,
  linker flags, the symbols an artifact resolves, and function-body extents
  (proved never to overlap).
- `src/singlepass.rs` — the single-pass compiler's configuration, its feature
  check, and the expansion of local declarations.
- `src/middleware.rs` — reading function bodies through a chain of
  middlewares: every call of a middleware's `feed` is recorded with the
  effect its `feed_effect` specifies, and the reads are proved to run each
  raw operator through the stages in chain order; local declarations are
  parsed against an exact byte-level spec, errors included.
- `src/vfs.rs` — open options, file-system errors, directory listings and
  metadata.

`app/` holds what Verus does not take: the virtual-file traits (serialized
through `typetag`), opening files through user-supplied openers, error
messages, the host platform and module middlewares.
