# kobo_driver

The verified core of the Kobo compiler driver, written in Verus. Each public
function of `src/` carries a contract that Verus proves: the ward-syntax
preprocessor, Core CFG edge parsing and loop regions, the obligation replay
and the proof evidence built on it (obligation events, loop invariants,
templates, traces, boundaries, the async model and the locals live across each
await, candidate admission, bounded declarations), ecosystem adapter evidence,
the source map with its proof-event entries and lowering trace, diagnostics for
the ownership solver's outcome, the debt and migration reports of ownership
patterns, field-capability views, error-policy rewrites of generated source,
the `Cargo.toml` of a generated project, and the driver's errors and output
paths.

Layout:

- `src/` — the verified library; `src/lib.rs` lists its modules.
- `tests/` — tests on concrete values, run against the compiled library.
- `app/` — the file-system edges (reading sources, writing generated files and
  manifests, finding a project's `.kobo` files) and the formatting of the
  solver's float times, in ordinary Rust over the library.
