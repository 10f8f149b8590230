# burn_engine

The decision logic of a tensor engine, verified with Verus.

- `src/` is the library. Each public function states in its contract what it
  returns or changes; the laws that span several functions are public proof
  functions named `lemma_..`.
  - Lazy streams of operations: `ir`, `strategy`, `holes`, `optimizer`, `queue`,
    `processor`, `multi`, with the collections they keep in `tables` and
    `handles`, and what they report in `census` and `trace`.
  - Tensors and gradients: `shape`, `dtype`, `backend`, `tensor`, `attention`,
    `linear`, `checkpoint`, `dispatch`.
  - Kernels: `flash`, `routing`, `quantization`.
  - Settings: `settings`, `text`.
- `tests/` runs the library on concrete values, with a small numeric backend and
  a tape of gradients.
- `app/` is ordinary Rust around the library: settings from the environment,
  reports, panics of kernels, and the launches on a device.

The contracts of `hashbrown`'s tables and of `burn-ir`'s handle container, in
`src/tables.rs` and `src/handles.rs`, are trusted; everything else is proved.
