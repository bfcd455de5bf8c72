# axon

A CPU inference server (KServe v2 HTTP API, ONNX and Rhai-script models,
ensembles) whose core is a library verified with Verus.

- `src/` — the verified library `axon`:
  - `config_parser`, `config_types`: the `config.pbtxt` reader, specified as a
    line-by-line state machine over the decoded text;
  - `model_repository`, `circuit_breaker`: which directories are models and
    versions, how a version is keyed and loaded, and when a failing version
    is skipped;
  - `session_pool`: the table of loaded model versions;
  - `ensemble`: how tensors flow between the steps of an ensemble;
  - `wire`: the binary tensor encoding of inference inputs;
  - `tokenizer`: a WordPiece tokenizer;
  - `arena`, `settings`, `text`: a slab allocator, server settings, and the
    character-level text functions the rest relies on.
- `app/` — the server around the library: command line, logging, metrics,
  the HTTP endpoints, the file system walk, and the model runners (ONNX
  Runtime, Rhai), which work on floating-point tensors.
- `tests/` — tests of the library.
