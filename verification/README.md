# biturbo

A local-first memory layer for coding agents: project-scoped memories in
SQLite, semantic search over quantized vectors, code ingest through
tree-sitter, and an MCP server that agents talk to over stdio.

## Layout

- `src/` — the library, written in Verus. Its functions state their
  behaviour in `requires`/`ensures` and are proved, with one exception: the
  small wrappers marked `#[verifier::external_body]` that call SHA-256, hex,
  UUID, the tree-sitter grammars and queries, and a few `std` string
  functions. Their contracts are trusted, not proved; each one's doc comment
  says what it claims of the outside function; the grammar constructors
  state nothing of their result, and UUID generation only its shape. Names such
  as `spec_sha256` and `spec_captures` stand for results too long to state.
  - `text`, `hashing`, `error` — character and string helpers, SHA-256/hex,
    the error type and its messages;
  - `project`, `application`, `commands` — project ids and marker files,
    overview figures, the arguments of the desktop commands and the
    configuration rewriting of `install`;
  - `memory`, `recall`, `mcp` — memory types, full-text query building,
    search limits and term matching, tag counts, recall ids and feedback,
    tool dispatch names and the recall context block;
  - `ingest`, `parse` — language detection (fifteen languages have a
    grammar: Rust, TypeScript, JavaScript, Python, Go, Swift, PHP, Ruby,
    Java, C, C++, C#, Bash, HTML and CSS; Kotlin files are recognised and
    reported as having no grammar; files in other languages are skipped),
    chunking and
    import extraction from tree-sitter captures, incremental file plans,
    code-graph edges and nodes, insert batching;
  - `index_engine`, `index_cache`, `persistence` — the uid-to-vector-id map,
    which loaded indices to evict, and the replay plan of the index journal;
  - `operations`, `scheduler`, `consolidate`, `io`, `embed` — long-running
    operation records, the consolidation schedule, tag merging, folder
    import chunking and watch coalescing, embedding model choices.
- `app/` — the MCP server program: stdin/stdout JSON-RPC, the SQLite store,
  fastembed embeddings, turbovec indices, file walking and watching, and
  the floating-point scoring (rank fusion, reranking, decay, duplicates).
  It calls the library for every decision the library can make.
- `tests/` — tests of the library's public functions.

The server keeps its data under the OS data directory in
`com.biturbo.app/`, and loads embedding models from
`com.biturbo.app/models/<model name>/` (`model.onnx`, `tokenizer.json`,
`config.json`, `special_tokens_map.json`, `tokenizer_config.json`).
`biturbo-mcp install <target>` registers the server in an agent's MCP
configuration.
