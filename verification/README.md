# wasm_canvas

The core of a node-graph canvas whose nodes are Scheme scripts or
WebAssembly modules, with an nREPL server for editing them and OCapN
capabilities between peers, written in Verus: every function in `src/`
carries a contract, and Verus proves them all except the contracts of the
small functions marked `#[verifier::external_body]` that call std or an
outside crate, which are assumed.

## Layout

- `src/nrepl/` — bencode (encoding, decoding, the text of values), the nREPL
  sessions and the answer to each operation, and the requests a client sends.
- `src/ocapn/` — the Syrup codec, Swiss numbers, descriptors and operations,
  `ocapn://` locators, sessions with their export and import tables, and
  the text `{:?}` gives for a Syrup value.
- `src/transport.rs` — what the network decides: dropping stale values,
  answering OCapN requests from peers, keeping track of relays.
- `src/actor.rs`, `src/bridge.rs` — per-node scheduling of evaluations
  (debounce, coalescing, one evaluation per node), cached environments,
  and what an evaluation hands back to the runtime.
- `src/registry.rs` — node templates, the ports of a WIT interface, and the
  library listing grouped by category.
- `src/preprocessor.rs`, `src/scheme_convert.rs`, `src/graph_runtime.rs`,
  `src/persistence.rs` — script text: markdown-like documents to Scheme, port
  declarations, renaming identifiers, pieces of the saved-graph format
  (tokens, quoted strings, connection forms), undo history.
- `src/graph_runtime.rs` also holds imports by content hash: adding and
  migrating them, the hashes to ask peers for, hash texts, and which
  definitions received from peers are kept.
- `src/canvases.rs` — fresh node ids for canvases loaded together.
- `src/definitions.rs` — renaming a definition in the node that defines it
  and in the nodes that import it.
- `src/delivery.rs` — what publishing a node's values, and delivering a peer's
  values to a canvas, do.
- `src/nrepl_eval.rs` — completions, namespaces and built-in symbol
  information for the evaluator.
- `src/agent.rs` — the requests and answers of the agent's tools, and its
  conversation in the chat-completions format and back.
- `src/text.rs`, `src/bytes.rs`, `src/keyed.rs` — shared text, number and
  association-list facts.
- `app/` — the program around the library: TCP server and client for nREPL,
  scanning the node directory, reading changed files.
- `tests/` — tests of the library on concrete values.
