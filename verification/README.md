# halt

Guard rails for multi-agent systems, written in Verus.

- `src/` is the verified library:
  - `breaker`: the sliding-window circuit breaker (calls per pair of agents,
    refused once the non-terminal calls inside the window reach the threshold);
  - `queue`: the backpressure queue (a priority queue with a capacity);
  - `audit`: the audit log of interactions, filed by source agent;
  - `backoff`: the exponential-backoff breaker plugin;
  - `plugins`: plugin descriptions, the plugin manager, loader and configuration;
  - `messages`: the replies of the Java and WebAssembly bindings;
  - `settings`: the server's settings, read from the `HALT_*` environment
    variables with their defaults;
  - `table`, `clock`, `concurrent_map`: a keyed table, instants as
    nanoseconds since the epoch, and the `dashmap` type the structures hold.
  Operations that depend on the time take the instant as an argument.
  Contracts are stated over spec views (`Map`, `Set`, `Seq`); the laws that tie
  several operations together are the public proof functions of each module.
- `app/` is the program around it: the command line, the clock reading, the actix-web HTTP and
  WebSocket server, the SQLite store, the JNI and wasm-bindgen exports, the
  async plugin traits, and serializable copies of the library's types.
- `tests/` runs the library on concrete inputs.
