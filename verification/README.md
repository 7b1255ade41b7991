# kernelkit

Building blocks of a Jupyter kernel and its I/O runtime, verified with Verus.

- `sha1`: SHA-1 digests, incremental.
- `radix`: least-significant-digit radix sort of keys with their row numbers, for digit widths
  of 4, 8, 12 and 16 bits, proved to sort and to permute.
- `lexer`, `rpn`, `nfa`: the token reader, the reverse Polish notation and the automaton of the
  small expression language of the top-level tokenizer.
- `regex`: regular expressions compiled over a 64-page allocator: `pages` (the allocator),
  `heap`, `array`, `list`, `graph` (word stores over allocated pages), `lexer`, `rpn` (the shunting
  of tokens into reverse Polish notation), `nfa` (Thompson construction with accepting values) and
  `matrix` (the transition table of an automaton, and the walk over it).
- `jupyter`: the wire protocol of Jupyter messages: HMAC-SHA256 signatures over the JSON parts,
  hex signature frames, frame and signature checks of received messages, the content that a
  message type names, and the connection file's endpoints.
- `kernel`: the payloads of the kernel's replies, and the handling of a code request as a step
  from its state and the outcome of the last action to the next state and action.
- `runtime`, `linux`, `memory`, `proc`: the bookkeeping of the I/O ring runtime and its worker
  pool, and small system helpers.

`app/` holds what Verus does not check: the benchmark program, the Jupyter client's sockets and
JSON, and the sending of replies. `tests/` runs the library on concrete values.

Run `verus` on `src/lib.rs` to check the proofs.
