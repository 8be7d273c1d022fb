# comlink

Values exposed on one thread can be used from another as if they were local:
a proxy turns property reads, writes, calls and constructions into messages,
and the exposed side answers them.

`src/` is the verified library:

- `value.rs` — the structured-clone value model, object key order, paths and
  writes, with the laws that a read after a write gives the written value and
  that a write leaves every other place alone; byte buffers as ids into a
  `BufferStore`, so that detaching a buffer is seen through every copy.
- `protocol.rs` — requests, answers and envelopes, and how a transfer moves a
  buffer: the sender's buffer is left empty and the first place in the message
  that held it gets a new buffer with its bytes.
- `thrown.rs` — thrown errors and values, and how they travel and come back.
- `handlers.rs` — the ordered registry of named transfer handlers.
- `origin.rs` — which origins an exposed value answers.
- `rpc.rs` — what an exposed value does with each event and request, the
  answer it sends, how it tears down on release, when the last proxy releases
  its endpoint, the decisions of an exposed object, proxy paths, error texts
  and message ids.

`app/` holds what runs around the library: ports, channels, workers and
broadcast channels on threads, the process-wide buffer store behind a lock,
the exposed-object runtime, proxies, and number formatting.
