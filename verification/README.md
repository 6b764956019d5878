# sailfish

The decision logic of a Sailfish node, verified with Verus.

- `src/` is the library. Every task of the running system is a loop that waits for an event,
  decides and acts; the library holds what is decided, as functions on plain values with
  contracts.
  - `node/`: the benchmark client: what it sends, to whom and when again, which replies commit a
    transaction, and the latency records.
  - `primary/`: when a header is proposed, and in which order committed slots are executed.
  - `worker/`: batches and their digests, requests for missing batches and the replies to them,
    early acknowledgements and replies to clients.
  - `keys`, `maps`, `wire`, `buffer`, `clock`, `chance`: ordered keys, byte formats, and what is
    taken from outside crates.
- `app/` waits and acts: sockets, timers, channels, files, the command line.
- `tests/` runs the library on concrete values.

The functions named `law_*` state what holds of several functions together, such as that a
message that was sent is read back as it was, or that the order in which commits arrive does not
matter.
