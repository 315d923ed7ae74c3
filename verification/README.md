# fab — fast approximate broadcast

A gossip protocol: a message is passed to one randomly chosen peer after
another until a peer answers that it had already seen it.

- `src/` is the verified library (Verus): the error type, the deduplicating
  sender (`dedup`), nodes, node sets and broadcast rounds (`node`), message
  framing (`message`) and the table of open listeners (`listeners`).
- `app/` is the service around it: the `Broadcaster`, its TCP listeners and
  tokio tasks, bincode encoding of messages, and socket I/O.
- `tests/` exercises the library.
