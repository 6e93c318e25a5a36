# rete

The outbound message queue and the path table of a mesh node, verified with Verus.

- `src/` is the library. `transport` holds the path table and the known identities,
  `outbound`, `delivery`, `links` and `receipts` the message queue, `persist` what outlives
  a restart. `message`, `msgpack`, `ticket` and `stamp` are the formats that messages and
  tables are written in. `queue_laws` and `path_laws` state what holds across operations.
  The packed form of a message, the form in which tickets are kept and their lifetime, the
  search for a stamp by work, and the direct path of a registered peer are this library's
  own definitions.
- `app/` runs the router on a node: it draws randomness and has the node prepare packets,
  open links and cancel receipts.
- `tests/` runs the library.

A pass over the queue stops wherever the node is needed. The caller does what the
`NodeRequest` says, hands the `NodeReply` back, and lets the pass go on until it is `Done`.
