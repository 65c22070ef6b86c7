# raft

A RAFT consensus node whose logic is proved with Verus.

- `src/` is the verified library: the replicated log and what it asks the
  disk to write, the key-value state machine, the node's handlers for votes,
  appends, proposals and membership changes, message framing, the packet
  classifier of the eBPF monitor with what it records, when elections and
  heartbeats are due, and what the command-line client is answered and
  shows. Every function states what it returns in `requires`/`ensures`; the
  `law_*` proof functions state what holds across calls.
- `tests/` runs the library on concrete values.
- `app/` is the program around it: configuration loading, the TCP transport,
  the Unix-socket server, timers, the data directory on disk, the eBPF loader
  and the `raft-cli` client. It performs what the library decides, and
  sends nothing whose disk writes failed.

Run the binary as `raft --config node.toml` for a node, or under the name
`raft-cli` for the client.
