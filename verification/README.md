# m_cc

A topic-based message queue. Producers push batches of length-prefixed
messages to a topic; consumers pull the next batch from the topic's
append-only log, each consumer id keeping its own read position.

Layout:

- `src/` — the library, verified with Verus:
  - `framing` — the wire and log format (a big-endian `u32` length, then the
    bytes) with its laws: reading back framed messages gives the messages,
    framing composes, reading never invents bytes.
  - `consumer` — per-consumer read positions over a topic log, and the laws
    of successive reads.
  - `writer` — what a background log writer writes for a batch of commands
    and when it flushes.
  - `offsets` — consumer offset records and the table of latest offsets.
  - `queue` — in-memory bounded queues (single, sharded, channel-backed).
  - `api` — the decisions of the HTTP endpoints; `types`, `config`, `enums`.
  - `buffers` — how the library sees the `bytes` crate's buffers.
- `app/` — the server: configuration file, files on disk, writer threads,
  HTTP handlers.
- `tests/` — tests of the library.
