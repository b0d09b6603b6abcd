# shmipc

Inter-process communication over shared memory. Two processes share a region of buffers and a
region of queues. What one side writes to a stream it leaves in the buffers; the queue tells the
other side where. A unix or tcp connection sets the session up, wakes the peer, and carries the
data itself when the buffers have run out.

## Layout

- `src/` is the library. Its functions decide and compute, on plain values and on the bytes of the
  two regions, and each is verified with Verus against its contract.
  - `buffer/`: slices of a region, free lists, the manager of a region, chains that a peer
    announces, linked buffers with pins for what was handed out in place, where written bytes go,
    and which buffers a read gives up.
  - `queue.rs`: the queues of a session.
  - `protocol/`: messages, the negotiation, and both sides of the handshake step by step.
  - `stream/`: writing, flushing, receiving, reading, reusing and closing a stream.
  - `session/`: which streams a session has, its events, its startup, whose turn it is, and how
    one that went down is brought up again.
  - `compact.rs`, `util/`, `config.rs`, `stats.rs`: polling, helpers, settings and counters.
  - `outside.rs`: what is relied on of other crates.
- `app/` is the system around it: sockets, files, descriptors, tasks, and JSON.
- `tests/` run the library.

The functions work on a region as one user at a time sees it; `app/` takes turns on the region
within a process and a lock on its file among processes around each of them. The peer writes to the
region as well, so its free lists and queues are tested with `is_in_order` before each use. Data that
a queue announces is tested with `Stream::admits`, or with `BufferSliceWrapper::is_in_order` where no
stream is there for it.
