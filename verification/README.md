# ouisync_network

The networking logic of a peer-to-peer file synchronisation library, written in Verus: each
function states what it does in `requires` / `ensures`, and Verus proves it.

## Layout

- `src/` is the verified library. Among its modules:
  - `ip`, `peer_addr`, `addr_filter`, `gateway`: address classification and the decisions on
    which addresses to bind, connect to and rebind.
  - `message`, `framing`, `message_io`, `object_stream`, `protocol`, `barrier`, `runtime_id`:
    the wire formats (framed, checksummed messages, version and identity exchange) as
    functions on bytes, with laws such as that decoding gives back what encoding wrote.
  - `request_tracker` (with `graph` and `worker`): the bookkeeping of requests shared by the
    clients of several peers, a state machine whose every operation keeps the clients'
    records in agreement with the requests (`Worker::consistent`).
  - `seen_peers`, `peer_exchange`, `connection`, `request_limiter`, `pending`, `stats`,
    `repository_stats`: the per-peer and per-connection state.
  - `dht`: the decisions of a DHT lookup's rounds, as a step function from event to action.
  - `clock`, `random` and the wrappers in a few modules: the trusted items through which the
    library calls the system clock, the random number generator and its outside crates
    (`xxhash-rust`, `vint64`, `hex`, `rand`, `ed25519-dalek`, `backoff`).
- `tests/` runs the library on concrete values.
- `app/` is the runtime around it: tasks, channels, timers, sockets and serialisation, which
  hand plain values to the library and carry out the effects it returns.
