# anemo

The message layer of a peer-to-peer RPC network, verified with Verus.

- `src/frame.rs`, `version.rs`, `message.rs`: the wire format. Frames with a
  length prefix, version frames, and messages made of both. What is written is
  read back, however the bytes are cut into pieces on the way.
- `src/handshake.rs`: the handshake that follows a new connection, as a state
  machine.
- `src/inbound_rate_limit.rs`, `token_bucket.rs`: a limit on the rate of inbound
  connections from each source address, with a token bucket for each. `clock.rs`,
  `double.rs`, `rounding.rs` and `ip_map.rs` are what it is made of. Tokens are
  numbers of double precision, computed in integers so that every rounding is
  part of the contracts.
- `src/rate_limit.rs`: a limit on the rate of requests from each peer, around the
  `governor` crate.
- `src/cli.rs`: what the command line tool decides.
- `src/greeter.rs`: an example service.
- `app/`: streams, connections, clocks and services around the library.

What the library relies on of other crates is stated, unproved, in the functions
marked `external_body` in `src/buffer.rs`, `rate_limit.rs` and `cli.rs`.
