# distrans

Reliable transport over a deliberately hostile, unordered, lossy datagram
channel, written in Verus: the functions in `src/` carry contracts that
the verifier proves, except six small wrappers around `format!` (message
text), whose contracts are trusted.

## Layout

- `src/channel` — one direction of a simulated link with virtual tick
  time and seeded faults (loss, duplication, reordering delay, bit flips,
  truncation), plus scripted per-datagram overrides. `laws.rs` states
  what the channel guarantees whatever its seed.
- `src/frame` — the versioned frame format with its CRC-32C trailer.
  Round trips, and the rejection of every burst of up to 32 flipped
  bits, of damage confined to four consecutive bytes, of an odd number
  of flipped bits anywhere, and of a cut-short frame, are proved.
- `src/transport` — the connection state machine (handshake, byte-offset
  sequencing, cumulative and selective ACKs, adaptive retransmission
  timeout, teardown). `laws.rs` proves the per-step stream laws and
  that no step lets more segments be outstanding than the configured
  limit, `valid.rs` that every operation keeps a connection intact,
  `link.rs`
  composes them into the end-to-end law (each side only ever receives a
  prefix of what the other sent): for any channels, provided every
  datagram a connection takes fails to decode or carries the sender's
  bytes (a checksum collision is what would break this), and, with the
  channel laws, unconditionally over channels that damage a datagram at
  most one way (never both flip a bit and cut it short); `silence.rs`
  proves that a connection hearing nothing fails within a bounded number
  of ticks, and that an unanswered SYN gives up by tick
  `max(1, max_retries) * max(1, max_rto)` after `max_retries - 1`
  resends.
- `src/rpc` — length-prefixed framing over the byte stream, requests and
  responses, a client that retries, and a server whose table of answered
  requests makes every request run at most once and every retry get the
  same answer; its record of executions is a record of handler calls,
  each run's answer being what that call returned. `laws.rs` proves
  that the server's stream holds only those stored answers, and
  `session.rs` that every response a client's connection receives is
  the answer the server stored for that request; `exchange.rs` lifts
  this to the client itself, retries included: every call it completes
  holds that answer. Both hold over any channels provided every datagram
  a connection takes fails to decode or carries the sender's bytes, and
  unconditionally over channels that damage a datagram at most one way.
- `src/workload` — a key-value service on the RPC layer, checked against
  a reference store; stop-and-wait and go-back-N baselines, proved to
  deliver a prefix of the data under the same two conditions; the seeded
  chaos runner, proved never to find the service disagreeing with the
  reference store (a run fails only by not draining in time or by
  running out of stream offsets; a run without calls succeeds at its
  first tick, and one that ends before its first call fires fails with
  none issued), and its command-line number parsing. Flow and
  congestion control (receive windows, a congestion window, fast
  retransmit) are not implemented: the transport bounds what is
  outstanding by a number of segments.
- `app/` — the `distrans-chaos` command-line program and error types that
  need outside derives.
- `tests/` — the test suite.

## Checking

The library is verified with Verus; the tests run with the standard test
harness against the compiled library.
