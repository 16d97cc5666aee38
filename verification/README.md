# entrouter-line

A relay node for a cross-region packet relay mesh: encrypted UDP tunnels
between points of presence, Reed-Solomon forward error correction over
blocks of relay payloads, latency probing between nodes, and TCP/QUIC edge
termination for local clients.

## Layout

- `src/` — the library, verified with Verus.
  - `relay/wire.rs` — packet types and the tunnel frame header.
  - `relay/crypto.rs` — ChaCha20-Poly1305 sealing of tunnel packets
    (through the `chacha20poly1305` crate) and pre-shared key parsing.
  - `relay/tunnel.rs` — sealed frames, datagram parsing, FEC-protected sends.
  - `relay/fec.rs` — the Reed-Solomon codec (through `reed-solomon-erasure`).
  - `relay/fec_codec.rs` — FEC blocks: the sender that groups payloads into
    blocks and the receiver that reassembles them; the recovery laws.
  - `relay/forwarder.rs` — relay headers and the forwarding decisions.
  - `mesh/latency_matrix.rs`, `mesh/probe.rs` — smoothed RTTs per path and
    the probes that measure them.
  - `edge.rs` — which edge owns a flow.
  - `clock.rs` — the monotonic clock.
- `app/` — the node itself: configuration, sockets, the async runtime that
  carries out the forwarder's decisions, the TCP/QUIC edges and the admin
  HTTP endpoints.
- `tests/` — tests of the library.
