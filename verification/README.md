# projectrtp

The verified core of a media server's channels: the RTP, RTCP, STUN and relay
logic, written in Verus. What every function does is stated in its contract and
proved; what holds across functions is stated as public proof functions.

- `src/stun.rs`: STUN binding requests and responses, with their integrity.
- `src/rtcp.rs`, `src/rtcp_stats.rs`, `src/rtcp_loop.rs`, `src/rtcp_tx.rs`: RTCP
  packets, receiver accounting, inbound compounds, and periodic reports.
- `src/dtls_session.rs`, `src/srtp.rs`: keying material, and SRTP contexts.
- `src/relay/`: relay groups, the outbound identity of forwarded streams, the
  way back of keyframe requests and NACKs, and what the send task of a leg does
  next.
- `src/recv_loop/`: what one datagram on a channel's media port does.
- `src/state.rs`: the state of a channel.
- `app/`: sockets, tasks, clocks and the DTLS handshake around the library.

What the library takes from other crates without proof (SRTP contexts,
HMAC-SHA1, SHA-256, CRC-32, the wall clock, strings) stands in `src/srtp.rs`,
`src/crypto.rs`, `src/rtcp.rs` and `src/text.rs`, each item with what is believed of it.
