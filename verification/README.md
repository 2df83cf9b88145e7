# Multiprotocol server library

A verified library behind a server that answers the same greeting over REST, GraphQL,
SOAP, gRPC, FIX and WebSocket, and reports per-protocol telemetry.

- `src/fix.rs`: FIX message framing (BodyLength, CheckSum), heartbeat recognition,
  the `9000=`/`9001=` workload fields, and the acceptor's answer to a request line.
- `src/soap.rs`: the SOAP ping scan over XML events (read with `quick-xml`), the
  acknowledgement envelope, and the endpoint's reply.
- `src/workload.rs`: workload limits, the workload headers, and the duty cycle.
- `src/telemetry.rs`: per-protocol counters kept sorted by name, and snapshots that
  always list the six protocols.
- `src/websocket.rs`, `src/protocols.rs`: what each WebSocket message gets, and the
  greeting text.
- `src/text.rs`: decimal digits and parsing, byte helpers, UTF-8 decoding.
- `app/`: the servers themselves (axum, tonic, async-graphql, tokio, OpenTelemetry).
