# quiche4j_jni: WebTransport stream bookkeeping, verified

A WebTransport layer for a QUIC server built on quiche's HTTP/3 support.
quiche's HTTP/3 layer does not know the WebTransport stream types (0x41,
0x54), so this server reads the stream prefixes itself, routes WebTransport
streams to their sessions, drains their payload before HTTP/3 can see it, and
reports ends of streams once.

Layout:

- `src/varint.rs`: QUIC variable-length integers, with the round-trip law.
- `src/headers.rs`: header fields, the Extended CONNECT check, the request path.
- `src/event.rs`: events reported to the user, and the steps the driver takes.
- `src/model.rs`: the server's abstract state (maps over stream ids), the
  effect of each operation on it, and the consistency every operation keeps.
- `src/server.rs`: the server state and every decision it makes, each with a
  contract over that abstract state.
- `src/poll.rs`: one poll as steps: readable streams first, then HTTP/3
  events, then ends of streams; each step names the outside work to do next.
  Over a whole poll: the server stays consistent, every event stays in the
  result in phase order, and ends are reported exactly when due, once.
- `src/laws.rs`: properties that span operations: the server's consistency,
  ends reported at most once over any sequence of operations, prefixes read
  alike in one read or two, FIN marks kept, fresh stream ids.
- `app/lib.rs`: the driver over quiche's `Connection` and `h3::Connection`:
  it does the reads, HTTP/3 polls and writes that a poll asks for, and
  probes the connection for stream ids already taken before opening one.
- `tests/`: scenarios on concrete values.
