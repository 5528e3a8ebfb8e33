# t1ds_signaling_rs

A signaling server for WebRTC peers (as Godot's `WebRTCMultiplayerPeer` expects them):
rooms are created and joined by password, the host always has peer id 1, and SDP offers,
answers and ICE candidates are relayed between the peers of a room.

- `src/` is the verified library. `room` holds rooms, clients and the table of rooms;
  `handler` decides what each request does to the rooms and which messages go out, to
  whom; `session` dispatches a client's messages and decides when a silent connection is
  dropped; `stats` counts rooms and peers; `laws` states properties that span requests;
  `table` declares the outside types and the calls into `dashmap` and `tokio` that the
  library relies on.
- `app/` is the server around it: the axum router (`/ws`, `/stats`), the WebSocket loop,
  JSON encoding of messages, and sending what the library decided.
- `tests/` exercises the library.

Environment: `LISTEN_ADDR` (default `0.0.0.0:3000`), `MAX_ROOMS` (default 10), `RUST_LOG`.

Messages from the server name the peer they concern by id and by user name:
`PeerConnect` and `PeerDisconnect` carry both `id` and `username`.
